//! The closed set of lexical symbols the scanner can emit.

use vstd::prelude::*;

verus! {

/// A single lexical unit produced by scanning raw text.
///
/// `Illegal` carries the byte offset of the offending input byte. `Number`
/// and `String` carry self-contained copies of the scanned bytes, not
/// references into the source text: a number token holds the literal
/// exactly as spelled, a string token holds the raw bytes between the
/// quotes with escape sequences left unresolved.
#[derive(Debug, Clone, PartialEq, Eq)]
pub enum Token {
    Illegal(usize),
    EndOfInput,
    True,
    False,
    Null,
    Number(Vec<u8>),
    String(Vec<u8>),
    Colon,
    Comma,
    LeftBrace,
    RightBrace,
    LeftBracket,
    RightBracket,
}

/// The mathematical model of a token: offsets as unbounded integers and
/// payloads as byte sequences.
pub enum TokenModel {
    Illegal(int),
    EndOfInput,
    True,
    False,
    Null,
    Number(Seq<u8>),
    String(Seq<u8>),
    Colon,
    Comma,
    LeftBrace,
    RightBrace,
    LeftBracket,
    RightBracket,
}

impl View for Token {
    type V = TokenModel;

    open spec fn view(&self) -> TokenModel {
        match self {
            Token::Illegal(at) => TokenModel::Illegal(*at as int),
            Token::EndOfInput => TokenModel::EndOfInput,
            Token::True => TokenModel::True,
            Token::False => TokenModel::False,
            Token::Null => TokenModel::Null,
            Token::Number(lit) => TokenModel::Number(lit@),
            Token::String(text) => TokenModel::String(text@),
            Token::Colon => TokenModel::Colon,
            Token::Comma => TokenModel::Comma,
            Token::LeftBrace => TokenModel::LeftBrace,
            Token::RightBrace => TokenModel::RightBrace,
            Token::LeftBracket => TokenModel::LeftBracket,
            Token::RightBracket => TokenModel::RightBracket,
        }
    }
}

impl Token {
    /// A copy of this token holding the same offset or the same bytes.
    pub fn duplicate(&self) -> (copy: Token)
        ensures
            copy@ == self@,
    {
        match self {
            Token::Illegal(at) => Token::Illegal(*at),
            Token::EndOfInput => Token::EndOfInput,
            Token::True => Token::True,
            Token::False => Token::False,
            Token::Null => Token::Null,
            Token::Number(lit) => Token::Number(vstd::slice::slice_to_vec(lit.as_slice())),
            Token::String(text) => Token::String(vstd::slice::slice_to_vec(text.as_slice())),
            Token::Colon => Token::Colon,
            Token::Comma => Token::Comma,
            Token::LeftBrace => Token::LeftBrace,
            Token::RightBrace => Token::RightBrace,
            Token::LeftBracket => Token::LeftBracket,
            Token::RightBracket => Token::RightBracket,
        }
    }
}

} // verus!
