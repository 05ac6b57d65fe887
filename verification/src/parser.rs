//! The recursive-descent parser: a token sequence in, a document tree or
//! the first error out.

use vstd::prelude::*;

use crate::json::{
    elems_model, entries_model, lemma_elems_model_index, upsert, upsert_entry, value_model,
    Object, Root, RootModel, Value, ValueModel,
};
use crate::lexer::{spec_tokens_from, Lexer};
use crate::token::{Token, TokenModel};

verus! {

/// A failure of parsing. Every failure carries enough context to present
/// a diagnostic without re-scanning the input: the byte offset of an
/// illegal lexeme, or the expected and offending tokens.
#[derive(Debug, PartialEq, Eq)]
pub enum Error {
    /// The parser met an illegal lexeme; the payload is its byte offset.
    IllegalToken(usize),
    /// A specific token was required; the payload is the expected token,
    /// then the token found.
    UnexpectedToken(Token, Token),
    /// The input ended inside an object, before its closing brace.
    UnterminatedBrace,
    /// The input ended inside an array, before its closing bracket.
    UnterminatedBracket,
    /// The payload token stood where a value was required.
    FailedParseValue(Token),
    /// Non-whitespace input remained after a complete document.
    TrailingInput,
}

/// The mathematical model of a parse failure.
pub enum ErrorModel {
    IllegalToken(int),
    UnexpectedToken(TokenModel, TokenModel),
    UnterminatedBrace,
    UnterminatedBracket,
    FailedParseValue(TokenModel),
    TrailingInput,
}

impl View for Error {
    type V = ErrorModel;

    open spec fn view(&self) -> ErrorModel {
        match self {
            Error::IllegalToken(at) => ErrorModel::IllegalToken(*at as int),
            Error::UnexpectedToken(want, got) => ErrorModel::UnexpectedToken(want@, got@),
            Error::UnterminatedBrace => ErrorModel::UnterminatedBrace,
            Error::UnterminatedBracket => ErrorModel::UnterminatedBracket,
            Error::FailedParseValue(t) => ErrorModel::FailedParseValue(t@),
            Error::TrailingInput => ErrorModel::TrailingInput,
        }
    }
}

/// The models of a sequence of tokens.
pub open spec fn views_of(tokens: Seq<Token>) -> Seq<TokenModel> {
    tokens.map_values(|t: Token| t@)
}

/// The token a cursor standing at `c` sees: the token at that position,
/// or the end-of-input marker once the cursor passes the end.
pub open spec fn tok_at(toks: Seq<TokenModel>, c: int) -> TokenModel {
    if 0 <= c < toks.len() {
        toks[c]
    } else {
        TokenModel::EndOfInput
    }
}

/// The key bytes named as the expected token when a key was required and
/// something else stood there.
pub open spec fn any_key_lit() -> Seq<u8> {
    seq![97u8, 110u8, 121u8, 95u8, 107u8, 101u8, 121u8]
}

/// A top-level value rewrapped as a nested one.
pub open spec fn root_to_value(root: RootModel) -> ValueModel {
    match root {
        RootModel::Object(entries) => ValueModel::Object(entries),
        RootModel::Array(elems) => ValueModel::Array(elems),
    }
}

// ---------------------------------------------------------------------------
// The parser, as a function of the token sequence
//
// A cursor `c` models the two-token lookahead: the parser's current token
// is `tok_at(toks, c)` and its next token is `tok_at(toks, c + 1)`.
// Each function returns the cursor at which it leaves the parser along
// with its result. The `step` clamps keep the cursor strictly advancing
// so that the mutual recursion visibly terminates; the proofs of the
// executable parser show the clamps never alter a cursor it produces.
// ---------------------------------------------------------------------------

/// The next cursor to continue a loop from: `c1` as a sub-parser returned
/// it, held to the range that the surrounding recursion decreases over.
pub open spec fn step(toks: Seq<TokenModel>, c: int, c1: int) -> int {
    if c < c1 && c1 <= toks.len() {
        c1
    } else if c + 1 <= toks.len() {
        c + 1
    } else {
        toks.len() as int
    }
}

/// Parse a document whose first token is the parser's current one: an
/// object or an array, anything else is rejected. An illegal lexeme is
/// reported with its offset; any other token is reported against the
/// expected opening brace.
pub open spec fn sp_parse(toks: Seq<TokenModel>, c: int) -> Result<(RootModel, int), ErrorModel>
    decreases toks.len() - c, 5int,
{
    match tok_at(toks, c) {
        TokenModel::LeftBrace => match sp_object(toks, c) {
            Ok((entries, c1)) => Ok((RootModel::Object(entries), c1)),
            Err(e) => Err(e),
        },
        TokenModel::LeftBracket => match sp_array(toks, c) {
            Ok((elems, c1)) => Ok((RootModel::Array(elems), c1)),
            Err(e) => Err(e),
        },
        TokenModel::Illegal(at) => Err(ErrorModel::IllegalToken(at)),
        t => Err(ErrorModel::UnexpectedToken(TokenModel::LeftBrace, t)),
    }
}

/// Parse an object body; the current token is its opening brace. The
/// returned cursor stands just before the closing brace: the caller's
/// next token is the `}`.
pub open spec fn sp_object(toks: Seq<TokenModel>, c: int) -> Result<
    (Seq<(Seq<u8>, ValueModel)>, int),
    ErrorModel,
>
    decreases toks.len() - c, 4int,
{
    if tok_at(toks, c + 1) is RightBrace {
        Ok((Seq::empty(), c))
    } else {
        sp_object_items(toks, c, Seq::empty())
    }
}

/// The object loop: parse one key/value pair, store it, then decide on
/// the next token: a closing brace ends the object, end of input is an
/// unterminated object, a comma is consumed, and any other token falls
/// through to the next pair.
pub open spec fn sp_object_items(
    toks: Seq<TokenModel>,
    c: int,
    acc: Seq<(Seq<u8>, ValueModel)>,
) -> Result<(Seq<(Seq<u8>, ValueModel)>, int), ErrorModel>
    decreases toks.len() - c, 3int,
{
    match sp_kvp(toks, c) {
        Err(e) => Err(e),
        Ok((key, val, c1)) => {
            let c2 = step(toks, c, c1);
            let acc2 = upsert_entry(acc, key, val);
            match tok_at(toks, c2 + 1) {
                TokenModel::RightBrace => Ok((acc2, c2)),
                TokenModel::EndOfInput => Err(ErrorModel::UnterminatedBrace),
                TokenModel::Comma => sp_object_items(toks, c2 + 1, acc2),
                _ => sp_object_items(toks, c2, acc2),
            }
        },
    }
}

/// Parse an array body; the current token is its opening bracket. The
/// returned cursor stands just before the closing bracket.
pub open spec fn sp_array(toks: Seq<TokenModel>, c: int) -> Result<
    (Seq<ValueModel>, int),
    ErrorModel,
>
    decreases toks.len() - c, 4int,
{
    if tok_at(toks, c + 1) is RightBracket {
        Ok((Seq::empty(), c))
    } else {
        sp_array_items(toks, c, Seq::empty())
    }
}

/// The array loop, symmetric to the object loop with ordered
/// accumulation instead of keyed insertion.
pub open spec fn sp_array_items(toks: Seq<TokenModel>, c: int, acc: Seq<ValueModel>) -> Result<
    (Seq<ValueModel>, int),
    ErrorModel,
>
    decreases toks.len() - c, 3int,
{
    match sp_value(toks, c) {
        Err(e) => Err(e),
        Ok((val, c1)) => {
            let c2 = step(toks, c, c1);
            let acc2 = acc.push(val);
            match tok_at(toks, c2 + 1) {
                TokenModel::RightBracket => Ok((acc2, c2)),
                TokenModel::EndOfInput => Err(ErrorModel::UnterminatedBracket),
                TokenModel::Comma => sp_array_items(toks, c2 + 1, acc2),
                _ => sp_array_items(toks, c2, acc2),
            }
        },
    }
}

/// Parse one key/value pair: the next token must be a string key, the
/// one after it a colon, and then a value follows.
pub open spec fn sp_kvp(toks: Seq<TokenModel>, c: int) -> Result<
    (Seq<u8>, ValueModel, int),
    ErrorModel,
>
    decreases toks.len() - c, 2int,
{
    match tok_at(toks, c + 1) {
        TokenModel::String(key) => match tok_at(toks, c + 2) {
            TokenModel::Colon => match sp_value(toks, c + 2) {
                Ok((val, c1)) => Ok((key, val, c1)),
                Err(e) => Err(e),
            },
            TokenModel::Illegal(at) => Err(ErrorModel::IllegalToken(at)),
            t => Err(ErrorModel::UnexpectedToken(TokenModel::Colon, t)),
        },
        TokenModel::Illegal(at) => Err(ErrorModel::IllegalToken(at)),
        t => Err(
            ErrorModel::UnexpectedToken(TokenModel::String(any_key_lit()), t),
        ),
    }
}

/// Parse one value out of the parser's next token: a scalar token maps
/// directly to its value, an opening brace or bracket starts a nested
/// document, an illegal lexeme is reported with its offset, and any
/// other token cannot begin a value. The returned cursor stands on the
/// last token of the value.
pub open spec fn sp_value(toks: Seq<TokenModel>, c: int) -> Result<(ValueModel, int), ErrorModel>
    decreases toks.len() - c, 1int,
{
    match tok_at(toks, c + 1) {
        TokenModel::Number(lit) => Ok((ValueModel::Number(lit), c + 1)),
        TokenModel::String(text) => Ok((ValueModel::String(text), c + 1)),
        TokenModel::True => Ok((ValueModel::Boolean(true), c + 1)),
        TokenModel::False => Ok((ValueModel::Boolean(false), c + 1)),
        TokenModel::Null => Ok((ValueModel::Null, c + 1)),
        TokenModel::LeftBrace => match sp_parse(toks, c + 1) {
            Ok((root, c1)) => Ok((root_to_value(root), c1 + 1)),
            Err(e) => Err(e),
        },
        TokenModel::LeftBracket => match sp_parse(toks, c + 1) {
            Ok((root, c1)) => Ok((root_to_value(root), c1 + 1)),
            Err(e) => Err(e),
        },
        TokenModel::Illegal(at) => Err(ErrorModel::IllegalToken(at)),
        t => Err(ErrorModel::FailedParseValue(t)),
    }
}

// ---------------------------------------------------------------------------
// The executable parser
// ---------------------------------------------------------------------------

/// A pull-based cursor over a token sequence with two tokens of
/// lookahead: the current token is the one at `pos`, the next the one at
/// `pos + 1`, and both read as the end-of-input marker once they pass the
/// end of the sequence.
pub struct Parser {
    tokens: Vec<Token>,
    pos: usize,
}

impl Parser {
    /// The models of the tokens this parser consumes.
    pub closed spec fn toks(self) -> Seq<TokenModel> {
        views_of(self.tokens@)
    }

    /// The position of the current token.
    pub closed spec fn cursor(self) -> int {
        self.pos as int
    }

    /// The cursor stands on a token or just past the end.
    pub closed spec fn wf(self) -> bool {
        self.pos <= self.tokens@.len()
    }

    /// A parser over a token sequence, standing on its first token.
    pub fn new(tokens: Vec<Token>) -> (parser: Parser)
        ensures
            parser.toks() == views_of(tokens@),
            parser.cursor() == 0,
            parser.wf(),
    {
        Parser { tokens, pos: 0 }
    }

    /// The token `k` places after `pos`, while one stands there.
    fn peek(tokens: &Vec<Token>, pos: usize, k: usize) -> (t: Option<&Token>)
        ensures
            tokens@.len() <= usize::MAX,
            match t {
                Some(tok) => pos + k < tokens@.len() && tok@ == tok_at(
                    views_of(tokens@),
                    pos + k,
                ),
                None => pos + k >= tokens@.len(),
            },
    {
        if k < tokens.len() && pos < tokens.len() - k {
            Some(&tokens[pos + k])
        } else {
            None
        }
    }

    /// The token named as expected where a key was required.
    fn any_key_token() -> (t: Token)
        ensures
            t@ == TokenModel::String(any_key_lit()),
    {
        let bytes: Vec<u8> = vec![97u8, 110u8, 121u8, 95u8, 107u8, 101u8, 121u8];
        proof {
            assert(bytes@ =~= any_key_lit());
        }
        Token::String(bytes)
    }

    /// Parse a document standing at `pos`: an object or an array.
    fn parse_root(&self, pos: usize) -> (r: Result<(Root, usize), Error>)
        requires
            pos <= self.toks().len(),
        ensures
            match r {
                Ok((root, c1)) => sp_parse(self.toks(), pos as int) == Ok::<
                    (RootModel, int),
                    ErrorModel,
                >((root@, c1 as int)) && pos <= c1 && c1 + 2 <= self.toks().len(),
                Err(e) => sp_parse(self.toks(), pos as int) == Err::<
                    (RootModel, int),
                    ErrorModel,
                >(e@),
            },
        decreases self.toks().len() - pos, 5int,
    {
        match Self::peek(&self.tokens, pos, 0) {
            Some(Token::LeftBrace) => match self.parse_object(pos) {
                Ok((entries, c1)) => Ok((Root::Object(entries), c1)),
                Err(e) => Err(e),
            },
            Some(Token::LeftBracket) => match self.parse_array(pos) {
                Ok((elems, c1)) => Ok((Root::Array(elems), c1)),
                Err(e) => Err(e),
            },
            Some(Token::Illegal(at)) => Err(Error::IllegalToken(*at)),
            None => Err(Error::UnexpectedToken(Token::LeftBrace, Token::EndOfInput)),
            Some(t) => Err(Error::UnexpectedToken(Token::LeftBrace, t.duplicate())),
        }
    }

    /// Parse an object body whose opening brace is the current token.
    fn parse_object(&self, pos: usize) -> (r: Result<(Object, usize), Error>)
        requires
            pos <= self.toks().len(),
        ensures
            match r {
                Ok((entries, c1)) => sp_object(self.toks(), pos as int) == Ok::<
                    (Seq<(Seq<u8>, ValueModel)>, int),
                    ErrorModel,
                >((entries_model(entries@), c1 as int)) && pos <= c1 && c1 + 2
                    <= self.toks().len(),
                Err(e) => sp_object(self.toks(), pos as int) == Err::<
                    (Seq<(Seq<u8>, ValueModel)>, int),
                    ErrorModel,
                >(e@),
            },
        decreases self.toks().len() - pos, 4int,
    {
        match Self::peek(&self.tokens, pos, 1) {
            Some(Token::RightBrace) => {
                let entries: Object = Vec::new();
                return Ok((entries, pos));
            },
            _ => {},
        }
        let mut acc: Object = Vec::new();
        let mut cur = pos;
        loop
            invariant
                pos <= cur <= self.toks().len(),
                sp_object(self.toks(), pos as int) == sp_object_items(
                    self.toks(),
                    cur as int,
                    entries_model(acc@),
                ),
            decreases self.toks().len() - cur,
        {
            match self.parse_key_value_pair(cur) {
                Err(e) => {
                    return Err(e);
                },
                Ok((key, val, c1)) => {
                    proof {
                        assert(step(self.toks(), cur as int, c1 as int) == c1 as int);
                    }
                    upsert(&mut acc, key, val);
                    match Self::peek(&self.tokens, c1, 1) {
                        Some(Token::RightBrace) => {
                            return Ok((acc, c1));
                        },
                        None | Some(Token::EndOfInput) => {
                            return Err(Error::UnterminatedBrace);
                        },
                        Some(Token::Comma) => {
                            cur = c1 + 1;
                        },
                        Some(_) => {
                            cur = c1;
                        },
                    }
                },
            }
        }
    }

    /// Parse an array body whose opening bracket is the current token.
    fn parse_array(&self, pos: usize) -> (r: Result<(Vec<Value>, usize), Error>)
        requires
            pos <= self.toks().len(),
        ensures
            match r {
                Ok((elems, c1)) => sp_array(self.toks(), pos as int) == Ok::<
                    (Seq<ValueModel>, int),
                    ErrorModel,
                >((elems_model(elems@), c1 as int)) && pos <= c1 && c1 + 2 <= self.toks().len(),
                Err(e) => sp_array(self.toks(), pos as int) == Err::<
                    (Seq<ValueModel>, int),
                    ErrorModel,
                >(e@),
            },
        decreases self.toks().len() - pos, 4int,
    {
        match Self::peek(&self.tokens, pos, 1) {
            Some(Token::RightBracket) => {
                let elems: Vec<Value> = Vec::new();
                return Ok((elems, pos));
            },
            _ => {},
        }
        let mut acc: Vec<Value> = Vec::new();
        let mut cur = pos;
        loop
            invariant
                pos <= cur <= self.toks().len(),
                sp_array(self.toks(), pos as int) == sp_array_items(
                    self.toks(),
                    cur as int,
                    elems_model(acc@),
                ),
            decreases self.toks().len() - cur,
        {
            match self.parse_value(cur) {
                Err(e) => {
                    return Err(e);
                },
                Ok((val, c1)) => {
                    proof {
                        assert(step(self.toks(), cur as int, c1 as int) == c1 as int);
                    }
                    let ghost acc_before = acc@;
                    acc.push(val);
                    proof {
                        lemma_elems_model_index(acc_before);
                        lemma_elems_model_index(acc@);
                        assert(elems_model(acc@) =~= elems_model(acc_before).push(
                            value_model(acc@[acc_before.len() as int]),
                        ));
                    }
                    match Self::peek(&self.tokens, c1, 1) {
                        Some(Token::RightBracket) => {
                            return Ok((acc, c1));
                        },
                        None | Some(Token::EndOfInput) => {
                            return Err(Error::UnterminatedBracket);
                        },
                        Some(Token::Comma) => {
                            cur = c1 + 1;
                        },
                        Some(_) => {
                            cur = c1;
                        },
                    }
                },
            }
        }
    }

    /// Parse one key/value pair: a string key, a colon, then a value.
    fn parse_key_value_pair(&self, pos: usize) -> (r: Result<(Vec<u8>, Value, usize), Error>)
        requires
            pos <= self.toks().len(),
        ensures
            match r {
                Ok((key, val, c1)) => sp_kvp(self.toks(), pos as int) == Ok::<
                    (Seq<u8>, ValueModel, int),
                    ErrorModel,
                >((key@, val@, c1 as int)) && pos + 3 <= c1 && c1 < self.toks().len(),
                Err(e) => sp_kvp(self.toks(), pos as int) == Err::<
                    (Seq<u8>, ValueModel, int),
                    ErrorModel,
                >(e@),
            },
        decreases self.toks().len() - pos, 2int,
    {
        let key: Vec<u8> = match Self::peek(&self.tokens, pos, 1) {
            Some(Token::String(text)) => vstd::slice::slice_to_vec(text.as_slice()),
            Some(Token::Illegal(at)) => {
                return Err(Error::IllegalToken(*at));
            },
            None => {
                return Err(Error::UnexpectedToken(Self::any_key_token(), Token::EndOfInput));
            },
            Some(t) => {
                return Err(Error::UnexpectedToken(Self::any_key_token(), t.duplicate()));
            },
        };
        match Self::peek(&self.tokens, pos, 2) {
            Some(Token::Colon) => {},
            Some(Token::Illegal(at)) => {
                return Err(Error::IllegalToken(*at));
            },
            None => {
                return Err(Error::UnexpectedToken(Token::Colon, Token::EndOfInput));
            },
            Some(t) => {
                return Err(Error::UnexpectedToken(Token::Colon, t.duplicate()));
            },
        }
        match self.parse_value(pos + 2) {
            Ok((val, c1)) => Ok((key, val, c1)),
            Err(e) => Err(e),
        }
    }

    /// Parse one value out of the next token.
    fn parse_value(&self, pos: usize) -> (r: Result<(Value, usize), Error>)
        requires
            pos <= self.toks().len(),
        ensures
            match r {
                Ok((val, c1)) => sp_value(self.toks(), pos as int) == Ok::<
                    (ValueModel, int),
                    ErrorModel,
                >((val@, c1 as int)) && pos < c1 && c1 < self.toks().len(),
                Err(e) => sp_value(self.toks(), pos as int) == Err::<
                    (ValueModel, int),
                    ErrorModel,
                >(e@),
            },
        decreases self.toks().len() - pos, 1int,
    {
        match Self::peek(&self.tokens, pos, 1) {
            Some(Token::Number(lit)) => Ok(
                (Value::Number(vstd::slice::slice_to_vec(lit.as_slice())), pos + 1),
            ),
            Some(Token::String(text)) => Ok(
                (Value::String(vstd::slice::slice_to_vec(text.as_slice())), pos + 1),
            ),
            Some(Token::True) => Ok((Value::Boolean(true), pos + 1)),
            Some(Token::False) => Ok((Value::Boolean(false), pos + 1)),
            Some(Token::Null) => Ok((Value::Null, pos + 1)),
            Some(Token::LeftBrace) | Some(Token::LeftBracket) => match self.parse_root(pos + 1) {
                Ok((root, c1)) => {
                    let val = match root {
                        Root::Object(entries) => Value::Object(entries),
                        Root::Array(elems) => Value::Array(elems),
                    };
                    Ok((val, c1 + 1))
                },
                Err(e) => Err(e),
            },
            Some(Token::Illegal(at)) => Err(Error::IllegalToken(*at)),
            None => Err(Error::FailedParseValue(Token::EndOfInput)),
            Some(t) => Err(Error::FailedParseValue(t.duplicate())),
        }
    }

    /// Shift the lookahead window one token forward; at the end of the
    /// sequence it stays put, reading the end-of-input marker.
    fn advance_token(&mut self)
        requires
            old(self).wf(),
        ensures
            final(self).wf(),
            final(self).toks() == old(self).toks(),
            final(self).cursor() == if old(self).cursor() < old(self).toks().len() {
                old(self).cursor() + 1
            } else {
                old(self).cursor()
            },
    {
        if self.pos < self.tokens.len() {
            self.pos = self.pos + 1;
        }
    }

    /// Parse one document standing at the current token and leave the
    /// cursor just before the document's closing token.
    pub fn parse(&mut self) -> (r: Result<Root, Error>)
        requires
            old(self).wf(),
        ensures
            final(self).wf(),
            final(self).toks() == old(self).toks(),
            match r {
                Ok(root) => sp_parse(old(self).toks(), old(self).cursor()) == Ok::<
                    (RootModel, int),
                    ErrorModel,
                >((root@, final(self).cursor())) && final(self).cursor() + 2
                    <= final(self).toks().len(),
                Err(e) => sp_parse(old(self).toks(), old(self).cursor()) == Err::<
                    (RootModel, int),
                    ErrorModel,
                >(e@) && final(self).cursor() == old(self).cursor(),
            },
    {
        match self.parse_root(self.pos) {
            Ok((root, c1)) => {
                self.pos = c1;
                Ok(root)
            },
            Err(e) => Err(e),
        }
    }
}

// ---------------------------------------------------------------------------
// Parsing a whole document
// ---------------------------------------------------------------------------

/// What parsing a document text yields: scan it into tokens, parse one
/// top-level object or array, and reject any remaining token after the
/// document's closing brace or bracket as trailing input.
pub open spec fn spec_parse_document(s: Seq<u8>) -> Result<RootModel, ErrorModel> {
    let toks = spec_tokens_from(s, 0);
    match sp_parse(toks, 0) {
        Err(e) => Err(e),
        Ok((root, c1)) => if toks.len() <= c1 + 2 {
            Ok(root)
        } else {
            Err(ErrorModel::TrailingInput)
        },
    }
}

/// Parse a document: scan the text, parse the top-level object or array,
/// and require that only whitespace follows it.
pub fn parse(input: &[u8]) -> (r: Result<Root, Error>)
    ensures
        match r {
            Ok(root) => spec_parse_document(input@) == Ok::<RootModel, ErrorModel>(root@),
            Err(e) => spec_parse_document(input@) == Err::<RootModel, ErrorModel>(e@),
        },
{
    let mut lexer = Lexer::new(input);
    let tokens = lexer.tokenize();
    let mut parser = Parser::new(tokens);
    match parser.parse() {
        Err(e) => Err(e),
        Ok(root) => {
            parser.advance_token();
            if parser.pos >= parser.tokens.len() - 1 {
                Ok(root)
            } else {
                Err(Error::TrailingInput)
            }
        },
    }
}

} // verus!
