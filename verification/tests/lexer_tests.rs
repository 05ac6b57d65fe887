use rson::lexer::Lexer;
use rson::token::Token;

/// All tokens of `input`, up to the end of it.
fn collect_tokens(input: &str) -> Vec<Token> {
    let mut lexer = Lexer::new(input.as_bytes());
    let mut got: Vec<Token> = Vec::new();
    loop {
        match lexer.next_token() {
            Token::EndOfInput => break,
            t => got.push(t),
        }
    }
    got
}

#[test]
fn next_token() {
    let input = r##"
{
    "number" : -1.1,
    "string" : "x",
    "array" : [ 1.0, 2.0, 3.1],
    "true" : true,
    "false" : false,
    "null" : null,
    "escape_sequence" : "\\\/\b\f\n\r\t"
}
"##;
    let want = vec![
        Token::LeftBrace,
        Token::String(b"number".to_vec()),
        Token::Colon,
        Token::Number(b"-1.1".to_vec()),
        Token::Comma,
        Token::String(b"string".to_vec()),
        Token::Colon,
        Token::String(b"x".to_vec()),
        Token::Comma,
        Token::String(b"array".to_vec()),
        Token::Colon,
        Token::LeftBracket,
        Token::Number(b"1.0".to_vec()),
        Token::Comma,
        Token::Number(b"2.0".to_vec()),
        Token::Comma,
        Token::Number(b"3.1".to_vec()),
        Token::RightBracket,
        Token::Comma,
        Token::String(b"true".to_vec()),
        Token::Colon,
        Token::True,
        Token::Comma,
        Token::String(b"false".to_vec()),
        Token::Colon,
        Token::False,
        Token::Comma,
        Token::String(b"null".to_vec()),
        Token::Colon,
        Token::Null,
        Token::Comma,
        Token::String(b"escape_sequence".to_vec()),
        Token::Colon,
        Token::String(b"\\\\\\/\\b\\f\\n\\r\\t".to_vec()),
        Token::RightBrace,
    ];

    let got = collect_tokens(input);
    assert_eq!(want, got);
}

#[test]
fn next_token_keywords() {
    let input = "true false null";
    let want = vec![Token::True, Token::False, Token::Null];

    let got = collect_tokens(input);
    assert_eq!(want, got);
}

#[test]
fn next_token_with_illegal() {
    let input = "\\123 x 123";
    let want = vec![
        Token::Illegal(0),
        Token::Number(b"123".to_vec()),
        Token::Illegal(6),
        Token::Number(b"123".to_vec()),
    ];

    let got = collect_tokens(input);
    assert_eq!(want, got);
}

#[test]
fn next_token_with_escape_sequence() {
    let input = "\" \\\" \\\\ \\\" \\/ \\b \\f \\n \\r \\t \"";
    let want = vec![Token::String(b" \\\" \\\\ \\\" \\/ \\b \\f \\n \\r \\t ".to_vec())];

    let got = collect_tokens(input);
    assert_eq!(want, got);
}

#[test]
fn next_token_string_not_terminated() {
    let input = "1\"xxx";
    let want = vec![Token::Number(b"1".to_vec()), Token::Illegal(4)];

    let got = collect_tokens(input);
    assert_eq!(want, got);
}

#[test]
fn next_token_number_with_two_dots() {
    let input = "1.2.3 7";
    let want = vec![Token::Illegal(5), Token::Number(b"7".to_vec())];

    let got = collect_tokens(input);
    assert_eq!(want, got);
}

#[test]
fn next_token_trailing_dot_is_illegal() {
    let input = "1.";
    let want = vec![Token::Illegal(1)];

    let got = collect_tokens(input);
    assert_eq!(want, got);
}

#[test]
fn next_token_bad_escape() {
    let input = "\"a\\q\"";
    let got = collect_tokens(input);
    assert_eq!(got[0], Token::Illegal(3));
}

#[test]
fn next_token_nul_byte_is_data_inside_strings() {
    let mut raw: Vec<u8> = Vec::new();
    raw.push(b'"');
    raw.push(0u8);
    raw.push(b'"');
    let mut lexer = Lexer::new(&raw);
    assert_eq!(lexer.next_token(), Token::String(vec![0u8]));
    assert_eq!(lexer.next_token(), Token::EndOfInput);
}
