use rson::json::{Root, Value};
use rson::parser::{Error, Parser};
use rson::token::Token;

fn key(text: &str) -> Vec<u8> {
    text.as_bytes().to_vec()
}

fn assert_root(want: Root, got: Result<Root, Error>) {
    match got {
        Ok(x) => assert_eq!(want, x),
        Err(e) => {
            println!("{:?}", e);
            assert!(false, "want a root, got the error {:?}", e)
        }
    }
}

#[test]
fn parse_object_composite() {
    let tokens = vec![
        Token::LeftBrace,
        Token::String(key("x")),
        Token::Colon,
        Token::LeftBrace,
        Token::String(key("y")),
        Token::Colon,
        Token::Number(b"1.0".to_vec()),
        Token::RightBrace,
        Token::RightBrace,
    ];

    let want = vec![(
        key("x"),
        Value::Object(vec![(key("y"), Value::Number(b"1.0".to_vec()))]),
    )];
    let got = Parser::new(tokens).parse();

    assert_root(Root::Object(want), got)
}

#[test]
fn parse_object_string() {
    let tokens = vec![
        Token::LeftBrace,
        Token::String(key("x")),
        Token::Colon,
        Token::String(key("y")),
        Token::RightBrace,
    ];

    let want = vec![(key("x"), Value::String(key("y")))];
    let got = Parser::new(tokens).parse();

    assert_root(Root::Object(want), got)
}

#[test]
fn parse_object_boolean() {
    let tokens = vec![
        Token::LeftBrace,
        Token::String(key("x")),
        Token::Colon,
        Token::True,
        Token::Comma,
        Token::String(key("y")),
        Token::Colon,
        Token::False,
        Token::RightBrace,
    ];

    let want = vec![
        (key("x"), Value::Boolean(true)),
        (key("y"), Value::Boolean(false)),
    ];
    let got = Parser::new(tokens).parse();

    assert_root(Root::Object(want), got)
}

#[test]
fn parse_object_null() {
    let tokens = vec![
        Token::LeftBrace,
        Token::String(key("null")),
        Token::Colon,
        Token::Null,
        Token::RightBrace,
    ];

    let want = vec![(key("null"), Value::Null)];
    let got = Parser::new(tokens).parse();

    assert_root(Root::Object(want), got)
}

#[test]
fn parse_object_multiple() {
    let tokens = vec![
        Token::LeftBrace,
        Token::String(key("x")),
        Token::Colon,
        Token::String(key("y")),
        Token::Comma,
        Token::String(key("z")),
        Token::Colon,
        Token::String(key("w")),
        Token::RightBrace,
    ];

    let want = vec![
        (key("x"), Value::String(key("y"))),
        (key("z"), Value::String(key("w"))),
    ];
    let got = Parser::new(tokens).parse();

    assert_root(Root::Object(want), got)
}

#[test]
fn parse_object_array() {
    let tokens = vec![
        Token::LeftBrace,
        Token::String(key("x")),
        Token::Colon,
        Token::LeftBracket,
        Token::String(key("y")),
        Token::Comma,
        Token::True,
        Token::Comma,
        Token::Null,
        Token::RightBracket,
        Token::RightBrace,
    ];

    let want = vec![(
        key("x"),
        Value::Array(vec![
            Value::String(key("y")),
            Value::Boolean(true),
            Value::Null,
        ]),
    )];
    let got = Parser::new(tokens).parse();

    assert_root(Root::Object(want), got)
}

#[test]
fn parse_root_array() {
    let tokens = vec![
        Token::LeftBracket,
        Token::String(key("x")),
        Token::Comma,
        Token::True,
        Token::RightBracket,
    ];

    let want = vec![Value::String(key("x")), Value::Boolean(true)];
    let got = Parser::new(tokens).parse();

    assert_root(Root::Array(want), got)
}

#[test]
fn parse_empty_object() {
    let tokens = vec![Token::LeftBrace, Token::RightBrace];

    let want = vec![];
    let got = Parser::new(tokens).parse();

    assert_root(Root::Object(want), got)
}

#[test]
fn parse_empty_array() {
    let tokens = vec![Token::LeftBracket, Token::RightBracket];

    let want = vec![];
    let got = Parser::new(tokens).parse();

    assert_root(Root::Array(want), got)
}

#[test]
fn parse_empty_values() {
    let tokens = vec![
        Token::LeftBracket,
        Token::LeftBrace,
        Token::RightBrace,
        Token::Comma,
        Token::LeftBracket,
        Token::RightBracket,
        Token::RightBracket,
    ];

    let want = vec![Value::Object(vec![]), Value::Array(vec![])];
    let got = Parser::new(tokens).parse();

    assert_root(Root::Array(want), got)
}

#[test]
fn parse_missing_colon() {
    let tokens = vec![
        Token::LeftBrace,
        Token::String(key("x")),
        Token::Number(b"1".to_vec()),
        Token::RightBrace,
    ];

    let got = Parser::new(tokens).parse();
    assert_eq!(
        got,
        Err(Error::UnexpectedToken(
            Token::Colon,
            Token::Number(b"1".to_vec())
        ))
    );
}

#[test]
fn parse_non_string_key() {
    let tokens = vec![Token::LeftBrace, Token::True, Token::RightBrace];

    let got = Parser::new(tokens).parse();
    assert_eq!(
        got,
        Err(Error::UnexpectedToken(
            Token::String(b"any_key".to_vec()),
            Token::True
        ))
    );
}

#[test]
fn parse_scalar_at_top_level() {
    let tokens = vec![Token::True];

    let got = Parser::new(tokens).parse();
    assert_eq!(
        got,
        Err(Error::UnexpectedToken(Token::LeftBrace, Token::True))
    );
}
