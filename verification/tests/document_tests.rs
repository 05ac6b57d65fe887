use rson::json::{Root, Value};
use rson::parse;
use rson::parser::Error;
use rson::token::Token;

fn key(text: &str) -> Vec<u8> {
    text.as_bytes().to_vec()
}

#[test]
fn parse_full() {
    let input = r##"
        {
            "info": {
                "version":"0.1.0"
            },
            "はろー" : null,
            "dev": true,
            "escape_support" : false,
            "keywords": ["json","parser","rust"]
        }
        "##;

    let want = vec![
        (
            key("info"),
            Value::Object(vec![(key("version"), Value::String(key("0.1.0")))]),
        ),
        (key("はろー"), Value::Null),
        (key("dev"), Value::Boolean(true)),
        (key("escape_support"), Value::Boolean(false)),
        (
            key("keywords"),
            Value::Array(vec![
                Value::String(key("json")),
                Value::String(key("parser")),
                Value::String(key("rust")),
            ]),
        ),
    ];

    let got = parse(input.as_bytes());
    assert_eq!(got, Ok(Root::Object(want)));
}

#[test]
fn duplicate_key_keeps_last_value() {
    let got = parse(b"{\"a\":1,\"a\":2}");
    let want = Root::Object(vec![(key("a"), Value::Number(b"2".to_vec()))]);
    assert_eq!(got, Ok(want));
}

#[test]
fn three_levels_of_nesting() {
    let got = parse(b"{\"a\":{\"a\":{\"a\":1}}}");
    let leaf = Value::Number(b"1".to_vec());
    let level1 = Value::Object(vec![(key("a"), leaf)]);
    let level2 = Value::Object(vec![(key("a"), level1)]);
    let want = Root::Object(vec![(key("a"), level2)]);
    assert_eq!(got, Ok(want));
}

#[test]
fn numeric_literals_keep_their_spelling() {
    let got = parse(b"[-1.25, 0, 10]");
    let want = Root::Array(vec![
        Value::Number(b"-1.25".to_vec()),
        Value::Number(b"0".to_vec()),
        Value::Number(b"10".to_vec()),
    ]);
    assert_eq!(got, Ok(want));
}

#[test]
fn empty_containers() {
    assert_eq!(parse(b"{}"), Ok(Root::Object(vec![])));
    assert_eq!(parse(b"[]"), Ok(Root::Array(vec![])));
    assert_eq!(
        parse(b"[{},[]]"),
        Ok(Root::Array(vec![
            Value::Object(vec![]),
            Value::Array(vec![])
        ]))
    );
}

#[test]
fn missing_closing_bracket() {
    assert_eq!(parse(b"[true,false"), Err(Error::UnterminatedBracket));
}

#[test]
fn missing_closing_brace() {
    assert_eq!(parse(b"{\"a\":1"), Err(Error::UnterminatedBrace));
}

#[test]
fn trailing_input_is_rejected() {
    assert_eq!(parse(b"[true,false]x"), Err(Error::TrailingInput));
    assert_eq!(parse(b"{} {}"), Err(Error::TrailingInput));
    assert_eq!(parse(b"[] 1"), Err(Error::TrailingInput));
}

#[test]
fn trailing_whitespace_is_accepted() {
    assert_eq!(
        parse(b"  [true] \t\r\n "),
        Ok(Root::Array(vec![Value::Boolean(true)]))
    );
}

#[test]
fn leading_control_character_offset() {
    assert_eq!(parse(b"\x01[]"), Err(Error::IllegalToken(0)));
}

#[test]
fn stray_backslash_offset() {
    assert_eq!(parse(b"\\[]"), Err(Error::IllegalToken(0)));
}

#[test]
fn failure_is_reproducible() {
    let input: &[u8] = b"[true,false";
    let first = parse(input);
    let second = parse(input);
    assert_eq!(first, Err(Error::UnterminatedBracket));
    assert_eq!(first, second);

    let bad: &[u8] = b"\x02{}";
    assert_eq!(parse(bad), Err(Error::IllegalToken(0)));
    assert_eq!(parse(bad), parse(bad));
}

#[test]
fn comma_alone_is_no_value() {
    assert_eq!(parse(b"[,]"), Err(Error::FailedParseValue(Token::Comma)));
}

#[test]
fn malformed_number_offset() {
    assert_eq!(parse(b"[1.]"), Err(Error::IllegalToken(3)));
    assert_eq!(parse(b"[1.2.3]"), Err(Error::IllegalToken(6)));
}

#[test]
fn unterminated_string_offset() {
    assert_eq!(parse(b"[\"abc"), Err(Error::IllegalToken(4)));
}

#[test]
fn scalar_document_is_rejected() {
    assert_eq!(
        parse(b"true"),
        Err(Error::UnexpectedToken(Token::LeftBrace, Token::True))
    );
    assert_eq!(
        parse(b"\"x\""),
        Err(Error::UnexpectedToken(
            Token::LeftBrace,
            Token::String(b"x".to_vec())
        ))
    );
}

#[test]
fn empty_input_is_rejected() {
    assert_eq!(
        parse(b""),
        Err(Error::UnexpectedToken(Token::LeftBrace, Token::EndOfInput))
    );
    assert_eq!(
        parse(b" \t\r\n"),
        Err(Error::UnexpectedToken(Token::LeftBrace, Token::EndOfInput))
    );
}

#[test]
fn lone_opening_brace() {
    assert_eq!(
        parse(b"{"),
        Err(Error::UnexpectedToken(
            Token::String(b"any_key".to_vec()),
            Token::EndOfInput
        ))
    );
}

#[test]
fn lone_opening_bracket() {
    assert_eq!(
        parse(b"["),
        Err(Error::FailedParseValue(Token::EndOfInput))
    );
}

#[test]
fn interior_whitespace_is_skipped() {
    let got = parse(b" { \"a\" :\t[ 1 ,\ntrue ] } ");
    let want = Root::Object(vec![(
        key("a"),
        Value::Array(vec![Value::Number(b"1".to_vec()), Value::Boolean(true)]),
    )]);
    assert_eq!(got, Ok(want));
}
