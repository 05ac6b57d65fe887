use rson::json::Value;

#[test]
fn json_null() {
    assert_eq!(Value::Null, Value::Null);
}

#[test]
fn json_array() {
    assert_eq!(
        Value::Array(vec![Value::Null]),
        Value::Array(vec![Value::Null])
    );
}

#[test]
fn json_object() {
    assert_eq!(
        Value::Object(vec![(b"null".to_vec(), Value::Null)]),
        Value::Object(vec![(b"null".to_vec(), Value::Null)])
    );
}

#[test]
fn json_bool() {
    assert_eq!(Value::from(true), Value::Boolean(true));
}

#[test]
fn json_string() {
    assert_eq!(
        Value::from(b"json".to_vec()),
        Value::String(b"json".to_vec())
    );

    let x = b"x".to_vec();
    assert_eq!(Value::from(x), Value::String(b"x".to_vec()));
}
