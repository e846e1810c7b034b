use resp::Node::{ARRAY, BULK_STRING, INTEGER, SIMPLE_STRING, SIZE};
use resp::{Error, Value};

#[test]
fn value_implement_try_from_resp_nil() {
    assert_eq!("$-1\r\n".try_into(), Ok(Value::Nil));
}

#[test]
fn value_implement_try_from() {
    let _value: Result<Value, Error> = "".try_into();
}

#[test]
fn value_implement_try_from_resp_array() {
    assert_eq!("*0\r\n".try_into(), Ok(Value::Array(vec![])));
    assert_eq!(
        "*5\r\n$-1\r\n:447\r\n-Oh oh!\r\n+Hourly\r\n$26\r\nSi vis pacem,\r\npara bellum\r\n"
            .try_into(),
        Ok(Value::Array(vec![
            Value::Nil,
            Value::Integer(447),
            Value::Error("Oh oh!".into()),
            Value::String("Hourly".into()),
            Value::String("Si vis pacem,\r\npara bellum".into()),
        ]))
    );
}

#[test]
fn value_implement_try_from_resp_nested_array() {
    let got = "*2\r\n*3\r\n+A\r\n+B\r\n+C\r\n*3\r\n:1\r\n:2\r\n:3\r\n".try_into()
        as Result<Value, Error>;
    let expected = Ok(Value::Array(vec![
        Value::Array(vec![
            Value::String("A".into()),
            Value::String("B".into()),
            Value::String("C".into()),
        ]),
        Value::Array(vec![
            Value::Integer(1),
            Value::Integer(2),
            Value::Integer(3),
        ]),
    ])) as Result<Value, Error>;

    assert_eq!(got, expected);
}

#[test]
fn value_implement_try_from_resp_array_with_mismatching_size() {
    assert_eq!(
        "*2\r\n$-1\r\n".try_into() as Result<Value, Error>,
        Err(Error::of_size(ARRAY, 9))
    );
}

#[test]
fn value_implement_try_from_resp_error() {
    assert_eq!("-My bad\r\n".try_into(), Ok(Value::Error("My bad".into())));
}

#[test]
fn value_implement_try_from_resp_integer() {
    assert_eq!(":10\r\n".try_into(), Ok(Value::Integer(10i64)));
}

#[test]
fn value_implement_try_from_resp_integer_with_invalid_integer() {
    assert_eq!(
        ":Yikes\r\n".try_into() as Result<Value, Error>,
        Err(Error::of_type(INTEGER, 1))
    );
    assert_eq!(
        ":0".try_into() as Result<Value, Error>,
        Err(Error::of_unexpected(INTEGER, 2))
    );
}

#[test]
fn value_implement_try_from_resp_bulk_string() {
    assert_eq!(
        "$4\r\nOops\r\n".try_into(),
        Ok(Value::String("Oops".into()))
    );
    assert_eq!(
        "$7\r\nOh\r\nOh!\r\n".try_into(),
        Ok(Value::String("Oh\r\nOh!".into()))
    );
}

#[test]
fn value_implement_try_from_resp_bulk_string_with_mismatching_len() {
    assert_eq!(
        "$5\r\nOops\r\n".try_into() as Result<Value, Error>,
        Err(Error::of_size(BULK_STRING, 9))
    );
    assert_eq!(
        "$3\r\nOops\r\n".try_into() as Result<Value, Error>,
        Err(Error::of_size(BULK_STRING, 7))
    );
}

#[test]
fn value_implement_try_from_resp_simple_string() {
    assert_eq!(
        "+Anatomy\r\n".try_into(),
        Ok(Value::String("Anatomy".into()))
    );
}

#[test]
fn value_implement_try_from_resp_simple_string_with_line_feed_or_carriage_return_in_value() {
    assert_eq!(
        "+Top\nBottom\r\n".try_into() as Result<Value, Error>,
        Err(Error::of_unexpected(SIMPLE_STRING, 4))
    );
    assert_eq!(
        "+Top\rBottom\r\n".try_into() as Result<Value, Error>,
        Err(Error::of_unexpected(SIMPLE_STRING, 4))
    );
}

#[test]
fn value_implement_try_from_resp_with_invalid_size_type() {
    assert_eq!(
        "*!\r\n$-1\r\n".try_into() as Result<Value, Error>,
        Err(Error::of_type(SIZE, 1))
    );
    assert_eq!(
        "$!\r\n$-1\r\n".try_into() as Result<Value, Error>,
        Err(Error::of_type(SIZE, 1))
    );
}
