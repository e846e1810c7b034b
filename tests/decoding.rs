use resp::Node::{ARRAY, BULK_STRING, ERROR, INTEGER, SIMPLE_STRING, SIZE, UNKNOWN};
use resp::{Error, Node, Value};

fn decode(source: &str) -> Result<Value, Error> {
    Value::decode(source)
}

#[test]
fn empty_input_is_an_unknown_token() {
    assert_eq!(decode(""), Err(Error::of_unexpected(UNKNOWN, 0)));
}

#[test]
fn unknown_marker_is_reported_where_it_stands() {
    assert_eq!(decode("?1\r\n"), Err(Error::of_unexpected(UNKNOWN, 0)));
    assert_eq!(decode("*1\r\n?\r\n"), Err(Error::of_unexpected(UNKNOWN, 4)));
}

#[test]
fn simple_values_decode() {
    assert_eq!(decode(":10\r\n"), Ok(Value::Integer(10)));
    assert_eq!(decode("+Nina Simone\r\n"), Ok(Value::String("Nina Simone".into())));
    assert_eq!(decode("-My bad\r\n"), Ok(Value::Error("My bad".into())));
    assert_eq!(decode("$-1\r\n"), Ok(Value::Nil));
    assert_eq!(decode("*0\r\n"), Ok(Value::Array(vec![])));
}

#[test]
fn unterminated_integer_points_past_the_input() {
    assert_eq!(decode(":0"), Err(Error::of_unexpected(INTEGER, 2)));
}

#[test]
fn short_array_reports_where_input_ran_out() {
    assert_eq!(decode("*2\r\n$-1\r\n"), Err(Error::of_size(ARRAY, 9)));
    assert_eq!(decode("*1\r\n*2\r\n:1\r\n"), Err(Error::of_size(ARRAY, 12)));
}

#[test]
fn long_bulk_string_reports_where_terminator_was_expected() {
    assert_eq!(decode("$2\r\nHello\r\n"), Err(Error::of_size(BULK_STRING, 6)));
}

#[test]
fn truncated_bulk_string_points_one_past_the_input() {
    assert_eq!(decode("$3\r\nabc"), Err(Error::of_size(BULK_STRING, 8)));
    assert_eq!(decode("$10\r\nab"), Err(Error::of_size(BULK_STRING, 8)));
    assert_eq!(decode("$3\r\nabc\r"), Err(Error::of_size(BULK_STRING, 7)));
}

#[test]
fn bulk_string_lengths_count_bytes() {
    assert_eq!(decode("$3\r\n\u{c2}\r\n"), Err(Error::of_size(BULK_STRING, 7)));
    assert_eq!(decode("$2\r\n\u{c2}\r\n"), Ok(Value::String("\u{c2}".into())));
    assert_eq!(decode("+\u{c2}b\r\n"), Ok(Value::String("\u{c2}b".into())));
}

#[test]
fn bulk_string_body_may_hold_terminators() {
    assert_eq!(
        decode("$26\r\nSi vis pacem,\r\npara bellum\r\n"),
        Ok(Value::String("Si vis pacem,\r\npara bellum".into()))
    );
    assert_eq!(decode("$0\r\n\r\n"), Ok(Value::String("".into())));
}

#[test]
fn simple_string_rejects_a_line_break() {
    assert_eq!(decode("+Top\nBottom\r\n"), Err(Error::of_unexpected(SIMPLE_STRING, 4)));
    assert_eq!(decode("+a\nb\rc\r\n"), Err(Error::of_unexpected(SIMPLE_STRING, 2)));
    assert_eq!(decode("-a\rb\r\n"), Err(Error::of_unexpected(ERROR, 2)));
}

#[test]
fn unterminated_simple_string_points_after_the_marker() {
    assert_eq!(decode("+abc"), Err(Error::of_unexpected(SIMPLE_STRING, 1)));
    assert_eq!(decode("-abc\n"), Err(Error::of_unexpected(ERROR, 1)));
}

#[test]
fn integers_are_unsigned_decimal_within_i64() {
    assert_eq!(decode(":9223372036854775807\r\n"), Ok(Value::Integer(i64::MAX)));
    assert_eq!(decode(":9223372036854775808\r\n"), Err(Error::of_type(INTEGER, 1)));
    assert_eq!(decode(":-5\r\n"), Err(Error::of_type(INTEGER, 1)));
    assert_eq!(decode(":+5\r\n"), Err(Error::of_type(INTEGER, 1)));
    assert_eq!(decode(":\r\n"), Err(Error::of_type(INTEGER, 1)));
    assert_eq!(decode(":007\r\n"), Ok(Value::Integer(7)));
}

#[test]
fn negative_lengths_are_type_errors() {
    assert_eq!(decode("$-2\r\n"), Err(Error::of_type(SIZE, 1)));
    assert_eq!(decode("*-1\r\n"), Err(Error::of_type(SIZE, 1)));
}

#[test]
fn unterminated_length_prefix_is_tagged_size() {
    assert_eq!(decode("$5"), Err(Error::of_unexpected(SIZE, 2)));
    assert_eq!(decode("*"), Err(Error::of_unexpected(SIZE, 1)));
}

#[test]
fn nested_errors_carry_absolute_offsets() {
    assert_eq!(decode("*1\r\n:x\r\n"), Err(Error::of_type(INTEGER, 5)));
    assert_eq!(decode("*2\r\n:1\r\n$3\r\nabcd\r\n"), Err(Error::of_size(BULK_STRING, 15)));
    assert_eq!(decode("*2\r\n:1\r\n$9\r\nab\r\n"), Err(Error::of_size(BULK_STRING, 17)));
}

#[test]
fn nested_arrays_decode() {
    assert_eq!(
        decode("*2\r\n*3\r\n+A\r\n+B\r\n+C\r\n*3\r\n:1\r\n:2\r\n:3\r\n"),
        Ok(Value::Array(vec![
            Value::Array(vec![
                Value::String("A".into()),
                Value::String("B".into()),
                Value::String("C".into()),
            ]),
            Value::Array(vec![Value::Integer(1), Value::Integer(2), Value::Integer(3)]),
        ]))
    );
}

#[test]
fn full_mixed_array_decodes() {
    assert_eq!(
        decode("*5\r\n$-1\r\n:447\r\n-Oh oh!\r\n+Hourly\r\n$26\r\nSi vis pacem,\r\npara bellum\r\n"),
        Ok(Value::Array(vec![
            Value::Nil,
            Value::Integer(447),
            Value::Error("Oh oh!".into()),
            Value::String("Hourly".into()),
            Value::String("Si vis pacem,\r\npara bellum".into()),
        ]))
    );
}

#[test]
fn nesting_is_bounded() {
    let mut deepest_allowed = "*1\r\n".repeat(127);
    deepest_allowed.push_str("*0\r\n");
    let mut expected = Value::Array(vec![]);
    for _ in 0..127 {
        expected = Value::Array(vec![expected]);
    }
    assert_eq!(decode(&deepest_allowed), Ok(expected));

    let mut too_deep = "*1\r\n".repeat(128);
    too_deep.push_str("*0\r\n");
    assert_eq!(decode(&too_deep), Err(Error::of_unexpected(ARRAY, 512)));
}

#[test]
fn trailing_bytes_are_not_read() {
    assert_eq!(decode(":1\r\nxyz"), Ok(Value::Integer(1)));
}

#[test]
fn decoding_twice_gives_equal_results() {
    let inputs = ["*2\r\n+a\r\n:3\r\n", "$3\r\nabc", "-oops\r\n", ""];
    for input in inputs {
        assert_eq!(decode(input), decode(input));
    }
}

#[test]
fn error_index_never_passes_one_beyond_the_input() {
    let inputs = [
        "", ":0", "$3\r\nabc", "$100\r\nab", "*3\r\n:1\r\n", "+abc", ":x\r\n", "*1\r\n$5\r\n",
        "$2\r\nHello\r\n", "?",
    ];
    for input in inputs {
        let error = decode(input).unwrap_err();
        assert!(*error.index() <= input.len() + 1, "{input:?}");
    }
}

#[test]
fn error_accessors_and_constructors() {
    let size = Error::of_size(ARRAY, 3);
    assert_eq!(size, Error::Size { index: 3, node: ARRAY });
    assert_eq!(*size.index(), 3);
    assert_eq!(*size.node(), ARRAY);
    let kind = Error::of_type(SIZE, 1);
    assert_eq!(kind, Error::Type { index: 1, node: SIZE });
    assert_eq!(*kind.node(), Node::SIZE);
    let unexpected = Error::of_unexpected(UNKNOWN, 0);
    assert_eq!(unexpected, Error::Unexpected { index: 0, node: UNKNOWN });
    assert_eq!(*unexpected.index(), 0);
}

#[test]
fn try_into_agrees_with_decode() {
    let input = "*1\r\n+ok\r\n";
    let converted: Result<Value, Error> = input.try_into();
    assert_eq!(converted, decode(input));
}

#[test]
fn value_result_alias_names_the_conversion_result() {
    let result: resp::ValueResult = "$-1\r\n".try_into();
    assert_eq!(result, Ok(Value::Nil));
    let empty: resp::ValueResult = "".try_into();
    assert_eq!(empty, Err(Error::of_unexpected(UNKNOWN, 0)));
}
