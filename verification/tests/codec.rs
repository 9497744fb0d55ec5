use valkey_resp::parser::RespParser;
use valkey_resp::parser::RespValue;

fn decode(input: &str) -> RespValue {
    let mut p = RespParser::new(input.as_bytes().to_vec());
    p.parse_input()
}

#[test]
fn encode_simple_string() {
    let v = RespValue::SimpleString("hello".to_owned());
    assert_eq!(v.to_stream_output(), "+hello\r\n");
}

#[test]
fn encode_integer() {
    assert_eq!(RespValue::Integer(0).to_stream_output(), ":0\r\n");
    assert_eq!(RespValue::Integer(-42).to_stream_output(), ":-42\r\n");
    assert_eq!(
        RespValue::Integer(i64::MIN).to_stream_output(),
        ":-9223372036854775808\r\n"
    );
    assert_eq!(
        RespValue::Integer(i64::MAX).to_stream_output(),
        ":9223372036854775807\r\n"
    );
}

#[test]
fn encode_error() {
    let v = RespValue::Error("oops".to_owned());
    assert_eq!(v.to_stream_output(), "-oops\r\n");
}

#[test]
fn encode_bulk_string() {
    let v = RespValue::BulkString("hello".to_owned());
    assert_eq!(v.to_stream_output(), "$5\r\nhello\r\n");
    let empty = RespValue::BulkString(String::new());
    assert_eq!(empty.to_stream_output(), "$0\r\n\r\n");
}

#[test]
fn encode_null_bulk_string() {
    assert_eq!(RespValue::NullBulkString.to_stream_output(), "$-1\r\n");
}

#[test]
fn encode_nothing_is_empty() {
    assert_eq!(RespValue::Nothing.to_stream_output(), "");
}

#[test]
fn encode_array() {
    let v = RespValue::Array(vec![
        RespValue::BulkString("a".to_owned()),
        RespValue::BulkString("bc".to_owned()),
    ]);
    assert_eq!(v.to_stream_output(), "*2\r\n$1\r\na\r\n$2\r\nbc\r\n");
}

#[test]
fn decode_null_bulk_string() {
    assert_eq!(decode("$-1\r\n"), RespValue::NullBulkString);
}

#[test]
fn decode_bulk_with_embedded_terminator() {
    // the body is read by exact byte count, so framing bytes inside it stay
    assert_eq!(
        decode("$4\r\na\r\nb\r\n"),
        RespValue::BulkString("a\r\nb".to_owned())
    );
}

#[test]
fn decode_bulk_length_zero() {
    assert_eq!(decode("$0\r\n\r\n"), RespValue::BulkString(String::new()));
}

#[test]
fn decode_bulk_truncated_stream() {
    assert_eq!(decode("$10\r\nabc"), RespValue::Nothing);
}

#[test]
fn decode_bulk_invalid_utf8_body() {
    let mut bytes = b"$2\r\n".to_vec();
    bytes.push(0xFF);
    bytes.push(0xFE);
    let mut p = RespParser::new(bytes);
    assert_eq!(p.parse_input(), RespValue::Nothing);
}

#[test]
fn decode_malformed_integer_coerces_to_zero() {
    assert_eq!(decode(":abc\r\n"), RespValue::Integer(0));
    assert_eq!(decode(":\r\n"), RespValue::Integer(0));
    assert_eq!(decode(":99999999999999999999\r\n"), RespValue::Integer(0));
}

#[test]
fn decode_malformed_bulk_length_coerces_to_zero() {
    assert_eq!(decode("$x\r\nrest"), RespValue::BulkString(String::new()));
}

#[test]
fn decode_malformed_array_count_coerces_to_zero() {
    assert_eq!(decode("*x\r\n"), RespValue::Array(vec![]));
    assert_eq!(decode("*0\r\n"), RespValue::Array(vec![]));
}

#[test]
fn decode_unrecognized_prefix() {
    assert_eq!(decode("?whatever\r\n"), RespValue::Nothing);
}

#[test]
fn decode_empty_stream() {
    assert_eq!(decode(""), RespValue::Nothing);
}

#[test]
fn decode_array_of_elements_with_terminators() {
    // self-delimiting elements each followed by one extra terminator line
    let v = decode("*3\r\n:1\r\n\r\n+two\r\n\r\n:-3\r\n");
    assert_eq!(
        v,
        RespValue::Array(vec![
            RespValue::Integer(1),
            RespValue::SimpleString("two".to_owned()),
            RespValue::Integer(-3),
        ])
    );
}

#[test]
fn round_trip_leaves() {
    let samples = vec![
        RespValue::SimpleString("ok then".to_owned()),
        RespValue::Integer(-77),
        RespValue::Error("bad".to_owned()),
        RespValue::NullBulkString,
    ];
    for v in samples {
        let wire = v.to_stream_output();
        assert_eq!(decode(&wire), v);
    }
}

#[test]
fn round_trip_bulk_and_bulk_array() {
    let b = RespValue::BulkString("payload $*:\r\n mixed".to_owned());
    let wire = b.to_stream_output();
    assert_eq!(decode(&wire), b);

    let arr = RespValue::Array(vec![
        RespValue::BulkString("one".to_owned()),
        RespValue::BulkString("".to_owned()),
        RespValue::BulkString("three".to_owned()),
    ]);
    let wire = arr.to_stream_output();
    assert_eq!(decode(&wire), arr);
}

#[test]
fn unwrap_textual_forms() {
    assert_eq!(RespValue::SimpleString("x".to_owned()).unwrap(), "x");
    assert_eq!(RespValue::Integer(-5).unwrap(), "-5");
    assert_eq!(RespValue::Error("e".to_owned()).unwrap(), "e");
    assert_eq!(RespValue::BulkString("b".to_owned()).unwrap(), "b");
    assert_eq!(RespValue::NullBulkString.unwrap(), "");
    assert_eq!(RespValue::Nothing.unwrap(), "");
    let arr = RespValue::Array(vec![
        RespValue::SimpleString("a".to_owned()),
        RespValue::Integer(2),
        RespValue::BulkString("c".to_owned()),
    ]);
    assert_eq!(arr.unwrap(), "a 2 c");
}

#[test]
fn flatten_leaves_in_order() {
    let arr = RespValue::Array(vec![
        RespValue::SimpleString("a".to_owned()),
        RespValue::Integer(7),
        RespValue::BulkString("c".to_owned()),
    ]);
    assert_eq!(arr.flatten(), vec!["a", "7", "c"]);
}

#[test]
fn flatten_expands_nested_arrays_in_place() {
    let inner = RespValue::Array(vec![
        RespValue::SimpleString("b".to_owned()),
        RespValue::SimpleString("c".to_owned()),
    ]);
    let arr = RespValue::Array(vec![
        RespValue::SimpleString("a".to_owned()),
        inner,
        RespValue::SimpleString("d".to_owned()),
    ]);
    assert_eq!(arr.flatten(), vec!["a", "b", "c", "d"]);
}

#[test]
fn flatten_non_array_is_empty() {
    assert_eq!(
        RespValue::SimpleString("a".to_owned()).flatten(),
        Vec::<String>::new()
    );
}

#[test]
fn decode_nested_array_with_terminators() {
    // a nested array element is self-delimiting once each element carries
    // its trailing terminator
    let v = decode("*2\r\n*2\r\n:1\r\n\r\n:2\r\n\r\n\r\n:3\r\n\r\n");
    assert_eq!(
        v,
        RespValue::Array(vec![
            RespValue::Array(vec![RespValue::Integer(1), RespValue::Integer(2)]),
            RespValue::Integer(3),
        ])
    );
}

#[test]
fn round_trip_simple_string_with_lone_terminator_bytes() {
    // a lone carriage return or line feed does not end the line early;
    // only the full terminator pair would
    let v = RespValue::SimpleString("a\rb\nc".to_owned());
    let wire = v.to_stream_output();
    assert_eq!(wire, "+a\rb\nc\r\n");
    assert_eq!(decode(&wire), v);
}

#[test]
fn embedded_terminator_pair_ends_a_simple_string_early() {
    // the one simple-string payload shape that cannot round-trip
    assert_eq!(decode("+a\r\nb\r\n"), RespValue::SimpleString("a".to_owned()));
}

#[test]
fn truncated_array_decodes_incomplete() {
    // a stream that ends inside an array leaves the sentinel as a child
    let v = decode("*2\r\n:1\r\n\r\n");
    assert_eq!(
        v,
        RespValue::Array(vec![RespValue::Integer(1), RespValue::Nothing])
    );
    assert!(!v.is_complete());
    assert!(RespValue::Integer(1).is_complete());
    assert!(!RespValue::Nothing.is_complete());
}
