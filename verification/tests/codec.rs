use redis_rust::ProtocolError;
use redis_rust::SessionBuffer;
use redis_rust::Value;
use redis_rust::parse_array;
use redis_rust::parse_bulk_string;
use redis_rust::parse_int;
use redis_rust::parse_message;
use redis_rust::parse_simple_error;
use redis_rust::parse_simple_string;
use redis_rust::parse_u64;
use redis_rust::read_until_crlf;

fn chars(s: &str) -> Vec<char> {
    s.chars().collect()
}

#[test]
fn test_serialize_simple_string() {
    let value = Value::SimpleString("OK".to_string());
    assert_eq!(value.serialize(), "+OK\r\n");
}

#[test]
fn test_serialize_bulk_string() {
    let value = Value::BulkString("foobar".to_string());
    assert_eq!(value.serialize(), "$6\r\nfoobar\r\n");
}

#[test]
fn test_serialize_simple_error() {
    let value = Value::SimpleError("Error message".to_string());
    assert_eq!(value.serialize(), "-Error message\r\n");
}

#[test]
fn test_serialize_array() {
    let value = Value::Array(vec![
        Value::SimpleString("foo".to_string()),
        Value::BulkString("bar".to_string()),
    ]);
    assert_eq!(value.serialize(), "*2\r\n+foo\r\n$3\r\nbar\r\n");
}

#[test]
fn lib_test_simple_string_serialization() {
    let value = Value::SimpleString("OK".to_string());
    assert_eq!(value.serialize(), "+OK\r\n");
}

#[test]
fn lib_test_bulk_string_serialization() {
    let value = Value::BulkString("foobar".to_string());
    assert_eq!(value.serialize(), "$6\r\nfoobar\r\n");
}

#[test]
fn lib_test_simple_error_serialization() {
    let value = Value::SimpleError("Error message".to_string());
    assert_eq!(value.serialize(), "-Error message\r\n");
}

#[test]
fn mod_test_simple_string_serialization() {
    let value = Value::SimpleString("OK".to_string());
    assert_eq!(value.serialize(), "+OK\r\n");
}

#[test]
fn mod_test_bulk_string_serialization() {
    let value = Value::BulkString("foobar".to_string());
    assert_eq!(value.serialize(), "$6\r\nfoobar\r\n");
}

#[test]
fn mod_test_simple_error_serialization() {
    let value = Value::SimpleError("Error message".to_string());
    assert_eq!(value.serialize(), "-Error message\r\n");
}

#[test]
fn test_parse_simple_string() {
    let buffer = chars("+OK\r\n");
    let (value, _) = parse_simple_string(&buffer).unwrap();
    assert_eq!(value, Value::SimpleString("OK".to_string()));
}

#[test]
fn test_parse_bulk_string() {
    let buffer = chars("$6\r\nfoobar\r\n");
    let (value, _) = parse_bulk_string(&buffer).unwrap();
    assert_eq!(value, Value::BulkString("foobar".to_string()));
}

#[test]
fn test_parse_simple_error() {
    let buffer = chars("-Error message\r\n");
    let (value, _) = parse_simple_error(&buffer).unwrap();
    assert_eq!(value, Value::SimpleError("Error message".to_string()));
}

#[test]
fn test_parse_array() {
    let buffer = chars("*2\r\n+foo\r\n$3\r\nbar\r\n");
    let (value, _) = parse_array(&buffer).unwrap();
    assert_eq!(
        value,
        Value::Array(vec![
            Value::SimpleString("foo".to_string()),
            Value::BulkString("bar".to_string()),
        ])
    );
}

#[test]
fn parse_message_consumes_exactly_one_value() {
    let buffer = chars("+one\r\n+two\r\n");
    let (value, consumed) = parse_message(&buffer).unwrap();
    assert_eq!(value, Value::SimpleString("one".to_string()));
    assert_eq!(consumed, 6);
    let rest: Vec<char> = buffer[consumed..].to_vec();
    let (value2, consumed2) = parse_message(&rest).unwrap();
    assert_eq!(value2, Value::SimpleString("two".to_string()));
    assert_eq!(consumed2, 6);
}

#[test]
fn round_trip_every_variant() {
    let values = vec![
        Value::SimpleString("OK".to_string()),
        Value::SimpleError("oops".to_string()),
        Value::BulkString("payload with \r and \n alone".to_string()),
        Value::BulkString(String::new()),
        Value::Array(vec![]),
        Value::Array(vec![
            Value::BulkString("GET".to_string()),
            Value::Array(vec![Value::SimpleString("nested".to_string())]),
        ]),
    ];
    for value in values {
        let wire = value.dup().serialize();
        let buffer: Vec<char> = wire.chars().collect();
        let (decoded, consumed) = parse_message(&buffer).unwrap();
        assert_eq!(decoded, value);
        assert_eq!(consumed, buffer.len());
    }
}

#[test]
fn bulk_length_counts_unicode_scalars() {
    let value = Value::BulkString("héllo".to_string());
    let wire = value.serialize();
    assert_eq!(wire, "$5\r\nhéllo\r\n");
    let buffer = chars("$5\r\nhéllo\r\n");
    let (decoded, consumed) = parse_message(&buffer).unwrap();
    assert_eq!(decoded, Value::BulkString("héllo".to_string()));
    assert_eq!(consumed, buffer.len());
}

#[test]
fn truncated_buffers_are_incomplete_not_malformed() {
    let whole = "*2\r\n$4\r\nECHO\r\n$3\r\nHEY\r\n";
    for cut in 0..whole.chars().count() {
        let buffer: Vec<char> = whole.chars().take(cut).collect();
        assert_eq!(parse_message(&buffer), Err(ProtocolError::Incomplete));
    }
}

#[test]
fn incremental_decode_matches_whole_buffer() {
    let whole = "*2\r\n$4\r\nECHO\r\n$3\r\nHEY\r\n";
    let all: Vec<char> = whole.chars().collect();
    let (expected, _) = parse_message(&all).unwrap();
    for cut in 0..all.len() {
        let mut session = SessionBuffer::new();
        session.feed(&all[..cut]);
        if cut < all.len() {
            assert_eq!(session.try_read_value(), Ok(None));
        }
        session.feed(&all[cut..]);
        let got = session.try_read_value().unwrap().unwrap();
        assert_eq!(got, expected);
        assert_eq!(session.len(), 0);
    }
}

#[test]
fn session_buffer_keeps_pipelined_trailing_input() {
    let mut session = SessionBuffer::new();
    session.feed(&chars("+one\r\n+tw"));
    assert_eq!(
        session.try_read_value(),
        Ok(Some(Value::SimpleString("one".to_string())))
    );
    assert_eq!(session.try_read_value(), Ok(None));
    session.feed(&chars("o\r\n"));
    assert_eq!(
        session.try_read_value(),
        Ok(Some(Value::SimpleString("two".to_string())))
    );
}

#[test]
fn malformed_buffers_are_fatal() {
    assert_eq!(parse_message(&chars("?what\r\n")), Err(ProtocolError::Malformed));
    assert_eq!(parse_message(&chars("$-1\r\n")), Err(ProtocolError::Malformed));
    assert_eq!(parse_message(&chars("$abc\r\n")), Err(ProtocolError::Malformed));
    assert_eq!(parse_message(&chars("*-3\r\n")), Err(ProtocolError::Malformed));
    assert_eq!(parse_message(&chars("$3\r\nabcXY")), Err(ProtocolError::Malformed));
    let mut session = SessionBuffer::new();
    session.feed(&chars("?bogus\r\n"));
    assert_eq!(session.try_read_value(), Err(ProtocolError::Malformed));
}

#[test]
fn empty_read_is_incomplete() {
    let buffer: Vec<char> = Vec::new();
    assert_eq!(parse_message(&buffer), Err(ProtocolError::Incomplete));
}

#[test]
fn empty_array_decodes() {
    let buffer = chars("*0\r\n");
    let (value, consumed) = parse_message(&buffer).unwrap();
    assert_eq!(value, Value::Array(vec![]));
    assert_eq!(consumed, 4);
}

#[test]
fn read_until_crlf_splits_at_first_terminator() {
    let buffer = chars("abc\r\nde\r\n");
    let (line, consumed) = read_until_crlf(&buffer).unwrap();
    assert_eq!(line, &buffer[..3]);
    assert_eq!(consumed, 5);
    assert!(read_until_crlf(&chars("no terminator")).is_none());
}

#[test]
fn parse_int_accepts_signed_decimals() {
    assert_eq!(parse_int(&chars("123")), Ok(123));
    assert_eq!(parse_int(&chars("+123")), Ok(123));
    assert_eq!(parse_int(&chars("-123")), Ok(-123));
    assert_eq!(parse_int(&chars("0")), Ok(0));
    assert_eq!(parse_int(&chars("9223372036854775807")), Ok(i64::MAX));
    assert_eq!(parse_int(&chars("-9223372036854775808")), Ok(i64::MIN));
}

#[test]
fn parse_int_rejects_junk_and_overflow() {
    assert!(parse_int(&chars("")).is_err());
    assert!(parse_int(&chars("-")).is_err());
    assert!(parse_int(&chars("12a")).is_err());
    assert!(parse_int(&chars(" 12")).is_err());
    assert!(parse_int(&chars("9223372036854775808")).is_err());
    assert!(parse_int(&chars("-9223372036854775809")).is_err());
}

#[test]
fn parse_u64_accepts_unsigned_decimals() {
    assert_eq!(parse_u64("0"), Some(0));
    assert_eq!(parse_u64("+7"), Some(7));
    assert_eq!(parse_u64("18446744073709551615"), Some(u64::MAX));
    assert_eq!(parse_u64("18446744073709551616"), None);
    assert_eq!(parse_u64("-1"), None);
    assert_eq!(parse_u64("ten"), None);
    assert_eq!(parse_u64(""), None);
}

#[test]
fn is_wf_guards_the_encode_boundary() {
    assert!(Value::SimpleString("OK".to_string()).is_wf());
    assert!(Value::BulkString("has \r\n inside".to_string()).is_wf());
    assert!(!Value::SimpleString("bad \r\n line".to_string()).is_wf());
    assert!(!Value::InvalidValue.is_wf());
    assert!(!Value::Array(vec![Value::InvalidValue]).is_wf());
}

#[test]
fn dup_copies_deeply() {
    let value = Value::Array(vec![
        Value::BulkString("a".to_string()),
        Value::Array(vec![Value::SimpleString("b".to_string())]),
    ]);
    assert_eq!(value.dup(), value);
}
