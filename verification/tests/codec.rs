//! Tests of the RESP2 value codec: encoding and decoding of each value
//! shape, partial input, and leftover bytes.

use evredis::codecs::resp2::Value;
use evredis::codecs::DecodeError;

#[test]
fn codec_can_encode_simple_strings() {
    let mut data: Vec<u8> = Vec::new();
    Value::SimpleString(b"TEST".to_vec()).write_to(&mut data);

    assert_eq!(&data[..], b"+TEST\r\n");
}

#[test]
fn codec_can_decode_simple_strings() {
    let mut data: Vec<u8> = b"+TEST\r\n".to_vec();
    let decoded = Value::read_from(&mut data).expect("Failed to decode simple string");
    assert_eq!(decoded, Some(Value::SimpleString(b"TEST".to_vec())));
}

#[test]
fn codec_can_encode_errors() {
    let mut data: Vec<u8> = Vec::new();
    Value::Error(b"TEST".to_vec()).write_to(&mut data);

    assert_eq!(&data[..], b"-TEST\r\n");
}

#[test]
fn codec_can_decode_errors() {
    let mut data: Vec<u8> = b"-TEST\r\n".to_vec();
    let decoded = Value::read_from(&mut data).expect("Failed to decode error");
    assert_eq!(decoded, Some(Value::Error(b"TEST".to_vec())));
}

#[test]
fn codec_can_encode_bulk_strings() {
    let mut data: Vec<u8> = Vec::new();
    Value::BulkString(b"TEST\r\n".to_vec()).write_to(&mut data);

    assert_eq!(&data[..], b"$6\r\nTEST\r\n\r\n");
}

#[test]
fn codec_can_decode_bulk_strings() {
    let mut data: Vec<u8> = b"$6\r\nTEST\r\n\r\n".to_vec();
    let decoded = Value::read_from(&mut data).expect("Failed to decode bulk string");
    assert_eq!(decoded, Some(Value::BulkString(b"TEST\r\n".to_vec())));
}

#[test]
fn codec_can_encode_nil() {
    let mut data: Vec<u8> = Vec::new();
    Value::Nil.write_to(&mut data);

    assert_eq!(&data[..], b"$-1\r\n");
}

#[test]
fn codec_can_decode_nil_bulk_strings() {
    let mut data: Vec<u8> = b"$-1\r\n".to_vec();
    let decoded = Value::read_from(&mut data).expect("Failed to decode nil bulk string");
    assert_eq!(decoded, Some(Value::Nil));
}

#[test]
fn codec_can_encode_integers() {
    let mut data: Vec<u8> = Vec::new();
    Value::Integer(600).write_to(&mut data);

    assert_eq!(&data[..], b":600\r\n");
}

#[test]
fn codec_can_decode_integers() {
    let mut data: Vec<u8> = b":600\r\n".to_vec();
    let decoded = Value::read_from(&mut data).expect("Failed to decode integer");
    assert_eq!(decoded, Some(Value::Integer(600)));
}

#[test]
fn codec_can_encode_arrays() {
    let mut data: Vec<u8> = Vec::new();
    Value::Array(vec![
        Value::SimpleString(b"HELLO".to_vec()),
        Value::Error(b"ERR".to_vec()),
        Value::Integer(34),
    ])
    .write_to(&mut data);

    assert_eq!(&data[..], b"*3\r\n+HELLO\r\n-ERR\r\n:34\r\n");
}

#[test]
fn codec_can_decode_arrays() {
    let mut data: Vec<u8> = b"*3\r\n+HELLO\r\n-ERR\r\n:34\r\n".to_vec();
    let decoded = Value::read_from(&mut data).expect("Failed to decode array");
    assert_eq!(
        decoded,
        Some(Value::Array(vec![
            Value::SimpleString(b"HELLO".to_vec()),
            Value::Error(b"ERR".to_vec()),
            Value::Integer(34),
        ]))
    );
}

#[test]
fn codec_ignores_values_outside_array() {
    let mut data: Vec<u8> = b"*3\r\n+HELLO\r\n-ERR\r\n:34\r\n+EXTRA\r\n".to_vec();
    let decoded = Value::read_from(&mut data).expect("Failed to decode array");
    assert_eq!(
        decoded,
        Some(Value::Array(vec![
            Value::SimpleString(b"HELLO".to_vec()),
            Value::Error(b"ERR".to_vec()),
            Value::Integer(34),
        ]))
    );
    assert_eq!(&data[..], b"+EXTRA\r\n");
}

#[test]
fn codec_ignores_bytes_outside_simple_string() {
    let mut data: Vec<u8> = b"+TEST\r\n+TEST2\r\n".to_vec();
    let _ = Value::read_from(&mut data).expect("Failed to decode simple string");
    assert_eq!(&data[..], b"+TEST2\r\n");
}

#[test]
fn codec_reports_incomplete_values_as_pending() {
    let mut data: Vec<u8> = b"$6\r\nTES".to_vec();
    let decoded = Value::read_from(&mut data).expect("Incomplete input must not be an error");
    assert_eq!(decoded, None);
    assert_eq!(&data[..], b"$6\r\nTES");
}

#[test]
fn codec_round_trips_extreme_integers() {
    for n in [i64::MIN, -1, 0, 7, i64::MAX] {
        let mut data: Vec<u8> = Vec::new();
        Value::Integer(n).write_to(&mut data);
        let decoded = Value::read_from(&mut data).expect("Failed to decode integer");
        assert_eq!(decoded, Some(Value::Integer(n)));
        assert!(data.is_empty());
    }
}

#[test]
fn codec_rejects_unknown_leading_bytes() {
    let mut data: Vec<u8> = b"?abc\r\n".to_vec();
    assert_eq!(Value::read_from(&mut data), Err(DecodeError::UnexpectedByte(63)));
    assert_eq!(&data[..], b"?abc\r\n");
}

#[test]
fn codec_rejects_negative_bulk_lengths() {
    let mut data: Vec<u8> = b"$-2\r\n".to_vec();
    assert_eq!(Value::read_from(&mut data), Err(DecodeError::InvalidLength));
}

#[test]
fn codec_rejects_malformed_length_fields() {

    let mut not_utf8: Vec<u8> = b":\xff\r\n".to_vec();
    assert_eq!(Value::read_from(&mut not_utf8), Err(DecodeError::InvalidString));

    let mut not_a_number: Vec<u8> = b":12a\r\n".to_vec();
    assert_eq!(Value::read_from(&mut not_a_number), Err(DecodeError::InvalidInteger));

    let mut out_of_range: Vec<u8> = b":9223372036854775808\r\n".to_vec();
    assert_eq!(Value::read_from(&mut out_of_range), Err(DecodeError::InvalidInteger));
}

#[test]
fn codec_rejects_bare_line_feed() {
    let mut data: Vec<u8> = b"+TEST\nx".to_vec();
    assert_eq!(Value::read_from(&mut data), Err(DecodeError::UnexpectedByte(10)));
}
