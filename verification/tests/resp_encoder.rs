use healing_cache::resp::encoder::{
    encode_array, encode_bulk_string, encode_error, encode_integer, encode_null, encode_simple_string,
};
use healing_cache::resp::value::RespValue;

#[test]
fn test_encode_simple_string() {
    assert_eq!(encode_simple_string("OK"), b"+OK\r\n");
}

#[test]
fn test_encode_error() {
    assert_eq!(encode_error("ERR something"), b"-ERR something\r\n");
}

#[test]
fn test_encode_integer() {
    assert_eq!(encode_integer(42), b":42\r\n");
    assert_eq!(encode_integer(-1), b":-1\r\n");
    assert_eq!(encode_integer(0), b":0\r\n");
}

#[test]
fn test_encode_bulk_string() {
    assert_eq!(encode_bulk_string(b"hello"), b"$5\r\nhello\r\n");
    assert_eq!(encode_bulk_string(b""), b"$0\r\n\r\n");
}

#[test]
fn test_encode_null() {
    assert_eq!(encode_null(), b"$-1\r\n");
}

#[test]
fn test_encode_array() {
    let items = vec![
        RespValue::BulkString(b"GET".to_vec()),
        RespValue::BulkString(b"foo".to_vec()),
    ];
    let encoded = encode_array(&items);
    assert_eq!(encoded, b"*2\r\n$3\r\nGET\r\n$3\r\nfoo\r\n");
}

#[test]
fn test_encode_empty_array() {
    let items: Vec<RespValue> = vec![];
    let encoded = encode_array(&items);
    assert_eq!(encoded, b"*0\r\n");
}
