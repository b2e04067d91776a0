use healing_cache::resp::parser::{parse_resp, ParseResult};
use healing_cache::resp::value::RespValue;

fn b(s: &str) -> &[u8] {
    s.as_bytes()
}

#[test]
fn test_parse_simple_string() {
    let input = b("+OK\r\n");
    match parse_resp(input) {
        ParseResult::Complete(RespValue::SimpleString(s), consumed) => {
            assert_eq!(s, "OK");
            assert_eq!(consumed, 5);
        }
        other => panic!("expected SimpleString, got {:?}", other),
    }
}

#[test]
fn test_parse_error() {
    let input = b("-ERR test\r\n");
    match parse_resp(input) {
        ParseResult::Complete(RespValue::Error(s), consumed) => {
            assert_eq!(s, "ERR test");
            assert_eq!(consumed, 11);
        }
        other => panic!("expected Error, got {:?}", other),
    }
}

#[test]
fn test_parse_integer() {
    let input = b(":42\r\n");
    match parse_resp(input) {
        ParseResult::Complete(RespValue::Integer(n), consumed) => {
            assert_eq!(n, 42);
            assert_eq!(consumed, 5);
        }
        other => panic!("expected Integer, got {:?}", other),
    }
}

#[test]
fn test_parse_negative_integer() {
    let input = b(":-1\r\n");
    match parse_resp(input) {
        ParseResult::Complete(RespValue::Integer(n), _) => assert_eq!(n, -1),
        other => panic!("expected Integer(-1), got {:?}", other),
    }
}

#[test]
fn test_parse_bulk_string() {
    let input = b("$5\r\nhello\r\n");
    match parse_resp(input) {
        ParseResult::Complete(RespValue::BulkString(data), consumed) => {
            assert_eq!(data, b"hello");
            assert_eq!(consumed, 11);
        }
        other => panic!("expected BulkString, got {:?}", other),
    }
}

#[test]
fn test_parse_empty_bulk_string() {
    let input = b("$0\r\n\r\n");
    match parse_resp(input) {
        ParseResult::Complete(RespValue::BulkString(data), consumed) => {
            assert!(data.is_empty());
            assert_eq!(consumed, 6);
        }
        other => panic!("expected empty BulkString, got {:?}", other),
    }
}

#[test]
fn test_parse_null_bulk() {
    let input = b("$-1\r\n");
    match parse_resp(input) {
        ParseResult::Complete(RespValue::Null, consumed) => {
            assert_eq!(consumed, 5);
        }
        other => panic!("expected Null, got {:?}", other),
    }
}

#[test]
fn test_parse_null_array() {
    let input = b("*-1\r\n");
    match parse_resp(input) {
        ParseResult::Complete(RespValue::Null, consumed) => {
            assert_eq!(consumed, 5);
        }
        other => panic!("expected Null array, got {:?}", other),
    }
}

#[test]
fn test_parse_empty_array() {
    let input = b("*0\r\n");
    match parse_resp(input) {
        ParseResult::Complete(RespValue::Array(items), consumed) => {
            assert!(items.is_empty());
            assert_eq!(consumed, 4);
        }
        other => panic!("expected empty Array, got {:?}", other),
    }
}

#[test]
fn test_parse_get_command() {
    // *2\r\n$3\r\nGET\r\n$3\r\nfoo\r\n
    let input = b("*2\r\n$3\r\nGET\r\n$3\r\nfoo\r\n");
    match parse_resp(input) {
        ParseResult::Complete(RespValue::Array(items), _) => {
            assert_eq!(items.len(), 2);
            assert_eq!(
                items[0],
                RespValue::BulkString(b"GET".to_vec())
            );
            assert_eq!(
                items[1],
                RespValue::BulkString(b"foo".to_vec())
            );
        }
        other => panic!("expected Array, got {:?}", other),
    }
}

#[test]
fn test_parse_set_command_with_ex() {
    // SET foo bar EX 60
    let input = b("*5\r\n$3\r\nSET\r\n$3\r\nfoo\r\n$3\r\nbar\r\n$2\r\nEX\r\n$2\r\n60\r\n");
    match parse_resp(input) {
        ParseResult::Complete(RespValue::Array(items), _) => {
            assert_eq!(items.len(), 5);
            let strs: Vec<String> = items
                .iter()
                .map(|v| match v {
                    RespValue::BulkString(d) => String::from_utf8_lossy(d).to_string(),
                    _ => panic!("expected BulkString"),
                })
                .collect();
            assert_eq!(strs, vec!["SET", "foo", "bar", "EX", "60"]);
        }
        other => panic!("expected Array, got {:?}", other),
    }
}

#[test]
fn test_parse_incomplete_simple_string() {
    // Missing \r\n
    let input = b("+OK");
    match parse_resp(input) {
        ParseResult::Incomplete => {}
        other => panic!("expected Incomplete, got {:?}", other),
    }
}

#[test]
fn test_parse_incomplete_bulk_string() {
    // Header present but data incomplete
    let input = b("$5\r\nhel");
    match parse_resp(input) {
        ParseResult::Incomplete => {}
        other => panic!("expected Incomplete, got {:?}", other),
    }
}

#[test]
fn test_parse_incomplete_array() {
    // Array header says 2 elements but only 1 present
    let input = b("*2\r\n$3\r\nGET\r\n");
    match parse_resp(input) {
        ParseResult::Incomplete => {}
        other => panic!("expected Incomplete, got {:?}", other),
    }
}

#[test]
fn test_parse_empty_buffer() {
    let input = b("");
    match parse_resp(input) {
        ParseResult::Incomplete => {}
        other => panic!("expected Incomplete, got {:?}", other),
    }
}

#[test]
fn test_parse_mixed_types_array() {
    // Array with a bulk string and an integer
    let input = b("*2\r\n$3\r\nfoo\r\n:100\r\n");
    match parse_resp(input) {
        ParseResult::Complete(RespValue::Array(items), _) => {
            assert_eq!(items.len(), 2);
            assert_eq!(items[0], RespValue::BulkString(b"foo".to_vec()));
            assert_eq!(items[1], RespValue::Integer(100));
        }
        other => panic!("expected Array, got {:?}", other),
    }
}

#[test]
fn test_bytes_consumed_exact() {
    // Two values back-to-back; first should report exact consumed bytes
    let input = b("+OK\r\n+NO\r\n");
    match parse_resp(input) {
        ParseResult::Complete(RespValue::SimpleString(s), consumed) => {
            assert_eq!(s, "OK");
            assert_eq!(consumed, 5);
            // Parse the remainder
            match parse_resp(&input[consumed..]) {
                ParseResult::Complete(RespValue::SimpleString(s2), _) => {
                    assert_eq!(s2, "NO");
                }
                other => panic!("expected second SimpleString, got {:?}", other),
            }
        }
        other => panic!("expected SimpleString, got {:?}", other),
    }
}
