use healing_cache::cache::CacheStore;
use healing_cache::clock::{millis, secs};
use healing_cache::resp::commands::{
    cmd_del, cmd_echo, cmd_exists, cmd_expire, cmd_get, cmd_ping, cmd_set, cmd_ttl, dispatch, handle_command_at,
};
use healing_cache::resp::encoder::{encode_array, encode_bulk_string, encode_integer};
use healing_cache::resp::parser::{find_crlf, parse_resp, read_line, ParseResult};
use healing_cache::resp::value::RespValue;

fn array(parts: &[&str]) -> RespValue {
    RespValue::Array(parts.iter().map(|s| RespValue::BulkString(s.as_bytes().to_vec())).collect())
}

fn run(parts: &[&str], store: &mut CacheStore, now: u128) -> String {
    String::from_utf8(handle_command_at(&array(parts), store, now)).unwrap()
}

fn error_of(input: &[u8]) -> String {
    match parse_resp(input) {
        ParseResult::Error(e) => e,
        other => panic!("expected an error, got {:?}", other),
    }
}

#[test]
fn what_is_encoded_is_parsed_back() {
    let value = vec![
        RespValue::SimpleString("größe\r".to_string()),
        RespValue::Error("ERR x".to_string()),
        RespValue::Integer(i64::MIN),
        RespValue::Integer(i64::MAX),
        RespValue::BulkString(b"\r\n\x00\xff".to_vec()),
        RespValue::Null,
        RespValue::Array(vec![RespValue::Array(vec![]), RespValue::Integer(-7)]),
    ];
    let mut bytes = encode_array(&value);
    let len = bytes.len();
    bytes.extend_from_slice(b"+rest");
    match parse_resp(&bytes) {
        ParseResult::Complete(parsed, consumed) => {
            assert_eq!(parsed, RespValue::Array(value));
            assert_eq!(consumed, len);
        }
        other => panic!("expected a value, got {:?}", other),
    }
}

#[test]
fn clones_are_equal() {
    let value = RespValue::Array(vec![RespValue::Null, array(&["a", "b"]), RespValue::SimpleString("s".to_string())]);
    assert_eq!(value.clone(), value);
}

#[test]
fn every_proper_prefix_is_incomplete() {
    let bytes = encode_array(&[RespValue::BulkString(b"GET".to_vec()), RespValue::Integer(12)]);
    for n in 0..bytes.len() {
        assert!(matches!(parse_resp(&bytes[..n]), ParseResult::Incomplete));
    }
    assert!(matches!(parse_resp(&bytes), ParseResult::Complete(_, n) if n == bytes.len()));
}

#[test]
fn later_bytes_change_no_error() {
    assert_eq!(error_of(b"?"), "unexpected byte: 0x3f");
    assert_eq!(error_of(b"?+OK\r\n"), "unexpected byte: 0x3f");
    assert_eq!(error_of(b"\x0a"), "unexpected byte: 0x0a");
}

#[test]
fn parse_errors() {
    assert_eq!(error_of(b":\r\n"), "invalid integer: cannot parse integer from empty string");
    assert_eq!(error_of(b":1x\r\n"), "invalid integer: invalid digit found in string");
    assert_eq!(error_of(b":9223372036854775808\r\n"), "invalid integer: number too large to fit in target type");
    assert_eq!(error_of(b":-9223372036854775809\r\n"), "invalid integer: number too small to fit in target type");
    assert_eq!(error_of(b"$x\r\n"), "invalid bulk string length: invalid digit found in string");
    assert_eq!(error_of(b"*-\r\n"), "invalid array count: invalid digit found in string");
    assert_eq!(error_of(b"$2\r\nabcd"), "bulk string not terminated by CRLF");
    assert_eq!(
        error_of(b"+\xff\r\n"),
        "invalid UTF-8 in simple string: invalid utf-8 sequence of 1 bytes from index 0"
    );
    assert_eq!(
        error_of(b"-a\xc3\r\n"),
        "invalid UTF-8 in error: incomplete utf-8 byte sequence from index 1"
    );
    // An error inside an array is the error of the array.
    assert_eq!(error_of(b"*2\r\n:1\r\n!"), "unexpected byte: 0x21");
    // A plus sign is no error.
    assert!(matches!(parse_resp(b":+5\r\n"), ParseResult::Complete(RespValue::Integer(5), 5)));
    // A count that is far beyond what is there only waits for more.
    assert!(matches!(parse_resp(b"*9223372036854775807\r\n"), ParseResult::Incomplete));
    assert!(matches!(parse_resp(b"$9223372036854775807\r\nabc"), ParseResult::Incomplete));
}

#[test]
fn lines_end_at_crlf() {
    assert_eq!(find_crlf(b"ab\r\ncd\r\n", 0), Some(2));
    assert_eq!(find_crlf(b"ab\r\ncd\r\n", 3), Some(6));
    assert_eq!(find_crlf(b"ab\rcd\n", 0), None);
    assert_eq!(find_crlf(b"", 9), None);
    assert_eq!(read_line(b"+OK\r\n", 1), Some((&b"OK"[..], 5)));
    assert_eq!(read_line(b"+OK\r", 1), None);
}

#[test]
fn set_get_del_over_time() {
    let mut store = CacheStore::new();
    assert_eq!(run(&["SET", "k", "v", "EX", "10"], &mut store, 0), "+OK\r\n");
    assert_eq!(run(&["TTL", "k"], &mut store, 0), ":10\r\n");
    assert_eq!(run(&["TTL", "k"], &mut store, 1), ":9\r\n");
    assert_eq!(run(&["GET", "k"], &mut store, secs(10) - 1), "$1\r\nv\r\n");
    assert_eq!(run(&["TTL", "k"], &mut store, secs(10) - 1), ":0\r\n");
    assert_eq!(run(&["GET", "k"], &mut store, secs(10)), "$-1\r\n");
    assert_eq!(run(&["TTL", "k"], &mut store, secs(10)), ":-2\r\n");
    assert_eq!(run(&["DEL", "k"], &mut store, 0), ":0\r\n");
}

#[test]
fn last_ttl_option_counts() {
    let mut store = CacheStore::new();
    assert_eq!(run(&["SET", "k", "v", "ex", "10", "Px", "1500"], &mut store, 0), "+OK\r\n");
    assert_eq!(store.ttl_at("k", 0), Some(millis(1500)));
    assert_eq!(run(&["SET", "k", "w"], &mut store, 5), "+OK\r\n");
    assert_eq!(store.ttl_at("k", 5), None);
}

#[test]
fn del_counts_what_was_there() {
    let mut store = CacheStore::new();
    run(&["SET", "a", "1"], &mut store, 0);
    run(&["SET", "b", "2"], &mut store, 0);
    assert_eq!(run(&["DEL", "a", "x", "b", "a"], &mut store, 0), ":2\r\n");
    assert_eq!(store.len_at(0), 0);
    // An argument that is no string is passed over.
    let args = [RespValue::Null, RespValue::Null, RespValue::SimpleString("c".to_string())];
    run(&["SET", "c", "3"], &mut store, 0);
    assert_eq!(cmd_del(&args, &mut store), encode_integer(1));
}

#[test]
fn expire_on_a_key() {
    let mut store = CacheStore::new();
    run(&["SET", "k", "v"], &mut store, 0);
    assert_eq!(run(&["EXPIRE", "k", "3"], &mut store, 0), ":1\r\n");
    assert_eq!(run(&["EXISTS", "k"], &mut store, secs(3) - 1), ":1\r\n");
    assert_eq!(run(&["EXISTS", "k"], &mut store, secs(3)), ":0\r\n");
}

#[test]
fn command_errors() {
    let mut store = CacheStore::new();
    let mut expect = |parts: &[&str], text: &str| {
        assert_eq!(run(parts, &mut store, 0), format!("-ERR {}\r\n", text));
    };
    expect(&["PING", "a", "b"], "wrong number of arguments for 'ping' command");
    expect(&["ECHO"], "wrong number of arguments for 'echo' command");
    expect(&["SET", "k"], "wrong number of arguments for 'set' command");
    expect(&["SET", "k", "v", "EX"], "wrong number of arguments for 'set' command");
    expect(&["SET", "k", "v", "PX"], "wrong number of arguments for 'set' command");
    expect(&["SET", "k", "v", "EX", "-1"], "value is not an integer or out of range");
    expect(&["SET", "k", "v", "PX", "18446744073709551616"], "value is not an integer or out of range");
    expect(&["SET", "k", "v", "NX"], "syntax error");
    expect(&["GET"], "wrong number of arguments for 'get' command");
    expect(&["DEL"], "wrong number of arguments for 'del' command");
    expect(&["EXISTS"], "wrong number of arguments for 'exists' command");
    expect(&["TTL"], "wrong number of arguments for 'ttl' command");
    expect(&["EXPIRE", "k"], "wrong number of arguments for 'expire' command");
    expect(&["EXPIRE", "k", "soon"], "value is not an integer or out of range");
    expect(&["NOPE"], "unknown command");
    assert_eq!(store.len_at(0), 0);
}

#[test]
fn arguments_that_are_no_strings() {
    let mut store = CacheStore::new();
    let bad = || RespValue::BulkString(vec![0xff]);
    let good = || RespValue::BulkString(b"k".to_vec());
    let text = |bytes: Vec<u8>| String::from_utf8(bytes).unwrap();
    assert_eq!(text(handle_command_at(&RespValue::Null, &mut store, 0)), "-ERR expected array (RESP command)\r\n");
    assert_eq!(text(handle_command_at(&RespValue::Array(vec![]), &mut store, 0)), "-ERR empty command\r\n");
    assert_eq!(text(handle_command_at(&RespValue::Array(vec![bad()]), &mut store, 0)), "-ERR invalid command\r\n");
    assert_eq!(text(cmd_ping(&[good(), RespValue::Null])), "-ERR invalid argument\r\n");
    assert_eq!(text(cmd_echo(&[good(), RespValue::Integer(1)])), "-ERR invalid argument\r\n");
    assert_eq!(text(cmd_set(&[good(), bad(), good()], &mut store, 0)), "-ERR invalid key\r\n");
    assert_eq!(text(cmd_set(&[good(), good(), RespValue::Null], &mut store, 0)), "-ERR invalid value\r\n");
    assert_eq!(text(cmd_set(&[good(), good(), good(), bad()], &mut store, 0)), "-ERR invalid option\r\n");
    assert_eq!(text(cmd_get(&[good(), bad()], &mut store, 0)), "-ERR invalid key\r\n");
    assert_eq!(text(cmd_exists(&[good(), bad()], &mut store, 0)), "-ERR invalid key\r\n");
    assert_eq!(text(cmd_ttl(&[good(), bad()], &mut store, 0)), "-ERR invalid key\r\n");
    assert_eq!(text(cmd_expire(&[good(), bad(), good()], &mut store, 0)), "-ERR invalid key\r\n");
    // Values need not be UTF-8.
    assert_eq!(text(cmd_set(&[good(), good(), bad()], &mut store, 0)), "+OK\r\n");
    assert_eq!(cmd_get(&[good(), good()], &mut store, 0), encode_bulk_string(&[0xff]));
}

#[test]
fn names_in_any_case() {
    let mut store = CacheStore::new();
    assert_eq!(run(&["sEt", "k", "v"], &mut store, 0), "+OK\r\n");
    assert_eq!(run(&["gEt", "k"], &mut store, 0), "$1\r\nv\r\n");
    // The long s has S as its upper case.
    assert_eq!(run(&["ſet", "k", "w"], &mut store, 0), "+OK\r\n");
    assert_eq!(run(&["GET", "k"], &mut store, 0), "$1\r\nw\r\n");
    // The dispatch itself takes names in upper case.
    let args = [RespValue::Null];
    assert_eq!(dispatch("ping", &args, &mut store, 0), b"-ERR unknown command\r\n");
    assert_eq!(dispatch("PING", &args, &mut store, 0), b"+PONG\r\n");
}

#[test]
fn values_are_told_apart() {
    let values = [
        RespValue::SimpleString("1".to_string()),
        RespValue::Error("1".to_string()),
        RespValue::Integer(1),
        RespValue::BulkString(b"1".to_vec()),
        RespValue::BulkString(b"".to_vec()),
        RespValue::Null,
        RespValue::Array(vec![]),
        RespValue::Array(vec![RespValue::Null]),
    ];
    let bytes: Vec<Vec<u8>> = values.iter().map(|v| encode_array(&[v.clone()])).collect();
    for (i, a) in bytes.iter().enumerate() {
        for (j, b) in bytes.iter().enumerate() {
            assert_eq!(a.starts_with(b), i == j);
        }
    }
}

#[test]
fn consumed_bytes_are_exact() {
    // Numbers need not be written as they are encoded.
    for input in [&b":+05\r\nrest"[..], b"+\r\n\r\n", b"$-7\r\n$", b"*2\r\n$01\r\nx\r\n*-1\r\n:1\r\n", b"$0\r\n\r\n\r\n"] {
        let (value, n) = match parse_resp(input) {
            ParseResult::Complete(value, n) => (value, n),
            other => panic!("expected a value, got {:?}", other),
        };
        assert!(3 <= n && n <= input.len());
        match parse_resp(&input[..n]) {
            ParseResult::Complete(v, m) => assert_eq!((v, m), (value, n)),
            other => panic!("expected the value, got {:?}", other),
        }
        for k in 0..n {
            assert!(matches!(parse_resp(&input[..k]), ParseResult::Incomplete));
        }
    }
}
