use healing_cache::cache::CacheStore;
use healing_cache::resp::commands::handle_command;
use healing_cache::resp::value::RespValue;

fn make_store() -> CacheStore {
    CacheStore::new()
}

fn array(parts: &[&str]) -> RespValue {
    RespValue::Array(
        parts
            .iter()
            .map(|s| RespValue::BulkString(s.as_bytes().to_vec()))
            .collect(),
    )
}

#[test]
fn test_ping() {
    let mut store = make_store();
    let cmd = array(&["PING"]);
    let resp = handle_command(&cmd, &mut store);
    assert_eq!(resp, b"+PONG\r\n");
}

#[test]
fn test_ping_with_message() {
    let mut store = make_store();
    let cmd = array(&["PING", "hello"]);
    let resp = handle_command(&cmd, &mut store);
    assert_eq!(resp, b"$5\r\nhello\r\n");
}

#[test]
fn test_set_and_get() {
    let mut store = make_store();
    let set_cmd = array(&["SET", "mykey", "myvalue"]);
    let resp = handle_command(&set_cmd, &mut store);
    assert_eq!(resp, b"+OK\r\n");

    let get_cmd = array(&["GET", "mykey"]);
    let resp = handle_command(&get_cmd, &mut store);
    assert_eq!(resp, b"$7\r\nmyvalue\r\n");
}

#[test]
fn test_set_with_ex() {
    let mut store = make_store();
    let set_cmd = array(&["SET", "k", "v", "EX", "10"]);
    let resp = handle_command(&set_cmd, &mut store);
    assert_eq!(resp, b"+OK\r\n");

    // TTL should be roughly 10 seconds
    let ttl_cmd = array(&["TTL", "k"]);
    let resp = handle_command(&ttl_cmd, &mut store);
    // Should be :10\r\n or :9\r\n
    let resp_str = String::from_utf8_lossy(&resp);
    assert!(resp_str.starts_with(':'));
}

#[test]
fn test_set_with_px() {
    let mut store = make_store();
    let set_cmd = array(&["SET", "k", "v", "PX", "5000"]);
    let resp = handle_command(&set_cmd, &mut store);
    assert_eq!(resp, b"+OK\r\n");
}

#[test]
fn test_get_missing() {
    let mut store = make_store();
    let get_cmd = array(&["GET", "nokey"]);
    let resp = handle_command(&get_cmd, &mut store);
    assert_eq!(resp, b"$-1\r\n");
}

#[test]
fn test_del_existing() {
    let mut store = make_store();
    handle_command(&array(&["SET", "k", "v"]), &mut store);
    let resp = handle_command(&array(&["DEL", "k"]), &mut store);
    assert_eq!(resp, b":1\r\n");
    assert_eq!(handle_command(&array(&["GET", "k"]), &mut store), b"$-1\r\n");
}

#[test]
fn test_del_missing() {
    let mut store = make_store();
    let resp = handle_command(&array(&["DEL", "nokey"]), &mut store);
    assert_eq!(resp, b":0\r\n");
}

#[test]
fn server_test_exists() {
    let mut store = make_store();
    handle_command(&array(&["SET", "k", "v"]), &mut store);
    assert_eq!(handle_command(&array(&["EXISTS", "k"]), &mut store), b":1\r\n");
    assert_eq!(
        handle_command(&array(&["EXISTS", "nokey"]), &mut store),
        b":0\r\n"
    );
}

#[test]
fn test_ttl_no_key() {
    let mut store = make_store();
    assert_eq!(handle_command(&array(&["TTL", "nokey"]), &mut store), b":-2\r\n");
}

#[test]
fn test_ttl_no_expiry() {
    let mut store = make_store();
    handle_command(&array(&["SET", "k", "v"]), &mut store);
    assert_eq!(handle_command(&array(&["TTL", "k"]), &mut store), b":-1\r\n");
}

#[test]
fn server_test_expire() {
    let mut store = make_store();
    handle_command(&array(&["SET", "k", "v"]), &mut store);
    assert_eq!(
        handle_command(&array(&["EXPIRE", "k", "60"]), &mut store),
        b":1\r\n"
    );
    // TTL should now be ~60
    let resp = handle_command(&array(&["TTL", "k"]), &mut store);
    let resp_str = String::from_utf8_lossy(&resp);
    assert!(resp_str.starts_with(':'));
}

#[test]
fn test_expire_missing_key() {
    let mut store = make_store();
    assert_eq!(
        handle_command(&array(&["EXPIRE", "nokey", "60"]), &mut store),
        b":0\r\n"
    );
}

#[test]
fn test_unknown_command() {
    let mut store = make_store();
    let resp = handle_command(&array(&["FOOBAR"]), &mut store);
    assert_eq!(resp, b"-ERR unknown command\r\n");
}

#[test]
fn test_case_insensitive() {
    let mut store = make_store();
    handle_command(&array(&["set", "k", "v"]), &mut store);
    let resp = handle_command(&array(&["get", "k"]), &mut store);
    assert_eq!(resp, b"$1\r\nv\r\n");
}

#[test]
fn test_wrong_arg_count() {
    let mut store = make_store();
    let resp = handle_command(&array(&["SET", "only_key"]), &mut store);
    assert!(String::from_utf8_lossy(&resp).contains("wrong number of arguments"));
}

#[test]
fn test_echo() {
    let mut store = make_store();
    let resp = handle_command(&array(&["ECHO", "hello"]), &mut store);
    assert_eq!(resp, b"$5\r\nhello\r\n");
}
