use healing_cache::load::{
    chaos_interval, draw_operation, operation, split_workers, summarize, CacheRequest, LoadMetrics, Operation,
    LOAD_TTL_MS,
};
use healing_cache::resp::parser::{parse_resp, ParseResult};
use healing_cache::resp::value::RespValue;
use healing_cache::seeds::{parse_seed_addrs, seed_infos};

#[test]
fn rolls_stand_for_operations() {
    assert!(matches!(operation(0, 7, 1), Operation::Put { key, value } if key == "key_7" && value == "value_1"));
    assert!(matches!(operation(49, 0, 0), Operation::Put { .. }));
    assert!(matches!(operation(50, 10, 0), Operation::Get { key } if key == "key_10"));
    assert!(matches!(operation(89, 0, 0), Operation::Get { .. }));
    assert!(matches!(operation(90, 0, 0), Operation::Delete { key } if key == "key_0"));
    assert!(matches!(operation(99, 0, 0), Operation::Delete { .. }));
    assert!(
        matches!(operation(1, 0, u64::MAX), Operation::Put { value, .. } if value == "value_18446744073709551615")
    );
}

#[test]
fn operations_as_commands() {
    assert_eq!(
        operation(0, 42, 5).to_resp(),
        b"*3\r\n$3\r\nSET\r\n$6\r\nkey_42\r\n$7\r\nvalue_5\r\n"
    );
    assert_eq!(operation(60, 42, 5).to_resp(), b"*2\r\n$3\r\nGET\r\n$6\r\nkey_42\r\n");
    assert_eq!(operation(95, 42, 5).to_resp(), b"*2\r\n$3\r\nDEL\r\n$6\r\nkey_42\r\n");
    let bytes = operation(0, 42, 5).to_resp();
    match parse_resp(&bytes) {
        ParseResult::Complete(RespValue::Array(items), n) => {
            assert_eq!(n, bytes.len());
            assert_eq!(items[1], RespValue::BulkString(b"key_42".to_vec()));
        }
        other => panic!("expected a command, got {:?}", other),
    }
}

#[test]
fn operations_as_requests() {
    match operation(0, 1, 2).to_request() {
        CacheRequest::Put(r) => {
            assert_eq!(r.key, "key_1");
            assert_eq!(r.value, b"value_2");
            assert_eq!(r.ttl_ms, Some(LOAD_TTL_MS));
        }
        other => panic!("expected a write, got {:?}", other),
    }
    assert!(matches!(operation(70, 1, 2).to_request(), CacheRequest::Get(r) if r.key == "key_1"));
    assert!(matches!(operation(91, 1, 2).to_request(), CacheRequest::Delete(r) if r.key == "key_1"));
}

#[test]
fn drawn_operations_stay_in_the_key_space() {
    let mut kinds = [0; 3];
    let mut keys = [0; 2];
    for _ in 0..500 {
        let (kind, key) = match draw_operation(2) {
            Operation::Put { key, value } => {
                assert!(value.starts_with("value_"));
                (0, key)
            }
            Operation::Get { key } => (1, key),
            Operation::Delete { key } => (2, key),
        };
        kinds[kind] += 1;
        keys[if key == "key_0" { 0 } else { 1 }] += 1;
        assert!(key == "key_0" || key == "key_1");
    }
    assert!(kinds[0] > kinds[2] && kinds[1] > kinds[2] && kinds[2] > 0);
    assert!(keys[0] > 0 && keys[1] > 0);
}

#[test]
fn percentiles_of_latencies() {
    let mut metrics = LoadMetrics::new();
    assert_eq!(metrics.compute_percentiles(), (0, 0, 0));
    for i in (1..=100).rev() {
        metrics.record(Some(i));
    }
    assert_eq!(metrics.compute_percentiles(), (51, 100, 100));
    metrics.record_latency(1000);
    assert_eq!(metrics.compute_percentiles(), (51, 100, 1000));
    metrics.record(None);
    assert_eq!(metrics.summary(), (101, 100, 1));
    let mut one = LoadMetrics::new();
    one.record_success(3);
    assert_eq!(one.compute_percentiles(), (0, 0, 0));
    one.record_latency(3);
    assert_eq!(one.compute_percentiles(), (3, 3, 3));
}

#[test]
fn both_protocols_are_summed_up() {
    let mut grpc = LoadMetrics::new();
    let mut resp = LoadMetrics::new();
    grpc.record(Some(5));
    grpc.record(Some(4));
    resp.record(None);
    resp.record_failure();
    resp.record(Some(9));
    let summary = summarize(&mut grpc, &mut resp);
    assert_eq!((summary.total_ops, summary.successful, summary.failed), (5, 3, 2));
    assert_eq!(summary.grpc, (5, 5, 5));
    assert_eq!(summary.resp, (9, 9, 9));
    assert_eq!(summary.exit_code(), 1);
    let clean = summarize(&mut LoadMetrics::new(), &mut LoadMetrics::new());
    assert_eq!(clean.exit_code(), 0);
}

#[test]
fn workers_and_rounds() {
    assert_eq!(split_workers(7), (3, 4));
    assert_eq!(split_workers(0), (0, 0));
    assert_eq!(split_workers(20), (10, 10));
    assert_eq!(chaos_interval(60, 5), 12);
    assert_eq!(chaos_interval(7, 2), 3);
    assert_eq!(chaos_interval(1, 9), 0);
}

#[test]
fn seed_lists() {
    assert!(parse_seed_addrs("").is_empty());
    assert_eq!(parse_seed_addrs("a:1"), ["a:1"]);
    assert_eq!(parse_seed_addrs("a:1, b:2 ,,\u{a0}c:3\t"), ["a:1", "b:2", "c:3"]);
    // A field of white space alone is not empty before it is trimmed.
    assert_eq!(parse_seed_addrs("a,  ,b,"), ["a", "", "b"]);
    assert_eq!(parse_seed_addrs("\u{2003}ü x\u{3000}"), ["ü x"]);
    assert_eq!(parse_seed_addrs("\u{200b}a"), ["\u{200b}a"]);
    let infos = seed_infos(&parse_seed_addrs("a,b"));
    assert_eq!(infos.len(), 2);
    assert_eq!(infos[0].addr, "a");
    assert_eq!(infos[1].addr, "b");
    assert_ne!(infos[0].id, infos[1].id);
    assert_eq!((infos[0].id.0 >> 76) & 15, 4);
}

#[test]
fn trimming_agrees_with_the_standard_library() {
    for n in 0..=0x3100u32 {
        if let Some(c) = char::from_u32(n) {
            if c == ',' {
                continue;
            }
            let text = format!("{}x{}", c, c);
            assert_eq!(parse_seed_addrs(&text), [text.trim()]);
        }
    }
}
