use bytes::Bytes;
use dashmap::DashSet;
use healing_cache::cache::CacheStore;
use healing_cache::connection::Step;
use healing_cache::gossip::state::MembershipTable;
use healing_cache::node::{NodeId, NodeInfo};
use healing_cache::rebalance::Rebalancer;
use healing_cache::resp::encoder::encode_array;
use healing_cache::resp::value::RespValue;
use healing_cache::service::CacheServiceImpl;

fn node(seeds: Vec<NodeInfo>) -> CacheServiceImpl {
    CacheServiceImpl::new(CacheStore::new(), MembershipTable::new(NodeId(1), seeds), DashSet::new())
}

fn joining() -> CacheServiceImpl {
    node(vec![NodeInfo { id: NodeId(2), addr: "b".to_string() }])
}

fn send(node: &mut CacheServiceImpl, parts: &[&str]) -> String {
    let items: Vec<RespValue> = parts.iter().map(|s| RespValue::BulkString(s.as_bytes().to_vec())).collect();
    let bytes = encode_array(&items);
    match node.step_at(&bytes, 0) {
        Step::Reply { response, consumed } => {
            assert_eq!(consumed, bytes.len());
            String::from_utf8(response).unwrap()
        }
        _ => panic!("expected a reply"),
    }
}

#[test]
fn connections_take_one_command_at_a_time() {
    let mut node = node(vec![]);
    let mut buf: Vec<u8> = Vec::new();
    buf.extend_from_slice(b"*3\r\n$3\r\nSET\r\n$1\r\nk\r\n$1\r\nv\r\n*2\r\n$3\r\nGET\r\n$1\r\nk\r\n*1");
    match node.step_at(&buf, 0) {
        Step::Reply { response, consumed } => {
            assert_eq!(response, b"+OK\r\n");
            assert_eq!(consumed, 27);
            buf.drain(..consumed);
        }
        _ => panic!("expected a reply"),
    }
    match node.step(&buf) {
        Step::Reply { response, consumed } => {
            assert_eq!(response, b"$1\r\nv\r\n");
            buf.drain(..consumed);
        }
        _ => panic!("expected a reply"),
    }
    assert!(matches!(node.step_at(&buf, 0), Step::Wait));
    assert!(matches!(node.step_at(b"", 0), Step::Wait));
    match node.step_at(b"hello\r\n", 0) {
        Step::Reject { response } => assert_eq!(response, b"-ERR unexpected byte: 0x68\r\n"),
        _ => panic!("expected a rejection"),
    }
}

#[test]
fn a_joining_node_takes_no_writes() {
    let mut node = joining();
    let refusal = "-ERR node is joining and does not accept writes\r\n";
    assert_eq!(send(&mut node, &["SET", "k", "v"]), refusal);
    assert_eq!(send(&mut node, &["set", "k", "v"]), refusal);
    assert_eq!(send(&mut node, &["GET", "k"]), "$-1\r\n");
    assert_eq!(send(&mut node, &["PING"]), "+PONG\r\n");
    assert_eq!(node.store.len_at(0), 0);
    assert!(node.tombstones.is_empty());

    // Once it has joined it takes them.
    Rebalancer::new(NodeId(1)).finish(&mut node.store, &node.tombstones, &mut node.membership_table);
    assert_eq!(send(&mut node, &["SET", "k", "v"]), "+OK\r\n");
    assert_eq!(send(&mut node, &["GET", "k"]), "$1\r\nv\r\n");
    assert_eq!(send(&mut node, &["DEL", "k"]), ":1\r\n");
    assert!(node.tombstones.is_empty());
}

#[test]
fn keys_deleted_while_joining_stay_deleted() {
    let mut node = joining();
    node.store.set_at("a".into(), Bytes::from("1"), None, 0);
    assert_eq!(send(&mut node, &["DEL", "a", "b"]), ":1\r\n");
    assert_eq!(node.tombstones.len(), 2);
    assert!(node.tombstones.contains("a") && node.tombstones.contains("b"));
    // A transfer brings the keys back, and the tombstones remove them.
    node.store.set_from_transfer_at("a".into(), Bytes::from("1"), None, 0);
    node.store.set_from_transfer_at("b".into(), Bytes::from("2"), None, 0);
    node.store.set_from_transfer_at("c".into(), Bytes::from("3"), None, 0);
    let applied = Rebalancer::new(NodeId(1)).apply_tombstones(&mut node.store, &node.tombstones);
    assert_eq!(applied, 2);
    assert!(node.store.get_at("a", 0).is_none());
    assert!(node.store.get_at("b", 0).is_none());
    assert_eq!(node.store.get_at("c", 0).unwrap(), Bytes::from("3"));
}

/// Feeds the input to a fresh node in chunks that end at the given places; gives what is written
/// and what is held at the end.
fn converse(input: &[u8], cuts: &[usize]) -> (Vec<u8>, Vec<u8>) {
    let mut node = node(vec![]);
    let (mut held, mut written) = (Vec::new(), Vec::new());
    let mut from = 0;
    for to in cuts.iter().copied().chain([input.len()]) {
        held.extend_from_slice(&input[from..to]);
        from = to;
        loop {
            match node.step_at(&held, 0) {
                Step::Wait => break,
                Step::Reply { response, consumed } => {
                    written.extend(response);
                    held.drain(..consumed);
                }
                Step::Reject { response } => {
                    written.extend(response);
                    held.clear();
                    break;
                }
            }
        }
    }
    (written, held)
}

#[test]
fn cuts_between_chunks_do_not_matter() {
    let input = b"*3\r\n$3\r\nSET\r\n$1\r\nk\r\n$1\r\nv\r\n*2\r\n$3\r\nGET\r\n$1\r\nk\r\n:+5\r\n*2\r\n$3\r\nDEL\r\n$1\r\nk\r\n*1\r\n$4\r\nPI";
    let replies = b"+OK\r\n$1\r\nv\r\n-ERR expected array (RESP command)\r\n:1\r\n";
    let rest = b"*1\r\n$4\r\nPI";
    for a in 0..=input.len() {
        for b in a..=input.len() {
            assert_eq!(converse(input, &[a, b]), (replies.to_vec(), rest.to_vec()));
        }
    }
    let single: Vec<usize> = (1..input.len()).collect();
    assert_eq!(converse(input, &single), (replies.to_vec(), rest.to_vec()));
}
