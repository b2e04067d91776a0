use bytes::Bytes;
use dashmap::DashSet;
use healing_cache::cache::CacheStore;
use healing_cache::clock::{millis, secs};
use healing_cache::gossip::message::build_gossip_message;
use healing_cache::gossip::server::gossip_exchange;
use healing_cache::gossip::state::{MemberStatus, MembershipTable};
use healing_cache::hashring::HashRing;
use healing_cache::messages::{DeleteRequest, GetRequest, ReplicateRequest, SetRequest, TransferChunk};
use healing_cache::node::{NodeId, NodeInfo};
use healing_cache::rebalance::Rebalancer;
use healing_cache::service::{CacheServiceImpl, ServiceError};

fn node(id: NodeId, seeds: Vec<NodeInfo>) -> CacheServiceImpl {
    CacheServiceImpl::new(CacheStore::new(), MembershipTable::new(id, seeds), DashSet::new())
}

fn wait(store: &CacheStore, nanos: u128) {
    let start = store.now();
    while store.now() - start < nanos {}
}

fn set_request(key: &str, value: &str, ttl_ms: Option<u64>) -> SetRequest {
    SetRequest { key: key.to_string(), value: value.as_bytes().to_vec(), ttl_ms }
}

fn ring_of(ids: &[NodeId]) -> HashRing {
    let mut ring = HashRing::new();
    for id in ids {
        ring.add_node(NodeInfo { id: *id, addr: "127.0.0.1:0".to_string() });
    }
    ring
}

#[test]
fn test_transfer_keys_streaming() {
    let mut source = node(NodeId::new(), vec![]);
    // Populate source store with some keys
    source.store.set("key_a".into(), Bytes::from("val_a"), None);
    source.store.set("key_b".into(), Bytes::from("val_b"), Some(secs(300)));
    // This key is already expired
    source.store.set("key_expired".into(), Bytes::from("x"), Some(millis(1)));
    wait(&source.store, millis(10));

    // Create a target node and build a ring with both nodes
    let source_id = NodeId::new();
    let target_id = NodeId::new();
    let ring = ring_of(&[source_id, target_id]);

    let mut target_store = CacheStore::new();
    let rebalancer = Rebalancer::new(target_id);
    let count = rebalancer.pull_keys_from(&mut target_store, &ring, source.transfer_keys());
    // Exact count depends on hash ring assignment, but we know key_expired should be skipped
    assert!(count <= 2); // at most 2 (key_a and key_b, never key_expired)

    // Verify transferred keys exist in target store with correct values
    for key in &["key_a", "key_b"] {
        if let Some(owner) = ring.get_node(key) {
            if owner.id == target_id {
                let val = target_store.get(key).unwrap();
                assert_eq!(val, Bytes::from(format!("val_{}", &key[4..])));
            } else {
                assert!(target_store.get(key).is_none());
            }
        }
    }
}

#[test]
fn test_transfer_preserves_ttl() {
    let mut source = node(NodeId::new(), vec![]);
    // Set a key with 60s TTL
    source.store.set("ttl_key".into(), Bytes::from("data"), Some(secs(60)));

    let source_id = NodeId::new();
    // Draw identities until the key belongs to the target.
    let mut target_id = NodeId::new();
    let mut ring = ring_of(&[source_id, target_id]);
    while ring.get_node("ttl_key").unwrap().id != target_id {
        target_id = NodeId::new();
        ring = ring_of(&[source_id, target_id]);
    }

    let mut target_store = CacheStore::new();
    let rebalancer = Rebalancer::new(target_id);
    let count = rebalancer.pull_keys_from(&mut target_store, &ring, source.transfer_keys());
    assert_eq!(count, 1);

    // Check that the transferred key has approximately the same remaining TTL
    let remaining = target_store.ttl("ttl_key").unwrap();
    // Should be roughly 60s minus a small transfer delay
    assert!(remaining > secs(55));
    assert!(remaining <= secs(60));
}

#[test]
fn test_full_join_recover_cycle() {
    // 1. Nodes A and B stand alone (no seeds)
    // 2. 200 keys are written to A
    // 3. Node C is given A and B as seeds (C joins as Joining)
    // 4. C rejects writes while Joining
    // 5. 5 keys are deleted while C is joining (tombstone test)
    // 6. C transitions to Alive
    // 7. Deleted keys are absent, transferred keys present with correct values
    let a_id = NodeId::new();
    let b_id = NodeId::new();
    let c_id = NodeId::new();
    let mut a = node(a_id, vec![]);
    let b = node(b_id, vec![]);

    for i in 0..200 {
        let key = format!("key_{:03}", i);
        let value = format!("value_{:03}", i);
        let reply = a.set(set_request(&key, &value, Some(60_000))); // 60s TTL
        assert!(reply.unwrap().success);
    }

    // The seeds have identities that are drawn, as the real ones are not known yet.
    let seeds = vec![
        NodeInfo { id: NodeId::new(), addr: "127.0.0.1:5001".to_string() },
        NodeInfo { id: NodeId::new(), addr: "127.0.0.1:5002".to_string() },
    ];
    let mut c = node(c_id, seeds);
    assert!(c.membership_table.is_self_joining());

    // Writes to C are rejected while it is joining.
    assert_eq!(c.set(set_request("test_write", "data", None)).unwrap_err(), ServiceError::Unavailable);
    let replica = ReplicateRequest { key: "test_write".to_string(), value: b"data".to_vec(), ttl_ms: None };
    assert_eq!(c.replicate_write(replica).unwrap_err(), ServiceError::Unavailable);
    assert!(c.store.get("test_write").is_none());

    // The seeds are visible as routable peers, so there is a plan.
    let rebalancer = Rebalancer::new(c_id);
    let (peers, ring) = rebalancer.plan(&c.membership_table).unwrap();
    assert_eq!(peers.len(), 2);
    assert_eq!(rebalancer.sources(&peers).len(), 2);
    let from_a: Vec<TransferChunk> = a.transfer_keys();
    assert_eq!(from_a.len(), 200);

    // Keys are deleted while the transfer is under way.
    let keys_to_delete = vec!["key_010", "key_050", "key_100", "key_150", "key_199"];
    for key in &keys_to_delete {
        assert!(a.delete(DeleteRequest { key: key.to_string() }).deleted);
        c.delete(DeleteRequest { key: key.to_string() });
    }

    let mut count = rebalancer.pull_keys_from(&mut c.store, &ring, from_a);
    count += rebalancer.pull_keys_from(&mut c.store, &ring, b.transfer_keys());
    assert!(count > 0, "Expected some keys to be transferred to C");
    let applied = rebalancer.finish(&mut c.store, &c.tombstones, &mut c.membership_table);
    assert_eq!(applied, keys_to_delete.len());
    assert!(!c.membership_table.is_self_joining());
    assert!(c.membership_table.is_alive(&c_id));
    assert_eq!(c.membership_table.local_incarnation(), 1);

    // C accepts writes now.
    assert!(c.set(set_request("after_join", "works", None)).is_ok());

    // Deleted keys are absent; the others are there exactly if C owns them, with their values
    // and their times.
    for i in 0..200 {
        let key = format!("key_{:03}", i);
        let owned = ring.get_node(&key).unwrap().id == c_id;
        let found = c.get(&GetRequest { key: key.clone() });
        if owned && !keys_to_delete.contains(&key.as_str()) {
            assert_eq!(found.value, Some(format!("value_{:03}", i).into_bytes()));
            let remaining = c.store.ttl(&key).unwrap();
            assert!(remaining > secs(50), "TTL should be preserved: got {:?}", remaining);
            assert!(remaining <= secs(60), "TTL should not exceed original: got {:?}", remaining);
        } else {
            assert!(!found.found);
            assert!(found.value.is_none());
        }
    }

    // A hears of C and knows it as Alive.
    a.membership_table.merge(vec![(c_id, "127.0.0.1:5003".to_string(), MemberStatus::Joining, 0)]);
    assert!(!a.membership_table.is_alive(&c_id));
    let told = build_gossip_message(&c.membership_table);
    assert!(gossip_exchange(&mut a.membership_table, &told).is_some());
    assert!(a.membership_table.is_alive(&c_id));
}

#[test]
fn no_plan_without_routable_peers() {
    let id = NodeId(1);
    let rebalancer = Rebalancer::new(id);
    let mut table = MembershipTable::new(id, vec![]);
    assert!(rebalancer.plan(&table).is_none());
    table.merge(vec![(NodeId(2), "b".to_string(), MemberStatus::Joining, 0)]);
    assert!(rebalancer.plan(&table).is_none());
    table.merge(vec![(NodeId(3), "c".to_string(), MemberStatus::Alive, 0)]);
    let (peers, ring) = rebalancer.plan(&table).unwrap();
    assert_eq!(peers.len(), 1);
    assert_eq!(peers[0].id, NodeId(3));
    assert_eq!(peers[0].addr, "c");
    assert_eq!(ring.nodes().len(), 2);
    assert!(ring.contains_node(&id) && ring.contains_node(&NodeId(3)));
}

#[test]
fn a_node_does_not_pull_from_itself() {
    let rebalancer = Rebalancer::new(NodeId(1));
    let peers = vec![
        NodeInfo { id: NodeId(2), addr: "b".to_string() },
        NodeInfo { id: NodeId(1), addr: "a".to_string() },
        NodeInfo { id: NodeId(3), addr: "c".to_string() },
    ];
    let sources = rebalancer.sources(&peers);
    assert_eq!(sources.len(), 2);
    assert_eq!(sources[0].addr, "b");
    assert_eq!(sources[1].addr, "c");
    let request = rebalancer.transfer_request();
    assert_eq!(request.target_node_id, "00000000-0000-0000-0000-000000000001");
    assert!(request.key_prefixes.is_empty());
}

#[test]
fn only_owned_keys_are_pulled() {
    // Alone on its ring the node owns every key; on an empty ring, or one of others, none.
    let rebalancer = Rebalancer::new(NodeId(1));
    let chunk = |ms: Option<u64>| TransferChunk { key: "k".to_string(), value: b"v".to_vec(), expires_at_ms: ms };
    let mut store = CacheStore::new();
    assert_eq!(rebalancer.pull_keys_from(&mut store, &HashRing::new(), vec![chunk(None)]), 0);
    assert_eq!(rebalancer.pull_keys_from(&mut store, &ring_of(&[NodeId(2)]), vec![chunk(None)]), 0);
    assert!(store.get("k").is_none());
    // A chunk without time left is not stored, and does not count.
    assert_eq!(rebalancer.pull_keys_from(&mut store, &ring_of(&[NodeId(1)]), vec![chunk(Some(0))]), 0);
    assert!(store.get("k").is_none());
    assert_eq!(rebalancer.pull_keys_from_at(&mut store, &ring_of(&[NodeId(1)]), vec![chunk(Some(5))], 100), 1);
    assert_eq!(store.ttl_at("k", 100), Some(millis(5)));
    assert_eq!(store.get_at("k", 100).unwrap(), Bytes::from("v"));
}

#[test]
fn deletes_leave_tombstones_only_while_joining() {
    let mut standalone = node(NodeId(1), vec![]);
    standalone.set(set_request("k", "v", None)).unwrap();
    assert!(standalone.delete(DeleteRequest { key: "k".to_string() }).deleted);
    assert!(standalone.tombstones.is_empty());
    assert!(!standalone.delete(DeleteRequest { key: "k".to_string() }).deleted);
    assert!(standalone.heartbeat().ok);

    let mut joining = node(NodeId(1), vec![NodeInfo { id: NodeId(2), addr: "b".to_string() }]);
    assert!(!joining.delete(DeleteRequest { key: "k".to_string() }).deleted);
    assert!(joining.tombstones.contains("k"));
    assert_eq!(joining.tombstones.len(), 1);
    // A second delete of the same key leaves one tombstone.
    joining.delete(DeleteRequest { key: "k".to_string() });
    assert_eq!(joining.tombstones.len(), 1);
    assert_eq!(ServiceError::Unavailable.message(), "node is joining and does not accept writes");
}

#[test]
fn replicated_writes_are_writes() {
    let mut node = node(NodeId(1), vec![]);
    let req = ReplicateRequest { key: "k".to_string(), value: b"v".to_vec(), ttl_ms: Some(7) };
    assert!(node.replicate_write_at(req, 1_000).unwrap().success);
    let reply = node.get_at(&GetRequest { key: "k".to_string() }, 1_000);
    assert!(reply.found);
    assert_eq!(reply.value, Some(b"v".to_vec()));
    assert_eq!(node.store.ttl_at("k", 1_000), Some(millis(7)));
    assert!(!node.get_at(&GetRequest { key: "k".to_string() }, 1_000 + millis(7)).found);
}

#[test]
fn keys_of_others_are_refused() {
    let rebalancer = Rebalancer::new(NodeId(1));
    let mut store = CacheStore::new();
    let chunk = || TransferChunk { key: "k".to_string(), value: b"v".to_vec(), expires_at_ms: None };
    assert!(!rebalancer.accept_at(&mut store, chunk(), None, 0));
    assert!(!rebalancer.accept_at(&mut store, chunk(), Some(NodeId(2)), 0));
    assert!(store.get_at("k", 0).is_none());
    let mut expired = chunk();
    expired.expires_at_ms = Some(0);
    assert!(!rebalancer.accept_at(&mut store, expired, Some(NodeId(1)), 0));
    assert!(store.get_at("k", 0).is_none());
    assert!(rebalancer.accept_at(&mut store, chunk(), Some(NodeId(1)), 0));
    assert_eq!(store.get_at("k", 0).unwrap(), Bytes::from("v"));
}

#[test]
fn nodes_start_empty() {
    let alone = CacheServiceImpl::start(NodeId(1), vec![]);
    assert!(!alone.membership_table.is_self_joining());
    assert!(alone.tombstones.is_empty());
    assert_eq!(alone.store.len(), 0);
    let seeds = vec![NodeInfo { id: NodeId(2), addr: "b".to_string() }];
    let mut joining = CacheServiceImpl::start(NodeId(1), seeds);
    assert!(joining.membership_table.is_self_joining());
    assert!(joining.tombstones.is_empty());
    joining.delete(DeleteRequest { key: "k".to_string() });
    assert!(joining.tombstones.contains("k"));
}
