use healing_cache::hashring::{HashRing, DEFAULT_VNODE_COUNT};
use healing_cache::node::{NodeId, NodeInfo};
use xxhash_rust::xxh3::xxh3_64;

fn info(n: u128) -> NodeInfo {
    NodeInfo { id: NodeId(n), addr: format!("127.0.0.1:{}", n) }
}

fn ring(ids: &[u128]) -> HashRing {
    let mut ring = HashRing::default();
    for id in ids {
        ring.add_node(info(*id));
    }
    ring
}

/// The owners of all positions clockwise from the key, by brute force.
fn walk(ids: &[u128], vnodes: usize, key: &str) -> Vec<u128> {
    let h = xxh3_64(key.as_bytes());
    let mut positions: Vec<(u64, u128)> = Vec::new();
    for id in ids {
        for i in 0..vnodes {
            let pos = xxh3_64(format!("{}-{}", NodeId(*id).to_string(), i).as_bytes());
            positions.push((pos.wrapping_sub(h), *id));
        }
    }
    positions.sort();
    let mut owners: Vec<u128> = Vec::new();
    for (_, id) in positions {
        if !owners.contains(&id) {
            owners.push(id);
        }
    }
    owners
}

#[test]
fn owners_are_met_clockwise() {
    let ids = [1, 2, 3, 4];
    let ring = ring(&ids);
    for i in 0..500 {
        let key = format!("key-{}", i);
        let owners = walk(&ids, DEFAULT_VNODE_COUNT, &key);
        assert_eq!(ring.get_node(&key).unwrap().id.0, owners[0]);
        for n in 0..6 {
            let list: Vec<u128> = ring.get_preference_list(&key, n).iter().map(|n| n.id.0).collect();
            // As many as asked for, at most all.
            assert_eq!(list, owners[..n.min(4)]);
        }
    }
}

#[test]
fn adding_moves_keys_to_the_new_node_alone() {
    let before = ring(&[1, 2, 3]);
    let after = ring(&[1, 2, 3, 4]);
    let mut moved = 0;
    for i in 0..2000 {
        let key = format!("key-{}", i);
        let (old, new) = (before.get_node(&key).unwrap().id, after.get_node(&key).unwrap().id);
        if old != new {
            assert_eq!(new, NodeId(4));
            moved += 1;
        }
    }
    assert!(moved > 0);
}

#[test]
fn removing_moves_keys_of_that_node_alone() {
    let mut ring = ring(&[1, 2, 3]);
    let before: Vec<u128> = (0..1000).map(|i| ring.get_node(&format!("key-{}", i)).unwrap().id.0).collect();
    let lists: Vec<Vec<u128>> = (0..1000)
        .map(|i| ring.get_preference_list(&format!("key-{}", i), 2).iter().map(|n| n.id.0).collect())
        .collect();
    ring.remove_node(&NodeId(2));
    for i in 0..1000 {
        let key = format!("key-{}", i);
        let now = ring.get_node(&key).unwrap().id.0;
        assert_ne!(now, 2);
        if before[i] != 2 {
            assert_eq!(now, before[i]);
        }
        if !lists[i].contains(&2) {
            let list: Vec<u128> = ring.get_preference_list(&key, 2).iter().map(|n| n.id.0).collect();
            assert_eq!(list, lists[i]);
        }
    }
    // A node that comes back finds its keys.
    ring.add_node(info(2));
    for i in 0..1000 {
        assert_eq!(ring.get_node(&format!("key-{}", i)).unwrap().id.0, before[i]);
    }
}

#[test]
fn nodes_are_kept_in_order() {
    let mut ring = ring(&[3, 1, 2, 1]);
    let ids: Vec<u128> = ring.nodes().iter().map(|n| n.id.0).collect();
    assert_eq!(ids, [3, 1, 2, 1]);
    ring.remove_node(&NodeId(1));
    let ids: Vec<u128> = ring.nodes().iter().map(|n| n.id.0).collect();
    assert_eq!(ids, [3, 2]);
    assert!(ring.contains_node(&NodeId(3)));
    assert!(!ring.contains_node(&NodeId(1)));
    assert_eq!(ring.find_node(2).unwrap().addr, "127.0.0.1:2");
    assert!(ring.find_node(1).is_none());
    ring.remove_node(&NodeId(9));
    assert_eq!(ring.nodes().len(), 2);
}

#[test]
fn rings_without_positions() {
    let mut ring = HashRing::with_vnode_count(0);
    ring.add_node(info(1));
    assert!(ring.get_node("k").is_none());
    assert!(ring.get_preference_list("k", 3).is_empty());
    assert!(ring.contains_node(&NodeId(1)));
    assert!(HashRing::new().get_preference_list("k", 3).is_empty());
    // A list of no nodes is empty on any ring.
    let mut some = HashRing::new();
    some.add_node(NodeInfo {
        id: NodeId::parse("11111111-1111-1111-1111-111111111111").unwrap(),
        addr: "127.0.0.1:5001".to_string(),
    });
    assert!(some.get_preference_list("test-key", 0).is_empty());
    assert!(some.preference_list_at(7, 0).is_empty());
    assert_eq!(some.get_preference_list("test-key", 1).len(), 1);
    let mut one = HashRing::with_vnode_count(1);
    one.add_node(info(1));
    one.add_node(info(2));
    for key in ["a", "b", "c", "d"] {
        assert_eq!(one.get_node(key).unwrap().id.0, walk(&[1, 2], 1, key)[0]);
    }
}

#[test]
fn identities_as_text() {
    let id = NodeId(0x0123_4567_89ab_cdef_0011_2233_4455_6677);
    assert_eq!(id.to_string(), "01234567-89ab-cdef-0011-223344556677");
    assert_eq!(NodeId::parse(&id.to_string()).unwrap(), id);
    assert_eq!(NodeId::parse("0123456789ABCDEF0011223344556677").unwrap(), id);
    assert_eq!(NodeId::from_uuid(5), NodeId(5));
    let e = NodeId::parse("nonsense").unwrap_err();
    assert!(e.text.contains("invalid"));
    let drawn = NodeId::new();
    assert_ne!(drawn, NodeId::default());
    assert_eq!((drawn.0 >> 76) & 15, 4);
    assert_eq!((drawn.0 >> 62) & 3, 2);
    assert_eq!(NodeId::parse(&drawn.to_string()).unwrap(), drawn);
}

#[test]
fn given_positions() {
    let mut ring = HashRing::new();
    ring.add_node_at(info(1), &[10, 30, u64::MAX]);
    ring.add_node_at(info(2), &[20, 40]);
    let owner = |ring: &HashRing, h: u64| ring.node_at(h).unwrap().id.0;
    assert_eq!(owner(&ring, 0), 1);
    assert_eq!(owner(&ring, 10), 1);
    assert_eq!(owner(&ring, 11), 2);
    assert_eq!(owner(&ring, 20), 2);
    assert_eq!(owner(&ring, 21), 1);
    assert_eq!(owner(&ring, 31), 2);
    assert_eq!(owner(&ring, 41), 1);
    assert_eq!(owner(&ring, u64::MAX), 1);
    let list = |ring: &HashRing, h: u64, n: usize| -> Vec<u128> {
        ring.preference_list_at(h, n).iter().map(|n| n.id.0).collect()
    };
    assert_eq!(list(&ring, 11, 2), [2, 1]);
    assert_eq!(list(&ring, 41, 5), [1, 2]);
    assert_eq!(list(&ring, 41, 1), [1]);
    // A position that is taken changes hands.
    ring.add_node_at(info(3), &[20]);
    assert_eq!(owner(&ring, 15), 3);
    assert_eq!(list(&ring, 15, 3), [3, 1, 2]);
    ring.remove_node(&NodeId(3));
    assert_eq!(owner(&ring, 15), 1);
    // Behind the last position the walk starts again.
    ring.remove_node(&NodeId(1));
    assert_eq!(owner(&ring, 41), 2);
    assert_eq!(list(&ring, 41, 2), [2]);
}

#[test]
fn joining_and_leaving_leaves_no_trace() {
    let mut ring = ring(&[1, 2, 3]);
    let before: Vec<u128> = (0..500).map(|i| ring.get_node(&format!("key-{}", i)).unwrap().id.0).collect();
    ring.add_node(info(4));
    ring.remove_node(&NodeId(4));
    for i in 0..500 {
        assert_eq!(ring.get_node(&format!("key-{}", i)).unwrap().id.0, before[i]);
    }
}
