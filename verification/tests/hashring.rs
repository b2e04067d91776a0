use healing_cache::hashring::HashRing;
use healing_cache::node::{NodeId, NodeInfo};
use uuid::Uuid;

fn make_node(name: &str) -> NodeInfo {
    NodeInfo {
        id: NodeId(Uuid::new_v4().as_u128()),
        addr: format!("127.0.0.1:{}", name),
    }
}

#[test]
fn test_distribution_is_even() {
    let mut ring = HashRing::new();
    let nodes: Vec<NodeInfo> = (0..5).map(|i| make_node(&format!("500{}", i))).collect();
    for n in &nodes {
        ring.add_node(n.clone());
    }

    let mut counts = std::collections::HashMap::new();
    let total = 100_000;
    for i in 0..total {
        let key = format!("key-{}", i);
        let node = ring.get_node(&key).unwrap();
        *counts.entry(node.addr.clone()).or_insert(0) += 1;
    }

    println!("Distribution stats ({} keys, 5 nodes):", total);
    for (addr, count) in &counts {
        let pct = (*count as f64) / (total as f64) * 100.0;
        println!("  {}: {} keys ({:.1}%)", addr, count, pct);
    }

    // Each of 5 nodes should get 15-25% of keys
    for (_, count) in &counts {
        let pct = (*count as f64) / (total as f64) * 100.0;
        assert!(pct > 15.0 && pct < 25.0, "Distribution not even: {}%", pct);
    }
}

#[test]
fn test_add_node_minimal_reshuffle() {
    let mut ring = HashRing::new();
    let nodes: Vec<NodeInfo> = (0..5).map(|i| make_node(&format!("500{}", i))).collect();
    for n in &nodes {
        ring.add_node(n.clone());
    }

    // Map 100k keys to nodes
    let before: Vec<_> = (0..100_000)
        .map(|i| {
            let key = format!("key-{}", i);
            (key.clone(), ring.get_node(&key).unwrap().id.clone())
        })
        .collect();

    // Add a 6th node
    let new_node = make_node("5005");
    ring.add_node(new_node);

    // Check how many keys moved
    let mut moved = 0;
    for (key, old_node_id) in &before {
        let new_node_id = &ring.get_node(key).unwrap().id;
        if old_node_id != new_node_id {
            moved += 1;
        }
    }

    let move_pct = (moved as f64) / 100_000.0 * 100.0;
    println!("Keys moved after adding 6th node: {} ({:.1}%)", moved, move_pct);
    // Should move roughly 1/6 ≈ 16.7%, assert less than 25%
    assert!(move_pct < 25.0, "Too many keys moved: {}%", move_pct);
}

#[test]
fn test_preference_list_distinct_nodes() {
    let mut ring = HashRing::new();
    for i in 0..5 {
        ring.add_node(make_node(&format!("500{}", i)));
    }

    let prefs = ring.get_preference_list("test-key", 3);
    assert_eq!(prefs.len(), 3);
    // All should be distinct nodes
    let ids: std::collections::HashSet<_> = prefs.iter().map(|n| n.id.clone()).collect();
    assert_eq!(ids.len(), 3);
}

#[test]
fn test_remove_node() {
    let mut ring = HashRing::new();
    let node = make_node("5001");
    ring.add_node(node.clone());
    assert!(ring.contains_node(&node.id));
    ring.remove_node(&node.id);
    assert!(!ring.contains_node(&node.id));
}

#[test]
fn test_empty_ring() {
    let ring = HashRing::new();
    assert!(ring.get_node("any-key").is_none());
}
