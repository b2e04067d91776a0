use healing_cache::gossip::state::{MemberStatus, MembershipTable};
use healing_cache::node::{NodeId, NodeInfo};

#[test]
fn test_membership_initial() {
    let local_id = NodeId::parse("11111111-1111-1111-1111-111111111111").unwrap();
    let seeds = vec![
        NodeInfo {
            id: local_id.clone(),
            addr: "127.0.0.1:5001".to_string(),
        },
        NodeInfo {
            id: NodeId::parse("22222222-2222-2222-2222-222222222222").unwrap(),
            addr: "127.0.0.1:5002".to_string(),
        },
    ];

    let table = MembershipTable::new(local_id.clone(), seeds);

    // Node should start as Joining since seed nodes were provided
    assert!(table.is_self_joining());
    assert!(table.is_alive(&NodeId::parse("22222222-2222-2222-2222-222222222222").unwrap()));
    assert_eq!(table.alive_peers().len(), 1);  // peer is Alive, not including self
    assert_eq!(table.all_members().len(), 2);
}

#[test]
fn test_mark_suspect() {
    let local_id = NodeId::parse("11111111-1111-1111-1111-111111111111").unwrap();
    let peer_id = NodeId::parse("22222222-2222-2222-2222-222222222222").unwrap();
    let seeds = vec![
        NodeInfo {
            id: local_id.clone(),
            addr: "127.0.0.1:5001".to_string(),
        },
        NodeInfo {
            id: peer_id.clone(),
            addr: "127.0.0.1:5002".to_string(),
        },
    ];

    let mut table = MembershipTable::new(local_id.clone(), seeds);

    assert!(table.mark_suspect(&peer_id));
    assert!(!table.is_alive(&peer_id));

    // Can't mark suspect again (already suspect)
    assert!(!table.mark_suspect(&peer_id));
}

#[test]
fn test_mark_dead() {
    let local_id = NodeId::parse("11111111-1111-1111-1111-111111111111").unwrap();
    let peer_id = NodeId::parse("22222222-2222-2222-2222-222222222222").unwrap();
    let seeds = vec![
        NodeInfo {
            id: local_id.clone(),
            addr: "127.0.0.1:5001".to_string(),
        },
        NodeInfo {
            id: peer_id.clone(),
            addr: "127.0.0.1:5002".to_string(),
        },
    ];

    let mut table = MembershipTable::new(local_id, seeds);

    // Alive -> Dead directly
    assert!(table.mark_dead(&peer_id));
    assert!(!table.is_alive(&peer_id));
    assert_eq!(table.dead_nodes().len(), 1);

    // Can't mark dead again
    assert!(!table.mark_dead(&peer_id));
}

#[test]
fn test_refutation() {
    let local_id = NodeId::parse("11111111-1111-1111-1111-111111111111").unwrap();
    let peer_id = NodeId::parse("22222222-2222-2222-2222-222222222222").unwrap();
    let seeds = vec![
        NodeInfo {
            id: local_id.clone(),
            addr: "127.0.0.1:5001".to_string(),
        },
        NodeInfo {
            id: peer_id.clone(),
            addr: "127.0.0.1:5002".to_string(),
        },
    ];

    let mut table = MembershipTable::new(local_id.clone(), seeds);

    // Simulate a remote node suspecting us (incarnation 0)
    let remote_entries = vec![(
        local_id.clone(),
        "127.0.0.1:5001".to_string(),
        MemberStatus::Suspect,
        0,
    )];
    table.merge(remote_entries);

    // We should have refuted by bumping incarnation
    assert!(table.is_alive(&local_id));
    assert_eq!(table.local_incarnation(), 1);

    // Simulate another suspect with incarnation 1
    let remote_entries2 = vec![(
        local_id.clone(),
        "127.0.0.1:5001".to_string(),
        MemberStatus::Dead,
        1,
    )];
    table.merge(remote_entries2);

    // Should refute again
    assert!(table.is_alive(&local_id));
    assert_eq!(table.local_incarnation(), 2);
}

#[test]
fn test_merge_higher_incarnation() {
    let local_id = NodeId::parse("11111111-1111-1111-1111-111111111111").unwrap();
    let peer_id = NodeId::parse("22222222-2222-2222-2222-222222222222").unwrap();
    let seeds = vec![
        NodeInfo {
            id: local_id.clone(),
            addr: "127.0.0.1:5001".to_string(),
        },
        NodeInfo {
            id: peer_id.clone(),
            addr: "127.0.0.1:5002".to_string(),
        },
    ];

    let mut table = MembershipTable::new(local_id, seeds);

    // Remote says peer is Dead with incarnation 5 (we have incarnation 0)
    let remote_entries = vec![(
        peer_id.clone(),
        "127.0.0.1:5002".to_string(),
        MemberStatus::Dead,
        5,
    )];
    table.merge(remote_entries);

    assert!(!table.is_alive(&peer_id));
    assert_eq!(table.dead_nodes().len(), 1);
}

#[test]
fn test_merge_dead_wins() {
    let local_id = NodeId::parse("11111111-1111-1111-1111-111111111111").unwrap();
    let peer_id = NodeId::parse("22222222-2222-2222-2222-222222222222").unwrap();
    let seeds = vec![
        NodeInfo {
            id: local_id.clone(),
            addr: "127.0.0.1:5001".to_string(),
        },
        NodeInfo {
            id: peer_id.clone(),
            addr: "127.0.0.1:5002".to_string(),
        },
    ];

    let mut table = MembershipTable::new(local_id, seeds);

    // Local has peer as Alive, incarnation 0
    // Remote says peer is Dead, incarnation 0 (same)
    // Dead > Alive, so we should update
    let remote_entries = vec![(
        peer_id.clone(),
        "127.0.0.1:5002".to_string(),
        MemberStatus::Dead,
        0,
    )];
    table.merge(remote_entries);

    assert!(!table.is_alive(&peer_id));
    assert_eq!(table.dead_nodes().len(), 1);

    // Now test Suspect > Alive
    let local_id2 = NodeId::parse("33333333-3333-3333-3333-333333333333").unwrap();
    let peer_id2 = NodeId::parse("44444444-4444-4444-4444-444444444444").unwrap();
    let seeds2 = vec![
        NodeInfo {
            id: local_id2.clone(),
            addr: "127.0.0.1:5003".to_string(),
        },
        NodeInfo {
            id: peer_id2.clone(),
            addr: "127.0.0.1:5004".to_string(),
        },
    ];

    let mut table2 = MembershipTable::new(local_id2, seeds2);

    // Remote says peer is Suspect with same incarnation
    let remote_entries2 = vec![(
        peer_id2.clone(),
        "127.0.0.1:5004".to_string(),
        MemberStatus::Suspect,
        0,
    )];
    table2.merge(remote_entries2);

    // Peer should be suspect now
    assert!(!table2.is_alive(&peer_id2));
    assert_eq!(table2.dead_nodes().len(), 0);
}

#[test]
fn test_merge_joining_precedence() {
    let local_id = NodeId::parse("11111111-1111-1111-1111-111111111111").unwrap();
    let peer_id = NodeId::parse("22222222-2222-2222-2222-222222222222").unwrap();

    // Test Alive > Joining
    let seeds = vec![
        NodeInfo {
            id: local_id.clone(),
            addr: "127.0.0.1:5001".to_string(),
        },
    ];
    let mut table = MembershipTable::new(local_id.clone(), seeds);

    // Add peer as Joining
    table.merge(vec![(
        peer_id.clone(),
        "127.0.0.1:5002".to_string(),
        MemberStatus::Joining,
        0,
    )]);

    // Now remote says Alive at same incarnation
    table.merge(vec![(
        peer_id.clone(),
        "127.0.0.1:5002".to_string(),
        MemberStatus::Alive,
        0,
    )]);

    assert!(table.is_alive(&peer_id));

    // Test Dead > Joining
    let peer_id2 = NodeId::parse("33333333-3333-3333-3333-333333333333").unwrap();
    table.merge(vec![(
        peer_id2.clone(),
        "127.0.0.1:5003".to_string(),
        MemberStatus::Joining,
        0,
    )]);

    table.merge(vec![(
        peer_id2.clone(),
        "127.0.0.1:5003".to_string(),
        MemberStatus::Dead,
        0,
    )]);

    assert_eq!(table.dead_nodes().len(), 1);

    // Test Suspect > Joining
    let peer_id3 = NodeId::parse("44444444-4444-4444-4444-444444444444").unwrap();
    table.merge(vec![(
        peer_id3.clone(),
        "127.0.0.1:5004".to_string(),
        MemberStatus::Joining,
        0,
    )]);

    table.merge(vec![(
        peer_id3.clone(),
        "127.0.0.1:5004".to_string(),
        MemberStatus::Suspect,
        0,
    )]);

    assert!(!table.is_alive(&peer_id3));
}

#[test]
fn test_routable_peers_excludes_joining() {
    let local_id = NodeId::parse("11111111-1111-1111-1111-111111111111").unwrap();
    let peer_id1 = NodeId::parse("22222222-2222-2222-2222-222222222222").unwrap();
    let peer_id2 = NodeId::parse("33333333-3333-3333-3333-333333333333").unwrap();

    let seeds = vec![
        NodeInfo {
            id: local_id.clone(),
            addr: "127.0.0.1:5001".to_string(),
        },
    ];

    let mut table = MembershipTable::new(local_id.clone(), seeds);

    // Add one Alive and one Joining peer
    table.merge(vec![
        (peer_id1.clone(), "127.0.0.1:5002".to_string(), MemberStatus::Alive, 0),
        (peer_id2.clone(), "127.0.0.1:5003".to_string(), MemberStatus::Joining, 0),
    ]);

    // alive_peers should include both
    assert_eq!(table.alive_peers().len(), 2);

    // routable_peers should only include Alive
    let routable = table.routable_peers();
    assert_eq!(routable.len(), 1);
    assert_eq!(routable[0].info.id, peer_id1);
}

#[test]
fn test_joining_node_startup() {
    let local_id = NodeId::parse("11111111-1111-1111-1111-111111111111").unwrap();
    let peer_id = NodeId::parse("22222222-2222-2222-2222-222222222222").unwrap();

    // Node with seed nodes should start as Joining
    let seeds = vec![
        NodeInfo {
            id: peer_id.clone(),
            addr: "127.0.0.1:5002".to_string(),
        },
    ];

    let mut table = MembershipTable::new(local_id.clone(), seeds);
    assert!(table.is_self_joining());

    // Mark self as alive after rebalance
    table.mark_self_alive();
    assert!(!table.is_self_joining());
    assert!(table.is_alive(&local_id));
    assert_eq!(table.local_incarnation(), 1); // incarnation bumped
}

#[test]
fn test_standalone_node_startup() {
    let local_id = NodeId::parse("11111111-1111-1111-1111-111111111111").unwrap();

    // Node with no seeds should start as Alive
    let seeds = vec![];
    let table = MembershipTable::new(local_id.clone(), seeds);

    assert!(!table.is_self_joining());
    assert!(table.is_alive(&local_id));
}
