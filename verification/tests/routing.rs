use healing_cache::cluster::{ClusterConfig, NodeConfigEntry};
use healing_cache::gossip::message::{GossipMember, GossipMessage};
use healing_cache::gossip::state::MemberStatus;
use healing_cache::hashring::HashRing;
use healing_cache::health::HealthMonitor;
use healing_cache::messages::{
    DeleteRequest, DeleteResponse, GetRequest, GetResponse, HeartbeatRequest, SetRequest, SetResponse,
};
use healing_cache::node::{NodeId, NodeInfo};
use healing_cache::observer::RouterGossipClient;
use healing_cache::replication::config::ReplicationConfig;
use healing_cache::replication::coordinator::{
    CoordinatorError, DeleteRun, GetRun, Reply, ReplicationCoordinator, SetRun,
};
use healing_cache::router::{Route, RouteError, Router};

fn router(ids: &[u128], replication_factor: usize, max_retries: usize) -> Router {
    let mut ring = HashRing::new();
    for id in ids {
        ring.add_node(NodeInfo { id: NodeId(*id), addr: format!("addr-{}", id) });
    }
    let config = ReplicationConfig { replication_factor, max_retries };
    Router::new(ring, HealthMonitor::new(), ReplicationCoordinator::new(config))
}

fn kill(monitor: &mut HealthMonitor, id: u128) {
    for _ in 0..3 {
        monitor.record_failure(NodeId(id));
    }
}

fn preferred(router: &Router, key: &str) -> Vec<u128> {
    router
        .coordinator
        .alive_preference_list(&router.hash_ring, &router.health_monitor, key)
        .iter()
        .map(|n| n.id.0)
        .collect()
}

fn set_run(router: &Router, key: &str) -> SetRun {
    match router.set(key, b"v", Some(9), None) {
        Ok(Route::Replicated(run)) => run,
        _ => panic!("expected a replicated write"),
    }
}

fn get_run(router: &Router, key: &str) -> GetRun {
    match router.get(key, None) {
        Ok(Route::Replicated(run)) => run,
        _ => panic!("expected a replicated read"),
    }
}

fn delete_run(router: &Router, key: &str) -> DeleteRun {
    match router.delete(key, None) {
        Ok(Route::Replicated(run)) => run,
        _ => panic!("expected a replicated deletion"),
    }
}

fn found(value: &str) -> Reply<GetResponse> {
    Reply::Answered(GetResponse { value: Some(value.as_bytes().to_vec()), found: true })
}

fn not_found() -> Reply<GetResponse> {
    Reply::Answered(GetResponse { value: None, found: false })
}

#[test]
fn default_replication() {
    let config = ReplicationConfig::default();
    assert_eq!(config.replication_factor, 3);
    assert_eq!(config.max_retries, 1);
}

#[test]
fn dead_and_joining_nodes_are_skipped() {
    let mut router = router(&[1, 2, 3, 4, 5, 6], 3, 1);
    let all: Vec<u128> = router.hash_ring.get_preference_list("k", 5).iter().map(|n| n.id.0).collect();
    assert_eq!(preferred(&router, "k"), all[..3]);
    kill(&mut router.health_monitor, all[0]);
    router.health_monitor.mark_joining(NodeId(all[2]));
    assert_eq!(preferred(&router, "k"), [all[1], all[3], all[4]]);
    // Only two candidates more than the factor are looked at.
    kill(&mut router.health_monitor, all[1]);
    assert_eq!(preferred(&router, "k"), [all[3], all[4]]);
    // A suspect is still asked.
    router.health_monitor.record_failure(NodeId(all[3]));
    assert_eq!(preferred(&router, "k"), [all[3], all[4]]);
}

#[test]
fn a_factor_of_zero_has_no_replicas() {
    let router = router(&[1, 2, 3], 0, 1);
    assert!(preferred(&router, "k").is_empty());
    let e = router.set("k", b"v", Some(9), None).err().unwrap();
    assert_eq!(e, RouteError::Coordinator(CoordinatorError::NoNodesForWrite));
}

#[test]
fn nobody_to_ask() {
    let mut router = router(&[1, 2], 3, 1);
    kill(&mut router.health_monitor, 1);
    kill(&mut router.health_monitor, 2);
    let write = router.set("k", b"v", Some(9), None).err().unwrap();
    assert_eq!(write, RouteError::Coordinator(CoordinatorError::NoNodesForWrite));
    assert_eq!(write.message(), "No alive nodes available for write");
    let read = router.get("k", None).err().unwrap();
    assert_eq!(read.message(), "No alive nodes available for read");
    let delete = router.delete("k", None).err().unwrap();
    assert_eq!(delete.message(), "No alive nodes available for delete");
    assert_eq!(CoordinatorError::PrimaryWriteFailed.message(), "Primary write failed");
}

#[test]
fn explicit_targets() {
    let mut router = router(&[1, 2], 3, 1);
    match router.set("k", b"v", Some(9), Some(&NodeId(2))) {
        Ok(Route::Direct { addr, request }) => {
            assert_eq!(addr, "addr-2");
            assert_eq!((request.key.as_str(), request.value.as_slice(), request.ttl_ms), ("k", &b"v"[..], Some(9)));
        }
        _ => panic!("expected a direct write"),
    }
    match router.get("k", Some(&NodeId(1))) {
        Ok(Route::Direct { addr, request }) => {
            assert_eq!(addr, "addr-1");
            assert_eq!(request.key, "k");
        }
        _ => panic!("expected a direct read"),
    }
    let e = router.delete("k", Some(&NodeId(3))).err().unwrap();
    assert_eq!(e, RouteError::TargetNotFound);
    assert_eq!(e.message(), "target node not found in ring");
    let e = router.resolve_addr(None).unwrap_err();
    assert_eq!(e.message(), "resolve_addr called without target");
    router.hash_ring().remove_node(&NodeId(2));
    assert_eq!(router.set("k", b"v", Some(9), Some(&NodeId(2))).err().unwrap(), RouteError::TargetNotFound);
}

#[test]
fn a_write_succeeds_with_its_primary() {
    let router = router(&[1, 2, 3], 3, 1);
    let order = preferred(&router, "k");

    // The primary fails once and takes the write then; the others fail for good.
    let mut run = set_run(&router, "k");
    let mut asked = Vec::new();
    while let Some(node) = run.current() {
        asked.push(node.id.0);
        let reply = if asked.len() == 2 {
            Reply::Answered(SetResponse { success: true })
        } else if asked.len() % 2 == 1 {
            Reply::ConnectFailed
        } else {
            Reply::CallFailed
        };
        run.record(reply);
    }
    assert_eq!(asked, [order[0], order[0], order[1], order[1], order[2], order[2]]);
    assert!(run.finish().unwrap().success);

    // The others take it, the primary does not: an answer is not asked for again.
    let mut run = set_run(&router, "k");
    let mut asked = Vec::new();
    while let Some(node) = run.current() {
        asked.push(node.id.0);
        let success = asked.len() > 1;
        run.record(Reply::Answered(SetResponse { success }));
    }
    assert_eq!(asked, order);
    assert_eq!(run.finish().unwrap_err(), CoordinatorError::PrimaryWriteFailed);
}

#[test]
fn a_read_ends_with_the_first_that_has_the_key() {
    let router = router(&[1, 2, 3], 3, 1);
    let order = preferred(&router, "k");
    let mut run = get_run(&router, "k");
    assert_eq!(run.current().unwrap().id.0, order[0]);
    run.record(Reply::CallFailed);
    assert_eq!(run.current().unwrap().id.0, order[0]);
    run.record(not_found());
    assert_eq!(run.current().unwrap().id.0, order[1]);
    run.record(found("v"));
    assert!(run.current().is_none());
    let response = run.finish();
    assert!(response.found);
    assert_eq!(response.value, Some(b"v".to_vec()));

    let mut run = get_run(&router, "k");
    let mut tries = 0;
    while run.current().is_some() {
        run.record(if tries % 2 == 0 { Reply::ConnectFailed } else { not_found() });
        tries += 1;
    }
    assert_eq!(tries, 6);
    let response = run.finish();
    assert!(!response.found);
    assert!(response.value.is_none());
}

#[test]
fn a_deletion_asks_everyone() {
    let router = router(&[1, 2, 3], 3, 1);
    let order = preferred(&router, "k");
    let mut run = delete_run(&router, "k");
    let mut asked = Vec::new();
    let replies = vec![
        Reply::ConnectFailed, // not tried again
        Reply::CallFailed,
        Reply::Answered(DeleteResponse { deleted: true }),
        Reply::Answered(DeleteResponse { deleted: false }),
    ];
    for reply in replies {
        asked.push(run.current().unwrap().id.0);
        run.record(reply);
    }
    assert_eq!(asked, [order[0], order[1], order[1], order[2]]);
    assert!(run.current().is_none());
    assert!(run.finish().deleted);

    let mut run = delete_run(&router, "k");
    while run.current().is_some() {
        run.record(Reply::CallFailed);
    }
    assert!(!run.finish().deleted);
}

#[test]
fn without_retries_each_node_is_asked_once() {
    let router = router(&[1, 2], 2, 0);
    let order = preferred(&router, "k");
    let mut run = set_run(&router, "k");
    for id in &order {
        assert_eq!(run.current().unwrap().id.0, *id);
        run.record(Reply::CallFailed);
    }
    assert!(run.current().is_none());
    assert_eq!(run.finish().unwrap_err(), CoordinatorError::PrimaryWriteFailed);
    let mut run = get_run(&router, "k");
    for id in &order {
        assert_eq!(run.current().unwrap().id.0, *id);
        run.record(Reply::CallFailed);
    }
    assert!(run.current().is_none());
    assert!(!run.finish().found);
    let mut run = delete_run(&router, "k");
    for id in &order {
        assert_eq!(run.current().unwrap().id.0, *id);
        run.record(Reply::CallFailed);
    }
    assert!(run.current().is_none());
    assert!(!run.finish().deleted);
}

#[test]
fn a_failed_write_is_retried_once_by_default() {
    let node = vec![NodeInfo { id: NodeId(1), addr: "a".to_string() }];
    let mut run = SetRun::start(node, ReplicationConfig::default().max_retries, SetRequest::new("k", b"v", None)).unwrap_or_else(|_| panic!("one node"));
    run.record(Reply::CallFailed);
    assert_eq!(run.current().unwrap().id, NodeId(1));
    run.record(Reply::Answered(SetResponse { success: true }));
    assert!(run.current().is_none());
    assert!(run.finish().unwrap().success);
}

#[test]
fn configured_nodes() {
    let entry = |id: &str, addr: &str| NodeConfigEntry { id: id.to_string(), addr: addr.to_string() };
    let good = ClusterConfig {
        nodes: vec![
            entry("00000000-0000-0000-0000-000000000001", "a"),
            entry("00000000-0000-0000-0000-000000000002", "b"),
        ],
    };
    let infos = good.clone().to_node_infos();
    assert_eq!(infos.len(), 2);
    assert_eq!((infos[0].id, infos[0].addr.as_str()), (NodeId(1), "a"));
    assert_eq!((infos[1].id, infos[1].addr.as_str()), (NodeId(2), "b"));
    assert_eq!(good.checked_node_infos().unwrap().len(), 2);
    let bad = ClusterConfig { nodes: vec![entry("00000000-0000-0000-0000-000000000001", "a"), entry("two", "b")] };
    assert!(bad.checked_node_infos().is_none());
    assert!(ClusterConfig { nodes: vec![] }.checked_node_infos().unwrap().is_empty());
}

#[test]
fn the_router_follows_gossip() {
    let client = RouterGossipClient::new(vec!["s1".to_string(), "s2".to_string(), "s3".to_string()]);
    let mut ring = HashRing::new();
    let mut monitor = HealthMonitor::new();
    let member = |id: u128, status: i32| GossipMember {
        node_id: NodeId(id).to_string(),
        addr: format!("addr-{}", id),
        status,
        incarnation: 0,
        last_seen_ms: 0,
    };
    let mut hear = |members: Vec<GossipMember>, ring: &mut HashRing| {
        let response = GossipMessage { members, sender_id: "x".to_string() };
        client.apply_response(ring, &mut monitor, &response);
        [1, 2, 3].map(|id| monitor.is_alive(&NodeId(id)))
    };
    // New nodes are added, nodes that are joining are not.
    assert_eq!(hear(vec![member(1, 0), member(2, 0), member(3, 3)], &mut ring), [true, true, false]);
    let ids: Vec<u128> = ring.nodes().iter().map(|n| n.id.0).collect();
    assert_eq!(ids, [1, 2]);
    assert_eq!(ring.nodes()[0].addr, "addr-1");
    // Known nodes are not added again.
    hear(vec![member(1, 0)], &mut ring);
    assert_eq!(ring.nodes().len(), 2);
    // A suspect stays, a dead node is removed.
    assert_eq!(hear(vec![member(1, 1), member(2, 2)], &mut ring), [true, false, false]);
    let ids: Vec<u128> = ring.nodes().iter().map(|n| n.id.0).collect();
    assert_eq!(ids, [1]);
    // Once it has joined, a node is added.
    assert_eq!(hear(vec![member(3, 0)], &mut ring), [true, false, true]);
    assert!(ring.contains_node(&NodeId(3)));
    // Entries that cannot be read are passed over.
    let mut odd = member(9, 0);
    odd.node_id = "nonsense".to_string();
    hear(vec![odd, member(8, 7)], &mut ring);
    assert_eq!(ring.nodes().len(), 2);
}

#[test]
fn the_router_says_nothing_itself() {
    let client = RouterGossipClient::new(vec!["s1".to_string(), "s2".to_string(), "s3".to_string()]);
    let request = client.request();
    assert!(request.members.is_empty());
    assert_eq!(request.sender_id, "router");
    for _ in 0..50 {
        let targets = client.pick_targets();
        assert_eq!(targets.len(), 2);
        assert!(targets[0] < 3 && targets[1] < 3 && targets[0] != targets[1]);
    }
    assert_eq!(RouterGossipClient::new(vec!["s".to_string()]).pick_targets(), [0]);
    assert!(RouterGossipClient::new(vec![]).pick_targets().is_empty());
    let mut ring = HashRing::new();
    let mut monitor = HealthMonitor::new();
    client.note(&mut ring, &mut monitor, NodeId(4), &"addr-4".to_string(), MemberStatus::Alive);
    assert_eq!(ring.find_node(4).unwrap().addr, "addr-4");
}

#[test]
fn given_candidates() {
    let info = |id: u128| NodeInfo { id: NodeId(id), addr: format!("addr-{}", id) };
    let candidates = vec![info(5), info(3), info(9), info(1)];
    let mut monitor = HealthMonitor::new();
    let kept = |factor: usize, monitor: &HealthMonitor| -> Vec<u128> {
        let config = ReplicationConfig { replication_factor: factor, max_retries: 1 };
        ReplicationCoordinator::new(config).keep_alive(&candidates, monitor).iter().map(|n| n.id.0).collect()
    };
    assert_eq!(kept(2, &monitor), [5, 3]);
    assert!(kept(0, &monitor).is_empty());
    kill(&mut monitor, 5);
    monitor.mark_joining(NodeId(9));
    assert_eq!(kept(2, &monitor), [3, 1]);
    assert_eq!(kept(1, &monitor), [3]);
    assert_eq!(kept(9, &monitor), [3, 1]);
    assert!(kept(0, &monitor).is_empty());
}

#[test]
fn runs_on_given_nodes() {
    let nodes = || vec![NodeInfo { id: NodeId(1), addr: "a".to_string() }];
    assert_eq!(SetRun::start(vec![], 3, SetRequest::new("k", b"v", None)).err(), Some(CoordinatorError::NoNodesForWrite));
    assert_eq!(GetRun::start(vec![], 3, GetRequest::new("k")).err(), Some(CoordinatorError::NoNodesForRead));
    assert_eq!(DeleteRun::start(vec![], 3, DeleteRequest::new("k")).err(), Some(CoordinatorError::NoNodesForDelete));
    let mut set = SetRun::start(nodes(), 3, SetRequest::new("k", b"v", None)).unwrap_or_else(|_| panic!("one node"));
    for _ in 0..4 {
        assert_eq!(set.current().unwrap().addr, "a");
        set.record(Reply::CallFailed);
    }
    assert!(set.current().is_none());
    assert!(set.finish().is_err());
    let mut get = GetRun::start(nodes(), 1, GetRequest::new("k")).unwrap_or_else(|_| panic!("one node"));
    get.record(found("x"));
    assert_eq!(get.finish().value, Some(b"x".to_vec()));
    let mut delete = DeleteRun::start(nodes(), 1, DeleteRequest::new("k")).unwrap_or_else(|_| panic!("one node"));
    delete.record(Reply::Answered(DeleteResponse { deleted: true }));
    assert!(delete.finish().deleted);
}

#[test]
fn the_next_replica_takes_over() {
    let mut router = router(&[1, 2, 3, 4, 5], 3, 1);
    for i in 0..50 {
        let key = format!("key-{}", i);
        let before = preferred(&router, &key);
        // The owner of the key comes first.
        assert_eq!(before[0], router.hash_ring.get_node(&key).unwrap().id.0);
        kill(&mut router.health_monitor, before[0]);
        let after = preferred(&router, &key);
        assert_eq!(after[..2], before[1..]);
        router.health_monitor.mark_alive(NodeId(before[0]));
        assert_eq!(preferred(&router, &key), before);
    }
}

#[test]
fn every_replica_gets_the_request() {
    let router = router(&[1, 2, 3], 3, 1);
    let mut set = set_run(&router, "key");
    while set.current().is_some() {
        let request = set.request();
        assert_eq!((request.key.as_str(), request.value.as_slice(), request.ttl_ms), ("key", &b"v"[..], Some(9)));
        set.record(Reply::CallFailed);
    }
    let mut get = get_run(&router, "key");
    while get.current().is_some() {
        assert_eq!(get.request().key, "key");
        get.record(not_found());
    }
    let mut delete = delete_run(&router, "key");
    while delete.current().is_some() {
        assert_eq!(delete.request().key, "key");
        delete.record(Reply::ConnectFailed);
    }
    assert_eq!(HeartbeatRequest::new(&NodeId(1)).node_id, "00000000-0000-0000-0000-000000000001");
}
