use healing_cache::health::{HealthMonitor, NodeHealth};
use healing_cache::node::NodeId;

#[test]
fn test_mark_alive() {
    let mut monitor = HealthMonitor::new();
    let node_id = NodeId::new();

    monitor.mark_alive(node_id);
    assert!(monitor.is_alive(&node_id));

    let health = monitor.all_health();
    assert_eq!(health.get(&node_id.0), Some(&NodeHealth::Alive));
}

#[test]
fn test_mark_joining() {
    let mut monitor = HealthMonitor::new();
    let node_id = NodeId::new();

    monitor.mark_joining(node_id);
    // Joining nodes should NOT be considered alive for routing
    assert!(!monitor.is_alive(&node_id));

    let health = monitor.all_health();
    assert_eq!(health.get(&node_id.0), Some(&NodeHealth::Joining));
}

#[test]
fn test_joining_to_alive_transition() {
    let mut monitor = HealthMonitor::new();
    let node_id = NodeId::new();

    // Start as Joining
    monitor.mark_joining(node_id);
    assert!(!monitor.is_alive(&node_id));

    // Transition to Alive
    monitor.mark_alive(node_id);
    assert!(monitor.is_alive(&node_id));
}

#[test]
fn test_record_failure_escalation() {
    let mut monitor = HealthMonitor::new().with_failure_threshold(3);
    let node_id = NodeId::new();

    // Start as Alive
    monitor.mark_alive(node_id);
    assert!(monitor.is_alive(&node_id));

    // First failure -> Suspect
    monitor.record_failure(node_id);
    assert!(monitor.is_alive(&node_id)); // Suspect is still routable
    let health = monitor.all_health();
    assert_eq!(health.get(&node_id.0), Some(&NodeHealth::Suspect));

    // More failures -> Dead after threshold
    monitor.record_failure(node_id);
    monitor.record_failure(node_id);
    assert!(!monitor.is_alive(&node_id));
    let health = monitor.all_health();
    assert_eq!(health.get(&node_id.0), Some(&NodeHealth::Dead));
}

#[test]
fn test_unknown_node_assumed_alive() {
    let monitor = HealthMonitor::new();
    let unknown_node = NodeId::new();

    // Unknown nodes are assumed alive
    assert!(monitor.is_alive(&unknown_node));
}

#[test]
fn test_dead_nodes_list() {
    let mut monitor = HealthMonitor::new().with_failure_threshold(2);
    let node1 = NodeId::new();
    let node2 = NodeId::new();

    monitor.mark_alive(node1);
    monitor.mark_alive(node2);

    // Kill node1
    monitor.record_failure(node1);
    monitor.record_failure(node1);
    monitor.record_failure(node1);

    let dead = monitor.dead_nodes();
    assert_eq!(dead.len(), 1);
    assert!(dead.contains(&node1));
    assert!(!dead.contains(&node2));
}

#[test]
fn one_failure_never_kills() {
    let mut monitor = HealthMonitor::new().with_failure_threshold(1);
    let node = NodeId(7);
    monitor.record_failure(node);
    assert_eq!(monitor.all_health().get(&7), Some(&NodeHealth::Suspect));
    monitor.record_failure(node);
    assert_eq!(monitor.all_health().get(&7), Some(&NodeHealth::Dead));
    monitor.record_failure(node);
    assert_eq!(monitor.all_health().get(&7), Some(&NodeHealth::Dead));
}

#[test]
fn an_answer_revives() {
    let mut monitor = HealthMonitor::default();
    let node = NodeId(7);
    for _ in 0..5 {
        monitor.record_probe(node, false);
    }
    assert!(!monitor.is_alive(&node));
    monitor.record_probe(node, true);
    assert!(monitor.is_alive(&node));
    assert!(monitor.dead_nodes().is_empty());
    // The count of failures starts again.
    monitor.record_probe(node, false);
    monitor.record_probe(node, false);
    assert!(monitor.is_alive(&node));
    monitor.record_probe(node, false);
    assert!(!monitor.is_alive(&node));
}

#[test]
fn a_joining_node_that_fails_is_suspect() {
    let mut monitor = HealthMonitor::new();
    let node = NodeId(7);
    monitor.mark_joining(node);
    monitor.record_failure(node);
    assert_eq!(monitor.all_health().get(&7), Some(&NodeHealth::Suspect));
    assert!(monitor.is_alive(&node));
    monitor.record_failure(node);
    assert_eq!(monitor.all_health().get(&7), Some(&NodeHealth::Suspect));
    monitor.record_failure(node);
    assert_eq!(monitor.all_health().get(&7), Some(&NodeHealth::Dead));
}

#[test]
fn health_names() {
    assert_eq!(NodeHealth::Alive.to_string(), "Alive");
    assert_eq!(NodeHealth::Suspect.to_string(), "Suspect");
    assert_eq!(NodeHealth::Dead.to_string(), "Dead");
    assert_eq!(NodeHealth::Joining.to_string(), "Joining");
}
