use healing_cache::gossip::message::{
    build_gossip_message, build_gossip_message_at, read_members, GossipMember, GossipMessage,
};
use healing_cache::gossip::protocol::GossipProtocol;
use healing_cache::gossip::server::{exchange_reports, gossip_exchange};
use healing_cache::gossip::state::{MemberStatus, MembershipTable};
use healing_cache::clock::{millis, secs};
use healing_cache::node::{NodeId, NodeInfo};

const A: NodeId = NodeId(0xa);
const B: NodeId = NodeId(0xb);
const C: NodeId = NodeId(0xc);

fn info(id: NodeId, addr: &str) -> NodeInfo {
    NodeInfo { id, addr: addr.to_string() }
}

fn report(id: NodeId, status: MemberStatus, incarnation: u64) -> (NodeId, String, MemberStatus, u64) {
    (id, "addr".to_string(), status, incarnation)
}

fn standing(table: &MembershipTable, id: NodeId) -> Option<(MemberStatus, u64)> {
    table.all_members().iter().find(|e| e.info.id == id).map(|e| (e.status, e.incarnation))
}

fn last_seen(table: &MembershipTable, id: NodeId) -> u128 {
    table.all_members().iter().find(|e| e.info.id == id).unwrap().last_seen
}

#[test]
fn first_seed_gives_the_own_address() {
    let table = MembershipTable::new(A, vec![info(B, "b"), info(A, "a1"), info(A, "a2"), info(B, "b2")]);
    assert_eq!(table.local_addr(), "a1");
    assert_eq!(*table.local_id(), A);
    assert_eq!(table.all_members().len(), 2);
    // Of several seeds with one identity the last counts.
    let peers = table.alive_peers();
    assert_eq!(peers.len(), 1);
    assert_eq!(peers[0].info.addr, "b2");
    assert_eq!(MembershipTable::new(A, vec![info(B, "b")]).local_addr(), "");
}

#[test]
fn merging_twice_changes_nothing() {
    let mut table = MembershipTable::new(A, vec![info(B, "b")]);
    let reports = || vec![
        report(A, MemberStatus::Dead, 3),
        report(B, MemberStatus::Suspect, 0),
        report(C, MemberStatus::Joining, 2),
    ];
    table.merge_at(reports(), 100);
    assert_eq!(table.local_incarnation(), 4);
    assert_eq!(standing(&table, B), Some((MemberStatus::Suspect, 0)));
    assert_eq!(standing(&table, C), Some((MemberStatus::Joining, 2)));
    table.merge_at(reports(), 200);
    assert_eq!(table.local_incarnation(), 4);
    assert_eq!(standing(&table, B), Some((MemberStatus::Suspect, 0)));
    assert_eq!(last_seen(&table, C), 100);
}

#[test]
fn the_order_of_reports_does_not_matter() {
    let reports = vec![
        report(A, MemberStatus::Suspect, 5),
        report(A, MemberStatus::Dead, 2),
        report(B, MemberStatus::Dead, 1),
        report(B, MemberStatus::Alive, 2),
        report(C, MemberStatus::Joining, 0),
        report(C, MemberStatus::Alive, 0),
    ];
    let mut forth = MembershipTable::new(A, vec![info(B, "b")]);
    forth.merge_at(reports.clone(), 1);
    let mut back = MembershipTable::new(A, vec![info(B, "b")]);
    back.merge_at(reports.into_iter().rev().collect(), 1);
    for id in [A, B, C] {
        assert_eq!(standing(&forth, id), standing(&back, id));
    }
    assert_eq!(standing(&forth, A), Some((MemberStatus::Alive, 6)));
    assert_eq!(standing(&forth, B), Some((MemberStatus::Alive, 2)));
    assert_eq!(standing(&forth, C), Some((MemberStatus::Alive, 0)));
}

#[test]
fn older_reports_are_ignored() {
    let mut table = MembershipTable::new(A, vec![]);
    table.merge_at(vec![report(B, MemberStatus::Alive, 5)], 1);
    table.merge_at(vec![report(B, MemberStatus::Dead, 4)], 2);
    assert_eq!(standing(&table, B), Some((MemberStatus::Alive, 5)));
    // Nothing that is not an accusation changes what the node knows of itself.
    table.merge_at(vec![report(A, MemberStatus::Joining, 9)], 3);
    assert_eq!(standing(&table, A), Some((MemberStatus::Alive, 0)));
}

#[test]
fn accusations_without_an_answer() {
    let mut table = MembershipTable::new(A, vec![]);
    assert!(table.can_merge(&vec![report(A, MemberStatus::Dead, u64::MAX - 1)]));
    assert!(table.can_merge(&vec![report(A, MemberStatus::Alive, u64::MAX)]));
    assert!(table.can_merge(&vec![report(B, MemberStatus::Dead, u64::MAX)]));
    assert!(!table.can_merge(&vec![report(B, MemberStatus::Alive, 0), report(A, MemberStatus::Suspect, u64::MAX)]));
    let msg = GossipMessage {
        members: vec![GossipMember {
            node_id: A.to_string(),
            addr: String::new(),
            status: 2,
            incarnation: u64::MAX,
            last_seen_ms: 0,
        }],
        sender_id: B.to_string(),
    };
    assert!(gossip_exchange(&mut table, &msg).is_none());
    let protocol = GossipProtocol::new(A);
    assert!(!protocol.process_gossip_response(&mut table, &msg));
    assert!(!protocol.conclude_exchange(&mut table, &B, Some(msg)));
    assert_eq!(standing(&table, A), Some((MemberStatus::Alive, 0)));
}

#[test]
fn marks_apply_to_the_right_states() {
    let mut table = MembershipTable::new(A, vec![info(B, "b")]);
    assert!(!table.mark_suspect(&C));
    assert!(!table.mark_alive(&B, 7));
    assert!(table.mark_suspect(&B));
    assert!(table.mark_alive(&B, 7));
    assert_eq!(standing(&table, B), Some((MemberStatus::Alive, 7)));
    assert!(table.mark_suspect(&B));
    assert!(!table.mark_alive(&B, 6));
    assert!(table.mark_dead(&B));
    assert!(!table.mark_alive(&B, 9));
    assert_eq!(table.dead_nodes(), vec![B]);
    // A node that is joining is neither suspected nor declared dead.
    table.merge_at(vec![report(C, MemberStatus::Joining, 0)], 1);
    assert!(!table.mark_suspect(&C));
    assert!(!table.mark_dead(&C));
}

#[test]
fn touch_sets_the_time() {
    let mut table = MembershipTable::new(A, vec![info(B, "b")]);
    table.touch_at(&B, 77);
    assert_eq!(last_seen(&table, B), 77);
    table.touch_at(&C, 78);
    assert_eq!(table.all_members().len(), 2);
    let before = table.now();
    table.touch(&B);
    assert!(last_seen(&table, B) >= before);
}

#[test]
fn silence_leads_to_suspicion_and_death() {
    let mut table = MembershipTable::new(A, vec![info(B, "b")]);
    let protocol = GossipProtocol::new(A);
    table.touch_at(&B, 0);
    table.merge_at(vec![report(C, MemberStatus::Joining, 0)], 0);
    protocol.check_timeouts_at(&mut table, secs(3));
    assert_eq!(standing(&table, B), Some((MemberStatus::Alive, 0)));
    protocol.check_timeouts_at(&mut table, secs(3) + 1);
    assert_eq!(standing(&table, B), Some((MemberStatus::Suspect, 0)));
    protocol.check_timeouts_at(&mut table, secs(5));
    assert_eq!(standing(&table, B), Some((MemberStatus::Suspect, 0)));
    protocol.check_timeouts_at(&mut table, secs(5) + 1);
    assert_eq!(standing(&table, B), Some((MemberStatus::Dead, 0)));
    // Neither the node itself nor one that is joining is timed out.
    protocol.check_timeouts_at(&mut table, secs(1000));
    assert_eq!(standing(&table, C), Some((MemberStatus::Joining, 0)));
    assert!(!table.dead_nodes().contains(&A));
    assert!(!table.dead_nodes().contains(&C));
}

#[test]
fn one_check_takes_one_step() {
    let mut table = MembershipTable::new(A, vec![info(B, "b")]);
    let protocol = GossipProtocol::new(A);
    table.touch_at(&B, 0);
    protocol.check_timeouts_at(&mut table, secs(60));
    assert_eq!(standing(&table, B), Some((MemberStatus::Suspect, 0)));
    // A time that is still to come counts as no silence.
    table.mark_alive(&B, 0);
    table.touch_at(&B, secs(100));
    protocol.check_timeouts_at(&mut table, secs(60));
    assert_eq!(standing(&table, B), Some((MemberStatus::Alive, 0)));
    protocol.check_timeouts(&mut table);
}

#[test]
fn targets_are_active_peers() {
    let protocol = GossipProtocol::new(A);
    let mut table = MembershipTable::new(A, vec![]);
    assert!(protocol.pick_targets(&table).is_empty());
    table.merge_at(vec![report(B, MemberStatus::Dead, 0), report(NodeId(9), MemberStatus::Suspect, 0)], 0);
    assert!(protocol.pick_targets(&table).is_empty());
    for n in 0..5 {
        table.merge_at(vec![report(NodeId(100 + n), MemberStatus::Alive, 0)], 0);
    }
    table.merge_at(vec![report(C, MemberStatus::Joining, 0)], 0);
    let mut sizes = [0; 4];
    for _ in 0..200 {
        let targets = protocol.pick_targets(&table);
        assert!(1 <= targets.len() && targets.len() <= 3);
        sizes[targets.len()] += 1;
        for (i, t) in targets.iter().enumerate() {
            assert!(t.id == C || (100 <= t.id.0 && t.id.0 < 105));
            assert!(targets[..i].iter().all(|u| u.id != t.id));
        }
    }
    assert!(sizes[1] > 0 && sizes[2] > 0 && sizes[3] > 0);
}

#[test]
fn messages_tell_what_the_table_holds() {
    let mut table = MembershipTable::new(A, vec![info(B, "b")]);
    table.touch_at(&B, 0);
    table.mark_suspect(&B);
    let msg = build_gossip_message_at(&table, millis(1234) + 999_999);
    assert_eq!(msg.sender_id, "00000000-0000-0000-0000-00000000000a");
    assert_eq!(msg.members.len(), 2);
    let b = msg.members.iter().find(|m| m.node_id == B.to_string()).unwrap();
    assert_eq!(b.addr, "b");
    assert_eq!(b.status, 1);
    assert_eq!(b.incarnation, 0);
    assert_eq!(b.last_seen_ms, 1234);
    assert_eq!(build_gossip_message(&table).members.len(), 2);
    // What is read from it is what the table holds.
    let reports = read_members(&msg.members);
    for (id, addr, status, incarnation) in reports {
        let entry = table.all_members().into_iter().find(|e| e.info.id == id).unwrap();
        assert_eq!(entry.info.addr, addr);
        assert_eq!(entry.status, status);
        assert_eq!(entry.incarnation, incarnation);
    }
}

#[test]
fn status_numbers() {
    let all = [MemberStatus::Alive, MemberStatus::Suspect, MemberStatus::Dead, MemberStatus::Joining];
    for (i, status) in all.into_iter().enumerate() {
        assert_eq!(status.code(), i as i32);
        assert_eq!(MemberStatus::from_code(i as i32), Some(status));
    }
    assert_eq!(MemberStatus::from_code(4), None);
    assert_eq!(MemberStatus::from_code(-1), None);
    assert_eq!(MemberStatus::Alive.to_string(), "Alive");
    assert_eq!(MemberStatus::Suspect.to_string(), "Suspect");
    assert_eq!(MemberStatus::Dead.to_string(), "Dead");
    assert_eq!(MemberStatus::Joining.to_string(), "Joining");
}

#[test]
fn entries_that_cannot_be_read() {
    let member = |id: &str, status: i32| GossipMember {
        node_id: id.to_string(),
        addr: "x".to_string(),
        status,
        incarnation: 4,
        last_seen_ms: 0,
    };
    let reports = read_members(&vec![member("nonsense", 2), member(&B.to_string(), 17)]);
    // An identity that cannot be read is replaced by one that is drawn.
    assert_ne!(reports[0].0, reports[1].0);
    assert_eq!((reports[0].0 .0 >> 76) & 15, 4);
    assert_eq!(reports[0].2, MemberStatus::Dead);
    // A status that cannot be read counts as Alive.
    assert_eq!(reports[1].0, B);
    assert_eq!(reports[1].2, MemberStatus::Alive);
    assert_eq!(reports[1].3, 4);
}

#[test]
fn an_exchange_brings_agreement() {
    let mut a = MembershipTable::new(A, vec![]);
    let mut b = MembershipTable::new(B, vec![]);
    a.merge_at(vec![report(C, MemberStatus::Suspect, 3), report(NodeId(1), MemberStatus::Alive, 0)], 0);
    b.merge_at(vec![report(C, MemberStatus::Alive, 4), report(NodeId(2), MemberStatus::Dead, 1)], 0);
    // B wrongly holds A for dead.
    b.merge_at(vec![report(A, MemberStatus::Dead, 0)], 0);

    let protocol = GossipProtocol::new(A);
    let reply = gossip_exchange(&mut b, &protocol.build_gossip_message(&a)).unwrap();
    assert!(protocol.conclude_exchange(&mut a, &B, Some(reply)));
    for id in [C, NodeId(1), NodeId(2)] {
        assert_eq!(standing(&a, id), standing(&b, id));
        assert!(standing(&a, id).is_some());
    }
    assert_eq!(standing(&a, C), Some((MemberStatus::Alive, 4)));

    // A heard that it is called dead, and its answer is believed.
    assert_eq!(a.local_incarnation(), 1);
    gossip_exchange(&mut b, &protocol.build_gossip_message(&a)).unwrap();
    assert_eq!(standing(&b, A), Some((MemberStatus::Alive, 1)));
    // No answer changes nothing.
    assert!(protocol.conclude_exchange(&mut a, &B, None));
}

#[test]
fn senders_are_seen() {
    let mut table = MembershipTable::new(A, vec![info(B, "b")]);
    let reply = exchange_reports(&mut table, vec![], Some(B), 99);
    assert_eq!(last_seen(&table, B), 99);
    assert_eq!(reply.sender_id, A.to_string());
    exchange_reports(&mut table, vec![], None, 100);
    assert_eq!(last_seen(&table, B), 99);
    let protocol = GossipProtocol::new(A);
    let before = table.now();
    let answer = GossipMessage {
        members: vec![GossipMember {
            node_id: C.to_string(),
            addr: "c".to_string(),
            status: 0,
            incarnation: 0,
            last_seen_ms: 0,
        }],
        sender_id: B.to_string(),
    };
    assert!(protocol.conclude_exchange(&mut table, &B, Some(answer)));
    assert!(last_seen(&table, B) >= before);
    assert!(table.is_alive(&C));
    // A router's message carries no identity and no members.
    let msg = GossipMessage { members: vec![], sender_id: "router".to_string() };
    assert_eq!(gossip_exchange(&mut table, &msg).unwrap().members.len(), 3);
}

#[test]
fn two_merges_are_one() {
    let first = || vec![report(B, MemberStatus::Suspect, 1), report(A, MemberStatus::Dead, 0)];
    let second = || vec![report(B, MemberStatus::Alive, 2), report(C, MemberStatus::Joining, 0)];
    let mut twice = MembershipTable::new(A, vec![]);
    twice.merge_at(first(), 5);
    twice.merge_at(second(), 5);
    let mut once = MembershipTable::new(A, vec![]);
    once.merge_at(first().into_iter().chain(second()).collect(), 5);
    for id in [A, B, C] {
        assert_eq!(standing(&twice, id), standing(&once, id));
    }
    assert_eq!(last_seen(&twice, B), last_seen(&once, B));
}
