//! How the router follows the cluster: it listens to gossip without taking part.
use vstd::prelude::*;
use crate::chance::draw_below;
use crate::gossip::message::{status_of_code, GossipMember, GossipMessage};
use crate::gossip::state::MemberStatus;
use crate::hashring::{
    has_node, lemma_holder_owns, lemma_nodes_that_stay, lemma_nodes_without, lemma_vnodes_on_ring, nodes_without, owner,
    vnode_position, with_vnodes, without, HashRing, Positions,
};
use crate::health::{failed_times, fresh, known, routable, with_failure, HealthMonitor, Healths, NodeHealth};
use crate::node::{uuid_parsed, NodeId, NodeInfo, NodeView};

verus! {

/// Milliseconds between two rounds.
pub const OBSERVE_INTERVAL_MS: u64 = 1000;

/// How many nodes a round asks at most.
pub const OBSERVED_NODES: usize = 2;

/// What the router knows: the ring, with so many positions for each node, and the health of
/// the nodes, who die after so many failures.
pub struct Picture {
    pub positions: Positions,
    pub nodes: Seq<NodeView>,
    pub healths: Healths,
}

pub open spec fn picture(ring: HashRing, monitor: HealthMonitor) -> Picture {
    Picture { positions: ring.positions(), nodes: ring.node_list(), healths: monitor@ }
}

/// What the router knows after it heard the status of one node.
pub open spec fn noted(p: Picture, vnodes: nat, threshold: u32, node: NodeView, status: MemberStatus) -> Picture {
    match status {
        MemberStatus::Alive => {
            let healths = p.healths.insert(node.id, fresh(NodeHealth::Alive));
            if has_node(p.nodes, node.id) {
                Picture { healths, ..p }
            } else {
                Picture {
                    positions: with_vnodes(p.positions, node.id, vnodes),
                    nodes: p.nodes.push(node),
                    healths,
                }
            }
        },
        MemberStatus::Joining => Picture { healths: p.healths.insert(node.id, fresh(NodeHealth::Joining)), ..p },
        MemberStatus::Suspect => Picture { healths: with_failure(p.healths, node.id, threshold), ..p },
        MemberStatus::Dead => {
            let once = with_failure(p.healths, node.id, threshold);
            let twice = with_failure(once, node.id, threshold);
            let healths = with_failure(twice, node.id, threshold);
            if has_node(p.nodes, node.id) {
                Picture {
                    positions: without(p.positions, node.id),
                    nodes: nodes_without(p.nodes, node.id),
                    healths,
                }
            } else {
                Picture { healths, ..p }
            }
        },
    }
}

/// What the router knows after one entry of a message. Entries without an identity or a status
/// are passed over.
pub open spec fn observed_one(p: Picture, vnodes: nat, threshold: u32, member: GossipMember) -> Picture {
    match (uuid_parsed(member.node_id@), status_of_code(member.status)) {
        (Ok(id), Some(status)) => noted(p, vnodes, threshold, NodeView { id, addr: member.addr@ }, status),
        _ => p,
    }
}

/// What the router knows after several entries.
pub open spec fn observed(p: Picture, vnodes: nat, threshold: u32, members: Seq<GossipMember>) -> Picture
    decreases members.len(),
{
    if members.len() == 0 {
        p
    } else {
        observed_one(observed(p, vnodes, threshold, members.drop_last()), vnodes, threshold, members.last())
    }
}

/// RouterGossipClient is a passive observer that learns cluster membership
/// by periodically exchanging gossip with seed nodes.
pub struct RouterGossipClient {
    pub seed_addrs: Vec<String>,
}

impl RouterGossipClient {
    pub fn new(seed_addrs: Vec<String>) -> (client: Self)
        ensures
            client.seed_addrs == seed_addrs,
    {
        Self { seed_addrs }
    }

    /// Pick 1-2 random seed nodes, as far as there are so many: the numbers of their addresses.
    pub fn pick_targets(&self) -> (targets: Vec<usize>)
        ensures
            targets@.len() == (if 2 < self.seed_addrs@.len() {
                2
            } else {
                self.seed_addrs@.len()
            }),
            targets@.no_duplicates(),
            forall|k: int| 0 <= k < targets@.len() ==> 0 <= #[trigger] targets@[k] < self.seed_addrs@.len(),
    {
        draw_below(self.seed_addrs.len(), OBSERVED_NODES)
    }

    /// What the router sends: it has no members to share.
    pub fn request(&self) -> (msg: GossipMessage)
        ensures
            msg.members@.len() == 0,
            msg.sender_id@ == "router"@,
    {
        GossipMessage { members: Vec::new(), sender_id: "router".to_string() }
    }

    /// Takes in the status of one node.
    pub fn note(
        &self,
        ring: &mut HashRing,
        monitor: &mut HealthMonitor,
        node_id: NodeId,
        addr: &String,
        status: MemberStatus,
    )
        requires
            old(ring).wf(),
        ensures
            final(ring).wf(),
            final(ring).vnodes() == old(ring).vnodes(),
            final(monitor).threshold() == old(monitor).threshold(),
            picture(*final(ring), *final(monitor)) == noted(
                picture(*old(ring), *old(monitor)),
                old(ring).vnodes(),
                old(monitor).threshold(),
                (NodeView { id: node_id.0, addr: addr@ }),
                status,
            ),
    {
        match status {
            MemberStatus::Alive => {
                monitor.mark_alive(node_id);
                // Check if node is already in ring
                if !ring.contains_node(&node_id) {
                    ring.add_node(NodeInfo { id: node_id, addr: addr.clone() });
                }
            },
            MemberStatus::Joining => {
                // Mark as joining in health monitor to exclude from preference list
                monitor.mark_joining(node_id);
            },
            MemberStatus::Suspect => {
                monitor.record_failure(node_id);
            },
            MemberStatus::Dead => {
                // Mark as dead in health monitor
                monitor.record_failure(node_id);
                monitor.record_failure(node_id);
                monitor.record_failure(node_id);
                // Remove from ring if present
                if ring.contains_node(&node_id) {
                    ring.remove_node(&node_id);
                }
            },
        }
    }

    /// Process a response: update hash ring and health monitor.
    pub fn apply_response(&self, ring: &mut HashRing, monitor: &mut HealthMonitor, response: &GossipMessage)
        requires
            old(ring).wf(),
        ensures
            final(ring).wf(),
            final(ring).vnodes() == old(ring).vnodes(),
            final(monitor).threshold() == old(monitor).threshold(),
            picture(*final(ring), *final(monitor)) == observed(
                picture(*old(ring), *old(monitor)),
                old(ring).vnodes(),
                old(monitor).threshold(),
                response.members@,
            ),
    {
        let ghost start = picture(*ring, *monitor);
        let ghost members = response.members@;
        let mut i: usize = 0;
        assert(members.take(0) =~= Seq::<GossipMember>::empty());
        while i < response.members.len()
            invariant
                i <= members.len(),
                members == response.members@,
                ring.wf(),
                ring.vnodes() == old(ring).vnodes(),
                monitor.threshold() == old(monitor).threshold(),
                picture(*ring, *monitor) == observed(
                    start,
                    old(ring).vnodes(),
                    old(monitor).threshold(),
                    members.take(i as int),
                ),
            decreases members.len() - i,
        {
            let member = &response.members[i];
            assert(members.take(i + 1).drop_last() =~= members.take(i as int));
            assert(members.take(i + 1).last() == *member);
            if let Ok(node_id) = NodeId::parse(member.node_id.as_str()) {
                if let Some(status) = MemberStatus::from_code(member.status) {
                    self.note(ring, monitor, node_id, &member.addr, status);
                }
            }
            i += 1;
        }
        assert(members.take(i as int) =~= members);
    }
}

/// What the router hears decides where it routes: a node that is said to be alive is on the
/// ring and is routed to, one that is joining is not routed to, and one that is dead is off
/// the ring and, where three failures are enough, not routed to. Nothing changes for others.
pub proof fn lemma_noted(p: Picture, vnodes: nat, threshold: u32, node: NodeView, status: MemberStatus, other: u128)
    requires
        other != node.id,
    ensures
        ({
            let after = noted(p, vnodes, threshold, node, status);
            &&& status == MemberStatus::Alive ==> has_node(after.nodes, node.id) && routable(after.healths, node.id)
            &&& status == MemberStatus::Joining ==> !routable(after.healths, node.id) && after.nodes == p.nodes
            &&& status == MemberStatus::Dead ==> !has_node(after.nodes, node.id)
            &&& status == MemberStatus::Dead && threshold <= 3 ==> !routable(after.healths, node.id)
            &&& routable(after.healths, other) == routable(p.healths, other)
            &&& has_node(after.nodes, other) == has_node(p.nodes, other)
        }),
{
    let after = noted(p, vnodes, threshold, node, status);
    lemma_nodes_without(p.nodes, node.id, node.id);
    lemma_nodes_without(p.nodes, node.id, other);
    if status == MemberStatus::Alive && !has_node(p.nodes, node.id) {
        assert(after.nodes[p.nodes.len() as int] == node);
        if has_node(p.nodes, other) {
            let i = choose|i: int| 0 <= i < p.nodes.len() && (#[trigger] p.nodes[i]).id == other;
            assert(after.nodes[i].id == other);
        }
        if has_node(after.nodes, other) {
            let i = choose|i: int| 0 <= i < after.nodes.len() && (#[trigger] after.nodes[i]).id == other;
            assert(p.nodes[i].id == other);
        }
    }
}

/// A node that is heard to be alive, and was not known, gets its place: every one of its positions
/// is taken by it, so that a key there belongs to it, other positions stay as they are, and it
/// stands last among the nodes with its address.
pub proof fn lemma_new_node_placed(p: Picture, vnodes: nat, threshold: u32, node: NodeView, i: nat, at: u64)
    requires
        forall|k: int| 0 <= k < p.nodes.len() ==> (#[trigger] p.nodes[k]).id != node.id,
        i < vnodes,
    ensures
        ({
            let after = noted(p, vnodes, threshold, node, MemberStatus::Alive);
            let h = vnode_position(node.id, i);
            let own = exists|k: nat| k < vnodes && #[trigger] vnode_position(node.id, k) == at;
            &&& after.positions.contains_key(h)
            &&& after.positions[h] == node.id
            &&& owner(after.positions, h) == node.id
            &&& after.positions.contains_key(at) <==> p.positions.contains_key(at) || own
            &&& !own && p.positions.contains_key(at) ==> after.positions[at] == p.positions[at]
            &&& after.nodes == p.nodes.push(node)
        }),
{
    let h = vnode_position(node.id, i);
    lemma_vnodes_on_ring(p.positions, node.id, vnodes, h);
    lemma_vnodes_on_ring(p.positions, node.id, vnodes, at);
    assert(i < vnodes && vnode_position(node.id, i) == h);
    lemma_holder_owns(with_vnodes(p.positions, node.id, vnodes), h);
}

/// Only a new node that is alive, or a known one that is dead, changes the ring; a dead node loses
/// every position, and the others keep theirs and their order.
pub proof fn lemma_ring_otherwise(p: Picture, vnodes: nat, threshold: u32, node: NodeView, status: MemberStatus, at: u64)
    ensures
        ({
            let after = noted(p, vnodes, threshold, node, status);
            let known = exists|k: int| 0 <= k < p.nodes.len() && (#[trigger] p.nodes[k]).id == node.id;
            &&& status == MemberStatus::Joining || status == MemberStatus::Suspect || (status == MemberStatus::Alive && known)
                || (status == MemberStatus::Dead && !known) ==> after.positions == p.positions && after.nodes == p.nodes
            &&& status == MemberStatus::Dead && known ==> {
                &&& after.positions.contains_key(at) <==> p.positions.contains_key(at) && p.positions[at] != node.id
                &&& after.positions.contains_key(at) ==> after.positions[at] == p.positions[at]
                &&& after.nodes == p.nodes.filter(|n: NodeView| n.id != node.id)
            }
        }),
{
    lemma_nodes_that_stay(p.nodes, node.id);
}

/// What is heard of a node counts for its health: alive or joining it is as it is said, with no
/// failures; suspect it has failed once more, and dead three times more. Others stay as they are.
pub proof fn lemma_health_noted(p: Picture, vnodes: nat, threshold: u32, node: NodeView, status: MemberStatus, other: u128)
    requires
        other != node.id,
    ensures
        ({
            let after = noted(p, vnodes, threshold, node, status).healths;
            let was = known(p.healths, node.id);
            &&& after.contains_key(node.id)
            &&& status == MemberStatus::Alive ==> after[node.id].health == NodeHealth::Alive
                && after[node.id].consecutive_failures == 0
            &&& status == MemberStatus::Joining ==> after[node.id].health == NodeHealth::Joining
                && after[node.id].consecutive_failures == 0
            &&& status == MemberStatus::Suspect ==> after[node.id] == failed_times(was, threshold, 1)
            &&& status == MemberStatus::Dead ==> after[node.id] == failed_times(was, threshold, 3)
            &&& after.contains_key(other) == p.healths.contains_key(other)
            &&& after.contains_key(other) ==> after[other] == p.healths[other]
        }),
{
    reveal_with_fuel(failed_times, 4);
}

/// The entries of a message are taken in one after the other. One whose identity can be read and
/// whose status is a number from 0 to 3 is noted; any other changes nothing.
pub proof fn lemma_entries_in_turn(
    p: Picture,
    vnodes: nat,
    threshold: u32,
    members: Seq<GossipMember>,
    member: GossipMember,
)
    ensures
        observed(p, vnodes, threshold, Seq::empty()) == p,
        ({
            let before = observed(p, vnodes, threshold, members);
            let after = observed(p, vnodes, threshold, members.push(member));
            match uuid_parsed(member.node_id@) {
                Ok(id) => {
                    let node = NodeView { id, addr: member.addr@ };
                    &&& member.status == 0 ==> after == noted(before, vnodes, threshold, node, MemberStatus::Alive)
                    &&& member.status == 1 ==> after == noted(before, vnodes, threshold, node, MemberStatus::Suspect)
                    &&& member.status == 2 ==> after == noted(before, vnodes, threshold, node, MemberStatus::Dead)
                    &&& member.status == 3 ==> after == noted(before, vnodes, threshold, node, MemberStatus::Joining)
                    &&& member.status < 0 || member.status > 3 ==> after == before
                },
                Err(_) => after == before,
            }
        }),
{
    assert(members.push(member).drop_last() =~= members);
}

/// The picture is that of the ring and the monitor.
pub proof fn lemma_picture(ring: HashRing, monitor: HealthMonitor)
    ensures
        picture(ring, monitor).positions == ring.positions(),
        picture(ring, monitor).nodes == ring.node_list(),
        picture(ring, monitor).healths == monitor@,
{
}

} // verus!
