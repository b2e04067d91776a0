//! The health of the nodes as the router sees it.
use std::collections::HashMap;
use vstd::prelude::*;
use vstd::std_specs::iter::IteratorSpec;
use crate::node::NodeId;

verus! {

broadcast use vstd::std_specs::hash::group_hash_axioms;

/// Health status of a node as seen by the router.
#[derive(Debug, Clone, Copy, PartialEq, Eq, Structural)]
pub enum NodeHealth {
    Alive,
    Suspect,
    Dead,
    Joining,
}

impl NodeHealth {
    /// The name of the status.
    pub fn to_string(&self) -> (s: String)
        ensures
            s@ == match *self {
                NodeHealth::Alive => "Alive"@,
                NodeHealth::Suspect => "Suspect"@,
                NodeHealth::Dead => "Dead"@,
                NodeHealth::Joining => "Joining"@,
            },
    {
        match self {
            NodeHealth::Alive => "Alive".to_string(),
            NodeHealth::Suspect => "Suspect".to_string(),
            NodeHealth::Dead => "Dead".to_string(),
            NodeHealth::Joining => "Joining".to_string(),
        }
    }
}

/// The health of one node, and how many heartbeats in a row it has missed.
#[derive(Clone, Copy)]
pub struct NodeHealthEntry {
    pub health: NodeHealth,
    pub consecutive_failures: u32,
}

/// The health of the nodes by identity.
pub type Healths = Map<u128, NodeHealthEntry>;

/// A node that answered.
pub open spec fn fresh(health: NodeHealth) -> NodeHealthEntry {
    NodeHealthEntry { health, consecutive_failures: 0 }
}

/// What is known of a node; one that is not known yet counts as Alive.
pub open spec fn known(m: Healths, id: u128) -> NodeHealthEntry {
    if m.contains_key(id) {
        m[id]
    } else {
        fresh(NodeHealth::Alive)
    }
}

/// A node that missed one more heartbeat: it turns Suspect, and Dead once it has missed as
/// many as the threshold.
pub open spec fn failed(entry: NodeHealthEntry, threshold: u32) -> NodeHealthEntry {
    let failures = if entry.consecutive_failures < u32::MAX {
        (entry.consecutive_failures + 1) as u32
    } else {
        u32::MAX
    };
    NodeHealthEntry {
        health: match entry.health {
            NodeHealth::Alive => NodeHealth::Suspect,
            NodeHealth::Joining => NodeHealth::Suspect,
            NodeHealth::Suspect => if failures >= threshold {
                NodeHealth::Dead
            } else {
                NodeHealth::Suspect
            },
            NodeHealth::Dead => NodeHealth::Dead,
        },
        consecutive_failures: failures,
    }
}

/// The health of the nodes after one of them missed a heartbeat.
pub open spec fn with_failure(m: Healths, id: u128, threshold: u32) -> Healths {
    m.insert(id, failed(known(m, id), threshold))
}

/// Requests go to the node: it is neither Dead nor Joining.
pub open spec fn routable(m: Healths, id: u128) -> bool {
    known(m, id).health != NodeHealth::Dead && known(m, id).health != NodeHealth::Joining
}

/// Tracks health of all cluster nodes.
pub struct HealthMonitor {
    nodes: HashMap<u128, NodeHealthEntry>,
    failure_threshold: u32,
}

impl View for HealthMonitor {
    type V = Healths;

    closed spec fn view(&self) -> Healths {
        self.nodes@
    }
}

impl HealthMonitor {
    /// Number of consecutive failures before escalating Suspect -> Dead.
    pub closed spec fn threshold(&self) -> u32 {
        self.failure_threshold
    }

    pub fn new() -> (monitor: Self)
        ensures
            monitor@ == Healths::empty(),
            monitor.threshold() == 3,
    {
        Self { nodes: HashMap::new(), failure_threshold: 3 }
    }

    pub fn with_failure_threshold(self, threshold: u32) -> (monitor: Self)
        ensures
            monitor@ == self@,
            monitor.threshold() == threshold,
    {
        Self { nodes: self.nodes, failure_threshold: threshold }
    }

    /// Record a successful heartbeat from a node.
    pub fn mark_alive(&mut self, node_id: NodeId)
        ensures
            final(self)@ == old(self)@.insert(node_id.0, fresh(NodeHealth::Alive)),
            final(self).threshold() == old(self).threshold(),
    {
        self.nodes.insert(node_id.0, NodeHealthEntry { health: NodeHealth::Alive, consecutive_failures: 0 });
    }

    /// Mark a node as Joining (during rebalance).
    pub fn mark_joining(&mut self, node_id: NodeId)
        ensures
            final(self)@ == old(self)@.insert(node_id.0, fresh(NodeHealth::Joining)),
            final(self).threshold() == old(self).threshold(),
    {
        self.nodes.insert(node_id.0, NodeHealthEntry { health: NodeHealth::Joining, consecutive_failures: 0 });
    }

    /// Record a failed heartbeat. Transitions: Alive->Suspect, Suspect->Dead (after threshold).
    pub fn record_failure(&mut self, node_id: NodeId)
        ensures
            final(self)@ == with_failure(old(self)@, node_id.0, old(self).threshold()),
            final(self).threshold() == old(self).threshold(),
    {
        let entry = match self.nodes.get(&node_id.0) {
            Some(entry) => *entry,
            None => NodeHealthEntry { health: NodeHealth::Alive, consecutive_failures: 0 },
        };
        let failures: u32 = if entry.consecutive_failures < u32::MAX {
            entry.consecutive_failures + 1
        } else {
            u32::MAX
        };
        let health = match entry.health {
            NodeHealth::Alive => NodeHealth::Suspect,
            // Joining nodes can also fail heartbeats, treat like Alive
            NodeHealth::Joining => NodeHealth::Suspect,
            NodeHealth::Suspect => if failures >= self.failure_threshold {
                NodeHealth::Dead
            } else {
                NodeHealth::Suspect
            },
            // Already dead, nothing to escalate to
            NodeHealth::Dead => NodeHealth::Dead,
        };
        self.nodes.insert(node_id.0, NodeHealthEntry { health, consecutive_failures: failures });
    }

    /// Record what a probe of a node gave: an answer, or none.
    pub fn record_probe(&mut self, node_id: NodeId, answered: bool)
        ensures
            final(self)@ == (if answered {
                old(self)@.insert(node_id.0, fresh(NodeHealth::Alive))
            } else {
                with_failure(old(self)@, node_id.0, old(self).threshold())
            }),
            final(self).threshold() == old(self).threshold(),
    {
        if answered {
            self.mark_alive(node_id);
        } else {
            self.record_failure(node_id);
        }
    }

    /// Check whether a node is considered alive (Alive or Suspect, not Dead or Joining).
    /// Unknown nodes are assumed alive.
    /// Joining nodes are excluded from routing to prevent writes during rebalance.
    pub fn is_alive(&self, node_id: &NodeId) -> (alive: bool)
        ensures
            alive == routable(self@, node_id.0),
    {
        match self.nodes.get(&node_id.0) {
            Some(entry) => entry.health != NodeHealth::Dead && entry.health != NodeHealth::Joining,
            None => true,
        }
    }

    /// Return all node IDs currently marked Dead.
    pub fn dead_nodes(&self) -> (dead: Vec<NodeId>)
        ensures
            dead@.no_duplicates(),
            forall|id: NodeId|
                dead@.contains(id) <==> self@.contains_key(id.0) && self@[id.0].health == NodeHealth::Dead,
    {
        let mut dead: Vec<NodeId> = Vec::new();
        let ghost all = self.nodes.iter().remaining();
        for pair in it: self.nodes.iter()
            invariant
                it.seq() == all,
                all == self.nodes.iter().remaining(),
                all.no_duplicates(),
                dead@.no_duplicates(),
                forall|id: NodeId| #[trigger]
                    dead@.contains(id) ==> self@.contains_key(id.0) && self@[id.0].health == NodeHealth::Dead
                        && exists|k: int| 0 <= k < it.index() && *(#[trigger] all[k]).0 == id.0,
                forall|k: int|
                    0 <= k < it.index() && (#[trigger] all[k]).1.health == NodeHealth::Dead ==> dead@.contains(
                        NodeId(*all[k].0),
                    ),
        {
            let (id, entry) = pair;
            assert(all[it.index()] == pair);
            assert(self.nodes@.contains_key(*all[it.index()].0));
            if entry.health == NodeHealth::Dead {
                let ghost before = dead@;
                let dead_id = NodeId(*id);
                assert(!before.contains(dead_id)) by {
                    if before.contains(dead_id) {
                        let k = choose|k: int| 0 <= k < it.index() && *(#[trigger] all[k]).0 == dead_id.0;
                        assert(self.nodes@[*all[k].0] == *all[k].1);
                        assert(self.nodes@[*all[it.index()].0] == *all[it.index()].1);
                        assert(all[k] == all[it.index()]);
                    }
                }
                dead.push(dead_id);
                proof {
                    assert(dead@[before.len() as int] == dead_id);
                    assert forall|x: NodeId| dead@.contains(x) <==> before.contains(x) || x == dead_id by {
                        if before.contains(x) {
                            assert(dead@[before.index_of(x)] == x);
                        }
                        if dead@.contains(x) && x != dead_id {
                            assert(before[dead@.index_of(x)] == x);
                        }
                    }
                    assert(self.nodes@[*all[it.index()].0] == *all[it.index()].1);
                    assert forall|x: NodeId| #[trigger] dead@.contains(x) implies self@.contains_key(x.0) && self@[x.0].health
                        == NodeHealth::Dead && exists|k: int| 0 <= k < it.index() + 1 && *(#[trigger] all[k]).0 == x.0 by {
                        if before.contains(x) {
                            let k = choose|k: int| 0 <= k < it.index() && *(#[trigger] all[k]).0 == x.0;
                            assert(*all[k].0 == x.0);
                        } else {
                            assert(*all[it.index()].0 == x.0);
                        }
                    }
                }
            }
        }
        proof {
            assert forall|id: NodeId| self@.contains_key(id.0) && self@[id.0].health == NodeHealth::Dead implies dead@.contains(
                id,
            ) by {
                assert(all.contains((&id.0, &self.nodes@[id.0])));
                let k = all.index_of((&id.0, &self.nodes@[id.0]));
                assert(all[k].1.health == NodeHealth::Dead);
            }
        }
        dead
    }

    /// Return a snapshot of all node health statuses, by the bits of the identities.
    pub fn all_health(&self) -> (healths: HashMap<u128, NodeHealth>)
        ensures
            healths@.dom() == self@.dom(),
            forall|id: u128| #[trigger] self@.contains_key(id) ==> healths@[id] == self@[id].health,
    {
        let mut healths: HashMap<u128, NodeHealth> = HashMap::new();
        let ghost all = self.nodes.iter().remaining();
        for pair in it: self.nodes.iter()
            invariant
                it.seq() == all,
                all == self.nodes.iter().remaining(),
                forall|id: u128| #[trigger]
                    healths@.contains_key(id) ==> self@.contains_key(id) && healths@[id] == self@[id].health,
                forall|k: int| 0 <= k < it.index() ==> healths@.contains_key(*(#[trigger] all[k]).0),
        {
            let (id, entry) = pair;
            assert(all[it.index()] == pair);
            assert(self.nodes@.contains_key(*all[it.index()].0));
            assert(self.nodes@[*all[it.index()].0] == *all[it.index()].1);
            healths.insert(*id, entry.health);
        }
        proof {
            assert forall|id: u128| self@.contains_key(id) implies healths@.contains_key(id) by {
                assert(all.contains((&id, &self.nodes@[id])));
                let k = all.index_of((&id, &self.nodes@[id]));
                assert(healths@.contains_key(*all[k].0));
            }
            assert(healths@.dom() =~= self@.dom());
        }
        healths
    }
}

impl Default for HealthMonitor {
    fn default() -> (monitor: Self)
        ensures
            monitor@ == Healths::empty(),
            monitor.threshold() == 3,
    {
        Self::new()
    }
}

/// A node that missed several heartbeats in a row.
pub open spec fn failed_times(entry: NodeHealthEntry, threshold: u32, n: nat) -> NodeHealthEntry
    decreases n,
{
    if n == 0 {
        entry
    } else {
        failed(failed_times(entry, threshold, (n - 1) as nat), threshold)
    }
}

/// Failures escalate: a node that was Alive is Suspect from the first missed heartbeat on, and
/// Dead from the one on that reaches the threshold, but never with the first. It stays Dead
/// however many follow. Of a node that was joining the same is true from the first on.
pub proof fn lemma_escalation(threshold: u32, n: nat)
    ensures
        failed_times(fresh(NodeHealth::Alive), threshold, n).health == (if n == 0 {
            NodeHealth::Alive
        } else if n == 1 || n < threshold {
            NodeHealth::Suspect
        } else {
            NodeHealth::Dead
        }),
        n <= u32::MAX ==> failed_times(fresh(NodeHealth::Alive), threshold, n).consecutive_failures == n,
        n > u32::MAX ==> failed_times(fresh(NodeHealth::Alive), threshold, n).consecutive_failures == u32::MAX,
        n >= 1 ==> failed_times(fresh(NodeHealth::Joining), threshold, n) == failed_times(
            fresh(NodeHealth::Alive),
            threshold,
            n,
        ),
    decreases n,
{
    if n > 0 {
        reveal_with_fuel(failed_times, 2);
        lemma_escalation(threshold, (n - 1) as nat);
    }
}

/// One answer makes up for every missed heartbeat: the node is routed to again.
pub proof fn lemma_recovery(m: Healths, id: u128)
    ensures
        routable(m.insert(id, fresh(NodeHealth::Alive)), id),
        !routable(m.insert(id, fresh(NodeHealth::Joining)), id),
        forall|other: u128| #![trigger routable(m, other)]
            other != id ==> routable(m.insert(id, fresh(NodeHealth::Alive)), other) == routable(m, other),
{
}

/// What one missed heartbeat does: it is counted, as far as the count goes; a node that was Alive,
/// Joining or unknown turns Suspect, one that was Suspect turns Dead if the count has reached the
/// threshold, and one that was Dead stays so. Others stay as they are.
pub proof fn lemma_one_failure(m: Healths, id: u128, threshold: u32, other: u128)
    requires
        other != id,
    ensures
        ({
            let after = with_failure(m, id, threshold);
            let health = if m.contains_key(id) { m[id].health } else { NodeHealth::Alive };
            let failures = if m.contains_key(id) { m[id].consecutive_failures as int } else { 0 };
            let count = after[id].consecutive_failures;
            &&& after.contains_key(id)
            &&& count == (if failures < u32::MAX { failures + 1 } else { failures })
            &&& health == NodeHealth::Alive || health == NodeHealth::Joining ==> after[id].health == NodeHealth::Suspect
            &&& health == NodeHealth::Suspect && count >= threshold ==> after[id].health == NodeHealth::Dead
            &&& health == NodeHealth::Suspect && count < threshold ==> after[id].health == NodeHealth::Suspect
            &&& health == NodeHealth::Dead ==> after[id].health == NodeHealth::Dead
            &&& after.contains_key(other) == m.contains_key(other)
            &&& m.contains_key(other) ==> after[other] == m[other]
        }),
{
}

/// A node is routed to unless it is known to be dead or joining.
pub proof fn lemma_routable(m: Healths, id: u128)
    ensures
        routable(m, id) <==> !(m.contains_key(id) && (m[id].health == NodeHealth::Dead || m[id].health
            == NodeHealth::Joining)),
{
}

/// A node that is heard of in a state has that state and no failures.
pub proof fn lemma_heard_of(m: Healths, id: u128, health: NodeHealth, other: u128)
    requires
        other != id,
    ensures
        m.insert(id, fresh(health))[id].health == health,
        m.insert(id, fresh(health))[id].consecutive_failures == 0,
        m.contains_key(other) ==> m.insert(id, fresh(health))[other] == m[other],
{
}

} // verus!
