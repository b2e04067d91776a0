//! The rounds in which a node gossips and watches its peers.
use vstd::prelude::*;
use super::message::{all_read_as, build_gossip_message, elapsed, read_members, tells, GossipMessage};
use super::state::{
    all_answerable, answerable, kept_ids, lemma_listed_count, lists, merged, report_views, touched, MemberStatus, MemberView, Members,
    MembershipTable, ReportView,
};
use crate::chance::{draw_below, draw_between};
use crate::clock::{Clock, MAX_NANOS};
use crate::node::{NodeId, NodeInfo};

verus! {

/// Milliseconds between two rounds.
pub const GOSSIP_INTERVAL_MS: u64 = 1000;

/// Nanoseconds without a sign of life before a node is Suspect.
pub const SUSPECT_TIMEOUT: u128 = 3_000_000_000;

/// Nanoseconds without a sign of life before a Suspect is Dead.
pub const DEAD_TIMEOUT: u128 = 5_000_000_000;

/// How many peers a round goes to at most.
pub const MAX_FANOUT: usize = 3;

/// What a time without signs of life makes of a peer: Alive turns Suspect, and Suspect Dead.
pub open spec fn aged(entry: MemberView, now: u128) -> MemberView {
    let silent = elapsed(entry.last_seen, now);
    if entry.status == MemberStatus::Alive && silent > SUSPECT_TIMEOUT {
        MemberView { status: MemberStatus::Suspect, ..entry }
    } else if entry.status == MemberStatus::Suspect && silent > DEAD_TIMEOUT {
        MemberView { status: MemberStatus::Dead, ..entry }
    } else {
        entry
    }
}

/// The members once each but `local` has aged.
pub open spec fn timed_out(m: Members, local: u128, now: u128) -> Members {
    Map::new(|id: u128| m.contains_key(id), |id: u128| if id == local { m[id] } else { aged(m[id], now) })
}

/// The members `nodes` are peers that gossip goes to: each is Alive or Joining, and none
/// occurs twice.
pub open spec fn gossip_targets(nodes: Seq<NodeInfo>, m: Members, local: u128) -> bool {
    &&& forall|i: int|
        0 <= i < nodes.len() ==> {
            let node = (#[trigger] nodes[i])@;
            &&& node.id != local
            &&& m.contains_key(node.id)
            &&& m[node.id].node == node
            &&& m[node.id].status == MemberStatus::Alive || m[node.id].status == MemberStatus::Joining
        }
    &&& forall|i: int, j: int| 0 <= i < j < nodes.len() ==> (#[trigger] nodes[i])@.id != (#[trigger] nodes[j])@.id
}

pub open spec fn at_most(wanted: nat, available: nat) -> nat {
    if wanted < available {
        wanted
    } else {
        available
    }
}

/// The peers that gossip goes to: those that are Alive or Joining.
pub open spec fn active_peers(m: Members, local: u128) -> Set<u128> {
    kept_ids(
        m,
        |id: u128, s: MemberStatus| id != local && (s == MemberStatus::Alive || s == MemberStatus::Joining),
    )
}

/// What a response comes to: it is merged at a time that the clock showed, unless it accuses the local node at the
/// highest incarnation; in that case nothing changes.
pub open spec fn responded(
    msg: GossipMessage,
    m: Members,
    local: u128,
    clock: Clock,
    accepted: bool,
    after: Members,
) -> bool {
    exists|reports: Seq<ReportView>, now: u128| #[trigger]
        response_merged(msg, reports, now, m, local, accepted, after) && clock.shows(now)
}

/// What a response comes to, where `reports` is what it says and `now` the time.
pub open spec fn response_merged(
    msg: GossipMessage,
    reports: Seq<ReportView>,
    now: u128,
    m: Members,
    local: u128,
    accepted: bool,
    after: Members,
) -> bool {
    &&& now <= MAX_NANOS
    &&& all_read_as(msg.members@, reports)
    &&& accepted == all_answerable(local, reports)
    &&& after == (if accepted {
        merged(m, local, reports, now)
    } else {
        m
    })
}

/// The gossip of one node.
pub struct GossipProtocol {
    local_id: NodeId,
}

impl GossipProtocol {
    pub closed spec fn local(&self) -> u128 {
        self.local_id.0
    }

    pub fn new(local_id: NodeId) -> (protocol: Self)
        ensures
            protocol.local() == local_id.0,
    {
        Self { local_id }
    }

    /// Pick random peers to exchange gossip with: one to three, as far as there are so many.
    pub fn pick_targets(&self, table: &MembershipTable) -> (targets: Vec<NodeInfo>)
        requires
            table.wf(),
        ensures
            gossip_targets(targets@, table@, table.local()),
            active_peers(table@, table.local()).finite(),
            exists|wanted: nat|
                1 <= wanted <= 3 && targets@.len() == #[trigger] at_most(
                    wanted,
                    active_peers(table@, table.local()).len(),
                ),
    {
        let peers = table.alive_peers();
        let wanted = draw_between(1, MAX_FANOUT);
        let picks = draw_below(peers.len(), wanted);
        let mut targets: Vec<NodeInfo> = Vec::new();
        let mut i: usize = 0;
        while i < picks.len()
            invariant
                i <= picks@.len(),
                forall|k: int| 0 <= k < picks@.len() ==> 0 <= #[trigger] picks@[k] < peers@.len(),
                targets@.len() == i,
                forall|k: int| 0 <= k < i ==> (#[trigger] targets@[k])@ == peers@[picks@[k] as int]@.node,
            decreases picks@.len() - i,
        {
            assert(0 <= picks@[i as int] < peers@.len());
            targets.push(peers[picks[i]].info.clone());
            i += 1;
        }
        proof {
            let m = table@;
            assert forall|a: int, b: int| 0 <= a < b < targets@.len() implies (#[trigger] targets@[a])@.id != (
            #[trigger] targets@[b])@.id by {
                let (x, y) = (picks@[a] as int, picks@[b] as int);
                assert(x != y);
                if x < y {
                    assert(peers@[x]@.node.id != peers@[y]@.node.id);
                } else {
                    assert(peers@[y]@.node.id != peers@[x]@.node.id);
                }
            }
            assert forall|k: int| 0 <= k < targets@.len() implies {
                let node = (#[trigger] targets@[k])@;
                &&& node.id != table.local()
                &&& m.contains_key(node.id)
                &&& m[node.id].node == node
                &&& m[node.id].status == MemberStatus::Alive || m[node.id].status == MemberStatus::Joining
            } by {
                assert(0 <= picks@[k] < peers@.len());
                let e = peers@[picks@[k] as int]@;
                assert(m[e.node.id] == e);
            }
            let keep = |id: u128, s: MemberStatus|
                id != table.local() && (s == MemberStatus::Alive || s == MemberStatus::Joining);
            lemma_listed_count(peers@, m, keep);
            assert(active_peers(m, table.local()) =~= kept_ids(m, keep));
            assert(targets@.len() == at_most(wanted as nat, active_peers(m, table.local()).len()));
        }
        targets
    }

    /// Check for suspect/dead timeouts
    pub fn check_timeouts(&self, table: &mut MembershipTable)
        requires
            old(table).wf(),
        ensures
            final(table).wf(),
            final(table).local() == old(table).local(),
            final(table).spec_clock() == old(table).spec_clock(),
            exists|now: u128|
                now <= MAX_NANOS && old(table).spec_clock().shows(now) && #[trigger] timed_out(
                    old(table)@,
                    self.local(),
                    now,
                ) == final(table)@,
    {
        let now = table.now();
        self.check_timeouts_at(table, now);
    }

    /// Check for suspect/dead timeouts, at a given time.
    pub fn check_timeouts_at(&self, table: &mut MembershipTable, now: u128)
        requires
            old(table).wf(),
        ensures
            final(table).wf(),
            final(table).local() == old(table).local(),
            final(table).spec_clock() == old(table).spec_clock(),
            final(table)@ == timed_out(old(table)@, self.local(), now),
    {
        let ghost m = table@;
        let ghost want = timed_out(m, self.local(), now);
        let members = table.all_members();
        let mut i: usize = 0;
        while i < members.len()
            invariant
                i <= members@.len(),
                table.wf(),
                table.local() == old(table).local(),
                table.spec_clock() == old(table).spec_clock(),
                lists(members@, m, |id: u128, s: MemberStatus| true),
                want == timed_out(m, self.local(), now),
                table@.dom() == m.dom(),
                forall|k: int| 0 <= k < i ==> table@[(#[trigger] members@[k])@.node.id] == want[members@[k]@.node.id],
                forall|k: int| i <= k < members@.len() ==> table@[(#[trigger] members@[k])@.node.id] == members@[k]@,
            decreases members@.len() - i,
        {
            let member = &members[i];
            let ghost id = member@.node.id;
            let ghost before = table@;
            assert(members@[i as int]@ == m[id]);
            assert(m.contains_key(id));
            assert(table@.contains_key(id));
            assert(table@[id] == member@);
            if member.info.id != self.local_id {
                let silent: u128 = if now > member.last_seen {
                    now - member.last_seen
                } else {
                    0
                };
                match member.status {
                    MemberStatus::Alive => {
                        if silent > SUSPECT_TIMEOUT {
                            table.mark_suspect(&member.info.id);
                        }
                    },
                    MemberStatus::Joining => {
                        // Joining nodes also get monitored for heartbeats; one that falls
                        // silent stays Joining.
                        if silent > SUSPECT_TIMEOUT {
                            table.mark_suspect(&member.info.id);
                        }
                    },
                    MemberStatus::Suspect => {
                        if silent > DEAD_TIMEOUT {
                            table.mark_dead(&member.info.id);
                        }
                    },
                    MemberStatus::Dead => {},
                }
            }
            assert(table@[id] == want[id]);
            assert(table@.dom() =~= m.dom());
            assert forall|k: int| 0 <= k < members@.len() && k != i implies table@[(#[trigger] members@[k])@.node.id]
                == before[members@[k]@.node.id] by {
                if k < i {
                    assert(members@[k]@.node.id != members@[i as int]@.node.id);
                } else {
                    assert(members@[i as int]@.node.id != members@[k]@.node.id);
                }
            }
            i += 1;
        }
        assert forall|id: u128| #[trigger] m.contains_key(id) implies table@[id] == want[id] by {
            let k = choose|k: int| 0 <= k < members@.len() && (#[trigger] members@[k])@.node.id == id;
            assert(members@[k]@.node.id == id);
        }
        assert(table@ =~= want);
    }

    /// Build a GossipMessage from local membership table
    pub fn build_gossip_message(&self, table: &MembershipTable) -> (msg: GossipMessage)
        requires
            table.wf(),
        ensures
            exists|ids: Seq<u128>, now: u128|
                now <= MAX_NANOS && table.spec_clock().shows(now) && #[trigger] tells(msg, ids, table@, table.local(), now),
    {
        build_gossip_message(table)
    }

    /// Process a gossip response, merging remote state. A response that cannot be merged,
    /// because it accuses the local node at the highest incarnation, is refused.
    pub fn process_gossip_response(&self, table: &mut MembershipTable, response: &GossipMessage) -> (accepted: bool)
        requires
            old(table).wf(),
        ensures
            final(table).wf(),
            final(table).local() == old(table).local(),
            final(table).spec_clock() == old(table).spec_clock(),
            responded(
                *response,
                old(table)@,
                old(table).local(),
                old(table).spec_clock(),
                accepted,
                final(table)@,
            ),
    {
        let entries = read_members(&response.members);
        let now = table.now();
        let ghost reports = report_views(entries@);
        if !table.can_merge(&entries) {
            assert(response_merged(*response, reports, now, table@, table.local(), false, table@));
            return false;
        }
        table.merge_at(entries, now);
        assert(response_merged(*response, reports, now, old(table)@, table.local(), true, table@));
        true
    }

    /// One exchange of a round, given the answer of the peer, if it gave one: a peer that
    /// answered was seen, and what it said is merged. One that did not is left to the
    /// timeouts. Tells whether the answer, if any, could be merged.
    pub fn conclude_exchange(
        &self,
        table: &mut MembershipTable,
        target: &NodeId,
        response: Option<GossipMessage>,
    ) -> (accepted: bool)
        requires
            old(table).wf(),
        ensures
            final(table).wf(),
            final(table).local() == old(table).local(),
            final(table).spec_clock() == old(table).spec_clock(),
            match response {
                None => accepted && final(table)@ == old(table)@,
                Some(msg) => exists|seen_at: u128|
                    {
                        let seen = #[trigger] touched(old(table)@, target.0, seen_at);
                        &&& seen_at <= MAX_NANOS
                        &&& old(table).spec_clock().shows(seen_at)
                        &&& responded(msg, seen, old(table).local(), old(table).spec_clock(), accepted, final(table)@)
                    },
            },
    {
        match response {
            None => true,
            Some(msg) => {
                table.touch(target);
                self.process_gossip_response(table, &msg)
            },
        }
    }
}

/// A peer that falls silent is Suspect first and Dead later; until the first limit has passed
/// nothing changes, and neither does it for a node that is joining.
pub proof fn lemma_silent_peer(m: Members, local: u128, id: u128, now: u128, later: u128)
    requires
        id != local,
        m.contains_key(id),
    ensures
        m[id].status == MemberStatus::Alive && elapsed(m[id].last_seen, now) > SUSPECT_TIMEOUT ==> {
            let suspected = timed_out(m, local, now);
            &&& suspected[id] == (MemberView { status: MemberStatus::Suspect, ..m[id] })
            &&& elapsed(m[id].last_seen, later) > DEAD_TIMEOUT ==> timed_out(suspected, local, later)[id].status
                == MemberStatus::Dead
        },
        elapsed(m[id].last_seen, now) <= SUSPECT_TIMEOUT ==> timed_out(m, local, now)[id] == m[id],
        m[id].status == MemberStatus::Joining ==> timed_out(m, local, now)[id] == m[id],
{
}

/// Gossip goes to peers that are Alive or Joining, and to no others.
pub proof fn lemma_active_peers(m: Members, local: u128, id: u128, nodes: Seq<NodeInfo>, i: int)
    ensures
        active_peers(m, local).contains(id) <==> m.contains_key(id) && id != local && (m[id].status
            == MemberStatus::Alive || m[id].status == MemberStatus::Joining),
        gossip_targets(nodes, m, local) && 0 <= i < nodes.len() ==> {
            let node = nodes[i]@;
            &&& m.contains_key(node.id) && m[node.id].node == node && node.id != local
            &&& m[node.id].status == MemberStatus::Alive || m[node.id].status == MemberStatus::Joining
        },
        gossip_targets(nodes, m, local) ==> forall|a: int, b: int|
            0 <= a < nodes.len() && 0 <= b < nodes.len() && a != b ==> (#[trigger] nodes[a])@.id != (#[trigger] nodes[b])@.id,
{
    if gossip_targets(nodes, m, local) {
        assert forall|a: int, b: int|
            0 <= a < nodes.len() && 0 <= b < nodes.len() && a != b implies (#[trigger] nodes[a])@.id != (
        #[trigger] nodes[b])@.id by {
            if a > b {
                assert(nodes[b]@.id != nodes[a]@.id);
            }
        }
    }
}

/// A response is merged, unless it accuses the node at the highest incarnation there is.
pub proof fn lemma_response(
    msg: GossipMessage,
    reports: Seq<ReportView>,
    now: u128,
    m: Members,
    local: u128,
    accepted: bool,
    after: Members,
)
    requires
        response_merged(msg, reports, now, m, local, accepted, after),
    ensures
        all_read_as(msg.members@, reports),
        accepted ==> after == merged(m, local, reports, now),
        !accepted ==> after == m,
        !accepted <==> exists|i: int|
            {
                &&& 0 <= i < reports.len()
                &&& (#[trigger] reports[i]).node.id == local
                &&& reports[i].status == MemberStatus::Suspect || reports[i].status == MemberStatus::Dead
                &&& reports[i].incarnation == u64::MAX
            },
{
    if !accepted {
        let i = choose|i: int| 0 <= i < reports.len() && !answerable(local, #[trigger] reports[i]);
        assert(reports[i].node.id == local);
    } else {
        assert forall|i: int| 0 <= i < reports.len() implies !{
            &&& (#[trigger] reports[i]).node.id == local
            &&& reports[i].status == MemberStatus::Suspect || reports[i].status == MemberStatus::Dead
            &&& reports[i].incarnation == u64::MAX
        } by {
            assert(answerable(local, reports[i]));
        }
    }
}

/// The smaller of the two.
pub proof fn lemma_at_most(wanted: nat, available: nat)
    ensures
        at_most(wanted, available) <= wanted,
        at_most(wanted, available) <= available,
        at_most(wanted, available) == wanted || at_most(wanted, available) == available,
{
}

} // verus!
