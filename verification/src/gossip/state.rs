//! The table in which a node keeps what it knows of the cluster.
use std::collections::HashMap;
use vstd::prelude::*;
use vstd::std_specs::iter::IteratorSpec;
use crate::clock::{Clock, MAX_NANOS};
use crate::node::{node_views, NodeId, NodeInfo, NodeView};

verus! {

broadcast use vstd::std_specs::hash::group_hash_axioms;

#[derive(Debug, Clone, Copy, PartialEq, Eq, Structural)]
pub enum MemberStatus {
    Alive,
    Suspect,
    Dead,
    Joining,
}

impl MemberStatus {
    /// The name of the status.
    pub fn to_string(&self) -> (s: String)
        ensures
            s@ == match *self {
                MemberStatus::Alive => "Alive"@,
                MemberStatus::Suspect => "Suspect"@,
                MemberStatus::Dead => "Dead"@,
                MemberStatus::Joining => "Joining"@,
            },
    {
        match self {
            MemberStatus::Alive => "Alive".to_string(),
            MemberStatus::Suspect => "Suspect".to_string(),
            MemberStatus::Dead => "Dead".to_string(),
            MemberStatus::Joining => "Joining".to_string(),
        }
    }

    /// The precedence at equal incarnations: Dead > Suspect > Alive > Joining.
    pub open spec fn spec_rank(self) -> int {
        match self {
            MemberStatus::Joining => 0,
            MemberStatus::Alive => 1,
            MemberStatus::Suspect => 2,
            MemberStatus::Dead => 3,
        }
    }

    fn rank(self) -> (r: u8)
        ensures
            r == self.spec_rank(),
    {
        match self {
            MemberStatus::Joining => 0,
            MemberStatus::Alive => 1,
            MemberStatus::Suspect => 2,
            MemberStatus::Dead => 3,
        }
    }
}

/// What is known of one member. `last_seen` counts nanoseconds on the clock of the table.
#[derive(Debug)]
pub struct MemberEntry {
    pub info: NodeInfo,
    pub status: MemberStatus,
    pub incarnation: u64,
    pub last_seen: u128,
}

/// The mathematical content of a [`MemberEntry`].
pub struct MemberView {
    pub node: NodeView,
    pub status: MemberStatus,
    pub incarnation: u64,
    pub last_seen: u128,
}

impl View for MemberEntry {
    type V = MemberView;

    open spec fn view(&self) -> MemberView {
        MemberView {
            node: self.info@,
            status: self.status,
            incarnation: self.incarnation,
            last_seen: self.last_seen,
        }
    }
}

impl Clone for MemberEntry {
    fn clone(&self) -> (copy: Self)
        ensures
            copy@ == self@,
    {
        MemberEntry {
            info: self.info.clone(),
            status: self.status,
            incarnation: self.incarnation,
            last_seen: self.last_seen,
        }
    }
}

/// What another node says of a member: its identity, address, status and incarnation.
pub type Report = (NodeId, String, MemberStatus, u64);

/// The mathematical content of a [`Report`].
pub struct ReportView {
    pub node: NodeView,
    pub status: MemberStatus,
    pub incarnation: u64,
}

pub open spec fn report_view(report: Report) -> ReportView {
    ReportView {
        node: NodeView { id: report.0.0, addr: report.1@ },
        status: report.2,
        incarnation: report.3,
    }
}

pub open spec fn report_views(reports: Seq<Report>) -> Seq<ReportView> {
    reports.map_values(|r: Report| report_view(r))
}

/// A table of members by identity.
pub type Members = Map<u128, MemberView>;

/// A report that takes the place of the entry: it has the higher incarnation, or the same
/// and a status of higher precedence.
pub open spec fn supersedes(report: ReportView, entry: MemberView) -> bool {
    report.incarnation > entry.incarnation || (report.incarnation == entry.incarnation && report.status.spec_rank()
        > entry.status.spec_rank())
}

/// A report that calls a node suspect or dead.
pub open spec fn accuses(report: ReportView) -> bool {
    report.status == MemberStatus::Suspect || report.status == MemberStatus::Dead
}

/// The members after one report. Of itself the node believes nothing: it answers a report
/// that it failed, unless it has outlived it, with a higher incarnation.
pub open spec fn merged_one(m: Members, local: u128, report: ReportView, now: u128) -> Members {
    if report.node.id == local {
        if accuses(report) && report.incarnation >= m[local].incarnation {
            m.insert(
                local,
                MemberView {
                    incarnation: (report.incarnation + 1) as u64,
                    status: MemberStatus::Alive,
                    ..m[local]
                },
            )
        } else {
            m
        }
    } else if !m.contains_key(report.node.id) || supersedes(report, m[report.node.id]) {
        m.insert(
            report.node.id,
            MemberView {
                node: report.node,
                status: report.status,
                incarnation: report.incarnation,
                last_seen: now,
            },
        )
    } else {
        m
    }
}

/// The members after several reports, one after the other.
pub open spec fn merged(m: Members, local: u128, reports: Seq<ReportView>, now: u128) -> Members
    decreases reports.len(),
{
    if reports.len() == 0 {
        m
    } else {
        merged_one(merged(m, local, reports.drop_last(), now), local, reports.last(), now)
    }
}

/// The report can be answered: an accusation of `local` leaves room for a higher incarnation.
pub open spec fn answerable(local: u128, report: ReportView) -> bool {
    report.node.id == local && accuses(report) ==> report.incarnation < u64::MAX
}

pub open spec fn all_answerable(local: u128, reports: Seq<ReportView>) -> bool {
    forall|i: int| 0 <= i < reports.len() ==> answerable(local, #[trigger] reports[i])
}

/// What a node starts from: the first of the seeds that is the node itself, or no address.
pub open spec fn self_node(local: u128, seeds: Seq<NodeView>) -> NodeView
    decreases seeds.len(),
{
    if seeds.len() == 0 {
        NodeView { id: local, addr: ""@ }
    } else if seeds[0].id == local {
        seeds[0]
    } else {
        self_node(local, seeds.skip(1))
    }
}

/// The members with the seeds other than `local` put in, as Alive.
pub open spec fn seeded(m: Members, local: u128, seeds: Seq<NodeView>, now: u128) -> Members
    decreases seeds.len(),
{
    if seeds.len() == 0 {
        m
    } else {
        let before = seeded(m, local, seeds.drop_last(), now);
        if seeds.last().id == local {
            before
        } else {
            before.insert(
                seeds.last().id,
                MemberView { node: seeds.last(), status: MemberStatus::Alive, incarnation: 0, last_seen: now },
            )
        }
    }
}

/// The members that a node starts with: itself, as Joining if there is anyone to join, and
/// the seeds.
pub open spec fn initial(local: u128, seeds: Seq<NodeView>, now: u128) -> Members {
    let me = MemberView {
        node: self_node(local, seeds),
        status: if seeds.len() > 0 { MemberStatus::Joining } else { MemberStatus::Alive },
        incarnation: 0,
        last_seen: now,
    };
    seeded(Map::empty().insert(local, me), local, seeds, now)
}

/// The members with another status for one of them.
pub open spec fn with_status(m: Members, id: u128, status: MemberStatus) -> Members {
    m.insert(id, MemberView { status, ..m[id] })
}

/// The members after one of them, if it is one, was seen.
pub open spec fn touched(m: Members, id: u128, now: u128) -> Members {
    if m.contains_key(id) {
        m.insert(id, MemberView { last_seen: now, ..m[id] })
    } else {
        m
    }
}

/// The members after the local node rose to Alive in a new incarnation.
pub open spec fn self_risen(m: Members, local: u128) -> Members {
    m.insert(
        local,
        MemberView { status: MemberStatus::Alive, incarnation: (m[local].incarnation + 1) as u64, ..m[local] },
    )
}

/// The entries list exactly the members that `keep` holds of, each once, in any order.
pub open spec fn lists(
    entries: Seq<MemberEntry>,
    m: Members,
    keep: spec_fn(u128, MemberStatus) -> bool,
) -> bool {
    &&& forall|i: int|
        0 <= i < entries.len() ==> {
            let id = (#[trigger] entries[i])@.node.id;
            m.contains_key(id) && entries[i]@ == m[id] && keep(id, m[id].status)
        }
    &&& forall|i: int, j: int|
        0 <= i < j < entries.len() ==> (#[trigger] entries[i])@.node.id != (#[trigger] entries[j])@.node.id
    &&& forall|id: u128| #[trigger]
        m.contains_key(id) && keep(id, m[id].status) ==> exists|i: int|
            0 <= i < entries.len() && (#[trigger] entries[i])@.node.id == id
}

/// The members that `keep` holds of.
pub open spec fn kept_ids(m: Members, keep: spec_fn(u128, MemberStatus) -> bool) -> Set<u128> {
    Set::new(|id: u128| m.contains_key(id) && keep(id, m[id].status))
}

/// A listing has as many entries as there are members to list.
pub proof fn lemma_listed_count(
    entries: Seq<MemberEntry>,
    m: Members,
    keep: spec_fn(u128, MemberStatus) -> bool,
)
    requires
        lists(entries, m, keep),
    ensures
        kept_ids(m, keep).finite(),
        kept_ids(m, keep).len() == entries.len(),
{
    let ids = entries.map_values(|e: MemberEntry| e@.node.id);
    assert(ids.no_duplicates()) by {
        assert forall|a: int, b: int| 0 <= a < ids.len() && 0 <= b < ids.len() && a != b implies ids[a] != ids[b] by {
            if a < b {
                assert(entries[a]@.node.id != entries[b]@.node.id);
            } else {
                assert(entries[b]@.node.id != entries[a]@.node.id);
            }
        }
    }
    assert(ids.to_set() =~= kept_ids(m, keep)) by {
        assert forall|id: u128| kept_ids(m, keep).contains(id) implies ids.contains(id) by {
            assert(m.contains_key(id));
            let i = choose|i: int| 0 <= i < entries.len() && (#[trigger] entries[i])@.node.id == id;
            assert(ids[i] == id);
        }
        assert forall|id: u128| ids.contains(id) implies kept_ids(m, keep).contains(id) by {
            let i = ids.index_of(id);
            assert(entries[i]@.node.id == id);
        }
    }
    ids.unique_seq_to_set();
    vstd::seq_lib::seq_to_set_is_finite(ids);
}

/// The members of the cluster as one of them, the local node, knows them.
pub struct MembershipTable {
    members: HashMap<u128, MemberEntry>,
    local_id: NodeId,
    clock: Clock,
}

impl View for MembershipTable {
    type V = Members;

    closed spec fn view(&self) -> Members {
        Map::new(|id: u128| self.members@.contains_key(id), |id: u128| self.members@[id]@)
    }
}

/// Which members a listing keeps.
enum Selection {
    All,
    Active,
    Routable,
    Dead,
}

spec fn selects(selection: Selection, local: u128, id: u128, status: MemberStatus) -> bool {
    match selection {
        Selection::All => true,
        Selection::Active => id != local && (status == MemberStatus::Alive || status == MemberStatus::Joining),
        Selection::Routable => id != local && status == MemberStatus::Alive,
        Selection::Dead => status == MemberStatus::Dead,
    }
}

impl MembershipTable {
    /// The identity of the local node.
    pub closed spec fn local(&self) -> u128 {
        self.local_id.0
    }

    /// The clock that the times of the table count on.
    pub closed spec fn spec_clock(&self) -> Clock {
        self.clock
    }

    /// The local node is a member, and each entry is about the member that it is filed under.
    pub open spec fn wf(&self) -> bool {
        &&& self@.contains_key(self.local())
        &&& forall|id: u128| #[trigger] self@.contains_key(id) ==> self@[id].node.id == id
    }

    pub fn new(local_id: NodeId, seed_nodes: Vec<NodeInfo>) -> (table: Self)
        ensures
            table.wf(),
            table.local() == local_id.0,
            exists|now: u128|
                now <= MAX_NANOS && table.spec_clock().shows(now) && table@ == #[trigger] initial(local_id.0, node_views(seed_nodes@), now),
    {
        let clock = Clock::start();
        let now = clock.now();
        let ghost seeds = node_views(seed_nodes@);
        let ghost local = local_id.0;
        let is_joining = seed_nodes.len() > 0;

        // Add self as Alive (standalone) or Joining (has seeds)
        let mut i: usize = 0;
        assert(seeds.skip(0) =~= seeds);
        while i < seed_nodes.len() && seed_nodes[i].id != local_id
            invariant
                i <= seed_nodes@.len(),
                seeds == node_views(seed_nodes@),
                local == local_id.0,
                self_node(local, seeds) == self_node(local, seeds.skip(i as int)),
            decreases seed_nodes@.len() - i,
        {
            assert(seeds.skip(i as int).skip(1) =~= seeds.skip(i + 1));
            i += 1;
        }
        let self_info = if i < seed_nodes.len() {
            seed_nodes[i].clone()
        } else {
            NodeInfo { id: local_id, addr: "".to_string() }
        };
        assert(self_info@ == self_node(local, seeds));
        let me = MemberEntry {
            info: self_info,
            status: if is_joining {
                MemberStatus::Joining
            } else {
                MemberStatus::Alive
            },
            incarnation: 0,
            last_seen: now,
        };
        assert(me@ == MemberView {
            node: self_node(local, seeds),
            status: if seeds.len() > 0 { MemberStatus::Joining } else { MemberStatus::Alive },
            incarnation: 0,
            last_seen: now,
        });
        let ghost first: Members = Map::empty().insert(local, me@);
        let mut members: HashMap<u128, MemberEntry> = HashMap::new();
        members.insert(local_id.0, me);
        let mut table = MembershipTable { members, local_id, clock };
        assert(table@ =~= first);
        assert(seeds.take(0) =~= Seq::<NodeView>::empty());

        // Add seed nodes
        let mut j: usize = 0;
        while j < seed_nodes.len()
            invariant
                j <= seed_nodes@.len(),
                seeds == node_views(seed_nodes@),
                table.wf(),
                table.local_id == local_id,
                table.clock == clock,
                local == local_id.0,
                table@ == seeded(first, local, seeds.take(j as int), now),
            decreases seed_nodes@.len() - j,
        {
            let node = &seed_nodes[j];
            assert(seeds.take(j + 1).drop_last() =~= seeds.take(j as int));
            if node.id != local_id {
                let ghost before = table@;
                let entry = MemberEntry {
                    info: node.clone(),
                    status: MemberStatus::Alive,
                    incarnation: 0,
                    last_seen: now,
                };
                let ghost view = entry@;
                table.members.insert(node.id.0, entry);
                assert(table@ =~= before.insert(node.id.0, view));
            }
            j += 1;
        }
        assert(seeds.take(j as int) =~= seeds);
        assert(table@ == initial(local, seeds, now));
        table
    }

    /// A reading of the clock that the times of the table count on.
    pub fn now(&self) -> (now: u128)
        ensures
            now <= MAX_NANOS,
            self.spec_clock().shows(now),
    {
        self.clock.now()
    }

    fn select(&self, selection: Selection) -> (entries: Vec<MemberEntry>)
        requires
            self.wf(),
        ensures
            lists(entries@, self@, |id: u128, s: MemberStatus| selects(selection, self.local(), id, s)),
    {
        let mut entries: Vec<MemberEntry> = Vec::new();
        let ghost mut ids: Seq<int> = Seq::empty();
        let ghost all = self.members.iter().remaining();
        assert forall|k: int| 0 <= k < all.len() implies {
            let id = *(#[trigger] all[k]).0;
            self@.contains_key(id) && self@[id] == all[k].1@ && all[k].1@.node.id == id
        } by {
            assert(self.members@.contains_key(*all[k].0));
            assert(self@.contains_key(*all[k].0));
        }
        for pair in it: self.members.iter()
            invariant
                self.wf(),
                it.seq() == all,
                forall|k: int|
                    0 <= k < all.len() ==> {
                        let id = *(#[trigger] all[k]).0;
                        self@.contains_key(id) && self@[id] == all[k].1@ && all[k].1@.node.id == id
                    },
                ids.len() == entries@.len(),
                forall|i: int|
                    0 <= i < entries@.len() ==> {
                        &&& 0 <= #[trigger] ids[i] < it.index()
                        &&& entries@[i]@ == it.seq()[ids[i]].1@
                        &&& selects(selection, self.local(), entries@[i]@.node.id, entries@[i]@.status)
                    },
                forall|i: int, j: int| 0 <= i < j < ids.len() ==> #[trigger] ids[i] < #[trigger] ids[j],
                forall|k: int|
                    0 <= k < it.index() && selects(selection, self.local(), *it.seq()[k].0, (#[trigger] it.seq()[k]).1.status)
                        ==> ids.contains(k),
        {
            let (id, entry) = pair;
            let keep = match selection {
                Selection::All => true,
                Selection::Active => *id != self.local_id.0 && (entry.status == MemberStatus::Alive || entry.status
                    == MemberStatus::Joining),
                Selection::Routable => *id != self.local_id.0 && entry.status == MemberStatus::Alive,
                Selection::Dead => entry.status == MemberStatus::Dead,
            };
            assert(all[it.index()] == pair);
            if keep {
                let copy = entry.clone();
                let ghost before = entries@;
                entries.push(copy);
                assert(selects(selection, self.local(), copy@.node.id, copy@.status));
                proof {
                    let old_ids = ids;
                    ids = ids.push(it.index());
                    assert forall|k: int| old_ids.contains(k) implies ids.contains(k) by {
                        let i = old_ids.index_of(k);
                        assert(ids[i] == k);
                    }
                    assert(ids[ids.len() - 1] == it.index());
                    assert forall|i: int| 0 <= i < entries@.len() implies {
                        &&& 0 <= #[trigger] ids[i] <= it.index()
                        &&& entries@[i]@ == all[ids[i]].1@
                        &&& selects(selection, self.local(), entries@[i]@.node.id, entries@[i]@.status)
                    } by {
                        if i < before.len() {
                            assert(ids[i] == old_ids[i]);
                            assert(entries@[i] == before[i]);
                        }
                    }
                }
            }
        }
        proof {
            let keep = |id: u128, s: MemberStatus| selects(selection, self.local(), id, s);
            assert forall|i: int| 0 <= i < entries@.len() implies {
                let id = (#[trigger] entries@[i])@.node.id;
                self@.contains_key(id) && entries@[i]@ == self@[id] && keep(id, self@[id].status)
            } by {
                assert(0 <= ids[i] < all.len());
                assert(entries@[i]@ == all[ids[i]].1@);
            }
            assert forall|i: int, j: int| 0 <= i < j < entries@.len() implies (#[trigger] entries@[i])@.node.id != (
            #[trigger] entries@[j])@.node.id by {
                assert(ids[i] < ids[j]);
                let (a, b) = (all[ids[i]], all[ids[j]]);
                if *a.0 == *b.0 {
                    assert(self.members@[*a.0] == *a.1);
                    assert(self.members@[*b.0] == *b.1);
                    assert(a == b);
                }
            }
            assert forall|id: u128| #[trigger] self@.contains_key(id) && keep(id, self@[id].status) implies exists|i: int|
                0 <= i < entries@.len() && (#[trigger] entries@[i])@.node.id == id by {
                assert(self.members@.contains_key(id));
                assert(all.contains((&id, &self.members@[id])));
                let k = all.index_of((&id, &self.members@[id]));
                assert(selects(selection, self.local(), *all[k].0, all[k].1.status));
                let i = ids.index_of(k);
                assert(entries@[i]@.node.id == id);
            }
        }
        entries
    }

    /// Get all alive members (excluding self) - includes Joining nodes for gossip propagation
    pub fn alive_peers(&self) -> (entries: Vec<MemberEntry>)
        requires
            self.wf(),
        ensures
            lists(
                entries@,
                self@,
                |id: u128, s: MemberStatus|
                    id != self.local() && (s == MemberStatus::Alive || s == MemberStatus::Joining),
            ),
    {
        self.select(Selection::Active)
    }

    /// Get only routable peers (Alive, not Joining) for hash ring construction
    pub fn routable_peers(&self) -> (entries: Vec<MemberEntry>)
        requires
            self.wf(),
        ensures
            lists(entries@, self@, |id: u128, s: MemberStatus| id != self.local() && s == MemberStatus::Alive),
    {
        self.select(Selection::Routable)
    }

    /// Get all members regardless of status
    pub fn all_members(&self) -> (entries: Vec<MemberEntry>)
        requires
            self.wf(),
        ensures
            lists(entries@, self@, |id: u128, s: MemberStatus| true),
    {
        self.select(Selection::All)
    }

    /// Get dead node IDs
    pub fn dead_nodes(&self) -> (ids: Vec<NodeId>)
        requires
            self.wf(),
        ensures
            ids@.no_duplicates(),
            forall|id: NodeId|
                ids@.contains(id) <==> self@.contains_key(id.0) && self@[id.0].status == MemberStatus::Dead,
    {
        let entries = self.select(Selection::Dead);
        let mut ids: Vec<NodeId> = Vec::new();
        let mut i: usize = 0;
        while i < entries.len()
            invariant
                i <= entries@.len(),
                ids@.len() == i,
                forall|k: int| 0 <= k < i ==> #[trigger] ids@[k] == entries@[k].info.id,
            decreases entries@.len() - i,
        {
            ids.push(entries[i].info.id);
            i += 1;
        }
        proof {
            assert forall|id: NodeId| ids@.contains(id) <==> self@.contains_key(id.0) && self@[id.0].status
                == MemberStatus::Dead by {
                if ids@.contains(id) {
                    let k = ids@.index_of(id);
                    assert(entries@[k]@.node.id == id.0);
                }
                if self@.contains_key(id.0) && self@[id.0].status == MemberStatus::Dead {
                    let k = choose|k: int| 0 <= k < entries@.len() && (#[trigger] entries@[k])@.node.id == id.0;
                    assert(ids@[k] == id);
                }
            }
            assert forall|a: int, b: int| 0 <= a < ids@.len() && 0 <= b < ids@.len() && a != b implies ids@[a] != ids@[b] by {
                if a < b {
                    assert(entries@[a]@.node.id != entries@[b]@.node.id);
                } else {
                    assert(entries@[b]@.node.id != entries@[a]@.node.id);
                }
            }
        }
        ids
    }

    /// The status that the member has in the table.
    fn status_of(&self, id: u128) -> (status: Option<MemberStatus>)
        ensures
            status == (if self@.contains_key(id) { Some(self@[id].status) } else { None }),
    {
        match self.members.get(&id) {
            Some(entry) => Some(entry.status),
            None => None,
        }
    }

    /// Gives a member another status, incarnation and time.
    fn update(&mut self, id: u128, status: MemberStatus, incarnation: u64, last_seen: u128)
        requires
            old(self)@.contains_key(id),
        ensures
            final(self)@ == old(self)@.insert(id, MemberView { status, incarnation, last_seen, ..old(self)@[id] }),
            final(self).local() == old(self).local(),
            final(self).spec_clock() == old(self).spec_clock(),
    {
        if let Some(mut entry) = self.members.remove(&id) {
            entry.status = status;
            entry.incarnation = incarnation;
            entry.last_seen = last_seen;
            self.members.insert(id, entry);
        }
        assert(self@ =~= old(self)@.insert(id, MemberView { status, incarnation, last_seen, ..old(self)@[id] }));
    }

    /// Gives a member another status.
    fn set_status(&mut self, id: u128, status: MemberStatus)
        requires
            old(self)@.contains_key(id),
        ensures
            final(self)@ == with_status(old(self)@, id, status),
            final(self).local() == old(self).local(),
            final(self).spec_clock() == old(self).spec_clock(),
    {
        let (incarnation, last_seen) = match self.members.get(&id) {
            Some(entry) => (entry.incarnation, entry.last_seen),
            None => (0, 0),
        };
        self.update(id, status, incarnation, last_seen);
    }

    /// Mark a node as Suspect. Only a node that is Alive becomes so.
    pub fn mark_suspect(&mut self, node_id: &NodeId) -> (changed: bool)
        requires
            old(self).wf(),
        ensures
            final(self).wf(),
            final(self).local() == old(self).local(),
            final(self).spec_clock() == old(self).spec_clock(),
            changed == (old(self)@.contains_key(node_id.0) && old(self)@[node_id.0].status == MemberStatus::Alive),
            final(self)@ == (if changed {
                with_status(old(self)@, node_id.0, MemberStatus::Suspect)
            } else {
                old(self)@
            }),
    {
        if self.status_of(node_id.0) == Some(MemberStatus::Alive) {
            self.set_status(node_id.0, MemberStatus::Suspect);
            return true;
        }
        false
    }

    /// Mark a node as Dead. Only a node that is Alive or Suspect becomes so.
    pub fn mark_dead(&mut self, node_id: &NodeId) -> (changed: bool)
        requires
            old(self).wf(),
        ensures
            final(self).wf(),
            final(self).local() == old(self).local(),
            final(self).spec_clock() == old(self).spec_clock(),
            changed == (old(self)@.contains_key(node_id.0) && (old(self)@[node_id.0].status == MemberStatus::Alive
                || old(self)@[node_id.0].status == MemberStatus::Suspect)),
            final(self)@ == (if changed {
                with_status(old(self)@, node_id.0, MemberStatus::Dead)
            } else {
                old(self)@
            }),
    {
        let status = self.status_of(node_id.0);
        if status == Some(MemberStatus::Alive) || status == Some(MemberStatus::Suspect) {
            self.set_status(node_id.0, MemberStatus::Dead);
            return true;
        }
        false
    }

    /// Mark a node as Alive (refutation). Only a Suspect whose incarnation is not above the
    /// given one becomes so.
    pub fn mark_alive(&mut self, node_id: &NodeId, incarnation: u64) -> (changed: bool)
        requires
            old(self).wf(),
        ensures
            final(self).wf(),
            final(self).local() == old(self).local(),
            final(self).spec_clock() == old(self).spec_clock(),
            changed == (old(self)@.contains_key(node_id.0) && old(self)@[node_id.0].status == MemberStatus::Suspect
                && incarnation >= old(self)@[node_id.0].incarnation),
            final(self)@ == (if changed {
                old(self)@.insert(
                    node_id.0,
                    MemberView { status: MemberStatus::Alive, incarnation, ..old(self)@[node_id.0] },
                )
            } else {
                old(self)@
            }),
    {
        let (known, status, current, last_seen) = match self.members.get(&node_id.0) {
            Some(entry) => (true, entry.status, entry.incarnation, entry.last_seen),
            None => (false, MemberStatus::Alive, 0, 0),
        };
        if known && incarnation >= current && status == MemberStatus::Suspect {
            self.update(node_id.0, MemberStatus::Alive, incarnation, last_seen);
            return true;
        }
        false
    }

    /// Update last_seen for a node
    pub fn touch(&mut self, node_id: &NodeId)
        requires
            old(self).wf(),
        ensures
            final(self).wf(),
            final(self).local() == old(self).local(),
            final(self).spec_clock() == old(self).spec_clock(),
            exists|now: u128| now <= MAX_NANOS && old(self).spec_clock().shows(now) && #[trigger] touched(old(self)@, node_id.0, now) == final(self)@,
    {
        let now = self.now();
        self.touch_at(node_id, now);
    }

    /// Update last_seen for a node, at a given time.
    pub fn touch_at(&mut self, node_id: &NodeId, now: u128)
        requires
            old(self).wf(),
        ensures
            final(self).wf(),
            final(self).local() == old(self).local(),
            final(self).spec_clock() == old(self).spec_clock(),
            final(self)@ == touched(old(self)@, node_id.0, now),
    {
        let (known, status, incarnation) = match self.members.get(&node_id.0) {
            Some(entry) => (true, entry.status, entry.incarnation),
            None => (false, MemberStatus::Alive, 0),
        };
        if known {
            self.update(node_id.0, status, incarnation, now);
        }
    }

    /// Check if a node is alive
    pub fn is_alive(&self, node_id: &NodeId) -> (alive: bool)
        requires
            self.wf(),
        ensures
            alive == (self@.contains_key(node_id.0) && self@[node_id.0].status == MemberStatus::Alive),
    {
        self.status_of(node_id.0) == Some(MemberStatus::Alive)
    }

    /// Get the local node ID
    pub fn local_id(&self) -> (id: &NodeId)
        ensures
            id.0 == self.local(),
    {
        &self.local_id
    }

    /// Get the local node's current incarnation
    pub fn local_incarnation(&self) -> (incarnation: u64)
        requires
            self.wf(),
        ensures
            incarnation == self@[self.local()].incarnation,
    {
        match self.members.get(&self.local_id.0) {
            Some(entry) => entry.incarnation,
            None => 0,
        }
    }

    /// Get local node's address
    pub fn local_addr(&self) -> (addr: String)
        requires
            self.wf(),
        ensures
            addr@ == self@[self.local()].node.addr,
    {
        match self.members.get(&self.local_id.0) {
            Some(entry) => entry.info.addr.clone(),
            None => "".to_string(),
        }
    }

    /// Mark self as Alive after rebalance completes
    pub fn mark_self_alive(&mut self)
        requires
            old(self).wf(),
            old(self)@[old(self).local()].incarnation < u64::MAX,
        ensures
            final(self).wf(),
            final(self).local() == old(self).local(),
            final(self).spec_clock() == old(self).spec_clock(),
            final(self)@ == self_risen(old(self)@, old(self).local()),
    {
        let id: u128 = self.local_id.0;
        let (incarnation, last_seen) = match self.members.get(&id) {
            Some(entry) => (entry.incarnation, entry.last_seen),
            None => (0, 0),
        };
        self.update(id, MemberStatus::Alive, incarnation + 1, last_seen);
    }

    /// Check if self is currently in Joining state
    pub fn is_self_joining(&self) -> (joining: bool)
        requires
            self.wf(),
        ensures
            joining == (self@[self.local()].status == MemberStatus::Joining),
    {
        self.status_of(self.local_id.0) == Some(MemberStatus::Joining)
    }

    /// Whether every report can be merged: none accuses the local node at the highest
    /// incarnation there is.
    pub fn can_merge(&self, remote_entries: &Vec<Report>) -> (yes: bool)
        ensures
            yes == all_answerable(self.local(), report_views(remote_entries@)),
    {
        let ghost reports = report_views(remote_entries@);
        let mut i: usize = 0;
        while i < remote_entries.len()
            invariant
                i <= remote_entries@.len(),
                reports == report_views(remote_entries@),
                forall|k: int| 0 <= k < i ==> answerable(self.local(), #[trigger] reports[k]),
            decreases remote_entries@.len() - i,
        {
            let entry = &remote_entries[i];
            let accused = entry.2 == MemberStatus::Suspect || entry.2 == MemberStatus::Dead;
            assert(reports[i as int] == report_view(*entry));
            if entry.0 == self.local_id && accused && entry.3 == u64::MAX {
                assert(!answerable(self.local(), reports[i as int]));
                return false;
            }
            i += 1;
        }
        true
    }

    /// Merge remote gossip state into local state
    /// Rule: higher incarnation wins;
    /// Dead > Suspect > Alive > Joining precedence when incarnation is equal
    pub fn merge(&mut self, remote_entries: Vec<Report>)
        requires
            old(self).wf(),
            all_answerable(old(self).local(), report_views(remote_entries@)),
        ensures
            final(self).wf(),
            final(self).local() == old(self).local(),
            final(self).spec_clock() == old(self).spec_clock(),
            exists|now: u128|
                now <= MAX_NANOS && old(self).spec_clock().shows(now) && #[trigger] merged(
                    old(self)@,
                    old(self).local(),
                    report_views(remote_entries@),
                    now,
                ) == final(self)@,
    {
        let now = self.now();
        self.merge_at(remote_entries, now);
    }

    /// Merge remote gossip state into local state, at a given time.
    pub fn merge_at(&mut self, remote_entries: Vec<Report>, now: u128)
        requires
            old(self).wf(),
            all_answerable(old(self).local(), report_views(remote_entries@)),
        ensures
            final(self).wf(),
            final(self).local() == old(self).local(),
            final(self).spec_clock() == old(self).spec_clock(),
            final(self)@ == merged(old(self)@, old(self).local(), report_views(remote_entries@), now),
    {
        let ghost reports = report_views(remote_entries@);
        let ghost start = self@;
        let ghost local = self.local();
        let mut i: usize = 0;
        assert(reports.take(0) =~= Seq::<ReportView>::empty());
        while i < remote_entries.len()
            invariant
                i <= remote_entries@.len(),
                reports == report_views(remote_entries@),
                all_answerable(local, reports),
                self.wf(),
                self.local() == local,
                self.spec_clock() == old(self).spec_clock(),
                self@ == merged(start, local, reports.take(i as int), now),
            decreases remote_entries@.len() - i,
        {
            assert(answerable(local, reports[i as int]));
            assert(reports[i as int] == report_view(remote_entries@[i as int]));
            assert(reports.take(i + 1).drop_last() =~= reports.take(i as int));
            self.merge_entry(&remote_entries[i], now);
            i += 1;
        }
        assert(reports.take(i as int) =~= reports);
    }

    /// Takes in what another node says of one member.
    fn merge_entry(&mut self, remote: &Report, now: u128)
        requires
            old(self).wf(),
            answerable(old(self).local(), report_view(*remote)),
        ensures
            final(self).wf(),
            final(self).local() == old(self).local(),
            final(self).spec_clock() == old(self).spec_clock(),
            final(self)@ == merged_one(old(self)@, old(self).local(), report_view(*remote), now),
    {
        let node_id = remote.0;
        let remote_status = remote.2;
        let remote_incarnation: u64 = remote.3;
        let (known, status, incarnation, last_seen) = match self.members.get(&node_id.0) {
            Some(entry) => (true, entry.status, entry.incarnation, entry.last_seen),
            None => (false, MemberStatus::Alive, 0, 0),
        };
        if node_id == self.local_id {
            // If someone suspects us, refute by bumping incarnation
            let accused = remote_status == MemberStatus::Suspect || remote_status == MemberStatus::Dead;
            if accused && remote_incarnation >= incarnation {
                self.update(node_id.0, MemberStatus::Alive, remote_incarnation + 1, last_seen);
            }
            return;
        }
        // Higher incarnation wins; at the same incarnation, Dead > Suspect > Alive > Joining
        let newer = remote_incarnation > incarnation || (remote_incarnation == incarnation && remote_status.rank()
            > status.rank());
        if !known || newer {
            let entry = MemberEntry {
                info: NodeInfo { id: node_id, addr: remote.1.clone() },
                status: remote_status,
                incarnation: remote_incarnation,
                last_seen: now,
            };
            let ghost view = entry@;
            self.members.insert(node_id.0, entry);
            assert(self@ =~= old(self)@.insert(node_id.0, view));
        }
    }
}

/// A member is known by its node, its status, its incarnation and when it was seen; a report tells
/// all but the last.
pub proof fn lemma_member_views(entry: MemberEntry, reports: Seq<Report>, i: int)
    ensures
        entry@.node == entry.info@,
        entry@.status == entry.status,
        entry@.incarnation == entry.incarnation,
        entry@.last_seen == entry.last_seen,
        report_views(reports).len() == reports.len(),
        0 <= i < reports.len() ==> {
            let r = report_views(reports)[i];
            &&& r.node.id == reports[i].0.0
            &&& r.node.addr == reports[i].1@
            &&& r.status == reports[i].2
            &&& r.incarnation == reports[i].3
        },
{
}

/// The members of a selection are those of the table that it keeps.
pub proof fn lemma_kept(m: Members, keep: spec_fn(u128, MemberStatus) -> bool, id: u128)
    ensures
        kept_ids(m, keep).contains(id) <==> m.contains_key(id) && keep(id, m[id].status),
{
}

} // verus!
