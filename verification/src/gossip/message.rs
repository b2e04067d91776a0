//! The messages that nodes gossip with.
use vstd::prelude::*;
use super::laws::snapshot_of;
use super::state::{report_view, report_views, MemberStatus, MemberView, Members, MembershipTable, Report, ReportView};
use crate::clock::{MAX_NANOS, NANOS_PER_MILLI};
use crate::node::{hyphenated, is_random_uuid, reads_as, uuid_parsed, NodeId};

verus! {

/// What a message says of one member.
#[derive(Debug)]
pub struct GossipMember {
    pub node_id: String,
    pub addr: String,
    pub status: i32,
    pub incarnation: u64,
    pub last_seen_ms: u64,
}

/// What a node tells another of the cluster.
#[derive(Debug)]
pub struct GossipMessage {
    pub members: Vec<GossipMember>,
    pub sender_id: String,
}

/// The mathematical content of a [`GossipMember`].
pub struct GossipMemberView {
    pub node_id: Seq<char>,
    pub addr: Seq<char>,
    pub status: i32,
    pub incarnation: u64,
    pub last_seen_ms: u64,
}

impl View for GossipMember {
    type V = GossipMemberView;

    open spec fn view(&self) -> GossipMemberView {
        GossipMemberView {
            node_id: self.node_id@,
            addr: self.addr@,
            status: self.status,
            incarnation: self.incarnation,
            last_seen_ms: self.last_seen_ms,
        }
    }
}

/// The number that stands for a status in a message.
pub open spec fn status_code(status: MemberStatus) -> i32 {
    match status {
        MemberStatus::Alive => 0,
        MemberStatus::Suspect => 1,
        MemberStatus::Dead => 2,
        MemberStatus::Joining => 3,
    }
}

/// The status that a number stands for, if it stands for one.
pub open spec fn status_of_code(code: i32) -> Option<MemberStatus> {
    if code == 0 {
        Some(MemberStatus::Alive)
    } else if code == 1 {
        Some(MemberStatus::Suspect)
    } else if code == 2 {
        Some(MemberStatus::Dead)
    } else if code == 3 {
        Some(MemberStatus::Joining)
    } else {
        None
    }
}

impl MemberStatus {
    /// The number that stands for the status in a message.
    pub fn code(self) -> (code: i32)
        ensures
            code == status_code(self),
            status_of_code(code) == Some(self),
    {
        match self {
            MemberStatus::Alive => 0,
            MemberStatus::Suspect => 1,
            MemberStatus::Dead => 2,
            MemberStatus::Joining => 3,
        }
    }

    /// The status that a number in a message stands for.
    pub fn from_code(code: i32) -> (status: Option<MemberStatus>)
        ensures
            status == status_of_code(code),
    {
        match code {
            0 => Some(MemberStatus::Alive),
            1 => Some(MemberStatus::Suspect),
            2 => Some(MemberStatus::Dead),
            3 => Some(MemberStatus::Joining),
            _ => None,
        }
    }
}

/// How long ago a time was, as of `now`; no time at all if it is still to come.
pub open spec fn elapsed(since: u128, now: u128) -> u128 {
    if now > since {
        (now - since) as u128
    } else {
        0
    }
}

/// The time since a member was seen in whole milliseconds, in 64 bits.
pub open spec fn age_ms(last_seen: u128, now: u128) -> u64 {
    ((elapsed(last_seen, now) / NANOS_PER_MILLI) % 0x1_0000_0000_0000_0000) as u64
}

/// What a message says of the member at the time `now`.
pub open spec fn member_message(entry: MemberView, now: u128) -> GossipMemberView {
    GossipMemberView {
        node_id: hyphenated(entry.node.id),
        addr: entry.node.addr,
        status: status_code(entry.status),
        incarnation: entry.incarnation,
        last_seen_ms: age_ms(entry.last_seen, now),
    }
}

/// The message tells everything that the local node knows at the time `now`: of the members
/// `ids`, which are all that there are, each once.
pub open spec fn tells(msg: GossipMessage, ids: Seq<u128>, m: Members, local: u128, now: u128) -> bool {
    &&& msg.sender_id@ == hyphenated(local)
    &&& reads_as(msg.sender_id@, local)
    &&& msg.members@.len() == ids.len()
    &&& ids.no_duplicates()
    &&& forall|id: u128| #[trigger] m.contains_key(id) <==> ids.contains(id)
    &&& forall|i: int|
        0 <= i < ids.len() ==> {
            &&& (#[trigger] msg.members@[i])@ == member_message(m[ids[i]], now)
            &&& reads_as(msg.members@[i].node_id@, ids[i])
        }
}

/// The report is what a node makes of the entry of a message: a number that stands for no
/// status is taken for Alive, and where the identity is none, a new one takes its place.
pub open spec fn read_as(entry: GossipMember, report: ReportView) -> bool {
    &&& match uuid_parsed(entry.node_id@) {
        Ok(id) => report.node.id == id,
        Err(_) => is_random_uuid(report.node.id),
    }
    &&& report.node.addr == entry.addr@
    &&& report.status == match status_of_code(entry.status) {
        Some(status) => status,
        None => MemberStatus::Alive,
    }
    &&& report.incarnation == entry.incarnation
}

pub open spec fn all_read_as(entries: Seq<GossipMember>, reports: Seq<ReportView>) -> bool {
    &&& reports.len() == entries.len()
    &&& forall|i: int| 0 <= i < entries.len() ==> read_as(#[trigger] entries[i], reports[i])
}

/// Reads the members of a message.
pub fn read_members(members: &Vec<GossipMember>) -> (reports: Vec<Report>)
    ensures
        all_read_as(members@, report_views(reports@)),
{
    let mut reports: Vec<Report> = Vec::new();
    let mut i: usize = 0;
    while i < members.len()
        invariant
            i <= members@.len(),
            reports@.len() == i,
            forall|k: int| 0 <= k < i ==> read_as(#[trigger] members@[k], report_view(reports@[k])),
        decreases members@.len() - i,
    {
        let m = &members[i];
        let status = match MemberStatus::from_code(m.status) {
            Some(status) => status,
            None => MemberStatus::Alive,
        };
        let id = match NodeId::parse(m.node_id.as_str()) {
            Ok(id) => id,
            Err(_) => NodeId::new(),
        };
        reports.push((id, m.addr.clone(), status, m.incarnation));
        i += 1;
    }
    reports
}

/// Build a GossipMessage from a membership table (shared helper)
pub fn build_gossip_message(table: &MembershipTable) -> (msg: GossipMessage)
    requires
        table.wf(),
    ensures
        exists|ids: Seq<u128>, now: u128|
            now <= MAX_NANOS && table.spec_clock().shows(now) && #[trigger] tells(msg, ids, table@, table.local(), now),
{
    let now = table.now();
    build_gossip_message_at(table, now)
}

/// Build a GossipMessage from a membership table, at a given time.
pub fn build_gossip_message_at(table: &MembershipTable, now: u128) -> (msg: GossipMessage)
    requires
        table.wf(),
    ensures
        exists|ids: Seq<u128>| #[trigger] tells(msg, ids, table@, table.local(), now),
{
    let entries = table.all_members();
    let ghost ids = Seq::new(entries@.len(), |i: int| entries@[i]@.node.id);
    let mut members: Vec<GossipMember> = Vec::new();
    let mut i: usize = 0;
    while i < entries.len()
        invariant
            i <= entries@.len(),
            members@.len() == i,
            ids == Seq::new(entries@.len(), |i: int| entries@[i]@.node.id),
            forall|k: int|
                0 <= k < i ==> {
                    &&& (#[trigger] members@[k])@ == member_message(entries@[k]@, now)
                    &&& reads_as(members@[k].node_id@, ids[k])
                },
        decreases entries@.len() - i,
    {
        let entry = &entries[i];
        let age: u128 = if now > entry.last_seen {
            now - entry.last_seen
        } else {
            0
        };
        let member = GossipMember {
            node_id: entry.info.id.to_string(),
            addr: entry.info.addr.clone(),
            status: entry.status.code(),
            incarnation: entry.incarnation,
            last_seen_ms: ((age / NANOS_PER_MILLI) % 0x1_0000_0000_0000_0000) as u64,
        };
        members.push(member);
        i += 1;
    }
    let msg = GossipMessage { members, sender_id: table.local_id().to_string() };
    proof {
        assert forall|id: u128| #[trigger] table@.contains_key(id) <==> ids.contains(id) by {
            if table@.contains_key(id) {
                let k = choose|k: int| 0 <= k < entries@.len() && (#[trigger] entries@[k])@.node.id == id;
                assert(ids[k] == id);
            }
            if ids.contains(id) {
                let k = ids.index_of(id);
                assert(entries@[k]@.node.id == id);
            }
        }
        assert forall|a: int, b: int| 0 <= a < ids.len() && 0 <= b < ids.len() && a != b implies ids[a] != ids[b] by {
            if a < b {
                assert(entries@[a]@.node.id != entries@[b]@.node.id);
            } else {
                assert(entries@[b]@.node.id != entries@[a]@.node.id);
            }
        }
        assert forall|k: int| 0 <= k < ids.len() implies {
            &&& (#[trigger] msg.members@[k])@ == member_message(table@[ids[k]], now)
            &&& reads_as(msg.members@[k].node_id@, ids[k])
        } by {
            assert(entries@[k]@ == table@[ids[k]]);
        }
        assert(tells(msg, ids, table@, table.local(), now));
    }
    msg
}

/// What a node reads from the message of another is what the other knows: every member, with
/// its address, status and incarnation.
pub proof fn lemma_message_read_back(
    msg: GossipMessage,
    ids: Seq<u128>,
    m: Members,
    local: u128,
    now: u128,
    reports: Seq<ReportView>,
)
    requires
        tells(msg, ids, m, local, now),
        forall|id: u128| #[trigger] m.contains_key(id) ==> m[id].node.id == id,
        all_read_as(msg.members@, reports),
    ensures
        snapshot_of(reports, m),
        forall|i: int| 0 <= i < reports.len() ==> (#[trigger] reports[i]).node == m[reports[i].node.id].node,
{
    assert forall|i: int| 0 <= i < reports.len() implies {
        let r = #[trigger] reports[i];
        &&& m.contains_key(r.node.id)
        &&& r.status == m[r.node.id].status
        &&& r.incarnation == m[r.node.id].incarnation
        &&& r.node == m[r.node.id].node
        &&& r.node.id == ids[i]
    } by {
        assert(read_as(msg.members@[i], reports[i]));
        assert(msg.members@[i]@ == member_message(m[ids[i]], now));
        assert(ids.contains(ids[i]));
        assert(m.contains_key(ids[i]));
    }
    assert forall|id: u128| #[trigger] m.contains_key(id) implies exists|i: int|
        0 <= i < reports.len() && (#[trigger] reports[i]).node.id == id by {
        let i = ids.index_of(id);
        assert(reports[i].node.id == id);
    }
}

/// The numbers of the statuses, both ways; other numbers stand for none.
pub proof fn lemma_status_numbers(status: MemberStatus, code: i32)
    ensures
        status_code(status) == (match status {
            MemberStatus::Alive => 0i32,
            MemberStatus::Suspect => 1i32,
            MemberStatus::Dead => 2i32,
            MemberStatus::Joining => 3i32,
        }),
        status_of_code(status_code(status)) == Some(status),
        status_of_code(code) is None <==> code < 0 || code > 3,
        status_of_code(code) matches Some(s) ==> status_code(s) == code,
{
}

/// What a message says of each member is what the table holds: the identity, the address, the
/// status, the incarnation, and the whole milliseconds since the member was seen.
pub proof fn lemma_message_tells(msg: GossipMessage, ids: Seq<u128>, m: Members, local: u128, now: u128, i: int)
    requires
        tells(msg, ids, m, local, now),
        0 <= i < msg.members@.len(),
    ensures
        ({
            let said = msg.members@[i];
            let entry = m[ids[i]];
            let silent = now - entry.last_seen;
            &&& m.contains_key(ids[i])
            &&& said.node_id@ == hyphenated(entry.node.id)
            &&& reads_as(said.node_id@, ids[i])
            &&& said.addr@ == entry.node.addr
            &&& status_of_code(said.status) == Some(entry.status)
            &&& said.incarnation == entry.incarnation
            &&& silent <= 0 ==> said.last_seen_ms == 0
            &&& 0 <= silent < 18_446_744_073_709_551_616 * 1_000_000 ==> said.last_seen_ms * 1_000_000 <= silent < (
            said.last_seen_ms + 1) * 1_000_000
        }),
{
    let entry = m[ids[i]];
    assert(ids.contains(ids[i]));
    assert(msg.members@[i]@ == member_message(entry, now));
    assert(msg.members@[i]@.last_seen_ms == age_ms(entry.last_seen, now));
}

/// A message speaks of every member exactly once.
pub proof fn lemma_message_complete(msg: GossipMessage, ids: Seq<u128>, m: Members, local: u128, now: u128, id: u128)
    requires
        tells(msg, ids, m, local, now),
        m.contains_key(id),
    ensures
        exists|i: int|
            {
                &&& 0 <= i < msg.members@.len()
                &&& #[trigger] ids[i] == id
                &&& forall|j: int| 0 <= j < msg.members@.len() && j != i ==> #[trigger] ids[j] != id
            },
        msg.sender_id@ == hyphenated(local),
        reads_as(msg.sender_id@, local),
{
    let i = ids.index_of(id);
    assert(ids[i] == id);
}

/// How the entry of a message is read: its address and incarnation as they stand, its status by
/// its number, or as Alive where the number stands for none, and its identity where it is one.
pub proof fn lemma_entry_read(entry: GossipMember, report: ReportView)
    requires
        read_as(entry, report),
    ensures
        report.node.addr == entry.addr@,
        report.incarnation == entry.incarnation,
        entry.status == 1 ==> report.status == MemberStatus::Suspect,
        entry.status == 2 ==> report.status == MemberStatus::Dead,
        entry.status == 3 ==> report.status == MemberStatus::Joining,
        entry.status < 1 || entry.status > 3 ==> report.status == MemberStatus::Alive,
        uuid_parsed(entry.node_id@) matches Ok(id) ==> report.node.id == id,
{
}

/// The entry of a message is known by its five fields.
pub proof fn lemma_entry_view(entry: GossipMember)
    ensures
        entry@.node_id == entry.node_id@,
        entry@.addr == entry.addr@,
        entry@.status == entry.status,
        entry@.incarnation == entry.incarnation,
        entry@.last_seen_ms == entry.last_seen_ms,
{
}

/// The entries of a message are read one for one.
pub proof fn lemma_entries_read(entries: Seq<GossipMember>, reports: Seq<ReportView>, i: int)
    requires
        all_read_as(entries, reports),
    ensures
        reports.len() == entries.len(),
        0 <= i < entries.len() ==> read_as(entries[i], reports[i]),
{
}

} // verus!
