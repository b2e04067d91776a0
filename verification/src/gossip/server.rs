//! The answers that a node gives to gossip.
use vstd::prelude::*;
use super::message::{all_read_as, build_gossip_message_at, read_members, tells, GossipMessage};
use super::state::{
    all_answerable, answerable, merged, report_views, touched, MemberStatus, Members, MembershipTable, Report, ReportView,
};
use crate::clock::MAX_NANOS;
use crate::node::{uuid_parsed, NodeId};

verus! {

/// The members after the reports were merged and the sender, if it is known, was seen.
pub open spec fn heard(m: Members, local: u128, reports: Seq<ReportView>, sender: Option<u128>, now: u128) -> Members {
    let after = merged(m, local, reports, now);
    match sender {
        Some(id) => touched(after, id, now),
        None => after,
    }
}

pub open spec fn id_of(node: Option<NodeId>) -> Option<u128> {
    match node {
        Some(id) => Some(id.0),
        None => None,
    }
}

/// The identity that a text writes, if it writes one.
pub open spec fn sender_of(text: Seq<char>) -> Option<u128> {
    match uuid_parsed(text) {
        Ok(id) => Some(id),
        Err(_) => None,
    }
}

/// Merges the reports of a sender and answers with what the table holds then.
pub fn exchange_reports(
    table: &mut MembershipTable,
    entries: Vec<Report>,
    sender: Option<NodeId>,
    now: u128,
) -> (reply: GossipMessage)
    requires
        old(table).wf(),
        all_answerable(old(table).local(), report_views(entries@)),
    ensures
        final(table).wf(),
        final(table).local() == old(table).local(),
        final(table).spec_clock() == old(table).spec_clock(),
        final(table)@ == heard(
            old(table)@,
            old(table).local(),
            report_views(entries@),
            id_of(sender),
            now,
        ),
        exists|ids: Seq<u128>| #[trigger] tells(reply, ids, final(table)@, final(table).local(), now),
{
    // Process incoming gossip: merge remote state
    table.merge_at(entries, now);
    // Update last_seen for the sender
    if let Some(sender_id) = sender {
        table.touch_at(&sender_id, now);
    }
    // Build and return our local view
    build_gossip_message_at(table, now)
}

/// What an exchange at the time `now` comes to, where `reports` is what the message says: the
/// reply, and the members afterwards.
pub open spec fn exchanged(
    msg: GossipMessage,
    m: Members,
    local: u128,
    reports: Seq<ReportView>,
    now: u128,
    reply: Option<GossipMessage>,
    after: Members,
) -> bool {
    &&& now <= MAX_NANOS
    &&& all_read_as(msg.members@, reports)
    &&& match reply {
        Some(answer) => {
            &&& all_answerable(local, reports)
            &&& after == heard(m, local, reports, sender_of(msg.sender_id@), now)
            &&& exists|ids: Seq<u128>| #[trigger] tells(answer, ids, after, local, now)
        },
        None => !all_answerable(local, reports) && after == m,
    }
}

/// Answers a gossip message, or refuses it if it accuses the local node at the highest
/// incarnation, which no answer can refute.
pub fn gossip_exchange(table: &mut MembershipTable, remote_msg: &GossipMessage) -> (reply: Option<GossipMessage>)
    requires
        old(table).wf(),
    ensures
        final(table).wf(),
        final(table).local() == old(table).local(),
        final(table).spec_clock() == old(table).spec_clock(),
        exists|reports: Seq<ReportView>, now: u128| #[trigger]
            exchanged(*remote_msg, old(table)@, old(table).local(), reports, now, reply, final(table)@) && old(
                table,
            ).spec_clock().shows(now),
{
    let entries = read_members(&remote_msg.members);
    let sender = match NodeId::parse(remote_msg.sender_id.as_str()) {
        Ok(id) => Some(id),
        Err(_) => None,
    };
    assert(id_of(sender) == sender_of(remote_msg.sender_id@));
    let now = table.now();
    let ghost reports = report_views(entries@);
    if !table.can_merge(&entries) {
        assert(exchanged(*remote_msg, table@, table.local(), reports, now, None, table@));
        return None;
    }
    let reply = exchange_reports(table, entries, sender, now);
    proof {
        assert(all_answerable(table.local(), reports));
        assert(all_read_as(remote_msg.members@, reports));
        let answer = Some(reply);
        let ids = choose|ids: Seq<u128>| #[trigger] tells(reply, ids, table@, table.local(), now);
        assert(tells(answer->0, ids, table@, table.local(), now));
        assert(exchanged(*remote_msg, old(table)@, table.local(), reports, now, answer, table@));
    }
    Some(reply)
}

/// After an exchange the sender, if it is a member, was seen just then; of everyone else the node
/// knows what the merge leaves, and the reply is about what it knows then.
pub proof fn lemma_exchange_sees_sender(
    msg: GossipMessage,
    m: Members,
    local: u128,
    reports: Seq<ReportView>,
    now: u128,
    reply: GossipMessage,
    after: Members,
    sender: u128,
    other: u128,
)
    requires
        exchanged(msg, m, local, reports, now, Some(reply), after),
        uuid_parsed(msg.sender_id@) == Ok::<u128, Seq<char>>(sender),
        other != sender,
    ensures
        ({
            let between = merged(m, local, reports, now);
            &&& after.dom() == between.dom()
            &&& between.contains_key(sender) ==> after[sender].last_seen == now && after[sender].status
                == between[sender].status && after[sender].incarnation == between[sender].incarnation
                && after[sender].node == between[sender].node
            &&& between.contains_key(other) ==> after[other] == between[other]
            &&& exists|ids: Seq<u128>| #[trigger] tells(reply, ids, after, local, now)
        }),
{
    let between = merged(m, local, reports, now);
    assert(after.dom() =~= between.dom());
}

/// A sender without an identity is not seen: the node knows afterwards what the merge leaves.
pub proof fn lemma_exchange_with_stranger(
    msg: GossipMessage,
    m: Members,
    local: u128,
    reports: Seq<ReportView>,
    now: u128,
    reply: GossipMessage,
    after: Members,
)
    requires
        exchanged(msg, m, local, reports, now, Some(reply), after),
        uuid_parsed(msg.sender_id@) is Err,
    ensures
        after == merged(m, local, reports, now),
{
}

/// What is heard from a sender is merged, and the sender, if it is a member, is seen; without one
/// there is only the merge.
pub proof fn lemma_heard(m: Members, local: u128, reports: Seq<ReportView>, sender: NodeId, now: u128, other: u128)
    requires
        other != sender.0,
    ensures
        ({
            let between = merged(m, local, reports, now);
            let after = heard(m, local, reports, id_of(Some(sender)), now);
            &&& heard(m, local, reports, id_of(None), now) == between
            &&& !between.contains_key(sender.0) ==> after == between
            &&& between.contains_key(sender.0) ==> after.contains_key(sender.0) && after[sender.0].last_seen == now
                && after[sender.0].status == between[sender.0].status && after[sender.0].incarnation
                == between[sender.0].incarnation && after[sender.0].node == between[sender.0].node
            &&& after.contains_key(other) == between.contains_key(other)
            &&& between.contains_key(other) ==> after[other] == between[other]
        }),
{
}

/// An exchange is refused exactly if a report accuses the node at the highest incarnation there is,
/// and changes nothing in that case.
pub proof fn lemma_exchange_refused(
    msg: GossipMessage,
    m: Members,
    local: u128,
    reports: Seq<ReportView>,
    now: u128,
    reply: Option<GossipMessage>,
    after: Members,
)
    requires
        exchanged(msg, m, local, reports, now, reply, after),
    ensures
        all_read_as(msg.members@, reports),
        reply is None ==> after == m,
        reply is None <==> exists|i: int|
            {
                &&& 0 <= i < reports.len()
                &&& (#[trigger] reports[i]).node.id == local
                &&& reports[i].status == MemberStatus::Suspect || reports[i].status == MemberStatus::Dead
                &&& reports[i].incarnation == u64::MAX
            },
{
    if reply is None {
        let i = choose|i: int| 0 <= i < reports.len() && !answerable(local, #[trigger] reports[i]);
        assert(reports[i].node.id == local);
    } else {
        assert forall|i: int| 0 <= i < reports.len() implies !{
            &&& (#[trigger] reports[i]).node.id == local
            &&& reports[i].status == MemberStatus::Suspect || reports[i].status == MemberStatus::Dead
            &&& reports[i].incarnation == u64::MAX
        } by {
            assert(answerable(local, reports[i]));
        }
    }
}

} // verus!
