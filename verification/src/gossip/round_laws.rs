//! What a round of gossip brings about.
use vstd::prelude::*;
use super::laws::{lemma_exchange_agrees, snapshot_of};
use super::message::{lemma_message_read_back, tells, GossipMessage};
use super::protocol::response_merged;
use super::server::{exchanged, sender_of};
use super::state::{merged, touched, Members, ReportView};

verus! {

/// Each entry is about the member that it is filed under.
pub open spec fn filed(m: Members) -> bool {
    forall|id: u128| #[trigger] m.contains_key(id) ==> m[id].node.id == id
}

/// That a member was seen changes no status and no incarnation.
proof fn lemma_touch_keeps_snapshot(reports: Seq<ReportView>, m: Members, id: u128, now: u128)
    ensures
        snapshot_of(reports, m) <==> snapshot_of(reports, touched(m, id, now)),
{
    let t = touched(m, id, now);
    assert forall|k: u128| m.contains_key(k) <==> t.contains_key(k) by {}
    assert forall|k: u128| m.contains_key(k) implies m[k].status == t[k].status && m[k].incarnation == t[k].incarnation by {}
    if snapshot_of(reports, m) {
        assert forall|k: u128| #[trigger] t.contains_key(k) implies exists|i: int|
            0 <= i < reports.len() && (#[trigger] reports[i]).node.id == k by {
            assert(m.contains_key(k));
        }
    }
    if snapshot_of(reports, t) {
        assert forall|k: u128| #[trigger] m.contains_key(k) implies exists|i: int|
            0 <= i < reports.len() && (#[trigger] reports[i]).node.id == k by {
            assert(t.contains_key(k));
        }
    }
}

/// One exchange of a round brings two nodes to agree on everyone else. Node `a` builds a
/// message from its members `ma`; node `b`, which knows `mb`, answers it and knows `mb2` then;
/// `a` saw `b` and merges the answer, and knows `ma2` then. Afterwards both know the same
/// members besides themselves, with the same statuses and incarnations, and every one that
/// either of them knew before.
pub proof fn lemma_round_agrees(
    a: u128,
    ma: Members,
    msg: GossipMessage,
    ids: Seq<u128>,
    built_at: u128,
    b: u128,
    mb: Members,
    sent: Seq<ReportView>,
    answered_at: u128,
    reply: GossipMessage,
    mb2: Members,
    seen_at: u128,
    got: Seq<ReportView>,
    merged_at: u128,
    ma2: Members,
    id: u128,
)
    requires
        ma.contains_key(a),
        filed(ma),
        mb.contains_key(b),
        filed(mb2),
        tells(msg, ids, ma, a, built_at),
        exchanged(msg, mb, b, sent, answered_at, Some(reply), mb2),
        response_merged(reply, got, merged_at, touched(ma, b, seen_at), a, true, ma2),
        id != a,
        id != b,
    ensures
        ma2.contains_key(id) == mb2.contains_key(id),
        ma2.contains_key(id) == (ma.contains_key(id) || mb.contains_key(id)),
        ma2.contains_key(id) ==> ma2[id].status == mb2[id].status && ma2[id].incarnation == mb2[id].incarnation,
{
    lemma_message_read_back(msg, ids, ma, a, built_at, sent);
    lemma_touch_keeps_snapshot(sent, ma, b, seen_at);
    let between = merged(mb, b, sent, answered_at);
    let reply_ids = choose|ids: Seq<u128>| #[trigger] tells(reply, ids, mb2, b, answered_at);
    lemma_message_read_back(reply, reply_ids, mb2, b, answered_at, got);
    if let Some(sender) = sender_of(msg.sender_id@) {
        lemma_touch_keeps_snapshot(got, between, sender, answered_at);
    }
    assert(snapshot_of(got, between));
    let seen = touched(ma, b, seen_at);
    lemma_exchange_agrees(seen, a, mb, b, sent, got, answered_at, merged_at, id);
    assert(seen.contains_key(id) == ma.contains_key(id));
}

} // verus!
