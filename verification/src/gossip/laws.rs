//! What holds of a membership table however gossip reaches it.
use vstd::prelude::*;
use super::protocol::timed_out;
use super::state::{
    accuses, all_answerable, answerable, initial, lists, merged, merged_one, seeded, self_node, self_risen, supersedes,
    touched, with_status, MemberEntry, MemberStatus, MemberView, Members, ReportView,
};
use crate::node::NodeView;

verus! {

/// The entry `a` is as new as `b`: its incarnation is higher, or the same with a status of no
/// lower precedence.
pub open spec fn no_older(a: MemberView, b: MemberView) -> bool {
    a.incarnation > b.incarnation || (a.incarnation == b.incarnation && a.status.spec_rank() >= b.status.spec_rank())
}

/// Every member of `before` is one of `after`, and is known there no less recently.
pub open spec fn advances(before: Members, after: Members) -> bool {
    forall|id: u128| #[trigger]
        before.contains_key(id) ==> after.contains_key(id) && no_older(after[id], before[id])
}

/// The members know what the report says, or something newer.
pub open spec fn absorbed(m: Members, local: u128, report: ReportView) -> bool {
    if report.node.id == local {
        accuses(report) ==> report.incarnation < m[local].incarnation
    } else {
        m.contains_key(report.node.id) && !supersedes(report, m[report.node.id])
    }
}

/// The same members, with the same statuses and incarnations.
pub open spec fn same_standing(a: Members, b: Members) -> bool {
    &&& a.dom() == b.dom()
    &&& forall|id: u128| #[trigger]
        a.contains_key(id) ==> a[id].status == b[id].status && a[id].incarnation == b[id].incarnation
}

/// The reports say of each member what the table holds of it.
pub open spec fn snapshot_of(reports: Seq<ReportView>, m: Members) -> bool {
    &&& forall|i: int|
        0 <= i < reports.len() ==> {
            let r = #[trigger] reports[i];
            m.contains_key(r.node.id) && r.status == m[r.node.id].status && r.incarnation == m[r.node.id].incarnation
        }
    &&& forall|id: u128| #[trigger]
        m.contains_key(id) ==> exists|i: int| 0 <= i < reports.len() && (#[trigger] reports[i]).node.id == id
}

proof fn lemma_one_step(m: Members, local: u128, report: ReportView, now: u128)
    requires
        m.contains_key(local),
        answerable(local, report),
    ensures
        advances(m, merged_one(m, local, report, now)),
        absorbed(merged_one(m, local, report, now), local, report),
        merged_one(m, local, report, now).contains_key(local),
{
}

proof fn lemma_absorbed_stays(m: Members, later: Members, local: u128, report: ReportView)
    requires
        m.contains_key(local),
        absorbed(m, local, report),
        advances(m, later),
    ensures
        absorbed(later, local, report),
{
    assert(later.contains_key(local));
}

/// Merging loses nothing: every member stays, no incarnation goes down, and at one incarnation
/// no status loses precedence. Afterwards every report is known, or something newer; of
/// itself the node has outlived every accusation.
pub proof fn lemma_merge_advances(m: Members, local: u128, reports: Seq<ReportView>, now: u128)
    requires
        m.contains_key(local),
        all_answerable(local, reports),
    ensures
        merged(m, local, reports, now).contains_key(local),
        advances(m, merged(m, local, reports, now)),
        forall|i: int| 0 <= i < reports.len() ==> absorbed(merged(m, local, reports, now), local, #[trigger] reports[i]),
    decreases reports.len(),
{
    if reports.len() > 0 {
        let front = reports.drop_last();
        let before = merged(m, local, front, now);
        let after = merged(m, local, reports, now);
        assert(forall|i: int| 0 <= i < front.len() ==> front[i] == reports[i]);
        assert(answerable(local, reports[reports.len() - 1]));
        lemma_merge_advances(m, local, front, now);
        lemma_one_step(before, local, reports.last(), now);
        assert forall|i: int| 0 <= i < reports.len() implies absorbed(after, local, #[trigger] reports[i]) by {
            if i < front.len() {
                assert(absorbed(before, local, front[i]));
                lemma_absorbed_stays(before, after, local, front[i]);
            }
        }
        assert forall|id: u128| #[trigger] m.contains_key(id) implies after.contains_key(id) && no_older(
            after[id],
            m[id],
        ) by {
            assert(before.contains_key(id));
        }
    }
}

proof fn lemma_absorbed_changes_nothing(m: Members, local: u128, reports: Seq<ReportView>, now: u128)
    requires
        forall|i: int| 0 <= i < reports.len() ==> absorbed(m, local, #[trigger] reports[i]),
    ensures
        merged(m, local, reports, now) == m,
    decreases reports.len(),
{
    if reports.len() > 0 {
        let front = reports.drop_last();
        assert(forall|i: int| 0 <= i < front.len() ==> front[i] == reports[i]);
        lemma_absorbed_changes_nothing(m, local, front, now);
        assert(absorbed(m, local, reports[reports.len() - 1]));
    }
}

/// Gossip that arrives a second time changes nothing, not even when it comes later.
pub proof fn lemma_merge_twice(m: Members, local: u128, reports: Seq<ReportView>, now: u128, later: u128)
    requires
        m.contains_key(local),
        all_answerable(local, reports),
    ensures
        merged(merged(m, local, reports, now), local, reports, later) == merged(m, local, reports, now),
{
    lemma_merge_advances(m, local, reports, now);
    lemma_absorbed_changes_nothing(merged(m, local, reports, now), local, reports, later);
}

/// A node is talked into no failure: after a merge it is Alive, or what it was before.
pub proof fn lemma_self_refutes(m: Members, local: u128, reports: Seq<ReportView>, now: u128)
    requires
        m.contains_key(local),
        all_answerable(local, reports),
    ensures
        merged(m, local, reports, now)[local].status == MemberStatus::Alive || merged(m, local, reports, now)[local]
            == m[local],
        merged(m, local, reports, now)[local].node == m[local].node,
    decreases reports.len(),
{
    if reports.len() > 0 {
        let front = reports.drop_last();
        assert(forall|i: int| 0 <= i < front.len() ==> front[i] == reports[i]);
        lemma_self_refutes(m, local, front, now);
    }
}

/// Two groups of reports, one after the other, are one group.
pub proof fn lemma_merge_joined(m: Members, local: u128, a: Seq<ReportView>, b: Seq<ReportView>, now: u128)
    ensures
        merged(merged(m, local, a, now), local, b, now) == merged(m, local, a + b, now),
    decreases b.len(),
{
    if b.len() == 0 {
        assert(a + b =~= a);
    } else {
        assert((a + b).drop_last() =~= a + b.drop_last());
        lemma_merge_joined(m, local, a, b.drop_last(), now);
    }
}

proof fn lemma_standing_step(a: Members, b: Members, local: u128, report: ReportView, s: u128, t: u128)
    requires
        same_standing(a, b),
        a.contains_key(local),
    ensures
        same_standing(merged_one(a, local, report, s), merged_one(b, local, report, t)),
{
    let (x, y) = (merged_one(a, local, report, s), merged_one(b, local, report, t));
    assert(a.contains_key(report.node.id) == b.contains_key(report.node.id)) by {
        assert(a.dom().contains(report.node.id) == b.dom().contains(report.node.id));
    }
    assert(b.contains_key(local));
    assert(x.dom() =~= y.dom());
}

proof fn lemma_steps_commute(m: Members, local: u128, p: ReportView, q: ReportView, now: u128)
    requires
        m.contains_key(local),
        answerable(local, p),
        answerable(local, q),
    ensures
        same_standing(
            merged_one(merged_one(m, local, p, now), local, q, now),
            merged_one(merged_one(m, local, q, now), local, p, now),
        ),
{
    let x = merged_one(merged_one(m, local, p, now), local, q, now);
    let y = merged_one(merged_one(m, local, q, now), local, p, now);
    assert(x.dom() =~= y.dom());
}

proof fn lemma_standing_trans(a: Members, b: Members, c: Members)
    requires
        same_standing(a, b),
        same_standing(b, c),
    ensures
        same_standing(a, c),
{
    assert forall|id: u128| #[trigger] a.contains_key(id) implies a[id].status == c[id].status && a[id].incarnation
        == c[id].incarnation by {
        assert(b.contains_key(id));
    }
}

/// A report has the same effect before and after a group of others.
proof fn lemma_step_moves(m: Members, local: u128, p: ReportView, reports: Seq<ReportView>, now: u128)
    requires
        m.contains_key(local),
        answerable(local, p),
        all_answerable(local, reports),
    ensures
        same_standing(
            merged(merged_one(m, local, p, now), local, reports, now),
            merged_one(merged(m, local, reports, now), local, p, now),
        ),
    decreases reports.len(),
{
    lemma_one_step(m, local, p, now);
    if reports.len() > 0 {
        let front = reports.drop_last();
        let q = reports.last();
        assert(forall|i: int| 0 <= i < front.len() ==> front[i] == reports[i]);
        assert(answerable(local, reports[reports.len() - 1]));
        lemma_step_moves(m, local, p, front, now);
        lemma_merge_advances(m, local, front, now);
        lemma_merge_advances(merged_one(m, local, p, now), local, front, now);
        let a = merged(merged_one(m, local, p, now), local, front, now);
        let mid = merged(m, local, front, now);
        lemma_standing_step(a, merged_one(mid, local, p, now), local, q, now, now);
        lemma_steps_commute(mid, local, p, q, now);
        lemma_standing_trans(
            merged_one(a, local, q, now),
            merged_one(merged_one(mid, local, p, now), local, q, now),
            merged_one(merged_one(mid, local, q, now), local, p, now),
        );
    }
}

/// The order in which reports arrive does not matter: it leads to the same members with the
/// same statuses and incarnations.
pub proof fn lemma_merge_any_order(m: Members, local: u128, a: Seq<ReportView>, b: Seq<ReportView>, now: u128)
    requires
        m.contains_key(local),
        all_answerable(local, a),
        a.to_multiset() == b.to_multiset(),
    ensures
        same_standing(merged(m, local, a, now), merged(m, local, b, now)),
    decreases a.len(),
{
    broadcast use vstd::seq_lib::group_to_multiset_ensures;

    assert(a.len() == b.len()) by {
        assert(a.to_multiset().len() == a.len());
        assert(b.to_multiset().len() == b.len());
    }
    assert forall|i: int| 0 <= i < b.len() implies answerable(local, #[trigger] b[i]) by {
        assert(b.to_multiset().count(b[i]) > 0);
        assert(a.contains(b[i]));
        let k = a.index_of(b[i]);
        assert(answerable(local, a[k]));
    }
    if a.len() > 0 {
        let p = a.last();
        let front = a.drop_last();
        assert(a =~= front.push(p));
        assert(a[a.len() - 1] == p);
        assert(a.to_multiset().count(p) > 0);
        assert(b.contains(p));
        let k = b.index_of(p);
        let (head, tail) = (b.take(k), b.skip(k + 1));
        let rest = b.remove(k);
        assert(rest =~= head + tail);
        assert(b =~= head.push(p) + tail);
        assert(rest.to_multiset() =~= b.to_multiset().remove(p));
        assert(front.to_multiset() =~= a.to_multiset().remove(p)) by {
            assert(a.remove(a.len() - 1) =~= front);
        }
        assert(forall|i: int| 0 <= i < front.len() ==> front[i] == a[i]);
        assert(all_answerable(local, head)) by {
            assert(forall|i: int| 0 <= i < head.len() ==> head[i] == b[i]);
        }
        assert(all_answerable(local, tail)) by {
            assert(forall|i: int| 0 <= i < tail.len() ==> tail[i] == b[i + k + 1]);
        }
        assert(answerable(local, p));
        lemma_merge_any_order(m, local, front, rest, now);
        lemma_merge_advances(m, local, front, now);
        lemma_merge_advances(m, local, head, now);
        let mid = merged(m, local, head, now);
        lemma_merge_joined(m, local, head, tail, now);
        lemma_merge_joined(m, local, head.push(p), tail, now);
        assert(head.push(p).drop_last() =~= head);
        assert(merged(m, local, head.push(p), now) == merged_one(mid, local, p, now));
        lemma_step_moves(mid, local, p, tail, now);
        // With p last on both sides, the rest decides.
        lemma_standing_step(merged(m, local, front, now), merged(m, local, rest, now), local, p, now, now);
        let x = merged_one(merged(m, local, rest, now), local, p, now);
        let y = merged(m, local, b, now);
        assert(same_standing(y, x));
        assert(same_standing(x, y)) by {
            assert forall|id: u128| #[trigger] x.contains_key(id) implies x[id].status == y[id].status
                && x[id].incarnation == y[id].incarnation by {
                assert(y.dom().contains(id));
                assert(y.contains_key(id));
            }
        }
        lemma_standing_trans(merged(m, local, a, now), x, y);
    } else {
        assert(b =~= a);
    }
}

/// What a merge leaves of a peer was known before or is what one of the reports says.
proof fn lemma_merge_invents_nothing(m: Members, local: u128, reports: Seq<ReportView>, now: u128, id: u128)
    requires
        m.contains_key(local),
        id != local,
        merged(m, local, reports, now).contains_key(id),
    ensures
        ({
            let e = merged(m, local, reports, now)[id];
            ||| m.contains_key(id) && e == m[id]
            ||| exists|i: int|
                0 <= i < reports.len() && (#[trigger] reports[i]).node == e.node && reports[i].node.id == id
                    && reports[i].status == e.status && reports[i].incarnation == e.incarnation
        }),
    decreases reports.len(),
{
    if reports.len() > 0 {
        let front = reports.drop_last();
        let before = merged(m, local, front, now);
        let e = merged(m, local, reports, now)[id];
        if before.contains_key(id) && before[id] == e {
            lemma_merge_invents_nothing(m, local, front, now, id);
            if !(m.contains_key(id) && e == m[id]) {
                let i = choose|i: int|
                    0 <= i < front.len() && (#[trigger] front[i]).node == e.node && front[i].node.id == id
                        && front[i].status == e.status && front[i].incarnation == e.incarnation;
                assert(reports[i] == front[i]);
            }
        } else {
            assert(reports[reports.len() - 1].node.id == id);
        }
    }
}

/// Nodes that gossip agree: after one exchange, in which `b` merges what `a` holds and `a`
/// merges what `b` holds by then, both know the same members besides themselves, with the
/// same statuses and incarnations.
pub proof fn lemma_exchange_agrees(
    ma: Members,
    a: u128,
    mb: Members,
    b: u128,
    sent: Seq<ReportView>,
    reply: Seq<ReportView>,
    s: u128,
    t: u128,
    id: u128,
)
    requires
        ma.contains_key(a),
        mb.contains_key(b),
        snapshot_of(sent, ma),
        all_answerable(b, sent),
        snapshot_of(reply, merged(mb, b, sent, s)),
        all_answerable(a, reply),
        id != a,
        id != b,
    ensures
        ({
            let x = merged(ma, a, reply, t);
            let y = merged(mb, b, sent, s);
            &&& x.contains_key(id) == y.contains_key(id)
            &&& x.contains_key(id) == (ma.contains_key(id) || mb.contains_key(id))
            &&& x.contains_key(id) ==> x[id].status == y[id].status && x[id].incarnation == y[id].incarnation
        }),
{
    let x = merged(ma, a, reply, t);
    let y = merged(mb, b, sent, s);
    lemma_merge_advances(mb, b, sent, s);
    lemma_merge_advances(ma, a, reply, t);
    if ma.contains_key(id) {
        let i = choose|i: int| 0 <= i < sent.len() && (#[trigger] sent[i]).node.id == id;
        assert(absorbed(y, b, sent[i]));
    }
    if mb.contains_key(id) {
        assert(y.contains_key(id));
    }
    if y.contains_key(id) {
        let j = choose|j: int| 0 <= j < reply.len() && (#[trigger] reply[j]).node.id == id;
        assert(absorbed(x, a, reply[j]));
        lemma_merge_invents_nothing(mb, b, sent, s, id);
    }
    if x.contains_key(id) {
        lemma_merge_invents_nothing(ma, a, reply, t, id);
    }
}

/// What a table says of one of its members.
pub open spec fn report_on(entry: MemberView) -> ReportView {
    ReportView { node: entry.node, status: entry.status, incarnation: entry.incarnation }
}

/// A node that was called suspect or dead while it could not be reached is believed again: once
/// it hears the accusation, and the accuser its answer, the accuser knows it as Alive.
pub proof fn lemma_refutation_restores(ma: Members, a: u128, mb: Members, b: u128, s: u128, t: u128)
    requires
        a != b,
        ma.contains_key(a),
        ma[a].node.id == a,
        mb.contains_key(a),
        mb[a].node.id == a,
        mb[a].status == MemberStatus::Suspect || mb[a].status == MemberStatus::Dead,
        ma[a].incarnation <= mb[a].incarnation < u64::MAX,
    ensures
        ({
            let heard = merged_one(ma, a, report_on(mb[a]), s);
            let answered = merged_one(mb, b, report_on(heard[a]), t);
            &&& heard[a].status == MemberStatus::Alive
            &&& heard[a].incarnation == mb[a].incarnation + 1
            &&& answered[a].status == MemberStatus::Alive
            &&& answered[a].incarnation == heard[a].incarnation
        }),
{
}

/// A node that has joined is believed: who knows it as joining, or not at all, and hears of its
/// rise knows it as Alive.
pub proof fn lemma_rise_believed(ma: Members, a: u128, mb: Members, b: u128, t: u128)
    requires
        a != b,
        ma.contains_key(a),
        ma[a].node.id == a,
        ma[a].incarnation < u64::MAX,
        mb.contains_key(a) ==> mb[a].incarnation <= ma[a].incarnation,
    ensures
        ({
            let risen = self_risen(ma, a);
            let after = merged_one(mb, b, report_on(risen[a]), t);
            &&& risen[a].status == MemberStatus::Alive
            &&& after.contains_key(a)
            &&& after[a].status == MemberStatus::Alive
            &&& after[a].incarnation == ma[a].incarnation + 1
        }),
{
}

proof fn lemma_seeded(m: Members, local: u128, seeds: Seq<NodeView>, now: u128)
    requires
        m.contains_key(local),
    ensures
        seeded(m, local, seeds, now).contains_key(local),
        seeded(m, local, seeds, now)[local] == m[local],
        forall|i: int|
            0 <= i < seeds.len() && (#[trigger] seeds[i]).id != local ==> seeded(m, local, seeds, now).contains_key(
                seeds[i].id,
            ) && seeded(m, local, seeds, now)[seeds[i].id].status == MemberStatus::Alive,
    decreases seeds.len(),
{
    if seeds.len() > 0 {
        let front = seeds.drop_last();
        lemma_seeded(m, local, front, now);
        assert forall|i: int| 0 <= i < seeds.len() && (#[trigger] seeds[i]).id != local implies seeded(
            m,
            local,
            seeds,
            now,
        ).contains_key(seeds[i].id) && seeded(m, local, seeds, now)[seeds[i].id].status == MemberStatus::Alive by {
            if i < front.len() {
                assert(front[i] == seeds[i]);
            }
        }
    }
}

/// A node that is given seeds starts as Joining, one without is Alive at once; the seeds
/// count as Alive.
pub proof fn lemma_initial(local: u128, seeds: Seq<NodeView>, now: u128)
    ensures
        ({
            let m = initial(local, seeds, now);
            &&& m.contains_key(local)
            &&& m[local].status == (if seeds.len() > 0 { MemberStatus::Joining } else { MemberStatus::Alive })
            &&& m[local].incarnation == 0
            &&& forall|i: int|
                0 <= i < seeds.len() && (#[trigger] seeds[i]).id != local ==> m.contains_key(seeds[i].id)
                    && m[seeds[i].id].status == MemberStatus::Alive
        }),
{
    let me = MemberView {
        node: self_node(local, seeds),
        status: if seeds.len() > 0 { MemberStatus::Joining } else { MemberStatus::Alive },
        incarnation: 0,
        last_seen: now,
    };
    lemma_seeded(Map::empty().insert(local, me), local, seeds, now);
}

/// What a check for timeouts does to a member, by the time since it was seen: an Alive peer is
/// Suspect from more than three seconds on, and a Suspect Dead from more than five. The local
/// node, nodes of another status, and whatever else is known of a member stay as they are.
pub proof fn lemma_timeouts(m: Members, local: u128, id: u128, now: u128)
    requires
        m.contains_key(id),
    ensures
        ({
            let after = timed_out(m, local, now);
            let silent = now - m[id].last_seen;
            &&& after.dom() == m.dom()
            &&& after[id].node == m[id].node
            &&& after[id].incarnation == m[id].incarnation
            &&& after[id].last_seen == m[id].last_seen
            &&& after[id].status == (if id == local {
                m[id].status
            } else if m[id].status == MemberStatus::Alive && silent > 3_000_000_000 {
                MemberStatus::Suspect
            } else if m[id].status == MemberStatus::Suspect && silent > 5_000_000_000 {
                MemberStatus::Dead
            } else {
                m[id].status
            })
        }),
{
    assert(timed_out(m, local, now).dom() =~= m.dom());
}

/// A sign of life counts from when it came: a peer that was seen is left as it is by every check
/// within three seconds of that, whatever the clock shows; after that an Alive one is Suspect,
/// and after five seconds a Suspect one is Dead. No one else is touched.
pub proof fn lemma_seen_and_checked(m: Members, local: u128, id: u128, seen_at: u128, now: u128, other: u128)
    requires
        m.contains_key(id),
        id != local,
        seen_at <= now,
        m.contains_key(other),
        other != id,
    ensures
        ({
            let seen = touched(m, id, seen_at);
            let checked = timed_out(seen, local, now);
            &&& seen.dom() == m.dom()
            &&& seen[other] == m[other]
            &&& seen[id].last_seen == seen_at
            &&& seen[id].status == m[id].status
            &&& seen[id].incarnation == m[id].incarnation
            &&& seen[id].node == m[id].node
            &&& now <= seen_at + 3_000_000_000 ==> checked[id] == seen[id]
            &&& m[id].status == MemberStatus::Alive ==> (checked[id].status == MemberStatus::Suspect <==> now - seen_at
                > 3_000_000_000)
            &&& m[id].status == MemberStatus::Suspect ==> (checked[id].status == MemberStatus::Dead <==> now - seen_at
                > 5_000_000_000)
        }),
{
    assert(touched(m, id, seen_at).dom() =~= m.dom());
}

/// A node that is not known is not made known by a sign of life.
pub proof fn lemma_strangers_stay_strange(m: Members, id: u128, now: u128)
    requires
        !m.contains_key(id),
    ensures
        touched(m, id, now) == m,
{
}

/// What one report about a peer does: it is believed if the peer is new, if its incarnation is
/// higher, or if at the same incarnation Dead meets anything else, Suspect meets Alive or
/// Joining, or Alive meets Joining. It is then taken over as it is, at the time it came.
/// Otherwise nothing changes, and other members never do.
pub proof fn lemma_report_on_peer(m: Members, local: u128, report: ReportView, now: u128, other: u128)
    requires
        report.node.id != local,
        other != report.node.id,
    ensures
        ({
            let id = report.node.id;
            let after = merged_one(m, local, report, now);
            let (is, was) = (report.status, m[id].status);
            let higher = match is {
                MemberStatus::Dead => was != MemberStatus::Dead,
                MemberStatus::Suspect => was == MemberStatus::Alive || was == MemberStatus::Joining,
                MemberStatus::Alive => was == MemberStatus::Joining,
                MemberStatus::Joining => false,
            };
            let believed = !m.contains_key(id) || report.incarnation > m[id].incarnation || (report.incarnation
                == m[id].incarnation && higher);
            &&& believed ==> after.contains_key(id) && after[id] == (MemberView {
                node: report.node,
                status: report.status,
                incarnation: report.incarnation,
                last_seen: now,
            })
            &&& !believed ==> after == m
            &&& after.contains_key(other) == m.contains_key(other)
            &&& m.contains_key(other) ==> after[other] == m[other]
        }),
{
}

/// What one report about the node itself does: an accusation, of being suspect or dead, that it
/// has not outlived is answered with the next incarnation, Alive. Everything else about it is
/// ignored.
pub proof fn lemma_report_on_self(m: Members, local: u128, report: ReportView, now: u128)
    requires
        report.node.id == local,
        m.contains_key(local),
        report.incarnation < u64::MAX,
    ensures
        ({
            let after = merged_one(m, local, report, now);
            let accused = (report.status == MemberStatus::Suspect || report.status == MemberStatus::Dead)
                && report.incarnation >= m[local].incarnation;
            &&& accused ==> after == m.insert(
                local,
                MemberView {
                    node: m[local].node,
                    status: MemberStatus::Alive,
                    incarnation: (report.incarnation + 1) as u64,
                    last_seen: m[local].last_seen,
                },
            )
            &&& !accused ==> after == m
        }),
{
}

/// Reports are taken in one after the other: none of them, and one more.
pub proof fn lemma_reports_in_turn(m: Members, local: u128, reports: Seq<ReportView>, report: ReportView, now: u128)
    ensures
        merged(m, local, Seq::empty(), now) == m,
        merged(m, local, reports.push(report), now) == merged_one(
            merged(m, local, reports, now),
            local,
            report,
            now,
        ),
{
    assert(reports.push(report).drop_last() =~= reports);
}

/// A node that rises is Alive in the next incarnation; nothing else changes.
pub proof fn lemma_risen(m: Members, local: u128, other: u128)
    requires
        m.contains_key(local),
        m[local].incarnation < u64::MAX,
        other != local,
    ensures
        self_risen(m, local)[local].status == MemberStatus::Alive,
        self_risen(m, local)[local].incarnation == m[local].incarnation + 1,
        self_risen(m, local)[local].node == m[local].node,
        self_risen(m, local)[local].last_seen == m[local].last_seen,
        self_risen(m, local).contains_key(other) == m.contains_key(other),
        m.contains_key(other) ==> self_risen(m, local)[other] == m[other],
{
}

/// A status is changed for one member, and nothing else.
pub proof fn lemma_status_changed(m: Members, id: u128, status: MemberStatus, other: u128)
    requires
        m.contains_key(id),
        other != id,
    ensures
        with_status(m, id, status)[id].status == status,
        with_status(m, id, status)[id].incarnation == m[id].incarnation,
        with_status(m, id, status)[id].last_seen == m[id].last_seen,
        with_status(m, id, status)[id].node == m[id].node,
        with_status(m, id, status).contains_key(other) == m.contains_key(other),
        m.contains_key(other) ==> with_status(m, id, status)[other] == m[other],
{
}

proof fn lemma_seeded_members(m: Members, local: u128, seeds: Seq<NodeView>, now: u128, id: u128)
    requires
        id != local,
    ensures
        seeded(m, local, seeds, now).contains_key(id) <==> m.contains_key(id) || exists|i: int|
            0 <= i < seeds.len() && (#[trigger] seeds[i]).id == id,
        !m.contains_key(id) && seeded(m, local, seeds, now).contains_key(id) ==> exists|i: int|
            {
                &&& 0 <= i < seeds.len()
                &&& (#[trigger] seeds[i]).id == id
                &&& forall|j: int| i < j < seeds.len() ==> (#[trigger] seeds[j]).id != id
                &&& seeded(m, local, seeds, now)[id] == (MemberView {
                    node: seeds[i],
                    status: MemberStatus::Alive,
                    incarnation: 0,
                    last_seen: now,
                })
            },
    decreases seeds.len(),
{
    if seeds.len() > 0 {
        let front = seeds.drop_last();
        lemma_seeded_members(m, local, front, now, id);
        let last = seeds.len() - 1;
        assert(seeds[last] == seeds.last());
        assert(forall|i: int| 0 <= i < front.len() ==> #[trigger] front[i] == seeds[i]);
        let all = seeded(m, local, seeds, now);
        if seeds.last().id == id {
            assert(seeds[last].id == id);
            assert(all[id] == (MemberView {
                node: seeds[last],
                status: MemberStatus::Alive,
                incarnation: 0,
                last_seen: now,
            }));
        } else {
            assert(all.contains_key(id) == seeded(m, local, front, now).contains_key(id));
            if exists|i: int| 0 <= i < front.len() && (#[trigger] front[i]).id == id {
                let i = choose|i: int| 0 <= i < front.len() && (#[trigger] front[i]).id == id;
                assert(seeds[i].id == id);
            }
            if exists|i: int| 0 <= i < seeds.len() && (#[trigger] seeds[i]).id == id {
                let i = choose|i: int| 0 <= i < seeds.len() && (#[trigger] seeds[i]).id == id;
                assert(front[i].id == id);
            }
            if !m.contains_key(id) && all.contains_key(id) {
                let i = choose|i: int|
                    {
                        &&& 0 <= i < front.len()
                        &&& (#[trigger] front[i]).id == id
                        &&& forall|j: int| i < j < front.len() ==> (#[trigger] front[j]).id != id
                        &&& seeded(m, local, front, now)[id] == (MemberView {
                            node: front[i],
                            status: MemberStatus::Alive,
                            incarnation: 0,
                            last_seen: now,
                        })
                    };
                assert(seeds[i].id == id);
                assert forall|j: int| i < j < seeds.len() implies (#[trigger] seeds[j]).id != id by {
                    if j < front.len() {
                        assert(front[j].id != id);
                    }
                }
            }
        }
    }
}

proof fn lemma_self_node(local: u128, seeds: Seq<NodeView>)
    ensures
        self_node(local, seeds).id == local,
        (forall|i: int| 0 <= i < seeds.len() ==> (#[trigger] seeds[i]).id != local) ==> self_node(local, seeds).addr.len()
            == 0,
        forall|i: int|
            0 <= i < seeds.len() && (#[trigger] seeds[i]).id == local && (forall|j: int|
                0 <= j < i ==> (#[trigger] seeds[j]).id != local) ==> self_node(local, seeds) == seeds[i],
    decreases seeds.len(),
{
    reveal_strlit("");
    if seeds.len() > 0 && seeds[0].id != local {
        let rest = seeds.skip(1);
        lemma_self_node(local, rest);
        assert(forall|i: int| 0 <= i < rest.len() ==> #[trigger] rest[i] == seeds[i + 1]);
        assert forall|i: int|
            0 <= i < seeds.len() && (#[trigger] seeds[i]).id == local && (forall|j: int|
                0 <= j < i ==> (#[trigger] seeds[j]).id != local) implies self_node(local, seeds) == seeds[i] by {
            assert(i > 0);
            assert(rest[i - 1].id == local);
            assert forall|j: int| 0 <= j < i - 1 implies (#[trigger] rest[j]).id != local by {
                assert(seeds[j + 1].id != local);
            }
        }
        if forall|i: int| 0 <= i < seeds.len() ==> (#[trigger] seeds[i]).id != local {
            assert forall|i: int| 0 <= i < rest.len() implies (#[trigger] rest[i]).id != local by {
                assert(seeds[i + 1].id != local);
            }
        }
    }
}

/// A node starts with itself and its seeds as members, and no one else. Each seed is known as the
/// list says last; of itself the node knows the address that the list says first, or none.
pub proof fn lemma_first_members(local: u128, seeds: Seq<NodeView>, now: u128, id: u128)
    ensures
        ({
            let m = initial(local, seeds, now);
            &&& m.contains_key(id) <==> id == local || exists|i: int|
                0 <= i < seeds.len() && (#[trigger] seeds[i]).id == id
            &&& id != local && m.contains_key(id) ==> exists|i: int|
                {
                    &&& 0 <= i < seeds.len()
                    &&& (#[trigger] seeds[i]).id == id
                    &&& forall|j: int| i < j < seeds.len() ==> (#[trigger] seeds[j]).id != id
                    &&& m[id] == (MemberView {
                        node: seeds[i],
                        status: MemberStatus::Alive,
                        incarnation: 0,
                        last_seen: now,
                    })
                }
            &&& m[local].node.id == local
            &&& m[local].last_seen == now
            &&& (forall|i: int| 0 <= i < seeds.len() ==> (#[trigger] seeds[i]).id != local) ==> m[local].node.addr.len()
                == 0
            &&& forall|i: int|
                0 <= i < seeds.len() && (#[trigger] seeds[i]).id == local && (forall|j: int|
                    0 <= j < i ==> (#[trigger] seeds[j]).id != local) ==> m[local].node == seeds[i]
        }),
{
    lemma_initial(local, seeds, now);
    let me = MemberView {
        node: self_node(local, seeds),
        status: if seeds.len() > 0 { MemberStatus::Joining } else { MemberStatus::Alive },
        incarnation: 0,
        last_seen: now,
    };
    let first = Map::empty().insert(local, me);
    lemma_seeded(first, local, seeds, now);
    lemma_self_node(local, seeds);
    if id != local {
        lemma_seeded_members(first, local, seeds, now, id);
    }
}

/// A listing names a member exactly if it is one to list, and says of it what the table holds.
pub proof fn lemma_listing(
    entries: Seq<MemberEntry>,
    m: Members,
    keep: spec_fn(u128, MemberStatus) -> bool,
    id: u128,
)
    requires
        lists(entries, m, keep),
    ensures
        m.contains_key(id) && keep(id, m[id].status) <==> exists|i: int|
            0 <= i < entries.len() && (#[trigger] entries[i])@.node.id == id,
        forall|i: int| 0 <= i < entries.len() && (#[trigger] entries[i])@.node.id == id ==> entries[i]@ == m[id],
        forall|i: int, j: int|
            0 <= i < entries.len() && 0 <= j < entries.len() && (#[trigger] entries[i])@.node.id == id && (
            #[trigger] entries[j])@.node.id == id ==> i == j,
{
}

} // verus!
