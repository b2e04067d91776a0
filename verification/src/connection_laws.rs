//! What a connection does over the whole of its input.
use vstd::prelude::*;
use crate::cache::map::Contents;
use crate::cache::tombstones::set_content;
use crate::connection::{answered, buried, stepped, Step};
use crate::resp::commands::executed;
use crate::resp::encoder::{encoded, encoded_all};
use crate::resp::laws::{lemma_encoded_first, lemma_parse_encoded, lemma_parse_stable, sendable};
use crate::resp::parser::{lemma_consumed_in_buffer, parsed, ParseView};
use crate::resp::value::RespView;
use crate::service::CacheServiceImpl;

verus! {

/// A connection and the node that it leads to: the bytes that are held, the contents and the
/// tombstones of the node, how many commands were run, and the bytes that were written.
pub struct Session {
    pub held: Seq<u8>,
    pub store: Contents,
    pub tombstones: Set<Seq<char>>,
    pub ran: nat,
    pub written: Seq<u8>,
}

/// A session after one command was run, at the time that `times` gives for its number.
pub open spec fn ran_one(s: Session, joining: bool, times: spec_fn(nat) -> u128, value: RespView) -> Session {
    let outcome = answered(joining, value, s.store, times(s.ran));
    Session {
        held: s.held,
        store: outcome.store,
        tombstones: buried(joining, value, s.tombstones),
        ran: s.ran + 1,
        written: s.written + encoded(outcome.reply),
    }
}

/// A session after one step.
pub open spec fn stepped_once(s: Session, joining: bool, times: spec_fn(nat) -> u128) -> Session {
    match parsed(s.held) {
        ParseView::Incomplete => s,
        ParseView::Error(e) => Session {
            held: seq![],
            written: s.written + encoded(RespView::Error("ERR "@ + e)),
            ..s
        },
        ParseView::Complete(value, n) => Session { held: s.held.skip(n), ..ran_one(s, joining, times, value) },
    }
}

/// A session after as many steps as the bytes that are held allow.
pub open spec fn drained(s: Session, joining: bool, times: spec_fn(nat) -> u128) -> Session
    decreases s.held.len(),
{
    match parsed(s.held) {
        ParseView::Incomplete => s,
        ParseView::Error(_) => stepped_once(s, joining, times),
        ParseView::Complete(_, n) => if 0 < n <= s.held.len() {
            drained(stepped_once(s, joining, times), joining, times)
        } else {
            s
        },
    }
}

/// A session after a chunk of bytes arrived.
pub open spec fn fed(s: Session, joining: bool, times: spec_fn(nat) -> u128, chunk: Seq<u8>) -> Session {
    drained(Session { held: s.held + chunk, ..s }, joining, times)
}

/// A session after several chunks arrived, one after the other.
pub open spec fn delivered(s: Session, joining: bool, times: spec_fn(nat) -> u128, chunks: Seq<Seq<u8>>) -> Session
    decreases chunks.len(),
{
    if chunks.len() == 0 {
        s
    } else {
        fed(delivered(s, joining, times, chunks.drop_last()), joining, times, chunks.last())
    }
}

/// The bytes of all chunks.
pub open spec fn joined(chunks: Seq<Seq<u8>>) -> Seq<u8>
    decreases chunks.len(),
{
    if chunks.len() == 0 {
        seq![]
    } else {
        joined(chunks.drop_last()) + chunks.last()
    }
}

/// The bytes are values one after the other, and perhaps the beginning of another.
pub open spec fn all_values(bytes: Seq<u8>) -> bool
    decreases bytes.len(),
{
    match parsed(bytes) {
        ParseView::Incomplete => true,
        ParseView::Error(_) => false,
        ParseView::Complete(_, n) => 0 < n <= bytes.len() && all_values(bytes.skip(n)),
    }
}

/// The values that bytes begin with.
pub open spec fn values_in(bytes: Seq<u8>) -> Seq<RespView>
    decreases bytes.len(),
{
    match parsed(bytes) {
        ParseView::Complete(value, n) => if 0 < n <= bytes.len() {
            seq![value] + values_in(bytes.skip(n))
        } else {
            seq![]
        },
        _ => seq![],
    }
}

/// What is left of the bytes behind the values.
pub open spec fn rest_of(bytes: Seq<u8>) -> Seq<u8>
    decreases bytes.len(),
{
    match parsed(bytes) {
        ParseView::Complete(_, n) => if 0 < n <= bytes.len() {
            rest_of(bytes.skip(n))
        } else {
            bytes
        },
        _ => bytes,
    }
}

/// A session after several commands were run, each once and in their order.
pub open spec fn ran_all(s: Session, joining: bool, times: spec_fn(nat) -> u128, values: Seq<RespView>) -> Session
    decreases values.len(),
{
    if values.len() == 0 {
        s
    } else {
        ran_all(ran_one(s, joining, times, values[0]), joining, times, values.skip(1))
    }
}

/// What the replies to several commands are, one after the other.
pub open spec fn replies_to(s: Session, joining: bool, times: spec_fn(nat) -> u128, values: Seq<RespView>) -> Seq<u8>
    decreases values.len(),
{
    if values.len() == 0 {
        seq![]
    } else {
        encoded(answered(joining, values[0], s.store, times(s.ran)).reply) + replies_to(
            ran_one(s, joining, times, values[0]),
            joining,
            times,
            values.skip(1),
        )
    }
}

/// What the commands themselves reply, one after the other, from the contents `m` and the time of
/// the command with the number `first` on.
pub open spec fn command_replies(m: Contents, first: nat, times: spec_fn(nat) -> u128, values: Seq<RespView>) -> Seq<u8>
    decreases values.len(),
{
    if values.len() == 0 {
        seq![]
    } else {
        let outcome = executed(values[0], m, times(first));
        encoded(outcome.reply) + command_replies(outcome.store, first + 1, times, values.skip(1))
    }
}

/// A node that has joined gives the replies of the commands.
proof fn lemma_replies_of_commands(s: Session, times: spec_fn(nat) -> u128, values: Seq<RespView>)
    ensures
        replies_to(s, false, times, values) == command_replies(s.store, s.ran, times, values),
    decreases values.len(),
{
    if values.len() > 0 {
        lemma_replies_of_commands(ran_one(s, false, times, values[0]), times, values.skip(1));
    }
}

/// A step of a connection is a step of its session: the node holds afterwards what the session
/// says, and the bytes that are sent are those that it writes.
pub proof fn lemma_step_of_session(
    s: Session,
    step: Step,
    before: CacheServiceImpl,
    after: CacheServiceImpl,
    times: spec_fn(nat) -> u128,
)
    requires
        before.store@ == s.store,
        set_content(before.tombstones) == s.tombstones,
        stepped(step, s.held, before, after, times(s.ran)),
    ensures
        ({
            let next = stepped_once(s, before.joining(), times);
            &&& after.store@ == next.store
            &&& set_content(after.tombstones) == next.tombstones
            &&& after.joining() == before.joining()
            &&& match step {
                Step::Wait => next == s,
                Step::Reply { response, consumed } => next.written == s.written + response@ && next.held == s.held.skip(
                    consumed as int,
                ),
                Step::Reject { response } => next.written == s.written + response@ && next.held == Seq::<u8>::empty(),
            }
        }),
{
}

/// Bytes that come later change nothing of what those before them lead to.
proof fn lemma_drained_split(s: Session, joining: bool, times: spec_fn(nat) -> u128, more: Seq<u8>)
    requires
        all_values(s.held + more),
    ensures
        fed(drained(s, joining, times), joining, times, more) == fed(s, joining, times, more),
        all_values(s.held),
    decreases s.held.len(),
{
    let longer = Session { held: s.held + more, ..s };
    lemma_parse_stable(s.held, more);
    if let ParseView::Complete(value, n) = parsed(s.held) {
        lemma_consumed_in_buffer(s.held);
        let next = stepped_once(s, joining, times);
        assert(longer.held.skip(n) =~= next.held + more);
        lemma_drained_split(next, joining, times, more);
        let later = stepped_once(longer, joining, times);
        assert(later == (Session { held: next.held + more, ..next }));
        assert(drained(longer, joining, times) == drained(later, joining, times));
    }
}

/// How the input is cut into chunks does not matter: as long as it holds values only, the
/// session is the same as if all of it had arrived at once.
pub proof fn lemma_cuts_do_not_matter(s: Session, joining: bool, times: spec_fn(nat) -> u128, chunks: Seq<Seq<u8>>)
    requires
        parsed(s.held) is Incomplete,
        all_values(s.held + joined(chunks)),
    ensures
        delivered(s, joining, times, chunks) == fed(s, joining, times, joined(chunks)),
    decreases chunks.len(),
{
    if chunks.len() == 0 {
        assert(s.held + joined(chunks) =~= s.held);
    } else {
        let front = chunks.drop_last();
        let (a, b) = (joined(front), chunks.last());
        let start = Session { held: s.held + a, ..s };
        assert(s.held + joined(chunks) =~= start.held + b);
        lemma_drained_split(start, joining, times, b);
        lemma_cuts_do_not_matter(s, joining, times, front);
    }
}

/// What is held comes to the commands that it begins with, each run once and in their order;
/// the rest is kept.
proof fn lemma_drained_runs(s: Session, joining: bool, times: spec_fn(nat) -> u128)
    requires
        all_values(s.held),
    ensures
        drained(s, joining, times) == (Session {
            held: rest_of(s.held),
            ..ran_all(s, joining, times, values_in(s.held))
        }),
        parsed(rest_of(s.held)) is Incomplete,
    decreases s.held.len(),
{
    if let ParseView::Complete(value, n) = parsed(s.held) {
        let next = stepped_once(s, joining, times);
        let values = values_in(s.held);
        lemma_drained_runs(next, joining, times);
        assert(values[0] == value);
        assert(values.skip(1) =~= values_in(next.held));
        lemma_ran_all_keeps(ran_one(s, joining, times, value), next, joining, times, values.skip(1));
    }
}

/// What is held plays no part in running commands.
proof fn lemma_ran_all_keeps(
    a: Session,
    b: Session,
    joining: bool,
    times: spec_fn(nat) -> u128,
    values: Seq<RespView>,
)
    requires
        b == (Session { held: b.held, ..a }),
    ensures
        ran_all(b, joining, times, values) == (Session { held: b.held, ..ran_all(a, joining, times, values) }),
    decreases values.len(),
{
    if values.len() > 0 {
        lemma_ran_all_keeps(
            ran_one(a, joining, times, values[0]),
            ran_one(b, joining, times, values[0]),
            joining,
            times,
            values.skip(1),
        );
    }
}

/// The commands write their replies in order.
proof fn lemma_ran_all_writes(s: Session, joining: bool, times: spec_fn(nat) -> u128, values: Seq<RespView>)
    ensures
        ran_all(s, joining, times, values).written == s.written + replies_to(s, joining, times, values),
        ran_all(s, joining, times, values).ran == s.ran + values.len(),
    decreases values.len(),
{
    if values.len() == 0 {
        assert(s.written + replies_to(s, joining, times, values) =~= s.written);
    } else {
        let next = ran_one(s, joining, times, values[0]);
        lemma_ran_all_writes(next, joining, times, values.skip(1));
        assert(ran_all(s, joining, times, values).written =~= s.written + replies_to(s, joining, times, values));
    }
}

/// The law of a connection: however its input is cut into chunks, the replies to the commands
/// in it are written in their order, each command is run exactly once, and an incomplete rest
/// gets no reply. On a node that has joined the replies are those of the commands themselves; one
/// that is joining refuses the writes among them.
pub proof fn lemma_connection(s: Session, joining: bool, times: spec_fn(nat) -> u128, chunks: Seq<Seq<u8>>)
    requires
        s.held.len() == 0,
        all_values(joined(chunks)),
    ensures
        ({
            let values = values_in(joined(chunks));
            let end = delivered(s, joining, times, chunks);
            &&& end.written == s.written + replies_to(s, joining, times, values)
            &&& !joining ==> end.written == s.written + command_replies(s.store, s.ran, times, values)
            &&& end.ran == s.ran + values.len()
            &&& end.store == ran_all(s, joining, times, values).store
            &&& end.tombstones == ran_all(s, joining, times, values).tombstones
            &&& end.held == rest_of(joined(chunks))
            &&& parsed(end.held) is Incomplete
        }),
{
    let bytes = joined(chunks);
    let start = Session { held: s.held + bytes, ..s };
    assert(s.held + bytes =~= bytes);
    lemma_cuts_do_not_matter(s, joining, times, chunks);
    lemma_drained_runs(start, joining, times);
    lemma_ran_all_keeps(s, start, joining, times, values_in(bytes));
    lemma_ran_all_writes(s, joining, times, values_in(bytes));
    lemma_replies_of_commands(s, times, values_in(bytes));
}

/// What a client sends is what arrives: the bytes of several values, and of a part of another,
/// hold those values and that part.
pub proof fn lemma_sent_values(values: Seq<RespView>, rest: Seq<u8>)
    requires
        forall|i: int| 0 <= i < values.len() ==> sendable(#[trigger] values[i]),
        parsed(rest) is Incomplete,
    ensures
        all_values(encoded_all(values) + rest),
        values_in(encoded_all(values) + rest) == values,
        rest_of(encoded_all(values) + rest) == rest,
    decreases values.len(),
{
    let bytes = encoded_all(values) + rest;
    if values.len() == 0 {
        assert(bytes =~= rest);
        assert(values =~= Seq::<RespView>::empty());
    } else {
        let tail = values.skip(1);
        lemma_encoded_first(values);
        let behind = encoded_all(tail) + rest;
        assert(bytes =~= encoded(values[0]) + behind);
        assert(sendable(values[0]));
        lemma_parse_encoded(values[0], behind);
        lemma_consumed_in_buffer(bytes);
        assert(bytes.skip(encoded(values[0]).len() as int) =~= behind);
        assert forall|i: int| 0 <= i < tail.len() implies sendable(#[trigger] tail[i]) by {
            assert(sendable(values[i + 1]));
        }
        lemma_sent_values(tail, rest);
        assert(seq![values[0]] + tail =~= values);
    }
}

} // verus!
