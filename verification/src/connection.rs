//! The connections over which clients send commands to a node.
use vstd::prelude::*;
use crate::cache::map::Contents;
use crate::cache::tombstones::{set_content, set_insert};
use crate::clock::MAX_NANOS;
use crate::resp::commands::{
    arg_views, command_name, countable, deleted, executed, extract_str, handle_command_at, refused, str_of, Outcome,
};
use crate::resp::encoder::{encode_error, encoded};
use crate::resp::laws::{lemma_parse_encoded, sendable};
use crate::resp::parser::{lemma_array_length, lemma_consumed_in_buffer, parse_resp, parsed, ParseResult, ParseView};
use crate::resp::value::{RespValue, RespView};
use crate::service::CacheServiceImpl;
use crate::utf8::{same_text, to_upper};

verus! {

/// What a command comes to on a node: one that is joining takes no writes.
pub open spec fn answered(joining: bool, value: RespView, m: Contents, now: u128) -> Outcome {
    if joining && command_name(value) == Some("SET"@) {
        refused(m, "ERR node is joining and does not accept writes"@)
    } else {
        executed(value, m, now)
    }
}

/// The keys among the arguments of a command.
pub open spec fn named_keys(args: Seq<RespView>) -> Set<Seq<char>> {
    Set::new(|key: Seq<char>| exists|i: int| 0 <= i < args.len() && str_of(#[trigger] args[i]) == Some(key))
}

/// The keys to remember as deleted after a command: a node that is joining adds those that the
/// command deletes.
pub open spec fn buried(joining: bool, value: RespView, tombstones: Set<Seq<char>>) -> Set<Seq<char>> {
    if joining && command_name(value) == Some("DEL"@) {
        tombstones.union(named_keys(value->Array_0.skip(1)))
    } else {
        tombstones
    }
}

/// What a connection does with the bytes that it holds.
pub enum Step {
    /// Wait for more bytes.
    Wait,
    /// Send the response and drop the bytes of the command.
    Reply { response: Vec<u8>, consumed: usize },
    /// Send the error and drop everything.
    Reject { response: Vec<u8> },
}

/// What a connection that holds `buf` does at `now`, and what becomes of the node.
pub open spec fn stepped(step: Step, buf: Seq<u8>, before: CacheServiceImpl, after: CacheServiceImpl, now: u128) -> bool {
    match parsed(buf) {
        ParseView::Incomplete => step is Wait && after == before,
        ParseView::Error(e) => after == before && (step matches Step::Reject { response } && response@ == encoded(
            RespView::Error("ERR "@ + e),
        )),
        ParseView::Complete(value, n) => {
            let outcome = answered(before.joining(), value, before.store@, now);
            &&& after.store@ == outcome.store
            &&& set_content(after.tombstones) == buried(before.joining(), value, set_content(before.tombstones))
            &&& after.membership_table == before.membership_table
            &&& step matches Step::Reply { response, consumed } && response@ == encoded(outcome.reply) && consumed == n
        },
    }
}

impl CacheServiceImpl {
    /// Runs a command on the node, at a given time, and gives the bytes of the reply.
    pub fn run_command_at(&mut self, value: &RespValue, now: u128) -> (out: Vec<u8>)
        requires
            old(self).wf(),
            countable(value@),
            now <= MAX_NANOS,
        ensures
            ({
                let outcome = answered(old(self).joining(), value@, old(self).store@, now);
                out@ == encoded(outcome.reply) && final(self).store@ == outcome.store
            }),
            set_content(final(self).tombstones) == buried(
                old(self).joining(),
                value@,
                set_content(old(self).tombstones),
            ),
            final(self).membership_table == old(self).membership_table,
    {
        if self.membership_table.is_self_joining() {
            if let RespValue::Array(args) = value {
                assert(value@->Array_0 =~= arg_views(args@));
                if args.len() > 0 {
                    if let Some(name) = extract_str(&args[0]) {
                        let name = to_upper(name);
                        if same_text(name.as_str(), "SET") {
                            proof {
                                reveal_strlit("SET");
                                reveal_strlit("DEL");
                                assert("SET"@[0] != "DEL"@[0]);
                            }
                            return encode_error("ERR node is joining and does not accept writes");
                        }
                        if same_text(name.as_str(), "DEL") {
                            self.bury(args);
                        }
                    }
                }
            }
        }
        handle_command_at(value, &mut self.store, now)
    }

    /// Remembers the keys among the arguments of a command as deleted.
    fn bury(&mut self, args: &Vec<RespValue>)
        requires
            args@.len() > 0,
        ensures
            set_content(final(self).tombstones) == set_content(old(self).tombstones).union(
                named_keys(arg_views(args@).skip(1)),
            ),
            final(self).store == old(self).store,
            final(self).membership_table == old(self).membership_table,
    {
        let ghost keys = arg_views(args@).skip(1);
        let ghost before = set_content(self.tombstones);
        let mut i: usize = 1;
        assert(before.union(named_keys(keys.take(0))) =~= before);
        while i < args.len()
            invariant
                1 <= i <= args@.len(),
                keys == arg_views(args@).skip(1),
                set_content(self.tombstones) == before.union(named_keys(keys.take(i - 1))),
                self.store == old(self).store,
                self.membership_table == old(self).membership_table,
            decreases args@.len() - i,
        {
            let ghost (a, b) = (keys.take(i - 1), keys.take(i as int));
            assert(b =~= a.push(args@[i as int]@));
            assert(forall|k: int| 0 <= k < a.len() ==> a[k] == b[k]);
            match extract_str(&args[i]) {
                Some(key) => {
                    set_insert(&mut self.tombstones, key.to_string());
                    assert(named_keys(b) =~= named_keys(a).insert(key@)) by {
                        assert(str_of(b[i - 1]) == Some(key@));
                        assert forall|x: Seq<char>| named_keys(b).contains(x) <==> named_keys(a).contains(x) || x == key@ by {
                            if named_keys(b).contains(x) && x != key@ {
                                let k = choose|k: int| 0 <= k < b.len() && str_of(#[trigger] b[k]) == Some(x);
                                assert(a[k] == b[k]);
                            }
                            if named_keys(a).contains(x) {
                                let k = choose|k: int| 0 <= k < a.len() && str_of(#[trigger] a[k]) == Some(x);
                                assert(str_of(b[k]) == Some(x));
                            }
                        }
                    }
                },
                None => {
                    assert(named_keys(b) =~= named_keys(a)) by {
                        assert forall|x: Seq<char>| named_keys(b).contains(x) <==> named_keys(a).contains(x) by {
                            if named_keys(b).contains(x) {
                                let k = choose|k: int| 0 <= k < b.len() && str_of(#[trigger] b[k]) == Some(x);
                                assert(a[k] == b[k]);
                            }
                            if named_keys(a).contains(x) {
                                let k = choose|k: int| 0 <= k < a.len() && str_of(#[trigger] a[k]) == Some(x);
                                assert(str_of(b[k]) == Some(x));
                            }
                        }
                    }
                },
            }
            assert(set_content(self.tombstones) =~= before.union(named_keys(b)));
            i += 1;
        }
        assert(keys.take(i - 1) =~= keys);
    }

    /// Takes one step of a connection, at a given time: runs the command that the bytes begin
    /// with, if it is there in full.
    pub fn step_at(&mut self, buf: &[u8], now: u128) -> (step: Step)
        requires
            old(self).wf(),
            now <= MAX_NANOS,
        ensures
            stepped(step, buf@, *old(self), *final(self), now),
            step matches Step::Reply { consumed, .. } ==> 0 < consumed <= buf@.len(),
    {
        match parse_resp(buf) {
            ParseResult::Complete(value, consumed) => {
                proof {
                    lemma_array_length(buf@);
                    lemma_consumed_in_buffer(buf@);
                }
                let response = self.run_command_at(&value, now);
                Step::Reply { response, consumed }
            },
            ParseResult::Incomplete => Step::Wait,
            ParseResult::Error(e) => {
                let mut text = "ERR ".to_string();
                text.append(e.as_str());
                Step::Reject { response: encode_error(text.as_str()) }
            },
        }
    }

    /// Takes one step of a connection.
    pub fn step(&mut self, buf: &[u8]) -> (step: Step)
        requires
            old(self).wf(),
        ensures
            exists|now: u128|
                now <= MAX_NANOS && old(self).store.spec_clock().shows(now) && #[trigger] stepped(
                    step,
                    buf@,
                    *old(self),
                    *final(self),
                    now,
                ),
            step matches Step::Reply { consumed, .. } ==> 0 < consumed <= buf@.len(),
    {
        let now = self.store.now();
        self.step_at(buf, now)
    }
}

/// Commands can be sent one behind the other: the first is answered for itself, whatever
/// bytes follow it, and exactly its bytes are consumed.
pub proof fn lemma_pipelined(
    command: RespView,
    rest: Seq<u8>,
    step: Step,
    before: CacheServiceImpl,
    after: CacheServiceImpl,
    now: u128,
)
    requires
        sendable(command),
        stepped(step, encoded(command) + rest, before, after, now),
    ensures
        after.store@ == answered(before.joining(), command, before.store@, now).store,
        step matches Step::Reply { response, consumed } && response@ == encoded(
            answered(before.joining(), command, before.store@, now).reply,
        ) && consumed == encoded(command).len(),
{
    lemma_parse_encoded(command, rest);
}

/// A node that is joining takes in no key from its clients: whatever it is sent, it holds
/// afterwards no key that it did not hold before, and no other values.
pub proof fn lemma_joining_takes_no_keys(value: RespView, m: Contents, now: u128, key: Seq<char>)
    ensures
        ({
            let after = answered(true, value, m, now).store;
            after.contains_key(key) ==> m.contains_key(key) && after[key].0 == m[key].0
        }),
{
    if let RespView::Array(args) = value {
        if args.len() > 0 && str_of(args[0]) is Some {
            lemma_deleted_shrinks(m, args.skip(1), key);
        }
    }
}

proof fn lemma_deleted_shrinks(m: Contents, keys: Seq<RespView>, key: Seq<char>)
    ensures
        deleted(m, keys).0.contains_key(key) ==> m.contains_key(key)
            && deleted(m, keys).0[key] == m[key],
    decreases keys.len(),
{
    if keys.len() > 0 {
        lemma_deleted_shrinks(m, keys.drop_last(), key);
    }
}

/// A node that is joining refuses SET and remembers what DEL names; everything else, and everything
/// on a node that has joined, is as the command itself does it, and nothing is remembered.
pub proof fn lemma_joining_commands(value: RespView, m: Contents, now: u128, tombstones: Set<Seq<char>>, key: Seq<char>)
    ensures
        answered(false, value, m, now) == executed(value, m, now),
        buried(false, value, tombstones) == tombstones,
        command_name(value) == Some("SET"@) ==> answered(true, value, m, now).reply is Error && answered(
            true,
            value,
            m,
            now,
        ).store == m,
        command_name(value) != Some("SET"@) ==> answered(true, value, m, now) == executed(value, m, now),
        command_name(value) != Some("DEL"@) ==> buried(true, value, tombstones) == tombstones,
        command_name(value) == Some("DEL"@) ==> (buried(true, value, tombstones).contains(key) <==> tombstones.contains(
            key,
        ) || exists|i: int|
            1 <= i < value->Array_0.len() && #[trigger] str_of(value->Array_0[i]) == Some(key)),
{
    if command_name(value) == Some("DEL"@) {
        let args = value->Array_0;
        let keys = args.skip(1);
        if named_keys(keys).contains(key) {
            let i = choose|i: int| 0 <= i < keys.len() && str_of(#[trigger] keys[i]) == Some(key);
            assert(str_of(args[i + 1]) == Some(key));
        }
        if exists|i: int| 1 <= i < args.len() && #[trigger] str_of(args[i]) == Some(key) {
            let i = choose|i: int| 1 <= i < args.len() && #[trigger] str_of(args[i]) == Some(key);
            assert(str_of(keys[i - 1]) == Some(key));
        }
    }
}

/// What a step does with bytes that are no value: the error is sent, and nothing changes. With too few
/// bytes it waits, and nothing changes either.
pub proof fn lemma_step_without_command(step: Step, buf: Seq<u8>, before: CacheServiceImpl, after: CacheServiceImpl, now: u128)
    requires
        stepped(step, buf, before, after, now),
        !(parsed(buf) is Complete),
    ensures
        after == before,
        parsed(buf) is Incomplete ==> step is Wait,
        parsed(buf) matches ParseView::Error(e) ==> (step matches Step::Reject { response } && response@ == encoded(
            RespView::Error("ERR "@ + e),
        )),
{
}

/// What a step does with a command: it is run once, its reply is sent, and its bytes are dropped.
pub proof fn lemma_step_with_command(step: Step, buf: Seq<u8>, before: CacheServiceImpl, after: CacheServiceImpl, now: u128)
    requires
        stepped(step, buf, before, after, now),
        parsed(buf) is Complete,
        !before.joining(),
    ensures
        ({
            let outcome = executed(parsed(buf)->Complete_0, before.store@, now);
            &&& after.store@ == outcome.store
            &&& set_content(after.tombstones) == set_content(before.tombstones)
            &&& after.membership_table == before.membership_table
            &&& step matches Step::Reply { response, consumed } && response@ == encoded(outcome.reply) && consumed
                == parsed(buf)->Complete_1
        }),
{
}

} // verus!
