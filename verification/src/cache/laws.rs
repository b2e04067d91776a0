//! What holds of a store over several calls.
use vstd::prelude::*;
use super::map::{swept, Contents};
use super::store::{
    after_read, epoch_instant, epoch_ms, holds, left_ms, live_keys, read, received, sent_as, stored, time_left, transfers,
    with_expiry, Transfer,
};
use crate::clock::{MAX_NANOS, NANOS_PER_MILLI};

verus! {

/// A read gives back what was written last, until its time is over, and other keys are as
/// they were.
pub proof fn lemma_read_after_set(
    m: Contents,
    key: Seq<char>,
    value: Seq<u8>,
    ttl: Option<u128>,
    set_at: u128,
    other: Seq<char>,
    now: u128,
)
    requires
        set_at <= MAX_NANOS,
        ttl matches Some(d) ==> d <= MAX_NANOS,
        other != key,
    ensures
        read(stored(m, key, value, ttl, set_at), key, now) == (match ttl {
            Some(d) => if now < set_at + d {
                Some(value)
            } else {
                None
            },
            None => Some(value),
        }),
        read(stored(m, key, value, ttl, set_at), other, now) == read(m, other, now),
{
}

/// A key that was deleted is gone, and other keys are as they were.
pub proof fn lemma_read_after_delete(m: Contents, key: Seq<char>, other: Seq<char>, now: u128)
    requires
        other != key,
    ensures
        read(m.remove(key), key, now) is None,
        read(m.remove(key), other, now) == read(m, other, now),
{
}

/// Once a key has expired it stays so, until it is written again.
pub proof fn lemma_expired_for_good(m: Contents, key: Seq<char>, now: u128, later: u128)
    requires
        now <= later,
        !holds(m, key, now),
    ensures
        !holds(m, key, later),
{
}

/// Sweeping is not seen by readers: no later read of any key changes.
pub proof fn lemma_sweep_unseen(m: Contents, key: Seq<char>, swept_at: u128, now: u128)
    requires
        swept_at <= now,
    ensures
        read(swept(m, swept_at), key, now) == read(m, key, now),
        holds(m, key, now) ==> time_left(swept(m, swept_at), key, now) == time_left(m, key, now),
{
}

/// A read is not seen by later readers, though it drops a key that has expired.
pub proof fn lemma_read_unseen(m: Contents, key: Seq<char>, read_at: u128, other: Seq<char>, now: u128)
    requires
        read_at <= now,
    ensures
        read(after_read(m, key, read_at), other, now) == read(m, other, now),
{
}

/// The time left to a key is what it was given, less what has passed since.
pub proof fn lemma_time_left(m: Contents, key: Seq<char>, ttl: u128, set_at: u128, now: u128)
    requires
        m.contains_key(key),
        ttl <= MAX_NANOS,
        set_at <= MAX_NANOS,
        set_at <= now,
    ensures
        time_left(with_expiry(m, key, ttl, set_at), key, now) == Some(
            if now - set_at < ttl { (ttl - (now - set_at)) as u128 } else { 0 },
        ),
        holds(with_expiry(m, key, ttl, set_at), key, now) <==> now - set_at < ttl,
        read(with_expiry(m, key, ttl, set_at), key, now) == (if now - set_at < ttl {
            Some(m[key].0)
        } else {
            None
        }),
{
}

/// A key that is sent to another node arrives there, whatever stood there before, with its value
/// and the whole milliseconds that were left to it; so it is readable there no longer than it
/// would have been here. With less than a millisecond left it does not arrive. Other keys stay
/// as they were. Times here and there are those of two clocks.
pub proof fn lemma_transfer_keeps(
    m: Contents,
    key: Seq<char>,
    sent_at: u128,
    there: Contents,
    arrived_at: u128,
    passed: u128,
    other: Seq<char>,
)
    requires
        holds(m, key, sent_at),
        arrived_at <= MAX_NANOS,
        arrived_at + passed <= u128::MAX,
        sent_at + passed <= u128::MAX,
        other != key,
    ensures
        ({
            let sent = sent_as(m[key], sent_at);
            let after = received(there, key, sent.0, sent.1, arrived_at);
            let later = (arrived_at + passed) as u128;
            &&& sent.1 == Some(0u64) ==> after == there
            &&& sent.1 != Some(0u64) ==> {
                &&& after.contains_key(key)
                &&& after[key].0 == m[key].0
                &&& read(after, key, later) is Some ==> read(after, key, later) == Some(m[key].0) && holds(
                    m,
                    key,
                    (sent_at + passed) as u128,
                )
            }
            &&& after.contains_key(other) == there.contains_key(other)
            &&& there.contains_key(other) ==> after[other] == there[other]
        }),
        match m[key].1 {
            None => {
                let after = received(there, key, m[key].0, None, arrived_at);
                &&& sent_as(m[key], sent_at) == (m[key].0, None::<u64>)
                &&& after[key].1 is None
                &&& read(after, key, (arrived_at + passed) as u128) == Some(m[key].0)
            },
            Some(t) => {
                let left = t - sent_at;
                let ms = left_ms(t, sent_at);
                let after = received(there, key, m[key].0, Some(ms), arrived_at);
                &&& sent_as(m[key], sent_at) == (m[key].0, Some(ms))
                &&& ms * NANOS_PER_MILLI <= left
                &&& left / (NANOS_PER_MILLI as int) < 0x1_0000_0000_0000_0000 ==> left < (ms + 1) * NANOS_PER_MILLI
                &&& ms != 0 ==> time_left(after, key, arrived_at) == Some((ms * NANOS_PER_MILLI) as u128)
            },
        },
{
    if let Some(t) = m[key].1 {
        let ms = left_ms(t, sent_at);
        let left = t - sent_at;
        let whole = left / (NANOS_PER_MILLI as int);
        assert(whole * NANOS_PER_MILLI <= left < (whole + 1) * NANOS_PER_MILLI) by (nonlinear_arith)
            requires
                whole == left / (NANOS_PER_MILLI as int),
                NANOS_PER_MILLI == 1_000_000,
        ;
        assert(ms <= whole);
        assert(0 <= ms * NANOS_PER_MILLI <= whole * NANOS_PER_MILLI && ms * NANOS_PER_MILLI <= MAX_NANOS)
            by (nonlinear_arith)
            requires
                0 <= ms <= whole,
                ms <= u64::MAX,
                NANOS_PER_MILLI == 1_000_000,
                MAX_NANOS == 18_446_744_073_709_551_615_999_999_999,
        ;
    }
}

/// Milliseconds since the epoch and back is the same number; a time and back loses less than
/// a millisecond.
pub proof fn lemma_epoch_round_trip(epoch: u128, ms: u64, instant: u128)
    requires
        epoch <= MAX_NANOS,
        epoch <= instant,
        (instant - epoch) / (NANOS_PER_MILLI as int) < 0x1_0000_0000_0000_0000,
    ensures
        epoch_ms(epoch, epoch_instant(epoch, ms) as u128) == ms,
        epoch_instant(epoch, epoch_ms(epoch, instant)) <= instant,
        instant < epoch_instant(epoch, epoch_ms(epoch, instant)) + NANOS_PER_MILLI,
{
    assert(0 <= ms * NANOS_PER_MILLI <= MAX_NANOS) by (nonlinear_arith)
        requires
            0 <= ms <= u64::MAX,
            NANOS_PER_MILLI == 1_000_000,
            MAX_NANOS == 18_446_744_073_709_551_615_999_999_999,
    ;
    assert((ms * NANOS_PER_MILLI) / (NANOS_PER_MILLI as int) == ms) by (nonlinear_arith)
        requires
            NANOS_PER_MILLI == 1_000_000,
    ;
    let gap = instant - epoch;
    let whole = gap / (NANOS_PER_MILLI as int);
    assert(whole * NANOS_PER_MILLI <= gap < whole * NANOS_PER_MILLI + NANOS_PER_MILLI) by (nonlinear_arith)
        requires
            whole == gap / (NANOS_PER_MILLI as int),
            NANOS_PER_MILLI == 1_000_000,
    ;
}

/// A key is held until its time is over, and a key without one for good.
pub proof fn lemma_held(m: Contents, key: Seq<char>, now: u128)
    ensures
        holds(m, key, now) <==> m.contains_key(key) && (m[key].1 matches Some(t) ==> now < t),
        read(m, key, now) == (if m.contains_key(key) && (m[key].1 matches Some(t) ==> now < t) {
            Some(m[key].0)
        } else {
            None
        }),
        live_keys(m, now).contains(key) <==> m.contains_key(key) && (m[key].1 matches Some(t) ==> now < t),
{
}

/// What a write leaves: the value with the time at which it expires, and everything else.
pub proof fn lemma_written(m: Contents, key: Seq<char>, value: Seq<u8>, ttl: Option<u128>, now: u128)
    requires
        now <= MAX_NANOS,
        ttl matches Some(d) ==> d <= MAX_NANOS,
    ensures
        stored(m, key, value, ttl, now)[key].0 == value,
        ttl is None ==> stored(m, key, value, ttl, now)[key].1 is None,
        ttl matches Some(d) ==> (stored(m, key, value, ttl, now)[key].1 matches Some(t) && t == now + d),
        stored(m, key, value, ttl, now).contains_key(key),
        stored(m, key, value, ttl, now).remove(key) == m.remove(key),
{
    assert(stored(m, key, value, ttl, now).remove(key) =~= m.remove(key));
}

/// A sweep drops what has expired by then, and nothing else.
pub proof fn lemma_swept(m: Contents, now: u128, key: Seq<char>)
    ensures
        swept(m, now).contains_key(key) <==> m.contains_key(key) && (m[key].1 matches Some(t) ==> now < t),
        swept(m, now).contains_key(key) ==> swept(m, now)[key] == m[key],
{
}

/// A read drops the key if it has expired, and changes nothing else.
pub proof fn lemma_after_read(m: Contents, key: Seq<char>, now: u128)
    ensures
        after_read(m, key, now).remove(key) == m.remove(key),
        after_read(m, key, now).contains_key(key) <==> m.contains_key(key) && (m[key].1 matches Some(t) ==> now < t),
        after_read(m, key, now).contains_key(key) ==> after_read(m, key, now)[key] == m[key],
{
    assert(after_read(m, key, now).remove(key) =~= m.remove(key));
}

/// The time left to a key is what lies between now and its end, nothing once that has passed.
pub proof fn lemma_left(m: Contents, key: Seq<char>, now: u128)
    ensures
        match time_left(m, key, now) {
            Some(d) => m.contains_key(key) && (m[key].1 matches Some(t) && (if t > now {
                now + d == t
            } else {
                d == 0
            })),
            None => !m.contains_key(key) || m[key].1 is None,
        },
{
}

/// A time that is set on a key leaves its value and everything else; on a key that is not there it
/// does nothing.
pub proof fn lemma_expiry_set(m: Contents, key: Seq<char>, ttl: u128, now: u128)
    requires
        now <= MAX_NANOS,
        ttl <= MAX_NANOS,
    ensures
        !m.contains_key(key) ==> with_expiry(m, key, ttl, now) == m,
        m.contains_key(key) ==> {
            let after = with_expiry(m, key, ttl, now);
            &&& after[key].0 == m[key].0
            &&& after[key].1 matches Some(t) && t == now + ttl
            &&& after.contains_key(key)
            &&& after.remove(key) == m.remove(key)
        },
{
    assert(m.contains_key(key) ==> with_expiry(m, key, ttl, now).remove(key) =~= m.remove(key));
}

/// What is sent to another node are the keys that have not expired, each once, with its value and
/// the whole milliseconds that are left to it.
pub proof fn lemma_sent(entries: Seq<Transfer>, m: Contents, now: u128, key: Seq<char>)
    requires
        transfers(entries, m, now),
    ensures
        m.contains_key(key) && (m[key].1 matches Some(t) ==> now < t) <==> exists|i: int|
            0 <= i < entries.len() && (#[trigger] entries[i]).0@ == key,
        forall|i: int, j: int|
            0 <= i < entries.len() && 0 <= j < entries.len() && (#[trigger] entries[i]).0@ == key && (
            #[trigger] entries[j]).0@ == key ==> i == j,
        forall|i: int|
            0 <= i < entries.len() && (#[trigger] entries[i]).0@ == key ==> {
                &&& entries[i].1@ == m[key].0
                &&& m[key].1 is None ==> entries[i].2 is None
                &&& m[key].1 matches Some(t) ==> (entries[i].2 matches Some(ms) && (t - now < 18_446_744_073_709_551_616
                    * 1_000_000 ==> ms * 1_000_000 <= t - now < (ms + 1) * 1_000_000))
            },
{
    assert forall|i: int| 0 <= i < entries.len() && (#[trigger] entries[i]).0@ == key implies {
        &&& entries[i].1@ == m[key].0
        &&& m[key].1 is None ==> entries[i].2 is None
        &&& m[key].1 matches Some(t) ==> (entries[i].2 matches Some(ms) && (t - now < 18_446_744_073_709_551_616
            * 1_000_000 ==> ms * 1_000_000 <= t - now < (ms + 1) * 1_000_000))
    } by {
        assert((entries[i].1@, entries[i].2) == sent_as(m[key], now));
    }
    if m.contains_key(key) && (m[key].1 matches Some(t) ==> now < t) {
        assert(holds(m, key, now));
    }
}

/// What arrives with time left is stored for so many milliseconds, or for good if it does not
/// expire; without time left it changes nothing.
pub proof fn lemma_arrived(m: Contents, key: Seq<char>, value: Seq<u8>, ms: u64, now: u128)
    requires
        now <= MAX_NANOS,
    ensures
        received(m, key, value, None, now) == m.insert(key, (value, None)),
        received(m, key, value, Some(0), now) == m,
        ms > 0 ==> received(m, key, value, Some(ms), now) == m.insert(
            key,
            (value, Some((now + ms * 1_000_000) as u128)),
        ),
{
}

/// A time before the epoch counts as the epoch.
pub proof fn lemma_before_epoch(epoch: u128, instant: u128, ms: u64)
    requires
        instant < epoch,
    ensures
        epoch_ms(epoch, instant) == 0,
        epoch_instant(epoch, ms) == epoch + ms * 1_000_000,
{
}

} // verus!
