//! The store of a node, with expiry.
use vstd::prelude::*;
use bytes::Bytes;
use dashmap::DashMap;
use super::blob::{bytes_content, bytes_to_vec};
use super::map::{
    enumerates, live, map_content, map_entries, map_get, map_insert, map_new, map_remove, map_retain_live, swept,
    CacheEntry, Contents,
};
use crate::clock::{millis, Clock, Reading, MAX_NANOS, NANOS_PER_MILLI};

verus! {

/// The time at which something set at `now` expires.
pub open spec fn expiry(ttl: Option<u128>, now: u128) -> Option<u128> {
    match ttl {
        Some(d) => Some((now + d) as u128),
        None => None,
    }
}

/// The contents after a key was set at `now`.
pub open spec fn stored(m: Contents, key: Seq<char>, value: Seq<u8>, ttl: Option<u128>, now: u128) -> Contents {
    m.insert(key, (value, expiry(ttl, now)))
}

/// The key has a value that has not expired.
pub open spec fn holds(m: Contents, key: Seq<char>, now: u128) -> bool {
    m.contains_key(key) && live(m[key].1, now)
}

/// What a read at `now` gives.
pub open spec fn read(m: Contents, key: Seq<char>, now: u128) -> Option<Seq<u8>> {
    if holds(m, key, now) {
        Some(m[key].0)
    } else {
        None
    }
}

/// The contents after a read at `now`: a key that has expired is dropped.
pub open spec fn after_read(m: Contents, key: Seq<char>, now: u128) -> Contents {
    if holds(m, key, now) {
        m
    } else {
        m.remove(key)
    }
}

pub open spec fn content_of(value: Option<Bytes>) -> Option<Seq<u8>> {
    match value {
        Some(b) => Some(bytes_content(b)),
        None => None,
    }
}

/// The time that is left to a key at `now`: none once it has expired.
pub open spec fn time_left(m: Contents, key: Seq<char>, now: u128) -> Option<u128> {
    if !m.contains_key(key) {
        None
    } else {
        match m[key].1 {
            Some(t) => Some(if t > now { (t - now) as u128 } else { 0 }),
            None => None,
        }
    }
}

/// The contents after the expiry of a key, if it is there, was set at `now`.
pub open spec fn with_expiry(m: Contents, key: Seq<char>, ttl: u128, now: u128) -> Contents {
    if m.contains_key(key) {
        m.insert(key, (m[key].0, Some((now + ttl) as u128)))
    } else {
        m
    }
}

/// The keys that have not expired at `now`.
pub open spec fn live_keys(m: Contents, now: u128) -> Set<Seq<char>> {
    swept(m, now).dom()
}

/// The remaining time in whole milliseconds, in 64 bits.
pub open spec fn left_ms(expires_at: u128, now: u128) -> u64 {
    (((expires_at - now) as u128 / NANOS_PER_MILLI) % 0x1_0000_0000_0000_0000) as u64
}

/// An entry on its way to another node: the key, the value and the milliseconds left to it.
pub type Transfer = (String, Vec<u8>, Option<u64>);

/// What is sent of an entry at `now`.
pub open spec fn sent_as(entry: (Seq<u8>, Option<u128>), now: u128) -> (Seq<u8>, Option<u64>) {
    (
        entry.0,
        match entry.1 {
            Some(t) => Some(left_ms(t, now)),
            None => None,
        },
    )
}

/// The entries to send are those that have not expired at `now`, each once, in any order.
pub open spec fn transfers(entries: Seq<Transfer>, m: Contents, now: u128) -> bool {
    &&& forall|i: int|
        0 <= i < entries.len() ==> {
            let entry = #[trigger] entries[i];
            holds(m, entry.0@, now) && (entry.1@, entry.2) == sent_as(m[entry.0@], now)
        }
    &&& forall|i: int, j: int|
        0 <= i < j < entries.len() ==> (#[trigger] entries[i]).0@ != (#[trigger] entries[j]).0@
    &&& forall|key: Seq<char>| #[trigger]
        holds(m, key, now) ==> exists|i: int| 0 <= i < entries.len() && (#[trigger] entries[i]).0@ == key
}

/// The contents after an entry with so many milliseconds left arrived at `now`. An entry with
/// no time left is dropped.
pub open spec fn received(m: Contents, key: Seq<char>, value: Seq<u8>, remaining_ms: Option<u64>, now: u128) -> Contents {
    match remaining_ms {
        Some(ms) => if ms == 0 {
            m
        } else {
            stored(m, key, value, Some((ms * NANOS_PER_MILLI) as u128), now)
        },
        None => stored(m, key, value, None, now),
    }
}

/// The whole milliseconds from `epoch` to a time, in 64 bits; none if the time is before it.
pub open spec fn epoch_ms(epoch: u128, instant: u128) -> u64 {
    if instant >= epoch {
        (((instant - epoch) as u128 / NANOS_PER_MILLI) % 0x1_0000_0000_0000_0000) as u64
    } else {
        0
    }
}

/// The time so many milliseconds after `epoch`.
pub open spec fn epoch_instant(epoch: u128, ms: u64) -> int {
    epoch + ms * NANOS_PER_MILLI
}

/// The keys of a node. Times count nanoseconds on the clock of the store.
pub struct CacheStore {
    data: DashMap<String, CacheEntry>,
    clock: Clock,
    epoch: Reading,
}

impl View for CacheStore {
    type V = Contents;

    closed spec fn view(&self) -> Contents {
        map_content(self.data)
    }
}

impl CacheStore {
    /// The time from which milliseconds are counted.
    pub closed spec fn spec_epoch(&self) -> u128 {
        self.epoch.spec_nanos()
    }

    /// The clock that the times of the store count on.
    pub closed spec fn spec_clock(&self) -> Clock {
        self.clock
    }

    pub fn new() -> (store: Self)
        ensures
            store@ == Contents::empty(),
            store.spec_clock().shows(store.spec_epoch()),
    {
        let clock = Clock::start();
        let epoch = Reading::take(&clock);
        Self { data: map_new(), clock, epoch }
    }

    /// A reading of the clock of the store.
    pub fn now(&self) -> (now: u128)
        ensures
            now <= MAX_NANOS,
            self.spec_clock().shows(now),
    {
        self.clock.now()
    }

    /// Convert a time to milliseconds since this store's epoch.
    pub fn instant_to_epoch_ms(&self, instant: u128) -> (ms: u64)
        ensures
            ms == epoch_ms(self.spec_epoch(), instant),
    {
        let epoch = self.epoch.nanos();
        if instant >= epoch {
            (((instant - epoch) / NANOS_PER_MILLI) % 0x1_0000_0000_0000_0000) as u64
        } else {
            0
        }
    }

    /// Convert milliseconds since this store's epoch back to a time.
    pub fn epoch_ms_to_instant(&self, ms: u64) -> (instant: u128)
        ensures
            instant == epoch_instant(self.spec_epoch(), ms),
    {
        self.epoch.nanos() + ms as u128 * NANOS_PER_MILLI
    }

    /// Get the store's epoch (used by rebalancer for TTL conversion).
    pub fn epoch(&self) -> (epoch: u128)
        ensures
            epoch == self.spec_epoch(),
            epoch <= MAX_NANOS,
    {
        self.epoch.nanos()
    }

    pub fn set(&mut self, key: String, value: Bytes, ttl: Option<u128>)
        requires
            ttl matches Some(d) ==> d <= MAX_NANOS,
        ensures
            exists|now: u128| now <= MAX_NANOS && old(self).spec_clock().shows(now) && #[trigger] stored(old(self)@, key@, bytes_content(value), ttl, now)
                == final(self)@,
            final(self).spec_epoch() == old(self).spec_epoch(),
            final(self).spec_clock() == old(self).spec_clock(),
    {
        let now = self.now();
        self.set_at(key, value, ttl, now);
    }

    /// Sets a key, at a given time.
    pub fn set_at(&mut self, key: String, value: Bytes, ttl: Option<u128>, now: u128)
        requires
            ttl matches Some(d) ==> d <= MAX_NANOS,
            now <= MAX_NANOS,
        ensures
            final(self)@ == stored(old(self)@, key@, bytes_content(value), ttl, now),
            final(self).spec_epoch() == old(self).spec_epoch(),
            final(self).spec_clock() == old(self).spec_clock(),
    {
        let expires_at: Option<u128> = match ttl {
            Some(d) => Some(now + d),
            None => None,
        };
        map_insert(&mut self.data, key, CacheEntry { value, expires_at });
    }

    /// Returns None if key doesn't exist OR is expired (lazy expiry on read).
    pub fn get(&mut self, key: &str) -> (value: Option<Bytes>)
        ensures
            exists|now: u128|
                now <= MAX_NANOS && old(self).spec_clock().shows(now) && #[trigger] read(old(self)@, key@, now) == content_of(value) && final(self)@
                    == after_read(old(self)@, key@, now),
            final(self).spec_epoch() == old(self).spec_epoch(),
            final(self).spec_clock() == old(self).spec_clock(),
    {
        let now = self.now();
        self.get_at(key, now)
    }

    /// Reads a key, at a given time.
    pub fn get_at(&mut self, key: &str, now: u128) -> (value: Option<Bytes>)
        ensures
            content_of(value) == read(old(self)@, key@, now),
            final(self)@ == after_read(old(self)@, key@, now),
            final(self).spec_epoch() == old(self).spec_epoch(),
            final(self).spec_clock() == old(self).spec_clock(),
    {
        match map_get(&self.data, key) {
            None => {
                assert(self@.remove(key@) =~= self@);
                None
            },
            Some((value, expires_at)) => {
                if let Some(t) = expires_at {
                    if t <= now {
                        map_remove(&mut self.data, key);
                        return None;
                    }
                }
                Some(value)
            },
        }
    }

    pub fn delete(&mut self, key: &str) -> (found: bool)
        ensures
            found == old(self)@.contains_key(key@),
            final(self)@ == old(self)@.remove(key@),
            final(self).spec_epoch() == old(self).spec_epoch(),
            final(self).spec_clock() == old(self).spec_clock(),
    {
        map_remove(&mut self.data, key)
    }

    /// Returns the number of non-expired keys (approximate).
    pub fn len(&self) -> (n: usize)
        ensures
            exists|now: u128| now <= MAX_NANOS && self.spec_clock().shows(now) && #[trigger] live_keys(self@, now).len() == n,
    {
        let now = self.now();
        self.len_at(now)
    }

    /// The number of keys that have not expired at a given time.
    pub fn len_at(&self, now: u128) -> (n: usize)
        ensures
            live_keys(self@, now).finite(),
            n == live_keys(self@, now).len(),
    {
        let entries = map_entries(&self.data);
        let ghost mut keys: Seq<Seq<char>> = seq![];
        let mut n: usize = 0;
        let mut i: usize = 0;
        while i < entries.len()
            invariant
                i <= entries@.len(),
                n <= i,
                enumerates(entries@, self@),
                n == keys.len(),
                keys.no_duplicates(),
                forall|k: int|
                    0 <= k < keys.len() ==> live_keys(self@, now).contains(#[trigger] keys[k]) && exists|j: int|
                        0 <= j < i && (#[trigger] entries@[j]).0@ == keys[k],
                forall|j: int|
                    0 <= j < i && live((#[trigger] entries@[j]).2, now) ==> keys.contains(entries@[j].0@),
            decreases entries@.len() - i,
        {
            let keep = match entries[i].2 {
                Some(t) => t > now,
                None => true,
            };
            if keep {
                let ghost key = entries@[i as int].0@;
                let ghost before = keys;
                assert(!before.contains(key)) by {
                    if before.contains(key) {
                        let k = before.index_of(key);
                        let j = choose|j: int| 0 <= j < i && (#[trigger] entries@[j]).0@ == before[k];
                        assert(entries@[j].0@ != entries@[i as int].0@);
                    }
                }
                proof {
                    keys = keys.push(key);
                    assert(keys[before.len() as int] == key);
                    assert forall|x: Seq<char>| before.contains(x) implies keys.contains(x) by {
                        let k = before.index_of(x);
                        assert(keys[k] == x);
                    }
                    assert forall|k: int| 0 <= k < keys.len() implies live_keys(self@, now).contains(#[trigger] keys[k])
                        && exists|j: int| 0 <= j < i + 1 && (#[trigger] entries@[j]).0@ == keys[k] by {
                        if k < before.len() {
                            assert(keys[k] == before[k]);
                            let j = choose|j: int| 0 <= j < i && (#[trigger] entries@[j]).0@ == before[k];
                            assert(entries@[j].0@ == keys[k]);
                        } else {
                            assert(entries@[i as int].0@ == keys[k]);
                        }
                    }
                }
                n += 1;
            }
            i += 1;
        }
        proof {
            assert(keys.to_set() =~= live_keys(self@, now)) by {
                assert forall|key: Seq<char>| live_keys(self@, now).contains(key) implies keys.contains(key) by {
                    assert(self@.contains_key(key));
                    let j = choose|j: int| 0 <= j < entries@.len() && (#[trigger] entries@[j]).0@ == key;
                    assert(live(entries@[j].2, now));
                }
            }
            keys.unique_seq_to_set();
            vstd::seq_lib::seq_to_set_is_finite(keys);
        }
        n
    }

    pub fn is_empty(&self) -> (empty: bool)
        ensures
            exists|now: u128| now <= MAX_NANOS && self.spec_clock().shows(now) && (#[trigger] live_keys(self@, now).len() == 0) == empty,
    {
        self.len() == 0
    }

    /// Returns remaining TTL for a key, or None if no TTL or key doesn't exist.
    /// Returns Some(0) if expired but not yet cleaned.
    pub fn ttl(&self, key: &str) -> (left: Option<u128>)
        ensures
            exists|now: u128| now <= MAX_NANOS && self.spec_clock().shows(now) && #[trigger] time_left(self@, key@, now) == left,
    {
        let now = self.now();
        self.ttl_at(key, now)
    }

    /// The remaining TTL of a key at a given time.
    pub fn ttl_at(&self, key: &str, now: u128) -> (left: Option<u128>)
        ensures
            left == time_left(self@, key@, now),
    {
        match map_get(&self.data, key) {
            None => None,
            Some((_, expires_at)) => match expires_at {
                Some(t) => if t > now {
                    Some(t - now)
                } else {
                    Some(0)
                },
                None => None,
            },
        }
    }

    /// Check if a key exists (not expired).
    pub fn key_exists(&mut self, key: &str) -> (found: bool)
        ensures
            exists|now: u128|
                now <= MAX_NANOS && old(self).spec_clock().shows(now) && #[trigger] holds(old(self)@, key@, now) == found && final(self)@ == after_read(
                    old(self)@,
                    key@,
                    now,
                ),
            final(self).spec_epoch() == old(self).spec_epoch(),
            final(self).spec_clock() == old(self).spec_clock(),
    {
        let now = self.now();
        self.key_exists_at(key, now)
    }

    /// Check if a key exists at a given time.
    pub fn key_exists_at(&mut self, key: &str, now: u128) -> (found: bool)
        ensures
            found == holds(old(self)@, key@, now),
            final(self)@ == after_read(old(self)@, key@, now),
            final(self).spec_epoch() == old(self).spec_epoch(),
            final(self).spec_clock() == old(self).spec_clock(),
    {
        self.get_at(key, now).is_some()
    }

    /// Set expiry on an existing key. Returns false if key doesn't exist.
    pub fn expire(&mut self, key: &str, ttl: u128) -> (found: bool)
        requires
            ttl <= MAX_NANOS,
        ensures
            found == old(self)@.contains_key(key@),
            exists|now: u128| now <= MAX_NANOS && old(self).spec_clock().shows(now) && #[trigger] with_expiry(old(self)@, key@, ttl, now) == final(self)@,
            final(self).spec_epoch() == old(self).spec_epoch(),
            final(self).spec_clock() == old(self).spec_clock(),
    {
        let now = self.now();
        self.expire_at(key, ttl, now)
    }

    /// Set expiry on an existing key, at a given time.
    pub fn expire_at(&mut self, key: &str, ttl: u128, now: u128) -> (found: bool)
        requires
            ttl <= MAX_NANOS,
            now <= MAX_NANOS,
        ensures
            found == old(self)@.contains_key(key@),
            final(self)@ == with_expiry(old(self)@, key@, ttl, now),
            final(self).spec_epoch() == old(self).spec_epoch(),
            final(self).spec_clock() == old(self).spec_clock(),
    {
        match map_get(&self.data, key) {
            Some((value, _)) => {
                map_insert(&mut self.data, key.to_string(), CacheEntry { value, expires_at: Some(now + ttl) });
                true
            },
            None => false,
        }
    }

    /// Provide access to the underlying DashMap.
    pub fn data(&mut self) -> (data: &mut DashMap<String, CacheEntry>)
        ensures
            map_content(*data) == old(self)@,
            map_content(*final(data)) == final(self)@,
            final(self).spec_epoch() == old(self).spec_epoch(),
            final(self).spec_clock() == old(self).spec_clock(),
    {
        &mut self.data
    }

    /// Drops the keys that have expired, so that memory doesn't balloon with unread ones.
    pub fn sweep(&mut self)
        ensures
            exists|now: u128| now <= MAX_NANOS && old(self).spec_clock().shows(now) && #[trigger] swept(old(self)@, now) == final(self)@,
            final(self).spec_epoch() == old(self).spec_epoch(),
            final(self).spec_clock() == old(self).spec_clock(),
    {
        let now = self.now();
        self.sweep_at(now);
    }

    /// Drops the keys that have expired at a given time.
    pub fn sweep_at(&mut self, now: u128)
        ensures
            final(self)@ == swept(old(self)@, now),
            final(self).spec_epoch() == old(self).spec_epoch(),
            final(self).spec_clock() == old(self).spec_clock(),
    {
        map_retain_live(&mut self.data, now);
    }

    /// Get all non-expired entries as (key, value_bytes, remaining_ms_option).
    /// Used by the TransferKeys RPC to stream data to a joining node.
    /// Expired entries are skipped.
    pub fn entries_for_transfer(&self) -> (entries: Vec<Transfer>)
        ensures
            exists|now: u128| now <= MAX_NANOS && self.spec_clock().shows(now) && #[trigger] transfers(entries@, self@, now),
    {
        let now = self.now();
        self.entries_for_transfer_at(now)
    }

    /// The entries to send at a given time.
    pub fn entries_for_transfer_at(&self, now: u128) -> (result: Vec<Transfer>)
        ensures
            transfers(result@, self@, now),
    {
        let entries = map_entries(&self.data);
        let mut result: Vec<Transfer> = Vec::new();
        let ghost mut from: Seq<int> = seq![];
        let mut i: usize = 0;
        while i < entries.len()
            invariant
                i <= entries@.len(),
                enumerates(entries@, self@),
                from.len() == result@.len(),
                forall|k: int|
                    0 <= k < result@.len() ==> {
                        let entry = #[trigger] result@[k];
                        &&& entries@[from[k]].0@ == entry.0@
                        &&& holds(self@, entry.0@, now)
                        &&& (entry.1@, entry.2) == sent_as(self@[entry.0@], now)
                    },
                forall|k: int| 0 <= k < from.len() ==> 0 <= #[trigger] from[k] < i,
                forall|a: int, b: int| 0 <= a < b < from.len() ==> #[trigger] from[a] < #[trigger] from[b],
                forall|j: int| 0 <= j < i && live((#[trigger] entries@[j]).2, now) ==> from.contains(j),
            decreases entries@.len() - i,
        {
            let entry = &entries[i];
            assert(self@[entries@[i as int].0@] == (bytes_content(entry.1), entry.2));
            let (keep, remaining_ms) = match entry.2 {
                // Skip expired keys; send remaining TTL in ms from now
                Some(t) => if t > now {
                    (true, Some((((t - now) / NANOS_PER_MILLI) % 0x1_0000_0000_0000_0000) as u64))
                } else {
                    (false, None)
                },
                None => (true, None),
            };
            if keep {
                let ghost before = from;
                let ghost done = result@;
                let item: Transfer = (entry.0.clone(), bytes_to_vec(&entry.1), remaining_ms);
                assert(holds(self@, item.0@, now));
                assert((item.1@, item.2) == sent_as(self@[item.0@], now));
                result.push(item);
                assert(forall|k: int| 0 <= k < done.len() ==> result@[k] == done[k]);
                proof {
                    from = from.push(i as int);
                    assert(from[before.len() as int] == i);
                    assert forall|x: int| before.contains(x) implies from.contains(x) by {
                        let k = before.index_of(x);
                        assert(from[k] == x);
                    }
                    assert(forall|k: int| 0 <= k < before.len() ==> from[k] == before[k]);
                }
            }
            i += 1;
        }
        proof {
            assert forall|a: int, b: int| 0 <= a < b < result@.len() implies (#[trigger] result@[a]).0@ != (
            #[trigger] result@[b]).0@ by {
                assert(from[a] < from[b]);
                assert(entries@[from[a]].0@ != entries@[from[b]].0@);
            }
            assert forall|key: Seq<char>| #[trigger] holds(self@, key, now) implies exists|k: int|
                0 <= k < result@.len() && (#[trigger] result@[k]).0@ == key by {
                let j = choose|j: int| 0 <= j < entries@.len() && (#[trigger] entries@[j]).0@ == key;
                assert(live(entries@[j].2, now));
                let k = from.index_of(j);
                assert(result@[k].0@ == key);
            }
        }
        result
    }

    /// Insert a key with a remaining TTL in milliseconds (from a transfer).
    /// If `remaining_ms` is Some(0) or already expired, skip the insert.
    pub fn set_from_transfer(&mut self, key: String, value: Bytes, remaining_ms: Option<u64>)
        ensures
            exists|now: u128|
                now <= MAX_NANOS && old(self).spec_clock().shows(now) && #[trigger] received(old(self)@, key@, bytes_content(value), remaining_ms, now)
                    == final(self)@,
            final(self).spec_epoch() == old(self).spec_epoch(),
            final(self).spec_clock() == old(self).spec_clock(),
    {
        let now = self.now();
        self.set_from_transfer_at(key, value, remaining_ms, now);
    }

    /// Insert a key with a remaining TTL in milliseconds, at a given time.
    pub fn set_from_transfer_at(&mut self, key: String, value: Bytes, remaining_ms: Option<u64>, now: u128)
        requires
            now <= MAX_NANOS,
        ensures
            final(self)@ == received(old(self)@, key@, bytes_content(value), remaining_ms, now),
            final(self).spec_epoch() == old(self).spec_epoch(),
            final(self).spec_clock() == old(self).spec_clock(),
    {
        let ttl: Option<u128> = match remaining_ms {
            Some(ms) => if ms == 0 {
                // Already expired, skip
                return;
            } else {
                Some(millis(ms))
            },
            None => None,
        };
        self.set_at(key, value, ttl, now);
    }
}

/// A value that is read is known by its bytes.
pub proof fn lemma_content(value: Bytes)
    ensures
        content_of(Some(value)) == Some(bytes_content(value)),
        content_of(None) is None,
{
}

} // verus!
