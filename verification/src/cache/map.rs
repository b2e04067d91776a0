//! The concurrent map that the entries are kept in: the `DashMap` of the crate `dashmap`.
use vstd::prelude::*;
use bytes::Bytes;
use dashmap::DashMap;
use super::blob::{bytes_clone, bytes_content};

verus! {

#[verifier::external_type_specification]
#[verifier::external_body]
#[verifier::reject_recursive_types(K)]
#[verifier::reject_recursive_types(V)]
#[verifier::reject_recursive_types(S)]
pub struct ExDashMap<K, V, S>(DashMap<K, V, S>);

/// A value, and the time at which it expires, if it does.
pub struct CacheEntry {
    pub value: Bytes,
    pub expires_at: Option<u128>,
}

/// Something that expires at the given time, if ever, has not expired yet.
pub open spec fn live(expires_at: Option<u128>, now: u128) -> bool {
    match expires_at {
        Some(t) => t > now,
        None => true,
    }
}

impl Clone for CacheEntry {
    fn clone(&self) -> (copy: Self)
        ensures
            bytes_content(copy.value) == bytes_content(self.value),
            copy.expires_at == self.expires_at,
    {
        CacheEntry { value: bytes_clone(&self.value), expires_at: self.expires_at }
    }
}

impl CacheEntry {
    /// Whether the entry has not expired yet.
    pub fn is_live(&self, now: u128) -> (yes: bool)
        ensures
            yes == live(self.expires_at, now),
    {
        match self.expires_at {
            Some(t) => t > now,
            None => true,
        }
    }
}

/// Keys with their values and expiry times.
pub type Contents = Map<Seq<char>, (Seq<u8>, Option<u128>)>;

/// What the map holds.
pub uninterp spec fn map_content(data: DashMap<String, CacheEntry>) -> Contents;

/// Those of the contents that have not expired.
pub open spec fn swept(m: Contents, now: u128) -> Contents {
    Map::new(|key: Seq<char>| m.contains_key(key) && live(m[key].1, now), |key: Seq<char>| m[key])
}

/// Calls `DashMap::new`: the map is empty.
#[verifier::external_body]
pub(crate) fn map_new() -> (data: DashMap<String, CacheEntry>)
    ensures
        map_content(data) == Contents::empty(),
{
    DashMap::new()
}

/// Calls `DashMap::insert`: the key has the entry, whatever it had before.
#[verifier::external_body]
pub(crate) fn map_insert(data: &mut DashMap<String, CacheEntry>, key: String, entry: CacheEntry)
    ensures
        map_content(*final(data)) == map_content(*old(data)).insert(
            key@,
            (bytes_content(entry.value), entry.expires_at),
        ),
{
    data.insert(key, entry);
}

/// Calls `DashMap::get`, and copies what it finds: the entry of the key, if it has one.
#[verifier::external_body]
pub(crate) fn map_get(data: &DashMap<String, CacheEntry>, key: &str) -> (found: Option<(Bytes, Option<u128>)>)
    ensures
        match found {
            Some((value, expires_at)) => map_content(*data).contains_key(key@) && map_content(*data)[key@] == (
                bytes_content(value),
                expires_at,
            ),
            None => !map_content(*data).contains_key(key@),
        },
{
    data.get(key).map(|entry| (entry.value.clone(), entry.expires_at))
}

/// Calls `DashMap::remove`: the key is gone, and the result tells whether it was there.
#[verifier::external_body]
pub(crate) fn map_remove(data: &mut DashMap<String, CacheEntry>, key: &str) -> (found: bool)
    ensures
        found == map_content(*old(data)).contains_key(key@),
        map_content(*final(data)) == map_content(*old(data)).remove(key@),
{
    data.remove(key).is_some()
}

/// Calls `DashMap::retain`: of the entries, those stay that have not expired.
#[verifier::external_body]
pub(crate) fn map_retain_live(data: &mut DashMap<String, CacheEntry>, now: u128)
    ensures
        map_content(*final(data)) == swept(map_content(*old(data)), now),
{
    data.retain(|_, entry| entry.is_live(now));
}

/// The entries are those of the contents, each key once.
pub open spec fn enumerates(entries: Seq<(String, Bytes, Option<u128>)>, m: Contents) -> bool {
    &&& forall|i: int|
        0 <= i < entries.len() ==> {
            let entry = #[trigger] entries[i];
            m.contains_key(entry.0@) && m[entry.0@] == (bytes_content(entry.1), entry.2)
        }
    &&& forall|i: int, j: int|
        0 <= i < j < entries.len() ==> (#[trigger] entries[i]).0@ != (#[trigger] entries[j]).0@
    &&& forall|key: Seq<char>| #[trigger]
        m.contains_key(key) ==> exists|i: int| 0 <= i < entries.len() && (#[trigger] entries[i]).0@ == key
}

/// Calls `DashMap::iter`, and copies what it passes: every entry once, in an order that is left
/// open.
#[verifier::external_body]
pub(crate) fn map_entries(data: &DashMap<String, CacheEntry>) -> (entries: Vec<(String, Bytes, Option<u128>)>)
    ensures
        enumerates(entries@, map_content(*data)),
{
    data.iter().map(|e| (e.key().clone(), e.value().value.clone(), e.value().expires_at)).collect()
}

} // verus!
