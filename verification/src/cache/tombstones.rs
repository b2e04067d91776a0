//! The keys that were deleted while a node joined: a `DashSet` of the crate `dashmap`.
use vstd::prelude::*;
use dashmap::DashSet;

verus! {

#[verifier::external_type_specification]
#[verifier::external_body]
#[verifier::reject_recursive_types(K)]
#[verifier::reject_recursive_types(S)]
pub struct ExDashSet<K, S>(DashSet<K, S>);

/// What the set holds.
pub uninterp spec fn set_content(keys: DashSet<String>) -> Set<Seq<char>>;

/// Calls `DashSet::new`: the set is empty.
#[verifier::external_body]
pub(crate) fn set_new() -> (keys: DashSet<String>)
    ensures
        set_content(keys) == Set::<Seq<char>>::empty(),
{
    DashSet::new()
}

/// Calls `DashSet::insert`: the set holds the key.
#[verifier::external_body]
pub(crate) fn set_insert(keys: &mut DashSet<String>, key: String)
    ensures
        set_content(*final(keys)) == set_content(*old(keys)).insert(key@),
{
    keys.insert(key);
}

/// The keys are those of the set, each once.
pub open spec fn enumerates_set(keys: Seq<String>, s: Set<Seq<char>>) -> bool {
    &&& forall|i: int| 0 <= i < keys.len() ==> s.contains((#[trigger] keys[i])@)
    &&& forall|i: int, j: int| 0 <= i < j < keys.len() ==> (#[trigger] keys[i])@ != (#[trigger] keys[j])@
    &&& forall|key: Seq<char>| #[trigger]
        s.contains(key) ==> exists|i: int| 0 <= i < keys.len() && (#[trigger] keys[i])@ == key
}

/// Calls `DashSet::iter`, and copies what it passes: every key once, in an order that is left
/// open.
#[verifier::external_body]
pub(crate) fn set_keys(keys: &DashSet<String>) -> (list: Vec<String>)
    ensures
        enumerates_set(list@, set_content(*keys)),
{
    keys.iter().map(|key| key.key().clone()).collect()
}

} // verus!
