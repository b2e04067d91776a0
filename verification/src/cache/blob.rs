//! Shared byte strings: the `Bytes` of the crate `bytes`.
use vstd::prelude::*;
use bytes::Bytes;

verus! {

#[verifier::external_type_specification]
#[verifier::external_body]
pub struct ExBytes(bytes::Bytes);

/// The bytes that a `Bytes` holds.
pub uninterp spec fn bytes_content(b: Bytes) -> Seq<u8>;

/// Calls `Bytes::from` on a vector: the result holds the bytes of the vector.
#[verifier::external_body]
pub(crate) fn bytes_from(v: Vec<u8>) -> (b: Bytes)
    ensures
        bytes_content(b) == v@,
{
    Bytes::from(v)
}

/// Calls `Bytes::clone`: the copy holds the same bytes.
#[verifier::external_body]
pub(crate) fn bytes_clone(b: &Bytes) -> (copy: Bytes)
    ensures
        bytes_content(copy) == bytes_content(*b),
{
    b.clone()
}

/// Calls `to_vec` on the slice of a `Bytes`: the vector holds the same bytes.
#[verifier::external_body]
pub(crate) fn bytes_to_vec(b: &Bytes) -> (v: Vec<u8>)
    ensures
        v@ == bytes_content(*b),
{
    b.to_vec()
}

} // verus!
