//! Shared byte buffers of the `bytes` crate, as far as this library uses
//! them: what such a buffer holds, and the few operations made on it.

use bytes::Bytes;
use vstd::prelude::*;

verus! {

/// `bytes::Bytes`, a shared buffer of bytes. Nothing of its inside is known
/// here but what [`bytes_view`] names.
#[verifier::external_type_specification]
#[verifier::external_body]
pub struct ExBytes(Bytes);

/// The bytes that a buffer holds, first to last.
pub uninterp spec fn bytes_view(b: Bytes) -> Seq<u8>;

/// `Bytes::from(Vec<u8>)`: the buffer takes over the bytes of the vector,
/// unchanged and in the same order.
#[verifier::external_body]
pub(crate) fn bytes_from_vec(v: Vec<u8>) -> (r: Bytes)
    ensures
        bytes_view(r) == v@,
{
    Bytes::from(v)
}

/// `Bytes::as_ref`: the slice shows exactly the bytes the buffer holds.
#[verifier::external_body]
pub(crate) fn bytes_as_slice(b: &Bytes) -> (r: &[u8])
    ensures
        r@ == bytes_view(*b),
{
    b.as_ref()
}

/// `Bytes::clone`: the new handle holds the same bytes.
#[verifier::external_body]
pub(crate) fn bytes_clone(b: &Bytes) -> (r: Bytes)
    ensures
        bytes_view(r) == bytes_view(*b),
{
    b.clone()
}

/// `Bytes::slice` on the range `begin..end`: the new handle holds the bytes
/// from position `begin` up to, not including, position `end`. The call
/// panics unless `begin <= end <= len`.
#[verifier::external_body]
pub(crate) fn bytes_slice(b: &Bytes, begin: usize, end: usize) -> (r: Bytes)
    requires
        begin <= end <= bytes_view(*b).len(),
    ensures
        bytes_view(r) == bytes_view(*b).subrange(begin as int, end as int),
{
    b.slice(begin..end)
}

} // verus!
