//! Identities: opaque blobs of bytes by which the users of a mesh tell instances apart.
use bytes::Bytes;
use vstd::prelude::*;

verus! {

/// The type `bytes::Bytes`: an immutable sequence of bytes that is cheap to copy.
#[verifier::external_type_specification]
#[verifier::external_body]
pub struct ExBytes(bytes::Bytes);

/// The bytes that a `Bytes` holds.
pub uninterp spec fn bytes_of(b: Bytes) -> Seq<u8>;

/// `Bytes::clone`: the copy holds the same bytes.
pub assume_specification[ <bytes::Bytes as Clone>::clone ](b: &bytes::Bytes) -> (r: bytes::Bytes)
    ensures
        bytes_of(r) == bytes_of(*b),
;

/// `Bytes::deref`: the bytes as a slice.
pub assume_specification[ <bytes::Bytes as core::ops::Deref>::deref ](b: &bytes::Bytes) -> (r: &[u8])
    ensures
        r@ == bytes_of(*b),
;

/// Whether two identities hold the same bytes, by `Bytes::eq`.
#[verifier::external_body]
pub(crate) fn same_identity(a: &Bytes, b: &Bytes) -> (r: bool)
    ensures
        r == (bytes_of(*a) == bytes_of(*b)),
{
    a == b
}

} // verus!
