//! Byte buffers of the `bytes` crate, where datagrams enter the library.

use bytes::Bytes;
use vstd::prelude::*;

verus! {

/// The buffer type of the `bytes` crate.
#[verifier::external_type_specification]
#[verifier::external_body]
pub struct ExBytes(Bytes);

/// The bytes that a buffer holds, first to last.
pub uninterp spec fn bytes_view(b: Bytes) -> Seq<u8>;

/// Copies what a buffer holds into a vector, with `to_vec` on the slice
/// that `Bytes` hands out through `Deref`.
///
/// The claim is that the vector holds the buffer's bytes, in order.
#[verifier::external_body]
pub(crate) fn bytes_to_vec(data: &Bytes) -> (v: Vec<u8>)
    ensures
        v@ == bytes_view(*data),
{
    data.to_vec()
}

} // verus!
