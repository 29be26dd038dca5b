//! Chance. What is drawn here is never the same twice, so nothing is said of
//! it but its size; whatever depends on it is proved for every value.

use rand::Rng;
use vstd::prelude::*;

verus! {

/// Draws a 32-bit number with `rand::random`.
///
/// Nothing is claimed of the number.
#[verifier::external_body]
pub(crate) fn random_u32() -> (r: u32) {
    rand::random::<u32>()
}

/// Overwrites the bytes of `buf` with bytes drawn by chance, with
/// `Rng::fill` on `rand::thread_rng()`.
///
/// The one claim is that the buffer is as long as it was; nothing is
/// claimed of its bytes.
#[verifier::external_body]
pub(crate) fn fill_random(buf: &mut Vec<u8>)
    ensures
        final(buf)@.len() == old(buf)@.len(),
{
    rand::thread_rng().fill(buf.as_mut_slice());
}

} // verus!
