//! The random-source collaborator: fresh bytes for nonce generation.

use vstd::prelude::*;
use rand::Rng;

verus! {

/// Relies on `rand::rng()` and `rand::Rng::fill` on a byte slice: fills the
/// buffer with bytes from the thread-local cryptographically secure
/// generator. Nothing can be promised of the values, only the length.
#[verifier::external_body]
pub(crate) fn random_bytes(len: usize) -> (r: Vec<u8>)
    ensures
        r@.len() == len,
{
    let mut v = vec![0u8; len];
    rand::rng().fill(v.as_mut_slice());
    v
}

} // verus!
