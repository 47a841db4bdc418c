//! Random bytes, from the crate `rand`.

use vstd::prelude::*;

verus! {

/// `rand::Rng::fill` on `rand::thread_rng()` overwrites a buffer with random
/// bytes. Only the number of bytes is stated: which ones they are is left to
/// chance.
#[verifier::external_body]
pub(crate) fn random_bytes(len: usize) -> (r: Vec<u8>)
    ensures
        r@.len() == len,
{
    let mut bytes = vec![0u8; len];
    rand::Rng::fill(&mut rand::thread_rng(), &mut bytes[..]);
    bytes
}

} // verus!
