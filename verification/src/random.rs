//! Trusted access to the operating system's random number generator.

use vstd::prelude::*;
use rand::RngCore;

verus! {

/// Relies on `rand::rngs::OsRng::fill_bytes`: fills a buffer of the requested
/// length with bytes from the operating system's random number generator.
/// Nothing can be promised about the values beyond the length.
#[verifier::external_body]
pub(crate) fn random_bytes(len: usize) -> (r: Vec<u8>)
    ensures
        r@.len() == len,
{
    let mut buf = vec![0u8; len];
    rand::rngs::OsRng.fill_bytes(&mut buf);
    buf
}

/// Relies on `rand::rngs::OsRng::next_u64`: draws one word from the operating
/// system's random number generator. Nothing can be promised about the value.
#[verifier::external_body]
pub(crate) fn random_u64() -> u64 {
    rand::rngs::OsRng.next_u64()
}

} // verus!
