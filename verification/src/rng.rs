//! Trusted boundary to the `rand` crate: the random source that the
//! `RND` instruction draws from. Nothing is promised of the drawn values;
//! every caller must hold for every byte that can come back.

use vstd::prelude::*;

verus! {

#[verifier::external_type_specification]
#[verifier::external_body]
pub struct ExThreadRng(rand::rngs::ThreadRng);

/// Relies on `rand::rng`: a handle to the thread-local generator. It does
/// not depend on its caller's state; it panics only if the operating
/// system cannot seed the generator at all.
#[verifier::external_body]
pub(crate) fn fresh_rng() -> rand::rngs::ThreadRng {
    rand::rng()
}

/// Relies on `rand`'s `RngExt::random::<u8>`: one uniformly distributed
/// byte. Nothing is promised of the value, so callers are verified for
/// every byte.
#[verifier::external_body]
pub(crate) fn random_byte(rng: &mut rand::rngs::ThreadRng) -> u8 {
    rand::RngExt::random::<u8>(rng)
}

} // verus!
