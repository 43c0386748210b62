//! Uniform randomness for masks and secret keys, drawn through the `rand`
//! crate. Nothing in the library's proofs depends on the distribution of
//! these values: every contract downstream holds for whatever they return.

use rand::Rng;
use vstd::prelude::*;

verus! {

/// Relies on `rand::random::<u32>()`: a uniformly random word from the
/// thread-local generator. Nothing is assumed of the value.
#[verifier::external_body]
pub(crate) fn random_word() -> u32 {
    rand::random::<u32>()
}

/// Relies on `rand::Rng::gen_range(0..=1)`: the sample lies inside the
/// requested range, so the result is a bit.
#[verifier::external_body]
pub(crate) fn random_bit() -> (r: u32)
    ensures
        r <= 1,
{
    rand::thread_rng().gen_range(0..=1u32)
}

} // verus!
