use vstd::prelude::*;
use rand::Rng;
use rand::SeedableRng;
use crate::fx::{Fx, SCALE};

verus! {

#[verifier::external_type_specification]
#[verifier::external_body]
pub struct ExStdRng(rand::rngs::StdRng);

/// Relies on rand's `StdRng::seed_from_u64`: a generator built
/// deterministically from a 64-bit seed, one independent instance per
/// worker. Nothing about its stream is assumed.
#[verifier::external_body]
pub(crate) fn rng_from_seed(seed: u64) -> (r: rand::rngs::StdRng) {
    rand::rngs::StdRng::seed_from_u64(seed)
}

/// Relies on rand's `Rng::gen` for `u64`: the generator's next 64 bits.
/// Nothing can be promised of a random draw.
#[verifier::external_body]
pub(crate) fn next_bits(rng: &mut rand::rngs::StdRng) -> (r: u64) {
    rng.gen::<u64>()
}

/// A random scalar in [0, 1): one of the `SCALE` raw steps below one.
pub fn next_unit_fx(rng: &mut rand::rngs::StdRng) -> (r: Fx)
    ensures
        0 <= r.raw < SCALE,
{
    let b = next_bits(rng);
    Fx { raw: (b % 65536) as i128 }
}

/// A random scalar in [-1, 1).
pub fn next_symmetric_fx(rng: &mut rand::rngs::StdRng) -> (r: Fx)
    ensures
        -SCALE <= r.raw < SCALE,
{
    let b = next_bits(rng);
    Fx { raw: (b % 131072) as i128 - 65536 }
}

} // verus!
