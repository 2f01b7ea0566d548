//! The random source that pattern generation draws from. Every draw goes
//! through `rand`; what the library knows of a draw is the range it lands in.

use rand::rngs::StdRng;
use rand::{RngExt, SeedableRng};
use vstd::prelude::*;

verus! {

#[verifier::external_type_specification]
#[verifier::external_body]
pub struct ExStdRng(StdRng);

/// Calls `rand::RngExt::random_range` with the range `low..high`. The
/// contract claims only what `rand` documents: the value lies in the range,
/// and a non-empty range does not panic. Which value comes out depends on the
/// generator's state and is left unsaid.
#[verifier::external_body]
pub(crate) fn random_below(rng: &mut StdRng, low: usize, high: usize) -> (value: usize)
    requires
        low < high,
    ensures
        low <= value < high,
{
    rng.random_range(low..high)
}

/// Calls `rand::RngExt::random_ratio`, a draw that is true with chance
/// `numerator / denominator`. The contract claims what `rand` documents of the
/// two certain cases: a zero numerator never hits and a numerator equal to the
/// denominator always does. Any other outcome depends on the generator's state.
#[verifier::external_body]
pub(crate) fn random_ratio(rng: &mut StdRng, numerator: u32, denominator: u32) -> (hit: bool)
    requires
        0 < denominator,
        numerator <= denominator,
    ensures
        numerator == 0 ==> !hit,
        numerator == denominator ==> hit,
{
    rng.random_ratio(numerator, denominator)
}

/// Seedable generator so a genome can be reproduced from a seed alone. Calls
/// `rand::SeedableRng::seed_from_u64` for `StdRng`; the generator is opaque
/// here, so nothing is claimed of it.
#[verifier::external_body]
pub fn seeded_rng(seed: u64) -> StdRng {
    StdRng::seed_from_u64(seed)
}

} // verus!
