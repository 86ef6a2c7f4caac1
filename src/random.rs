//! Draws from the simulation's random stream.
use rand::rngs::StdRng;
use rand::Rng;
use vstd::prelude::*;

verus! {

/// The simulation's deterministic pseudorandom stream, owned by its caller.
#[verifier::external_type_specification]
#[verifier::external_body]
pub struct ExStdRng(StdRng);

/// Relies on rand's `Rng::gen_ratio(1, 2)`: a fair coin. It panics only when
/// the denominator is zero or below the numerator, which 1 and 2 are not.
#[verifier::external_body]
pub(crate) fn fair_coin(rng: &mut StdRng) -> (heads: bool) {
    rng.gen_ratio(1, 2)
}

/// Relies on rand's `Rng::gen_range(0..n)`: a value of the half-open range,
/// drawn uniformly. It panics on an empty range, which `n > 0` rules out.
#[verifier::external_body]
pub(crate) fn uniform_index(rng: &mut StdRng, n: usize) -> (r: usize)
    requires
        n > 0,
    ensures
        r < n,
{
    rng.gen_range(0..n)
}

} // verus!
