//! Pseudo-random draws from the `rand` crate. Nothing is assumed about a
//! draw beyond its range, so every caller is verified for every outcome.

use vstd::prelude::*;

verus! {

#[verifier::external_type_specification]
#[verifier::external_body]
pub struct ExStdRng(rand::rngs::StdRng);

/// Relies on rand::RngExt::random_range over `0..n`: the draw is below
/// `n`; the call panics on an empty range, so `n` must be positive.
#[verifier::external_body]
pub(crate) fn rng_below(rng: &mut rand::rngs::StdRng, n: usize) -> (r: usize)
    requires
        n >= 1,
    ensures
        r < n,
{
    rand::RngExt::random_range(rng, 0..n)
}

} // verus!
