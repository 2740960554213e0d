//! Trusted boundary to the random number generator.
//!
//! Nothing can be promised about which value comes back, so the contracts
//! state only the range of the result; every caller must work for every
//! outcome.

use vstd::prelude::*;
use rand::Rng;
use rand::rngs::SmallRng;

verus! {

#[verifier::external_type_specification]
#[verifier::external_body]
pub struct ExSmallRng(SmallRng);

/// Relies on rand::Rng::random_range over `0..n`: the result is uniform in
/// the range, hence below `n`; the call panics on an empty range, which the
/// precondition rules out.
#[verifier::external_body]
pub fn rng_below(rng: &mut SmallRng, n: u64) -> (r: u64)
    requires
        n > 0,
    ensures
        r < n,
{
    rng.random_range(0..n)
}

} // verus!
