//! The source of randomness that random eviction and sweep jitter draw from.
use rand::Rng;
use vstd::prelude::*;

verus! {

/// Relies on `rand::rng()` and `Rng::random_range` over `0..bound`: a value
/// below `bound`; the range must not be empty, or the call panics.
#[verifier::external_body]
pub(crate) fn random_below(bound: u64) -> (r: u64)
    requires
        bound > 0,
    ensures
        r < bound,
{
    rand::rng().random_range(0..bound)
}

} // verus!
