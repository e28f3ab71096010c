//! The single source of randomness used by the scene logic.
use rand::Rng;
use vstd::prelude::*;

verus! {

/// Draws a uniformly random index below `upper` from the thread-local
/// generator: `rand::rng().random_range(0..upper)`.
///
/// Trusted: the contract claims only that the result lies in `0..upper`,
/// which rand's documentation of `Rng::random_range` promises for a
/// non-empty range; the range is non-empty by `requires` (an empty range
/// panics).  Which index comes out depends on the generator's state and is
/// not stated.
#[verifier::external_body]
pub(crate) fn random_index(upper: usize) -> (r: usize)
    requires
        0 < upper,
    ensures
        r < upper,
{
    rand::rng().random_range(0..upper)
}

} // verus!
