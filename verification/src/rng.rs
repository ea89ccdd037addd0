//! The library's one source of randomness.

use vstd::prelude::*;

verus! {

/// Relies on rand's `random_range` over `0..bound`: the thread-local
/// generator draws a value uniformly from the range, so the result is always
/// below the bound. `random_range` panics only on an empty range, which the
/// precondition excludes. Nothing more is assumed: the draw depends on the
/// generator's state, so every caller must hold for every value below the
/// bound.
#[verifier::external_body]
pub(crate) fn random_below(bound: usize) -> (r: usize)
    requires
        0 < bound,
    ensures
        r < bound,
{
    rand::random_range(0..bound)
}

} // verus!
