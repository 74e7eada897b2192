//! Trusted access to the process's random number generator.

use vstd::prelude::*;

verus! {

/// Relies on rand::random_range: a uniform draw from `0..n` lies strictly
/// below `n`. The range must be non-empty, since rand panics on an empty
/// range.
#[verifier::external_body]
pub(crate) fn random_below(n: u64) -> (r: u64)
    requires
        n >= 1,
    ensures
        r < n,
{
    rand::random_range(0..n)
}

} // verus!
