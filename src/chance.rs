//! Random draws, made by the `rand` crate.
use vstd::prelude::*;

verus! {

/// Relies on `rand::random_range` with the thread-local generator: for a
/// non-empty range `0..n` it returns a value inside the range (it panics
/// only on an empty range, which `requires` rules out).
#[verifier::external_body]
pub(crate) fn random_below(n: usize) -> (r: usize)
    requires
        n > 0,
    ensures
        r < n,
{
    rand::random_range(0..n)
}

} // verus!
