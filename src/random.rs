//! Random draws, taken from the `rand` crate.
use rand::distributions::IndependentSample;
use vstd::prelude::*;

verus! {

/// Relies on `rand::random::<bool>`: a fair coin flip. Nothing is known of the outcome.
#[verifier::external_body]
pub(crate) fn coin() -> (r: bool) {
    rand::random::<bool>()
}

/// Relies on `rand::distributions::Range::new(0, n)` and `ind_sample` with
/// `rand::thread_rng()`: a uniform draw from `[0, n)`. `Range::new` panics when
/// `n == 0`, which the precondition excludes.
#[verifier::external_body]
pub(crate) fn below(n: usize) -> (r: usize)
    requires
        n > 0,
    ensures
        r < n,
{
    rand::distributions::Range::new(0, n).ind_sample(&mut rand::thread_rng())
}

} // verus!
