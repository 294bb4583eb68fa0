//! Trusted access to the process-wide random source used by the stochastic
//! rewrite rules.

use vstd::prelude::*;

verus! {

/// Relies on `rand::random::<bool>()`: a fair draw that may come back either
/// way, so nothing is promised of the result.
#[verifier::external_body]
pub(crate) fn coin() -> bool {
    rand::random::<bool>()
}

/// Relies on `rand::Rng::gen_range` over `0..n`: a uniform draw below `n`.
/// The range must be non-empty, or the call panics.
#[verifier::external_body]
pub(crate) fn draw_below(n: u32) -> (r: u32)
    requires
        n >= 1,
    ensures
        r < n,
{
    rand::Rng::gen_range(&mut rand::thread_rng(), 0..n)
}

} // verus!
