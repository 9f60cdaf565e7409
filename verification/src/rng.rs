//! Random choices, drawn from the thread-local generator of the `rand` crate.

use vstd::prelude::*;
use rand::Rng;

verus! {

/// A random index below `n`: `rand::thread_rng().gen_range(0..n)`, uniform
/// over `0..n`. `gen_range` panics on an empty range, hence `n > 0`. The value
/// is random, so only its range is stated.
#[verifier::external_body]
pub(crate) fn random_below(n: usize) -> (r: usize)
    requires
        n > 0,
    ensures
        r < n,
{
    rand::thread_rng().gen_range(0..n)
}

} // verus!
