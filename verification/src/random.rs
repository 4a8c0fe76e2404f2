//! The one place where chance enters the library.

use rand::Rng;
use vstd::prelude::*;

verus! {

/// Draws a number below `bound` from the random generator of the thread.
///
/// This calls `gen_range` of `rand::Rng` on `rand::thread_rng()` with the
/// range `0..bound`. Taken on trust, not proved: the number that comes back
/// lies in that half-open range. Nothing is said of how the numbers are
/// distributed, and two calls may differ. `gen_range` panics on an empty
/// range, which is why `bound` must not be 0. `thread_rng` panics if the
/// system gives it no seed when a thread first asks for the generator; no
/// argument decides that, so nothing here rules it out.
#[verifier::external_body]
pub(crate) fn random_below(bound: usize) -> (drawn: usize)
    requires
        bound > 0,
    ensures
        drawn < bound,
{
    rand::thread_rng().gen_range(0..bound)
}

} // verus!
