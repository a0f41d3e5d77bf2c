//! The one place where chance enters: a draw from the thread's generator.

use rand::Rng;
use vstd::prelude::*;

verus! {

/// Draws a number below `bound` with `rand::thread_rng().gen_range(0..bound)`.
///
/// Taken on trust from `rand`: `gen_range` returns a value of the half-open
/// range it is given, and panics on an empty range, which `bound > 0` rules
/// out. Nothing is claimed about how the draws are distributed, nor that two
/// draws agree. `thread_rng` fails only where the system cannot seed the
/// generator; no argument decides that.
#[verifier::external_body]
pub(crate) fn random_below(bound: usize) -> (drawn: usize)
    requires
        bound > 0,
    ensures
        drawn < bound,
{
    rand::thread_rng().gen_range(0..bound)
}

} // verus!
