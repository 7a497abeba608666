//! The one source of chance.

use vstd::prelude::*;
use rand::Rng;

verus! {

/// Draws a number below `bound` from the thread's generator.
///
/// Calls `rand::Rng::gen_range(0, bound)` on `rand::thread_rng()`.  The range is
/// half open and the call panics when it is empty, so all that is claimed is that the
/// number is below a bound that is not zero.
#[verifier::external_body]
pub(crate) fn random_below(bound: usize) -> (drawn: usize)
    requires
        0 < bound,
    ensures
        drawn < bound,
{
    rand::thread_rng().gen_range(0, bound)
}

} // verus!
