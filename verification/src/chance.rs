//! Random choices.

use rand::rngs::ThreadRng;
use rand::Rng;
use vstd::prelude::*;

verus! {

/// The thread-local random number generator of `rand`.
#[verifier::external_type_specification]
#[verifier::external_body]
pub struct ExThreadRng(ThreadRng);

/// `rand::thread_rng` hands out the generator of the current thread. Nothing
/// is claimed of it. It panics where the system gives it no seed, which no
/// precondition can leave out.
pub assume_specification[ rand::thread_rng ]() -> (rng: ThreadRng)
;

/// Calls `rand::Rng::gen_range` with the range `0..bound`. Trusted: the number
/// drawn lies in that range. The call panics on an empty range, which the
/// precondition leaves out, and where the system gives the generator no new
/// seed, which no precondition can leave out.
#[verifier::external_body]
pub(crate) fn pick_below(rng: &mut ThreadRng, bound: usize) -> (pick: usize)
    requires
        bound > 0,
    ensures
        pick < bound,
{
    rng.gen_range(0..bound)
}

} // verus!
