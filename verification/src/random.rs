//! The random source: what this library takes from the `rand` crate, and
//! believes of it without proof.

use rand::rngs::ThreadRng;
use rand::Rng;
use vstd::prelude::*;

verus! {

/// The type of the generator behind `rand::thread_rng`.
#[verifier::external_type_specification]
#[verifier::external_body]
pub struct ExThreadRng(ThreadRng);

/// `rand::thread_rng`: a handle to this thread's random number generator.
/// Nothing is claimed of it. The call aborts where the system cannot seed the
/// generator.
pub assume_specification[ rand::thread_rng ]() -> (rng: ThreadRng);

/// `Rng::gen_range` on the range `low..high`, which must not be empty: a
/// number from `low` up to, but not including, `high`. Which one depends on
/// chance.
#[verifier::external_body]
pub(crate) fn gen_range(rng: &mut ThreadRng, low: usize, high: usize) -> (drawn: usize)
    requires
        low < high,
    ensures
        low <= drawn < high,
{
    rng.gen_range(low..high)
}

} // verus!
