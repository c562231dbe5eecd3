//! The random source of the stochastic solvers: the thread-local generator
//! of the `rand` crate. Nothing here is reproducible; the contracts state
//! only what holds of every draw.

use rand::rngs::ThreadRng;
use rand::Rng;
use vstd::prelude::*;

verus! {

/// The thread-local generator: an opaque value.
#[verifier::external_type_specification]
#[verifier::external_body]
pub struct ExThreadRng(rand::rngs::ThreadRng);

/// `rand::thread_rng` hands out the generator of the current thread;
/// nothing is claimed of its state.
pub assume_specification[ rand::thread_rng ]() -> ThreadRng;

/// Calls `Rng::gen_range` on the range from zero up to, not including,
/// `bound`. The draw lies in that range; the method panics on an empty
/// range, which the precondition leaves out.
#[verifier::external_body]
pub(crate) fn random_below(rng: &mut ThreadRng, bound: u128) -> (draw: u128)
    requires
        bound > 0,
    ensures
        draw < bound,
{
    rng.gen_range(0..bound)
}

/// Calls `Rng::gen_ratio`, which is true with probability
/// `numerator / denominator`: always if the two are equal, never if the
/// numerator is zero. The method panics on a zero denominator and on a
/// numerator above the denominator, which the precondition leaves out.
#[verifier::external_body]
pub(crate) fn random_chance(rng: &mut ThreadRng, numerator: u32, denominator: u32) -> (hit: bool)
    requires
        0 < denominator,
        numerator <= denominator,
    ensures
        numerator == denominator ==> hit,
        numerator == 0 ==> !hit,
{
    rng.gen_ratio(numerator, denominator)
}

/// A uniform position below `n`, which is not zero.
pub(crate) fn random_position(rng: &mut ThreadRng, n: usize) -> (position: usize)
    requires
        n > 0,
    ensures
        position < n,
{
    random_below(rng, n as u128) as usize
}

} // verus!
