//! The random draws that the search makes, taken from the `rand` crate.
use rand::rngs::ThreadRng;
use rand::Rng;
use vstd::prelude::*;

verus! {

/// The handle of the `rand` crate to the random number generator of the
/// thread. Nothing of its content is visible here.
#[verifier::external_type_specification]
#[verifier::external_body]
pub struct ExThreadRng(ThreadRng);

/// `rand::thread_rng` hands out the generator of the thread. Nothing is
/// claimed of it.
pub assume_specification[ rand::thread_rng ]() -> (rng: ThreadRng);

/// Draws an index below `n` from `rng`, with `rand::Rng::gen_range` on the
/// range from zero up to and without `n`. `rand` documents that the value
/// lies in the range and that an empty range panics; nothing else is
/// claimed of the value.
#[verifier::external_body]
pub(crate) fn random_below(rng: &mut ThreadRng, n: usize) -> (drawn: usize)
    requires
        n > 0,
    ensures
        drawn < n,
{
    rng.gen_range(0..n)
}

/// Tosses a fair coin from `rng`, with `rand::Rng::gen_ratio` at one in
/// two. Nothing is claimed of the outcome.
#[verifier::external_body]
pub(crate) fn coin_flip(rng: &mut ThreadRng) -> (heads: bool) {
    rng.gen_ratio(1, 2)
}

} // verus!
