//! The seeded pseudo-random generator behind the shuffle.
//!
//! Nothing in this file is proved: it states what the `rand` crate is relied
//! on to do. In the version of `rand` that the crate is built with, a
//! generator built from a seed is a function of that seed, and a draw is a
//! function of the generator and the bound, so one seed always yields the
//! same picks.

use rand::rngs::StdRng;
use rand::Rng;
use rand::RngCore;
use rand::SeedableRng;
use vstd::prelude::*;

verus! {

/// Declares `rand::rngs::StdRng`, whose state Verus does not look into: a
/// generator is only carried from one call to the next.
#[verifier::external_type_specification]
#[verifier::external_body]
pub struct ExStdRng(StdRng);

/// The generator that `StdRng::seed_from_u64` builds from `seed`.
pub uninterp spec fn seeded_generator(seed: u64) -> StdRng;

/// What `random_range(0..bound)` does on `generator`: the index it returns
/// and the generator it leaves behind.
pub uninterp spec fn ranged_draw(generator: StdRng, bound: usize) -> (usize, StdRng);

/// Calls `StdRng::seed_from_u64`. The generator it returns is determined by
/// the seed alone.
#[verifier::external_body]
pub(crate) fn generator_from_seed(seed: u64) -> (generator: StdRng)
    ensures
        generator == seeded_generator(seed),
{
    StdRng::seed_from_u64(seed)
}

/// Calls `Rng::random_range` with the range `0..bound`, which panics on an
/// empty range. The index is below `bound`; it and the generator's next
/// state are determined by the generator's state and the bound.
#[verifier::external_body]
pub(crate) fn draw_below(generator: &mut StdRng, bound: usize) -> (pick: usize)
    requires
        bound > 0,
    ensures
        pick < bound,
        (pick, *final(generator)) == ranged_draw(*old(generator), bound),
{
    generator.random_range(0..bound)
}

/// Calls `next_u64` on the thread-local generator `rand::rng()`, which is
/// seeded by the operating system. Nothing is known of the number it
/// returns.
#[verifier::external_body]
pub(crate) fn entropy_seed() -> (seed: u64) {
    rand::rng().next_u64()
}

} // verus!
