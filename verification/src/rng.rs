//! Random sources. The generators never own their randomness: every step
//! call takes the source as an explicit parameter, so seeding,
//! reproducibility and rewinding stay entirely under the caller's control.

use vstd::prelude::*;

verus! {

/// A caller-supplied source of random numbers. Nothing is promised about
/// the distribution, only the range; every verified result holds for every
/// possible sequence of picks.
pub trait RandomSource {
    /// An arbitrary index below `n`.
    fn pick(&mut self, n: usize) -> (r: usize)
        requires
            0 < n,
        ensures
            r < n,
    ;
}

/// Relies on rand's `StdRng` type: declared so a value of it can sit in a
/// field; the library never looks inside it.
#[verifier::external_type_specification]
#[verifier::external_body]
pub struct ExStdRng(rand::rngs::StdRng);

/// Relies on `rand::SeedableRng::seed_from_u64`: returns a generator seeded
/// from the given word. Nothing about the stream is assumed.
#[verifier::external_body]
fn std_rng_from_seed(seed: u64) -> rand::rngs::StdRng {
    <rand::rngs::StdRng as rand::SeedableRng>::seed_from_u64(seed)
}

/// Relies on `rand::Rng::gen_range` over `0..n`, which panics when the
/// range is empty and otherwise returns a value inside it; only the range
/// of the result is assumed.
#[verifier::external_body]
fn std_rng_below(rng: &mut rand::rngs::StdRng, n: usize) -> (r: usize)
    requires
        0 < n,
    ensures
        r < n,
{
    rand::Rng::gen_range(rng, 0..n)
}

/// A pseudo-random source with a fixed 64-bit seed: the same seed always
/// yields the same maze.
pub struct SeededRandom {
    rng: rand::rngs::StdRng,
}

impl SeededRandom {
    pub fn from_seed(seed: u64) -> SeededRandom {
        SeededRandom { rng: std_rng_from_seed(seed) }
    }
}

impl RandomSource for SeededRandom {
    fn pick(&mut self, n: usize) -> (r: usize) {
        std_rng_below(&mut self.rng, n)
    }
}

/// A degenerate source that always selects index zero; handy for driving
/// the generators fully deterministically.
pub struct ZeroRandom {}

impl RandomSource for ZeroRandom {
    fn pick(&mut self, n: usize) -> (r: usize) {
        0
    }
}

} // verus!
