//! Injectable randomness: the generator takes any `RandomSource`, so runs
//! can be reproduced by supplying a fixed source, while `ThreadRandom`
//! draws from the operating system's thread-local generator.

use vstd::prelude::*;
use rand::RngExt;
use crate::grid::MazeHelper;

verus! {

/// A supplier of bounded random draws. The generator is a function of its
/// dimensions and of the draws its source hands back, so a deterministic
/// source makes generation reproducible.
pub trait RandomSource {
    /// Draws a value below `max`.
    fn below(&mut self, max: usize) -> (r: usize)
        requires
            max >= 1,
        ensures
            r < max,
    ;
}

/// Randomness from the thread-local generator of the `rand` crate.
pub struct ThreadRandom;

impl RandomSource for ThreadRandom {
    fn below(&mut self, max: usize) -> (r: usize) {
        MazeHelper::random(max)
    }
}

/// A deterministic source: hands out the given values in a cycle, each
/// reduced modulo the requested bound.
pub struct FixedRandom {
    pub values: Vec<usize>,
    pub pos: usize,
}

impl FixedRandom {
    pub fn new(values: Vec<usize>) -> (r: FixedRandom)
        ensures
            r.values == values,
            r.pos == 0,
    {
        FixedRandom { values, pos: 0 }
    }
}

impl RandomSource for FixedRandom {
    fn below(&mut self, max: usize) -> (r: usize) {
        if self.values.len() == 0 {
            0
        } else {
            let i = self.pos % self.values.len();
            let v = self.values[i];
            self.pos = (i + 1) % self.values.len();
            v % max
        }
    }
}

impl MazeHelper {
    /// Relies on `rand::rng` and `rand::RngExt::random_range`: a value drawn
    /// uniformly from `[0, max)`; the call panics on an empty range, so
    /// `max` must be at least one.
    #[verifier::external_body]
    pub(crate) fn random(max: usize) -> (r: usize)
        requires
            max >= 1,
        ensures
            r < max,
    {
        rand::rng().random_range(0..max)
    }

    /// Draws an even value below `max`: twice a draw from the evens' count.
    pub fn even_random<R: RandomSource>(rng: &mut R, max: usize) -> (r: usize)
        requires
            max >= 1,
        ensures
            r < max,
            r % 2 == 0,
    {
        let evens = max / 2 + max % 2;
        2 * rng.below(evens)
    }
}

} // verus!
