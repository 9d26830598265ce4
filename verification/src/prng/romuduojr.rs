//! RomuDuoJr.
use vstd::prelude::*;

use crate::prng::modular;
use crate::prng::modular::rotate_left;
use crate::prng::romuduo::MULTIPLIER;
use crate::prng::{Generator, Recurrence};

verus! {

/// The RomuDuoJr generator.
#[derive(Clone, Copy)]
pub struct Prng {
    x: u64,
    y: u64,
}

impl View for Prng {
    type V = (u64, u64);

    closed spec fn view(&self) -> (u64, u64) {
        (self.x, self.y)
    }
}

impl Prng {
    /// The name of the generator.
    pub const NAME: &'static str = "RomuDuoJr";

    /// Creates a generator from a seed.
    pub fn new(seed: u64) -> (g: Self)
        ensures
            g@ == Self::seeded(seed),
    {
        // The state must not be zero: the zero seed stands for another one.
        let seed: u64 = if seed == 0 { 0x9e3779b97f4a7c15 } else { seed };
        Self { x: seed, y: seed }
    }

    /// Draws the next word.
    pub fn next_u64(&mut self) -> (r: u64)
        ensures
            r == Self::output(old(self)@),
            final(self)@ == Self::step(old(self)@),
    {
        let xp: u64 = self.x;
        self.x = MULTIPLIER.wrapping_mul(self.y);
        self.y = self.y.wrapping_sub(xp);
        self.y = rotate_left(self.y, 27);
        xp
    }

    /// There is no jump-ahead for this generator: refuses, and stays where it is.
    pub fn try_skip(&mut self, _n: u64) -> (r: Result<(), ()>)
        ensures
            r is Err,
            *final(self) == *old(self),
    {
        Err(())
    }
}

impl Recurrence for Prng {
    type State = (u64, u64);

    open spec fn seeded(seed: u64) -> (u64, u64) {
        let seed: u64 = if seed == 0 { 0x9e3779b97f4a7c15 } else { seed };
        (seed, seed)
    }

    open spec fn output(s: (u64, u64)) -> u64 {
        s.0
    }

    open spec fn step(s: (u64, u64)) -> (u64, u64) {
        (MULTIPLIER.wrapping_mul(s.1), modular::rotated_left(s.1.wrapping_sub(s.0), 27))
    }

    open spec fn valid(s: (u64, u64)) -> bool {
        true
    }

    open spec fn jumps() -> bool {
        false
    }

    proof fn lemma_seeded_valid(seed: u64) {
    }

    proof fn lemma_step_valid(s: (u64, u64)) {
    }
}

impl Generator for Prng {
    open spec fn state(&self) -> (u64, u64) {
        self@
    }

    fn new(seed: u64) -> (g: Self) {
        Prng::new(seed)
    }

    fn next_u64(&mut self) -> (r: u64) {
        Prng::next_u64(self)
    }

    fn try_skip(&mut self, n: u64) -> (r: Result<(), ()>) {
        Prng::try_skip(self, n)
    }
}

/// A seed other than zero is the state: both words of it are the seed, so that different seeds draw
/// different first words. The zero seed stands for another one.
pub proof fn lemma_seeds(a: u64, b: u64)
    ensures
        a != 0 ==> Prng::seeded(a) == (a, a) && Prng::output(Prng::seeded(a)) == a,
        Prng::seeded(0) == Prng::seeded(0x9e3779b97f4a7c15),
        a != 0 && b != 0 && a != b ==> Prng::output(Prng::seeded(a)) != Prng::output(Prng::seeded(b)),
        !Prng::jumps(),
{
}

/// One draw: the word drawn is the first one of the state, the next one is a multiple of the second, and
/// the new second word is a rotation of the difference `d` of the old ones.
pub proof fn lemma_draws(s: (u64, u64), d: u64)
    requires
        (d + s.0) % 0x1_0000_0000_0000_0000 == s.1,
    ensures
        Prng::output(s) == s.0,
        Prng::step(s).0 as int == (15241094284759029579 * s.1 as int) % 0x1_0000_0000_0000_0000,
        Prng::step(s).1 == modular::rotated_left(d, 27),
{
    assert(s.1.wrapping_sub(s.0) == d);
}

} // verus!
