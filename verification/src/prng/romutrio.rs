//! RomuTrio.
use vstd::prelude::*;

use crate::prng::modular;
use crate::prng::modular::rotate_left;
use crate::prng::romuduo::MULTIPLIER;
use crate::prng::{Generator, Recurrence};

verus! {

/// The RomuTrio generator.
#[derive(Clone, Copy)]
pub struct Prng {
    x: u64,
    y: u64,
    z: u64,
}

impl View for Prng {
    type V = (u64, u64, u64);

    closed spec fn view(&self) -> (u64, u64, u64) {
        (self.x, self.y, self.z)
    }
}

impl Prng {
    /// The name of the generator.
    pub const NAME: &'static str = "RomuTrio";

    /// Creates a generator from a seed.
    pub fn new(seed: u64) -> (g: Self)
        ensures
            g@ == Self::seeded(seed),
    {
        Self { x: seed, y: 1, z: 1 }
    }

    /// Draws the next word.
    pub fn next_u64(&mut self) -> (r: u64)
        ensures
            r == Self::output(old(self)@),
            final(self)@ == Self::step(old(self)@),
    {
        let (xp, yp, zp) = (self.x, self.y, self.z);
        self.x = MULTIPLIER.wrapping_mul(zp);
        self.y = yp.wrapping_sub(xp);
        self.y = rotate_left(self.y, 12);
        self.z = zp.wrapping_sub(yp);
        self.z = rotate_left(self.z, 44);
        xp
    }

    /// There is no jump-ahead for this generator: refuses, and stays where it is.
    pub fn try_skip(&mut self, _n: u64) -> (r: Result<(), ()>)
        ensures
            r is Err,
            *final(self) == *old(self),
    {
        Err(())
    }
}

impl Recurrence for Prng {
    type State = (u64, u64, u64);

    open spec fn seeded(seed: u64) -> (u64, u64, u64) {
        (seed, 1, 1)
    }

    open spec fn output(s: (u64, u64, u64)) -> u64 {
        s.0
    }

    open spec fn step(s: (u64, u64, u64)) -> (u64, u64, u64) {
        (
            MULTIPLIER.wrapping_mul(s.2),
            modular::rotated_left(s.1.wrapping_sub(s.0), 12),
            modular::rotated_left(s.2.wrapping_sub(s.1), 44),
        )
    }

    open spec fn valid(s: (u64, u64, u64)) -> bool {
        true
    }

    open spec fn jumps() -> bool {
        false
    }

    proof fn lemma_seeded_valid(seed: u64) {
    }

    proof fn lemma_step_valid(s: (u64, u64, u64)) {
    }
}

impl Generator for Prng {
    open spec fn state(&self) -> (u64, u64, u64) {
        self@
    }

    fn new(seed: u64) -> (g: Self) {
        Prng::new(seed)
    }

    fn next_u64(&mut self) -> (r: u64) {
        Prng::next_u64(self)
    }

    fn try_skip(&mut self, n: u64) -> (r: Result<(), ()>) {
        Prng::try_skip(self, n)
    }
}

/// The seed is the first word, whatever it is, and the others are ones.
pub proof fn lemma_seeds(a: u64, b: u64)
    ensures
        Prng::output(Prng::seeded(a)) == a,
        Prng::seeded(a).1 == 1,
        Prng::seeded(a).2 == 1,
        a != b ==> Prng::seeded(a) != Prng::seeded(b),
        !Prng::jumps(),
{
}

/// One draw: the word drawn is the first one of the state, the next one is a multiple of the third, and
/// the other two are rotations of the differences `d` and `e` of neighbours.
pub proof fn lemma_draws(s: (u64, u64, u64), d: u64, e: u64)
    requires
        (d + s.0) % 0x1_0000_0000_0000_0000 == s.1,
        (e + s.1) % 0x1_0000_0000_0000_0000 == s.2,
    ensures
        Prng::output(s) == s.0,
        Prng::step(s).0 as int == (15241094284759029579 * s.2 as int) % 0x1_0000_0000_0000_0000,
        Prng::step(s).1 == modular::rotated_left(d, 12),
        Prng::step(s).2 == modular::rotated_left(e, 44),
{
    assert(s.1.wrapping_sub(s.0) == d);
    assert(s.2.wrapping_sub(s.1) == e);
}

} // verus!
