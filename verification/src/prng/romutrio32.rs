//! RomuTrio32, the variant of RomuTrio on 32-bit words.
use vstd::prelude::*;

use crate::prng::modular;
use crate::prng::modular::rotate_left_32;
use crate::prng::{Generator, Recurrence};

verus! {

/// The multiplier.
pub const MULTIPLIER: u32 = 3323815723;

/// The RomuTrio32 generator.
#[derive(Clone, Copy)]
pub struct Prng {
    x: u32,
    y: u32,
    z: u32,
}

impl View for Prng {
    type V = (u32, u32, u32);

    closed spec fn view(&self) -> (u32, u32, u32) {
        (self.x, self.y, self.z)
    }
}

impl Prng {
    /// The name of the generator.
    pub const NAME: &'static str = "RomuTrio32";

    /// Creates a generator from a seed.
    pub fn new(seed: u64) -> (g: Self)
        ensures
            g@ == Self::seeded(seed),
    {
        // The state must not be zero: the zero seed stands for another one.
        let seed: u64 = if seed == 0 { 0x9e3779b97f4a7c15 } else { seed };
        Self { x: seed as u32, y: (seed >> 32) as u32, z: 0 }
    }

    /// Draws the next word.
    pub fn next_u64(&mut self) -> (r: u64)
        ensures
            r == Self::output(old(self)@),
            final(self)@ == Self::step(old(self)@),
    {
        let (xp, yp, zp) = (self.x, self.y, self.z);
        self.x = MULTIPLIER.wrapping_mul(zp);
        self.y = yp.wrapping_sub(xp);
        self.y = rotate_left_32(self.y, 6);
        self.z = zp.wrapping_sub(yp);
        self.z = rotate_left_32(self.z, 22);
        (xp as u64) << 32
    }

    /// There is no jump-ahead for this generator: refuses, and stays where it is.
    pub fn try_skip(&mut self, _n: u64) -> (r: Result<(), ()>)
        ensures
            r is Err,
            *final(self) == *old(self),
    {
        Err(())
    }
}

impl Recurrence for Prng {
    type State = (u32, u32, u32);

    open spec fn seeded(seed: u64) -> (u32, u32, u32) {
        let seed: u64 = if seed == 0 { 0x9e3779b97f4a7c15 } else { seed };
        (seed as u32, (seed >> 32) as u32, 0)
    }

    open spec fn output(s: (u32, u32, u32)) -> u64 {
        (s.0 as u64) << 32
    }

    open spec fn step(s: (u32, u32, u32)) -> (u32, u32, u32) {
        (
            MULTIPLIER.wrapping_mul(s.2),
            modular::rotated_left_32(s.1.wrapping_sub(s.0), 6),
            modular::rotated_left_32(s.2.wrapping_sub(s.1), 22),
        )
    }

    open spec fn valid(s: (u32, u32, u32)) -> bool {
        true
    }

    open spec fn jumps() -> bool {
        false
    }

    proof fn lemma_seeded_valid(seed: u64) {
    }

    proof fn lemma_step_valid(s: (u32, u32, u32)) {
    }
}

impl Generator for Prng {
    open spec fn state(&self) -> (u32, u32, u32) {
        self@
    }

    fn new(seed: u64) -> (g: Self) {
        Prng::new(seed)
    }

    fn next_u64(&mut self) -> (r: u64) {
        Prng::next_u64(self)
    }

    fn try_skip(&mut self, n: u64) -> (r: Result<(), ()>) {
        Prng::try_skip(self, n)
    }
}

/// The two halves of a seed other than zero are the first two words, the low one in front, and the third
/// is zero. The zero seed stands for another one.
pub proof fn lemma_seeds(seed: u64)
    ensures
        seed != 0 ==> Prng::seeded(seed).0 + 0x1_0000_0000 * Prng::seeded(seed).1 == seed,
        Prng::seeded(seed).2 == 0,
        Prng::seeded(0) == Prng::seeded(0x9e3779b97f4a7c15),
        !Prng::jumps(),
{
    assert(seed as u32 + 0x1_0000_0000 * ((seed >> 32) as u32) == seed) by (bit_vector);
}

/// One draw: the word drawn is the first one of the state, in the upper half; the next one is a multiple
/// of the third, and the other two are rotations of the differences `d` and `e` of neighbours.
pub proof fn lemma_draws(s: (u32, u32, u32), d: u32, e: u32)
    requires
        (d + s.0) % 0x1_0000_0000 == s.1,
        (e + s.1) % 0x1_0000_0000 == s.2,
    ensures
        Prng::output(s) == s.0 * 0x1_0000_0000,
        Prng::step(s).0 as int == (3323815723 * s.2 as int) % 0x1_0000_0000,
        Prng::step(s).1 == modular::rotated_left_32(d, 6),
        Prng::step(s).2 == modular::rotated_left_32(e, 22),
{
    let x: u32 = s.0;
    modular::lemma_upper_half(x);
    assert(s.1.wrapping_sub(s.0) == d);
    assert(s.2.wrapping_sub(s.1) == e);
}

} // verus!
