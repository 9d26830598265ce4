//! A 32-bit affine congruential generator with multiplier 0xec65035.
use vstd::arithmetic::div_mod::*;
use vstd::prelude::*;

use crate::prng;
use crate::prng::affine;
use crate::prng::affine::skip_32;
use crate::prng::modular;
use crate::prng::{Generator, Recurrence};

verus! {

/// The multiplier.
pub const A: u32 = 0xec65035;

/// The 32-bit affine congruential generator.
#[derive(Clone, Copy)]
pub struct Prng {
    x: u32,
}

impl View for Prng {
    type V = u32;

    closed spec fn view(&self) -> u32 {
        self.x
    }
}

impl Prng {
    /// The name of the generator.
    pub const NAME: &'static str = "LCG32 (0xec65035)";

    /// Creates a generator from a seed.
    pub fn new(seed: u64) -> (g: Self)
        ensures
            g@ == Self::seeded(seed),
    {
        Self { x: seed as u32 }
    }

    /// Draws the next word.
    pub fn next_u64(&mut self) -> (r: u64)
        ensures
            r == Self::output(old(self)@),
            final(self)@ == Self::step(old(self)@),
    {
        self.x = self.x.wrapping_mul(A).wrapping_add(1);
        (self.x as u64) << 32
    }

    /// Skips `n` draws.
    pub fn try_skip(&mut self, n: u64) -> (r: Result<(), ()>)
        ensures
            r is Ok,
            final(self)@ == prng::orbit::<Prng>(old(self)@, n as nat),
    {
        proof {
            lemma_skip(self.x, n as nat);
        }
        self.x = skip_32(A, self.x, n);
        Ok(())
    }
}

impl Recurrence for Prng {
    type State = u32;

    open spec fn seeded(seed: u64) -> u32 {
        seed as u32
    }

    open spec fn output(s: u32) -> u64 {
        (s.wrapping_mul(A).wrapping_add(1) as u64) << 32
    }

    open spec fn step(s: u32) -> u32 {
        s.wrapping_mul(A).wrapping_add(1)
    }

    open spec fn valid(s: u32) -> bool {
        true
    }

    open spec fn jumps() -> bool {
        true
    }

    proof fn lemma_seeded_valid(seed: u64) {
    }

    proof fn lemma_step_valid(s: u32) {
    }
}

impl Generator for Prng {
    open spec fn state(&self) -> u32 {
        self@
    }

    fn new(seed: u64) -> (g: Self) {
        Prng::new(seed)
    }

    fn next_u64(&mut self) -> (r: u64) {
        Prng::next_u64(self)
    }

    fn try_skip(&mut self, n: u64) -> (r: Result<(), ()>) {
        Prng::try_skip(self, n)
    }
}

/// Stepping iterates the affine map.
proof fn lemma_skip(x: u32, n: nat)
    ensures
        prng::orbit::<Prng>(x, n) == affine::iterate_32(A, x, n),
    decreases n,
{
    if n > 0 {
        lemma_skip(x, (n - 1) as nat);
    }
}

/// One draw, and a skip of 2^64 - 1 more, come back to the same state.
pub proof fn lemma_cycle(s: u32)
    ensures
        prng::orbit::<Prng>(Prng::step(s), u64::MAX as nat) == s,
{
    prng::lemma_orbit_compose::<Prng>(s, 1, u64::MAX as nat);
    assert(prng::orbit::<Prng>(s, 1) == Prng::step(prng::orbit::<Prng>(s, 0)));
    lemma_skip(s, 0x1_0000_0000_0000_0000);
    affine::lemma_cycle_32(A, s);
}

/// The state is an affine function of the one before, on 32-bit words, and the word drawn is the new state
/// in the upper half. The seed is taken modulo 2^32.
pub proof fn lemma_draws(seed: u64, s: u32)
    ensures
        Prng::step(s) as int == (0xec65035 * s as int + 1) % 0x1_0000_0000,
        Prng::output(s) as int == Prng::step(s) * 0x1_0000_0000,
        Prng::seeded(seed) as int == seed as int % 0x1_0000_0000,
        Prng::jumps(),
{
    modular::lemma_upper_half(Prng::step(s));
    modular::lemma_low_half(seed);
    let p: u32 = s.wrapping_mul(A);
    assert(p.wrapping_add(1) == (p + 1) % 0x1_0000_0000);
    lemma_add_mod_noop(s * A, 1, 0x1_0000_0000);
}

} // verus!
