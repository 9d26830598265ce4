//! A 64-bit affine congruential generator with multiplier 0xa5b9ee81534fa94d.
use vstd::arithmetic::div_mod::*;
use vstd::prelude::*;

use crate::prng;
use crate::prng::affine;
use crate::prng::affine::skip_64;
use crate::prng::{Generator, Recurrence};

verus! {

/// The multiplier.
pub const A: u64 = 0xa5b9ee81534fa94d;

/// The 64-bit affine congruential generator.
#[derive(Clone, Copy)]
pub struct Prng {
    x: u64,
}

impl View for Prng {
    type V = u64;

    closed spec fn view(&self) -> u64 {
        self.x
    }
}

impl Prng {
    /// The name of the generator.
    pub const NAME: &'static str = "LCG64 (0xa5b9ee81534fa94d)";

    /// Creates a generator from a seed.
    pub fn new(seed: u64) -> (g: Self)
        ensures
            g@ == Self::seeded(seed),
    {
        Self { x: seed }
    }

    /// Draws the next word.
    pub fn next_u64(&mut self) -> (r: u64)
        ensures
            r == Self::output(old(self)@),
            final(self)@ == Self::step(old(self)@),
    {
        self.x = self.x.wrapping_mul(A).wrapping_add(1);
        self.x
    }

    /// Skips `n` draws.
    pub fn try_skip(&mut self, n: u64) -> (r: Result<(), ()>)
        ensures
            r is Ok,
            final(self)@ == prng::orbit::<Prng>(old(self)@, n as nat),
    {
        proof {
            lemma_skip(self.x, n as nat);
        }
        self.x = skip_64(A, self.x, n);
        Ok(())
    }
}

impl Recurrence for Prng {
    type State = u64;

    open spec fn seeded(seed: u64) -> u64 {
        seed
    }

    open spec fn output(s: u64) -> u64 {
        s.wrapping_mul(A).wrapping_add(1)
    }

    open spec fn step(s: u64) -> u64 {
        s.wrapping_mul(A).wrapping_add(1)
    }

    open spec fn valid(s: u64) -> bool {
        true
    }

    open spec fn jumps() -> bool {
        true
    }

    proof fn lemma_seeded_valid(seed: u64) {
    }

    proof fn lemma_step_valid(s: u64) {
    }
}

impl Generator for Prng {
    open spec fn state(&self) -> u64 {
        self@
    }

    fn new(seed: u64) -> (g: Self) {
        Prng::new(seed)
    }

    fn next_u64(&mut self) -> (r: u64) {
        Prng::next_u64(self)
    }

    fn try_skip(&mut self, n: u64) -> (r: Result<(), ()>) {
        Prng::try_skip(self, n)
    }
}

/// Stepping iterates the affine map.
proof fn lemma_skip(x: u64, n: nat)
    ensures
        prng::orbit::<Prng>(x, n) == affine::iterate_64(A, x, n),
    decreases n,
{
    if n > 0 {
        lemma_skip(x, (n - 1) as nat);
    }
}

/// One draw, and a skip of 2^64 - 1 more, come back to the same state.
pub proof fn lemma_cycle(s: u64)
    ensures
        prng::orbit::<Prng>(Prng::step(s), u64::MAX as nat) == s,
{
    prng::lemma_orbit_compose::<Prng>(s, 1, u64::MAX as nat);
    assert(prng::orbit::<Prng>(s, 1) == Prng::step(prng::orbit::<Prng>(s, 0)));
    lemma_skip(s, 0x1_0000_0000_0000_0000);
    affine::lemma_cycle_64(A, s);
}

/// The state is an affine function of the one before, on 64-bit words, and the word drawn is the new
/// state. The seed is the state.
pub proof fn lemma_draws(seed: u64, s: u64)
    ensures
        Prng::step(s) as int == (0xa5b9ee81534fa94d * s as int + 1) % 0x1_0000_0000_0000_0000,
        Prng::output(s) == Prng::step(s),
        Prng::seeded(seed) == seed,
        Prng::jumps(),
{
    let p: u64 = s.wrapping_mul(A);
    assert(p.wrapping_add(1) == (p + 1) % 0x1_0000_0000_0000_0000);
    lemma_add_mod_noop(s * A, 1, 0x1_0000_0000_0000_0000);
}

} // verus!
