//! wyrand: a Weyl sequence hashed by a folded product.
use vstd::arithmetic::div_mod::*;
use vstd::prelude::*;

use crate::prng;
use crate::prng::modular;
use crate::prng::{Generator, Recurrence};

verus! {

/// The increment of the Weyl sequence.
pub const INCREMENT: u64 = 0xa0761d6478bd642f;

/// The constant that a state is combined with before the product.
pub const SALT: u64 = 0xe7037ed1a0b428db;

/// The high and the low half of the product of two words, combined by an exclusive-or.
pub open spec fn fold_product(a: u64, b: u64) -> u64 {
    let t: u128 = (a as u128).wrapping_mul(b as u128);
    ((t >> 64) ^ t) as u64
}

/// The wyrand generator.
#[derive(Clone, Copy)]
pub struct Prng {
    x: u64,
}

impl View for Prng {
    type V = u64;

    closed spec fn view(&self) -> u64 {
        self.x
    }
}

impl Prng {
    /// The name of the generator.
    pub const NAME: &'static str = "wyrand";

    /// Creates a generator from a seed.
    pub fn new(seed: u64) -> (g: Self)
        ensures
            g@ == Self::seeded(seed),
    {
        Self { x: seed }
    }

    /// Draws the next word.
    pub fn next_u64(&mut self) -> (r: u64)
        ensures
            r == Self::output(old(self)@),
            final(self)@ == Self::step(old(self)@),
    {
        let z: u64 = self.x;
        self.x = self.x.wrapping_add(INCREMENT);
        let t: u128 = ((z ^ SALT) as u128).wrapping_mul(z as u128);
        ((t >> 64) ^ t) as u64
    }

    /// Skips `n` draws.
    pub fn try_skip(&mut self, n: u64) -> (r: Result<(), ()>)
        ensures
            r is Ok,
            final(self)@ == prng::orbit::<Prng>(old(self)@, n as nat),
    {
        proof {
            lemma_skip(self.x, n);
        }
        self.x = self.x.wrapping_add(n.wrapping_mul(INCREMENT));
        Ok(())
    }
}

impl Recurrence for Prng {
    type State = u64;

    open spec fn seeded(seed: u64) -> u64 {
        seed
    }

    open spec fn output(s: u64) -> u64 {
        fold_product(s ^ SALT, s)
    }

    open spec fn step(s: u64) -> u64 {
        s.wrapping_add(INCREMENT)
    }

    open spec fn valid(s: u64) -> bool {
        true
    }

    open spec fn jumps() -> bool {
        true
    }

    proof fn lemma_seeded_valid(seed: u64) {
    }

    proof fn lemma_step_valid(s: u64) {
    }
}

impl Generator for Prng {
    open spec fn state(&self) -> u64 {
        self@
    }

    fn new(seed: u64) -> (g: Self) {
        Prng::new(seed)
    }

    fn next_u64(&mut self) -> (r: u64) {
        Prng::next_u64(self)
    }

    fn try_skip(&mut self, n: u64) -> (r: Result<(), ()>) {
        Prng::try_skip(self, n)
    }
}

/// Skipping adds the increment as many times as stepping does.
proof fn lemma_skip(x: u64, n: u64)
    ensures
        prng::orbit::<Prng>(x, n as nat) == x.wrapping_add(n.wrapping_mul(INCREMENT)),
    decreases n,
{
    if n > 0 {
        lemma_skip(x, (n - 1) as u64);
        modular::lemma_weyl_step(x, n, INCREMENT);
    } else {
        modular::lemma_weyl_zero(x, INCREMENT);
    }
}

/// One draw, and a skip of 2^64 - 1 more, come back to the same state.
pub proof fn lemma_cycle(s: u64)
    ensures
        prng::orbit::<Prng>(Prng::step(s), u64::MAX as nat) == s,
{
    lemma_skip(Prng::step(s), u64::MAX);
    modular::lemma_weyl_cycle(s, INCREMENT);
}

/// The states follow each other at a fixed distance: after `n` draws the state is the seed and `n` times
/// the increment, modulo 2^64.
pub proof fn lemma_states(seed: u64, n: nat)
    ensures
        prng::orbit::<Prng>(Prng::seeded(seed), n) as int == (seed + n * 0xa0761d6478bd642f) % 0x1_0000_0000_0000_0000,
        Prng::jumps(),
    decreases n,
{
    let c: int = 0xa0761d6478bd642f;
    if n > 0 {
        let m: nat = (n - 1) as nat;
        lemma_states(seed, m);
        let x: u64 = prng::orbit::<Prng>(Prng::seeded(seed), m);
        assert(seed + n * c == (seed + m * c) + c) by (nonlinear_arith)
            requires
                n == m + 1,
        ;
        lemma_add_mod_noop(seed + m * c, c, 0x1_0000_0000_0000_0000);
        lemma_small_mod(c as nat, 0x1_0000_0000_0000_0000);
        lemma_small_mod(x as nat, 0x1_0000_0000_0000_0000);
        assert(Prng::step(x) == (x + c) % 0x1_0000_0000_0000_0000);
    } else {
        assert(0 * c == 0);
        lemma_small_mod(seed as nat, 0x1_0000_0000_0000_0000);
    }
}

/// The word drawn combines the halves of a product, of the state and the state with some bits flipped.
pub proof fn lemma_halves(s: u64, hi: u64, lo: u64)
    requires
        (s ^ 0xe7037ed1a0b428db) * s == hi * 0x1_0000_0000_0000_0000 + lo,
    ensures
        Prng::output(s) == hi ^ lo,
{
    lemma_fold(s ^ 0xe7037ed1a0b428db, s, hi, lo);
}

/// The halves of a product, combined.
pub proof fn lemma_fold(a: u64, b: u64, hi: u64, lo: u64)
    requires
        a * b == hi * 0x1_0000_0000_0000_0000 + lo,
    ensures
        fold_product(a, b) == hi ^ lo,
{
    let t: u128 = (a as u128).wrapping_mul(b as u128);
    assert(0 <= a * b <= 0xffff_ffff_ffff_ffff * 0xffff_ffff_ffff_ffff) by (nonlinear_arith)
        requires
            0 <= a <= 0xffff_ffff_ffff_ffff,
            0 <= b <= 0xffff_ffff_ffff_ffff,
    ;
    lemma_small_mod((a * b) as nat, (u128::MAX + 1) as nat);
    assert(t == a * b);
    assert(((t >> 64) ^ t) as u64 == hi ^ lo) by (bit_vector)
        requires
            t == hi * 0x1_0000_0000_0000_0000 + lo,
    ;
}

} // verus!
