//! MSWS-CTR: a counter-based middle-square Weyl sequence.
use vstd::arithmetic::div_mod::*;
use vstd::prelude::*;

use crate::prng;
use crate::prng::modular;
use crate::prng::modular::rotate_left;
use crate::prng::{Generator, Recurrence};

verus! {

/// The multiplier that spreads the counter, and the offset between its two keys.
pub const KEY: u64 = 0x9e3779b97f4a7c15;

/// One squaring round: square, add the key, and swap the halves of the word.
pub open spec fn round(x: u64, key: u64) -> u64 {
    modular::rotated_left(x.wrapping_mul(x).wrapping_add(key), 32)
}

/// The five rounds that turn a counter into a word.
pub open spec fn scramble(ctr: u64) -> u64 {
    let y: u64 = ctr.wrapping_mul(KEY);
    let z: u64 = y.wrapping_add(KEY);
    let x3: u64 = round(round(round(y, y), z), y);
    let t: u64 = x3.wrapping_mul(x3).wrapping_add(z);
    let x4: u64 = modular::rotated_left(t, 32);
    t ^ (x4.wrapping_mul(x4).wrapping_add(y) >> 32)
}

/// The MSWS-CTR generator.
#[derive(Clone, Copy)]
pub struct Prng {
    ctr: u64,
}

impl View for Prng {
    type V = u64;

    closed spec fn view(&self) -> u64 {
        self.ctr
    }
}

impl Prng {
    /// The name of the generator.
    pub const NAME: &'static str = "MSWS-CTR (middle-square Weyl sequence, counter-based)";

    /// Creates a generator from a seed.
    pub fn new(seed: u64) -> (g: Self)
        ensures
            g@ == Self::seeded(seed),
    {
        Self { ctr: seed }
    }

    /// Draws the next word.
    pub fn next_u64(&mut self) -> (r: u64)
        ensures
            r == Self::output(old(self)@),
            final(self)@ == Self::step(old(self)@),
    {
        self.ctr = self.ctr.wrapping_add(1);
        let y: u64 = self.ctr.wrapping_mul(KEY);
        let z: u64 = y.wrapping_add(KEY);
        let mut x: u64 = y.wrapping_mul(y).wrapping_add(y);
        x = rotate_left(x, 32);
        x = x.wrapping_mul(x).wrapping_add(z);
        x = rotate_left(x, 32);
        x = x.wrapping_mul(x).wrapping_add(y);
        x = rotate_left(x, 32);
        x = x.wrapping_mul(x).wrapping_add(z);
        let t: u64 = x;
        x = rotate_left(x, 32);
        t ^ (x.wrapping_mul(x).wrapping_add(y) >> 32)
    }

    /// Skips `n` draws.
    pub fn try_skip(&mut self, n: u64) -> (r: Result<(), ()>)
        ensures
            r is Ok,
            final(self)@ == prng::orbit::<Prng>(old(self)@, n as nat),
    {
        proof {
            lemma_skip(self.ctr, n);
        }
        self.ctr = self.ctr.wrapping_add(n);
        Ok(())
    }
}

impl Recurrence for Prng {
    type State = u64;

    open spec fn seeded(seed: u64) -> u64 {
        seed
    }

    open spec fn output(s: u64) -> u64 {
        scramble(s.wrapping_add(1))
    }

    open spec fn step(s: u64) -> u64 {
        s.wrapping_add(1)
    }

    open spec fn valid(s: u64) -> bool {
        true
    }

    open spec fn jumps() -> bool {
        true
    }

    proof fn lemma_seeded_valid(seed: u64) {
    }

    proof fn lemma_step_valid(s: u64) {
    }
}

impl Generator for Prng {
    open spec fn state(&self) -> u64 {
        self@
    }

    fn new(seed: u64) -> (g: Self) {
        Prng::new(seed)
    }

    fn next_u64(&mut self) -> (r: u64) {
        Prng::next_u64(self)
    }

    fn try_skip(&mut self, n: u64) -> (r: Result<(), ()>) {
        Prng::try_skip(self, n)
    }
}

/// Skipping adds as much as stepping does.
proof fn lemma_skip(x: u64, n: u64)
    ensures
        prng::orbit::<Prng>(x, n as nat) == x.wrapping_add(n),
    decreases n,
{
    if n > 0 {
        lemma_skip(x, (n - 1) as u64);
    }
}

/// One draw, and a skip of 2^64 - 1 more, come back to the same state.
pub proof fn lemma_cycle(s: u64)
    ensures
        prng::orbit::<Prng>(Prng::step(s), u64::MAX as nat) == s,
{
    lemma_skip(Prng::step(s), u64::MAX);
}

/// The states follow each other at a fixed distance: after `n` draws the state is the seed and `n` times
/// the increment, modulo 2^64.
pub proof fn lemma_states(seed: u64, n: nat)
    ensures
        prng::orbit::<Prng>(Prng::seeded(seed), n) as int == (seed + n * 1) % 0x1_0000_0000_0000_0000,
        Prng::jumps(),
    decreases n,
{
    let c: int = 1;
    if n > 0 {
        let m: nat = (n - 1) as nat;
        lemma_states(seed, m);
        let x: u64 = prng::orbit::<Prng>(Prng::seeded(seed), m);
        assert(seed + n * c == (seed + m * c) + c) by (nonlinear_arith)
            requires
                n == m + 1,
        ;
        lemma_add_mod_noop(seed + m * c, c, 0x1_0000_0000_0000_0000);
        lemma_small_mod(c as nat, 0x1_0000_0000_0000_0000);
        lemma_small_mod(x as nat, 0x1_0000_0000_0000_0000);
        assert(Prng::step(x) == (x + c) % 0x1_0000_0000_0000_0000);
    } else {
        assert(0 * c == 0);
        lemma_small_mod(seed as nat, 0x1_0000_0000_0000_0000);
    }
}

/// The word drawn from a state, through the rounds that make it: `y` and `z` are the keys, `a` to `e` the
/// squares with a key added, and each round goes on from one with its halves swapped, `p` to `t`.
pub proof fn lemma_rounds(
    s: u64,
    y: u64,
    z: u64,
    a: u64,
    p: u64,
    b: u64,
    q: u64,
    c: u64,
    r: u64,
    d: u64,
    t: u64,
    e: u64,
)
    requires
        y as int == (Prng::step(s) as int * 0x9e3779b97f4a7c15) % 0x1_0000_0000_0000_0000,
        z as int == (y + 0x9e3779b97f4a7c15) % 0x1_0000_0000_0000_0000,
        a as int == (y * y + y) % 0x1_0000_0000_0000_0000,
        p as int == (a as int % 0x1_0000_0000) * 0x1_0000_0000 + a as int / 0x1_0000_0000,
        b as int == (p * p + z) % 0x1_0000_0000_0000_0000,
        q as int == (b as int % 0x1_0000_0000) * 0x1_0000_0000 + b as int / 0x1_0000_0000,
        c as int == (q * q + y) % 0x1_0000_0000_0000_0000,
        r as int == (c as int % 0x1_0000_0000) * 0x1_0000_0000 + c as int / 0x1_0000_0000,
        d as int == (r * r + z) % 0x1_0000_0000_0000_0000,
        t as int == (d as int % 0x1_0000_0000) * 0x1_0000_0000 + d as int / 0x1_0000_0000,
        e as int == (t * t + y) % 0x1_0000_0000_0000_0000,
    ensures
        Prng::output(s) == d ^ (e >> 32),
{
    lemma_square(y, y);
    modular::lemma_halves_swapped(a);
    lemma_square(p, z);
    modular::lemma_halves_swapped(b);
    lemma_square(q, y);
    modular::lemma_halves_swapped(c);
    lemma_square(r, z);
    modular::lemma_halves_swapped(d);
    lemma_square(t, y);
}

/// A square with a key added, modulo 2^64.
proof fn lemma_square(x: u64, key: u64)
    ensures
        x.wrapping_mul(x).wrapping_add(key) as int == (x * x + key) % 0x1_0000_0000_0000_0000,
{
    let p: u64 = x.wrapping_mul(x);
    assert(p.wrapping_add(key) == (p + key) % 0x1_0000_0000_0000_0000);
    lemma_add_mod_noop(x * x, key as int, 0x1_0000_0000_0000_0000);
    lemma_add_mod_noop(p as int, key as int, 0x1_0000_0000_0000_0000);
    lemma_small_mod(p as nat, 0x1_0000_0000_0000_0000);
}

} // verus!
