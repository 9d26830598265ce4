//! SplitMix: a Weyl sequence whose states go through a bit mixer.
use vstd::arithmetic::div_mod::*;
use vstd::prelude::*;

use crate::prng;
use crate::prng::modular;
use crate::prng::{Generator, Recurrence};

verus! {

/// The increment of the Weyl sequence.
pub const PHI: u64 = 0x9e3779b97f4a7c15;

/// The mixing function applied to a state.
pub open spec fn mix(x: u64) -> u64 {
    let y: u64 = (x ^ (x >> 30)).wrapping_mul(0xbf58476d1ce4e5b9);
    let z: u64 = (y ^ (y >> 27)).wrapping_mul(0x94d049bb133111eb);
    z ^ (z >> 31)
}

/// The SplitMix generator.
#[derive(Clone, Copy)]
pub struct Prng {
    x: u64,
}

impl View for Prng {
    type V = u64;

    closed spec fn view(&self) -> u64 {
        self.x
    }
}

impl Prng {
    /// The name of the generator.
    pub const NAME: &'static str = "SplitMix";

    /// Creates a generator from a seed.
    pub fn new(seed: u64) -> (g: Self)
        ensures
            g@ == Self::seeded(seed),
    {
        Self { x: seed }
    }

    /// Draws the next word.
    pub fn next_u64(&mut self) -> (r: u64)
        ensures
            r == Self::output(old(self)@),
            final(self)@ == Self::step(old(self)@),
    {
        let mut z: u64 = self.x;
        z = (z ^ (z >> 30)).wrapping_mul(0xbf58476d1ce4e5b9);
        z = (z ^ (z >> 27)).wrapping_mul(0x94d049bb133111eb);
        self.x = self.x.wrapping_add(PHI);
        z ^ (z >> 31)
    }

    /// Skips `n` draws.
    pub fn try_skip(&mut self, n: u64) -> (r: Result<(), ()>)
        ensures
            r is Ok,
            final(self)@ == prng::orbit::<Prng>(old(self)@, n as nat),
    {
        proof {
            lemma_skip(self.x, n);
        }
        self.x = self.x.wrapping_add(n.wrapping_mul(PHI));
        Ok(())
    }
}

impl Recurrence for Prng {
    type State = u64;

    open spec fn seeded(seed: u64) -> u64 {
        seed
    }

    open spec fn output(s: u64) -> u64 {
        mix(s)
    }

    open spec fn step(s: u64) -> u64 {
        s.wrapping_add(PHI)
    }

    open spec fn valid(s: u64) -> bool {
        true
    }

    open spec fn jumps() -> bool {
        true
    }

    proof fn lemma_seeded_valid(seed: u64) {
    }

    proof fn lemma_step_valid(s: u64) {
    }
}

impl Generator for Prng {
    open spec fn state(&self) -> u64 {
        self@
    }

    fn new(seed: u64) -> (g: Self) {
        Prng::new(seed)
    }

    fn next_u64(&mut self) -> (r: u64) {
        Prng::next_u64(self)
    }

    fn try_skip(&mut self, n: u64) -> (r: Result<(), ()>) {
        Prng::try_skip(self, n)
    }
}

/// Skipping adds the increment as many times as stepping does.
proof fn lemma_skip(x: u64, n: u64)
    ensures
        prng::orbit::<Prng>(x, n as nat) == x.wrapping_add(n.wrapping_mul(PHI)),
    decreases n,
{
    if n > 0 {
        lemma_skip(x, (n - 1) as u64);
        modular::lemma_weyl_step(x, n, PHI);
    } else {
        modular::lemma_weyl_zero(x, PHI);
    }
}

/// One draw, and a skip of 2^64 - 1 more, come back to the same state.
pub proof fn lemma_cycle(s: u64)
    ensures
        prng::orbit::<Prng>(Prng::step(s), u64::MAX as nat) == s,
{
    lemma_skip(Prng::step(s), u64::MAX);
    modular::lemma_weyl_cycle(s, PHI);
}

/// The state that a word is drawn from.
pub open spec fn unmix(w: u64) -> u64 {
    let z: u64 = (w ^ (w >> 31) ^ (w >> 62)).wrapping_mul(0x319642b2d24d8ec3);
    let y: u64 = (z ^ (z >> 27) ^ (z >> 54)).wrapping_mul(0x96de1b173f119089);
    y ^ (y >> 30) ^ (y >> 60)
}

/// The output is a bijection of the state: every word is drawn from one state, and from one only.
pub proof fn lemma_output_bijective(s: u64)
    ensures
        unmix(Prng::output(s)) == s,
        Prng::output(unmix(s)) == s,
{
    lemma_shifts(s);
    let y: u64 = s ^ (s >> 30);
    modular::lemma_inverse(y, 0xbf58476d1ce4e5b9, 0x96de1b173f119089);
    let y2: u64 = y.wrapping_mul(0xbf58476d1ce4e5b9);
    lemma_shifts(y2);
    let z: u64 = y2 ^ (y2 >> 27);
    modular::lemma_inverse(z, 0x94d049bb133111eb, 0x319642b2d24d8ec3);
    lemma_shifts(z.wrapping_mul(0x94d049bb133111eb));

    let z1: u64 = s ^ (s >> 31) ^ (s >> 62);
    modular::lemma_inverse(z1, 0x319642b2d24d8ec3, 0x94d049bb133111eb);
    let z2: u64 = z1.wrapping_mul(0x319642b2d24d8ec3);
    lemma_shifts(z2);
    let y1: u64 = z2 ^ (z2 >> 27) ^ (z2 >> 54);
    modular::lemma_inverse(y1, 0x96de1b173f119089, 0xbf58476d1ce4e5b9);
    lemma_shifts(y1.wrapping_mul(0x96de1b173f119089));
}

/// Shifts that are added to a word can be taken away again.
proof fn lemma_shifts(x: u64)
    ensures
        (x ^ (x >> 30)) ^ ((x ^ (x >> 30)) >> 30) ^ ((x ^ (x >> 30)) >> 60) == x,
        (x ^ (x >> 27)) ^ ((x ^ (x >> 27)) >> 27) ^ ((x ^ (x >> 27)) >> 54) == x,
        (x ^ (x >> 31)) ^ ((x ^ (x >> 31)) >> 31) ^ ((x ^ (x >> 31)) >> 62) == x,
        (x ^ (x >> 30) ^ (x >> 60)) ^ ((x ^ (x >> 30) ^ (x >> 60)) >> 30) == x,
        (x ^ (x >> 27) ^ (x >> 54)) ^ ((x ^ (x >> 27) ^ (x >> 54)) >> 27) == x,
        (x ^ (x >> 31) ^ (x >> 62)) ^ ((x ^ (x >> 31) ^ (x >> 62)) >> 31) == x,
{
    assert((x ^ (x >> 30)) ^ ((x ^ (x >> 30)) >> 30) ^ ((x ^ (x >> 30)) >> 60) == x && (x ^ (x >> 27)) ^ ((x ^ (x
        >> 27)) >> 27) ^ ((x ^ (x >> 27)) >> 54) == x && (x ^ (x >> 31)) ^ ((x ^ (x >> 31)) >> 31) ^ ((x ^ (x >> 31))
        >> 62) == x && (x ^ (x >> 30) ^ (x >> 60)) ^ ((x ^ (x >> 30) ^ (x >> 60)) >> 30) == x && (x ^ (x >> 27) ^ (x
        >> 54)) ^ ((x ^ (x >> 27) ^ (x >> 54)) >> 27) == x && (x ^ (x >> 31) ^ (x >> 62)) ^ ((x ^ (x >> 31) ^ (x >> 62))
        >> 31) == x) by (bit_vector);
}

/// Different seeds draw different first words.
pub proof fn lemma_first_words_differ(a: u64, b: u64)
    requires
        a != b,
    ensures
        Prng::output(Prng::seeded(a)) != Prng::output(Prng::seeded(b)),
{
    lemma_output_bijective(a);
    lemma_output_bijective(b);
}

/// Words that are fewer than 2^64 draws apart differ: the generator never repeats itself before it
/// comes full circle.
pub proof fn lemma_words_differ(s: u64, i: nat, n: u64)
    requires
        n > 0,
    ensures
        prng::word::<Prng>(s, i) != prng::word::<Prng>(s, i + n as nat),
{
    let x: u64 = prng::orbit::<Prng>(s, i);
    prng::lemma_orbit_compose::<Prng>(s, i, n as nat);
    lemma_skip(x, n);
    let y: u64 = x.wrapping_add(n.wrapping_mul(PHI));
    lemma_output_bijective(x);
    lemma_output_bijective(y);
    modular::lemma_inverse(n, PHI, 0xf1de83e19937733d);
    let d: u64 = n.wrapping_mul(PHI);
    if d == 0 {
        assert(0 * 0xf1de83e19937733dint == 0);
        assert(d.wrapping_mul(0xf1de83e19937733d) == 0);
    }
}

/// The states follow each other at a fixed distance: after `n` draws the state is the seed and `n` times
/// the increment, modulo 2^64.
pub proof fn lemma_states(seed: u64, n: nat)
    ensures
        prng::orbit::<Prng>(Prng::seeded(seed), n) as int == (seed + n * 0x9e3779b97f4a7c15) % 0x1_0000_0000_0000_0000,
        Prng::jumps(),
    decreases n,
{
    let c: int = 0x9e3779b97f4a7c15;
    if n > 0 {
        let m: nat = (n - 1) as nat;
        lemma_states(seed, m);
        let x: u64 = prng::orbit::<Prng>(Prng::seeded(seed), m);
        assert(seed + n * c == (seed + m * c) + c) by (nonlinear_arith)
            requires
                n == m + 1,
        ;
        lemma_add_mod_noop(seed + m * c, c, 0x1_0000_0000_0000_0000);
        lemma_small_mod(c as nat, 0x1_0000_0000_0000_0000);
        lemma_small_mod(x as nat, 0x1_0000_0000_0000_0000);
        assert(Prng::step(x) == (x + c) % 0x1_0000_0000_0000_0000);
    } else {
        assert(0 * c == 0);
        lemma_small_mod(seed as nat, 0x1_0000_0000_0000_0000);
    }
}

/// The state that a word was drawn from can be told from the word: the three shifts are undone, and the
/// two products by the inverses of their factors.
pub proof fn lemma_state_of_word(s: u64)
    ensures
        ({
            let w: u64 = Prng::output(s);
            let z: int = ((w ^ (w >> 31) ^ (w >> 62)) * 0x319642b2d24d8ec3) % 0x1_0000_0000_0000_0000;
            let v: u64 = z as u64;
            let y: int = ((v ^ (v >> 27) ^ (v >> 54)) * 0x96de1b173f119089) % 0x1_0000_0000_0000_0000;
            let u: u64 = y as u64;
            s == u ^ (u >> 30) ^ (u >> 60)
        }),
{
    lemma_output_bijective(s);
}

} // verus!
