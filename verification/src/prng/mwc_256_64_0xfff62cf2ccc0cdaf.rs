//! A multiply-with-carry generator with three 64-bit digits and multiplier 0xfff62cf2ccc0cdaf.
use vstd::arithmetic::power::*;
use vstd::prelude::*;

use crate::prng;
use crate::prng::bignum;
use crate::prng::mwc;
use crate::prng::mwc::{jump_64, multiply_add_64};
use crate::prng::{Generator, Recurrence};

verus! {

/// The multiplier.
pub const A: u64 = 0xfff62cf2ccc0cdaf;

/// The MWC256 generator, whose digits and carry stand for a number less than the modulus.
#[derive(Clone, Copy)]
pub struct Prng {
    x: u64,
    y: u64,
    z: u64,
    c: u64,
}

impl View for Prng {
    type V = (u64, u64, u64, u64);

    closed spec fn view(&self) -> (u64, u64, u64, u64) {
        (self.x, self.y, self.z, self.c)
    }
}

/// The digits of the number that a state stands for.
pub open spec fn digits(s: (u64, u64, u64, u64)) -> Seq<u64> {
    seq![s.0, s.1, s.2, s.3]
}

impl Prng {
    /// The name of the generator.
    pub const NAME: &'static str = "MWC256 (0xfff62cf2ccc0cdaf)";

    /// The number that the state stands for is less than the modulus.
    #[verifier::type_invariant]
    spec fn reduced(self) -> bool {
        Self::valid(self@)
    }

    /// Creates a generator from a seed.
    pub fn new(seed: u64) -> (g: Self)
        ensures
            g@ == Self::seeded(seed),
    {
        proof {
            Self::lemma_seeded_valid(seed);
        }
        Self { x: seed, y: seed, z: seed, c: 1 }
    }

    /// Draws the next word.
    pub fn next_u64(&mut self) -> (r: u64)
        ensures
            r == Self::output(old(self)@),
            final(self)@ == Self::step(old(self)@),
    {
        proof {
            use_type_invariant(&*self);
            Self::lemma_step_valid(self@);
        }
        let result: u64 = self.z;
        let (lo, hi): (u64, u64) = multiply_add_64(A, self.x, self.c);
        *self = Self { x: self.y, y: self.z, z: lo, c: hi };
        result
    }

    /// Skips `n` draws.
    pub fn try_skip(&mut self, n: u64) -> (r: Result<(), ()>)
        ensures
            r is Ok,
            final(self)@ == prng::orbit::<Prng>(old(self)@, n as nat),
    {
        proof {
            use_type_invariant(&*self);
            lemma_skip(self@, n as nat);
        }
        let d: Vec<u64> = jump_64(&[self.x, self.y, self.z, self.c], A, n);
        proof {
            bignum::lemma_words_unique(d@, digits(prng::orbit::<Prng>(self@, n as nat)));
        }
        *self = Self { x: d[0], y: d[1], z: d[2], c: d[3] };
        Ok(())
    }
}

impl Recurrence for Prng {
    type State = (u64, u64, u64, u64);

    open spec fn seeded(seed: u64) -> (u64, u64, u64, u64) {
        (seed, seed, seed, 1)
    }

    open spec fn output(s: (u64, u64, u64, u64)) -> u64 {
        s.2
    }

    open spec fn step(s: (u64, u64, u64, u64)) -> (u64, u64, u64, u64) {
        (s.1, s.2, ((A * s.0 + s.3) % 0x1_0000_0000_0000_0000) as u64, ((A * s.0 + s.3) / 0x1_0000_0000_0000_0000) as u64)
    }

    open spec fn valid(s: (u64, u64, u64, u64)) -> bool {
        bignum::words_value(digits(s)) < mwc::modulus_64(A, 3)
    }

    open spec fn jumps() -> bool {
        true
    }

    proof fn lemma_seeded_valid(seed: u64) {
        mwc::lemma_unit_carry_64(digits(Self::seeded(seed)), A);
    }

    proof fn lemma_step_valid(s: (u64, u64, u64, u64)) {
        lemma_draw(s);
    }
}

impl Generator for Prng {
    open spec fn state(&self) -> (u64, u64, u64, u64) {
        self@
    }

    fn new(seed: u64) -> (g: Self) {
        Prng::new(seed)
    }

    fn next_u64(&mut self) -> (r: u64) {
        Prng::next_u64(self)
    }

    fn try_skip(&mut self, n: u64) -> (r: Result<(), ()>) {
        Prng::try_skip(self, n)
    }
}

/// A draw multiplies by the inverse of the base.
proof fn lemma_draw(s: (u64, u64, u64, u64))
    requires
        Prng::valid(s),
    ensures
        Prng::valid(Prng::step(s)),
        bignum::words_value(digits(Prng::step(s))) == (mwc::inverse_64(A, 3) * bignum::words_value(digits(s)))
            % mwc::modulus_64(A, 3),
{
    let d: Seq<u64> = digits(s);
    let t: int = A * s.0 + s.3;
    let lo: u64 = (t % 0x1_0000_0000_0000_0000) as u64;
    let hi: u64 = (t / 0x1_0000_0000_0000_0000) as u64;
    assert(t < 0x1_0000_0000_0000_0000 * 0x1_0000_0000_0000_0000) by (nonlinear_arith)
        requires
            t == A * s.0 + s.3,
            s.0 < 0x1_0000_0000_0000_0000,
            s.3 < 0x1_0000_0000_0000_0000,
            A < 0x1_0000_0000_0000_0000,
    ;
    mwc::lemma_draw_64(d, lo, hi, A);
    assert(d.drop_first().drop_last().push(lo).push(hi) =~= digits(Prng::step(s)));
}

/// Draws multiply by a power of the inverse of the base.
proof fn lemma_skip(s: (u64, u64, u64, u64), n: nat)
    requires
        Prng::valid(s),
    ensures
        bignum::words_value(digits(prng::orbit::<Prng>(s, n))) == (bignum::words_value(digits(s)) * pow(
            mwc::inverse_64(A, 3),
            n,
        )) % mwc::modulus_64(A, 3),
        Prng::valid(prng::orbit::<Prng>(s, n)),
    decreases n,
{
    let v: int = bignum::words_value(digits(s)) as int;
    let mu: int = mwc::inverse_64(A, 3);
    let m: int = mwc::modulus_64(A, 3);
    if n == 0 {
        lemma_pow0(mu);
        vstd::arithmetic::div_mod::lemma_small_mod(v as nat, m as nat);
    } else {
        let t: (u64, u64, u64, u64) = prng::orbit::<Prng>(s, (n - 1) as nat);
        lemma_skip(s, (n - 1) as nat);
        lemma_draw(t);
        mwc::lemma_power_step(v, bignum::words_value(digits(t)) as int, mu, m, (n - 1) as nat);
    }
}

/// One draw: the digits move up, and the new last digit and the new carry are the low and the high part of
/// the multiple of the first digit, with the carry added. The word drawn is the last digit.
/// The seed is every digit, and the carry is one.
pub proof fn lemma_draws(seed: u64, s: (u64, u64, u64, u64))
    ensures
        Prng::step(s).2 + 0x1_0000_0000_0000_0000 * Prng::step(s).3 == 0xfff62cf2ccc0cdaf * s.0 + s.3,
        Prng::step(s).0 == s.1,
        Prng::step(s).1 == s.2,
        Prng::output(s) == s.2,
        Prng::seeded(seed).0 == seed,
        Prng::seeded(seed).1 == seed,
        Prng::seeded(seed).2 == seed,
        Prng::seeded(seed).3 == 1,
        Prng::jumps(),
{
    let t: int = 0xfff62cf2ccc0cdaf * s.0 + s.3;
    assert(0 <= t < 0x1_0000_0000_0000_0000 * 0x1_0000_0000_0000_0000) by (nonlinear_arith)
        requires
            t == 0xfff62cf2ccc0cdaf * s.0 + s.3,
            0 <= s.0 < 0x1_0000_0000_0000_0000,
            0 <= s.3 < 0x1_0000_0000_0000_0000,
    ;
}

} // verus!
