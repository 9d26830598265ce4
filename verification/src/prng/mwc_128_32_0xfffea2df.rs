//! A multiply-with-carry generator with three 32-bit digits and multiplier 0xfffea2df.
use vstd::arithmetic::power::*;
use vstd::prelude::*;

use crate::prng;
use crate::prng::bignum;
use crate::prng::modular;
use crate::prng::mwc;
use crate::prng::mwc::{jump_32, multiply_add_32};
use crate::prng::{Generator, Recurrence};

verus! {

/// The multiplier.
pub const A: u32 = 0xfffea2df;

/// The MWC128-32 generator, whose digits and carry stand for a number less than the modulus.
#[derive(Clone, Copy)]
pub struct Prng {
    x: u32,
    y: u32,
    z: u32,
    c: u32,
}

impl View for Prng {
    type V = (u32, u32, u32, u32);

    closed spec fn view(&self) -> (u32, u32, u32, u32) {
        (self.x, self.y, self.z, self.c)
    }
}

/// The digits of the number that a state stands for.
pub open spec fn digits(s: (u32, u32, u32, u32)) -> Seq<u32> {
    seq![s.0, s.1, s.2, s.3]
}

impl Prng {
    /// The name of the generator.
    pub const NAME: &'static str = "MWC128-32 (0xfffea2df)";

    /// The number that the state stands for is less than the modulus.
    #[verifier::type_invariant]
    spec fn reduced(self) -> bool {
        Self::valid(self@)
    }

    /// Creates a generator from a seed.
    pub fn new(seed: u64) -> (g: Self)
        ensures
            g@ == Self::seeded(seed),
    {
        proof {
            Self::lemma_seeded_valid(seed);
        }
        Self { x: seed as u32, y: (seed >> 32) as u32, z: 0, c: 1 }
    }

    /// Draws the next word.
    pub fn next_u64(&mut self) -> (r: u64)
        ensures
            r == Self::output(old(self)@),
            final(self)@ == Self::step(old(self)@),
    {
        proof {
            use_type_invariant(&*self);
            Self::lemma_step_valid(self@);
        }
        let result: u64 = (self.z as u64) << 32;
        let (lo, hi): (u32, u32) = multiply_add_32(A, self.x, self.c);
        *self = Self { x: self.y, y: self.z, z: lo, c: hi };
        result
    }

    /// Skips `n` draws.
    pub fn try_skip(&mut self, n: u64) -> (r: Result<(), ()>)
        ensures
            r is Ok,
            final(self)@ == prng::orbit::<Prng>(old(self)@, n as nat),
    {
        proof {
            use_type_invariant(&*self);
            lemma_skip(self@, n as nat);
        }
        let d: Vec<u32> = jump_32(&[self.x, self.y, self.z, self.c], A, n);
        proof {
            bignum::lemma_digits_unique(d@, digits(prng::orbit::<Prng>(self@, n as nat)));
        }
        *self = Self { x: d[0], y: d[1], z: d[2], c: d[3] };
        Ok(())
    }
}

impl Recurrence for Prng {
    type State = (u32, u32, u32, u32);

    open spec fn seeded(seed: u64) -> (u32, u32, u32, u32) {
        (seed as u32, (seed >> 32) as u32, 0, 1)
    }

    open spec fn output(s: (u32, u32, u32, u32)) -> u64 {
        (s.2 as u64) << 32
    }

    open spec fn step(s: (u32, u32, u32, u32)) -> (u32, u32, u32, u32) {
        (s.1, s.2, ((A * s.0 + s.3) % 0x1_0000_0000) as u32, ((A * s.0 + s.3) / 0x1_0000_0000) as u32)
    }

    open spec fn valid(s: (u32, u32, u32, u32)) -> bool {
        bignum::digits_value(digits(s)) < mwc::modulus_32(A, 3)
    }

    open spec fn jumps() -> bool {
        true
    }

    proof fn lemma_seeded_valid(seed: u64) {
        mwc::lemma_unit_carry_32(digits(Self::seeded(seed)), A);
    }

    proof fn lemma_step_valid(s: (u32, u32, u32, u32)) {
        lemma_draw(s);
    }
}

impl Generator for Prng {
    open spec fn state(&self) -> (u32, u32, u32, u32) {
        self@
    }

    fn new(seed: u64) -> (g: Self) {
        Prng::new(seed)
    }

    fn next_u64(&mut self) -> (r: u64) {
        Prng::next_u64(self)
    }

    fn try_skip(&mut self, n: u64) -> (r: Result<(), ()>) {
        Prng::try_skip(self, n)
    }
}

/// A draw multiplies by the inverse of the base.
proof fn lemma_draw(s: (u32, u32, u32, u32))
    requires
        Prng::valid(s),
    ensures
        Prng::valid(Prng::step(s)),
        bignum::digits_value(digits(Prng::step(s))) == (mwc::inverse_32(A, 3) * bignum::digits_value(digits(s)))
            % mwc::modulus_32(A, 3),
{
    let d: Seq<u32> = digits(s);
    let t: int = A * s.0 + s.3;
    let lo: u32 = (t % 0x1_0000_0000) as u32;
    let hi: u32 = (t / 0x1_0000_0000) as u32;
    assert(t < 0x1_0000_0000 * 0x1_0000_0000) by (nonlinear_arith)
        requires
            t == A * s.0 + s.3,
            s.0 < 0x1_0000_0000,
            s.3 < 0x1_0000_0000,
            A < 0x1_0000_0000,
    ;
    mwc::lemma_draw_32(d, lo, hi, A);
    assert(d.drop_first().drop_last().push(lo).push(hi) =~= digits(Prng::step(s)));
}

/// Draws multiply by a power of the inverse of the base.
proof fn lemma_skip(s: (u32, u32, u32, u32), n: nat)
    requires
        Prng::valid(s),
    ensures
        bignum::digits_value(digits(prng::orbit::<Prng>(s, n))) == (bignum::digits_value(digits(s)) * pow(
            mwc::inverse_32(A, 3),
            n,
        )) % mwc::modulus_32(A, 3),
        Prng::valid(prng::orbit::<Prng>(s, n)),
    decreases n,
{
    let v: int = bignum::digits_value(digits(s)) as int;
    let mu: int = mwc::inverse_32(A, 3);
    let m: int = mwc::modulus_32(A, 3);
    if n == 0 {
        lemma_pow0(mu);
        vstd::arithmetic::div_mod::lemma_small_mod(v as nat, m as nat);
    } else {
        let t: (u32, u32, u32, u32) = prng::orbit::<Prng>(s, (n - 1) as nat);
        lemma_skip(s, (n - 1) as nat);
        lemma_draw(t);
        mwc::lemma_power_step(v, bignum::digits_value(digits(t)) as int, mu, m, (n - 1) as nat);
    }
}

/// One draw: the digits move up, and the new last digit and the new carry are the low and the high part of
/// the multiple of the first digit, with the carry added. The word drawn is the last digit, in the upper half.
/// The halves of the seed are the first two digits, the low one in front, the last digit is zero, and the
/// carry is one.
pub proof fn lemma_draws(seed: u64, s: (u32, u32, u32, u32))
    ensures
        Prng::step(s).2 + 0x1_0000_0000 * Prng::step(s).3 == 0xfffea2df * s.0 + s.3,
        Prng::step(s).0 == s.1,
        Prng::step(s).1 == s.2,
        Prng::output(s) == s.2 * 0x1_0000_0000,
        Prng::seeded(seed).0 + 0x1_0000_0000 * Prng::seeded(seed).1 == seed,
        Prng::seeded(seed).2 == 0,
        Prng::seeded(seed).3 == 1,
        Prng::jumps(),
{
    assert(seed as u32 + 0x1_0000_0000 * ((seed >> 32) as u32) == seed) by (bit_vector);
    let x: u32 = s.2;
    modular::lemma_upper_half(x);
    let t: int = 0xfffea2df * s.0 + s.3;
    assert(0 <= t < 0x1_0000_0000 * 0x1_0000_0000) by (nonlinear_arith)
        requires
            t == 0xfffea2df * s.0 + s.3,
            0 <= s.0 < 0x1_0000_0000,
            0 <= s.3 < 0x1_0000_0000,
    ;
}

} // verus!
