//! Natural numbers written in digits, and the operations on them that the jump-ahead of the
//! multiply-with-carry generators takes from `num`.
use num::BigUint;
use vstd::arithmetic::div_mod::*;
use vstd::arithmetic::mul::*;
use vstd::arithmetic::power::*;
use vstd::prelude::*;

verus! {

/// The number with the given base-2^32 digits, least significant first.
pub open spec fn digits_value(d: Seq<u32>) -> nat
    decreases d.len(),
{
    if d.len() == 0 {
        0
    } else {
        d[0] as nat + 0x1_0000_0000 * digits_value(d.drop_first())
    }
}

/// The number with the given base-2^64 digits, least significant first.
pub open spec fn words_value(w: Seq<u64>) -> nat
    decreases w.len(),
{
    if w.len() == 0 {
        0
    } else {
        w[0] as nat + 0x1_0000_0000_0000_0000 * words_value(w.drop_first())
    }
}

/// [`BigUint::modpow`]: the power of a number, reduced by a modulus greater than one. The numbers
/// enter through [`BigUint::from_slice`] and leave through [`BigUint::to_u32_digits`], both of
/// which list base-2^32 digits from the least significant one.
#[verifier::external_body]
fn power_modulo(base: &[u32], exponent: u64, modulus: &[u32]) -> (r: Vec<u32>)
    requires
        digits_value(modulus@) > 1,
    ensures
        digits_value(r@) == pow(digits_value(base@) as int, exponent as nat) % digits_value(modulus@) as int,
{
    BigUint::from_slice(base).modpow(&BigUint::from(exponent), &BigUint::from_slice(modulus)).to_u32_digits()
}

/// The product of two numbers, by the multiplication of [`BigUint`].
#[verifier::external_body]
fn product(a: &[u32], b: &[u32]) -> (r: Vec<u32>)
    ensures
        digits_value(r@) == digits_value(a@) * digits_value(b@),
{
    (BigUint::from_slice(a) * BigUint::from_slice(b)).to_u32_digits()
}

/// The remainder of a number by a modulus other than zero, by the remainder of [`BigUint`].
#[verifier::external_body]
fn remainder(a: &[u32], modulus: &[u32]) -> (r: Vec<u32>)
    requires
        digits_value(modulus@) > 0,
    ensures
        digits_value(r@) == digits_value(a@) % digits_value(modulus@),
{
    (BigUint::from_slice(a) % BigUint::from_slice(modulus)).to_u32_digits()
}

/// Multiplies a number by a power of another one, modulo a third one.
pub fn scale_modulo(s: &[u32], base: &[u32], exponent: u64, modulus: &[u32]) -> (r: Vec<u32>)
    requires
        digits_value(modulus@) > 1,
    ensures
        digits_value(r@) == (digits_value(s@) * pow(digits_value(base@) as int, exponent as nat))
            % digits_value(modulus@) as int,
{
    let factor: Vec<u32> = power_modulo(base, exponent, modulus);
    let scaled: Vec<u32> = product(s, factor.as_slice());
    proof {
        lemma_mul_mod_noop_right(
            digits_value(s@) as int,
            pow(digits_value(base@) as int, exponent as nat),
            digits_value(modulus@) as int,
        );
    }
    remainder(scaled.as_slice(), modulus)
}

/// Appending a digit adds it with the weight of its position.
pub proof fn lemma_digits_push(d: Seq<u32>, x: u32)
    ensures
        digits_value(d.push(x)) == digits_value(d) + pow(0x1_0000_0000, d.len()) * x,
    decreases d.len(),
{
    if d.len() == 0 {
        lemma_pow0(0x1_0000_0000);
        assert(d.push(x).drop_first() =~= Seq::<u32>::empty());
        assert(digits_value(Seq::<u32>::empty()) == 0);
        assert(digits_value(d) == 0);
    } else {
        reveal(pow);
        assert(d.push(x).len() > 0);
        assert(d.push(x).drop_first() =~= d.drop_first().push(x));
        lemma_digits_push(d.drop_first(), x);
        let p: int = pow(0x1_0000_0000, d.drop_first().len());
        assert(pow(0x1_0000_0000, d.len()) == 0x1_0000_0000 * p);
        assert(digits_value(d.push(x)) == d[0] as nat + 0x1_0000_0000 * digits_value(d.push(x).drop_first()));
        assert(digits_value(d) == d[0] as nat + 0x1_0000_0000 * digits_value(d.drop_first()));
        assert(0x1_0000_0000 * (p * x) == (0x1_0000_0000 * p) * x) by (nonlinear_arith);
    }
}

/// Appending a word adds it with the weight of its position.
pub proof fn lemma_words_push(w: Seq<u64>, x: u64)
    ensures
        words_value(w.push(x)) == words_value(w) + pow(0x1_0000_0000_0000_0000, w.len()) * x,
    decreases w.len(),
{
    if w.len() == 0 {
        lemma_pow0(0x1_0000_0000_0000_0000);
        assert(w.push(x).drop_first() =~= Seq::<u64>::empty());
        assert(words_value(Seq::<u64>::empty()) == 0);
        assert(words_value(w) == 0);
    } else {
        reveal(pow);
        assert(w.push(x).len() > 0);
        assert(w.push(x).drop_first() =~= w.drop_first().push(x));
        lemma_words_push(w.drop_first(), x);
        let p: int = pow(0x1_0000_0000_0000_0000, w.drop_first().len());
        assert(pow(0x1_0000_0000_0000_0000, w.len()) == 0x1_0000_0000_0000_0000 * p);
        assert(words_value(w.push(x)) == w[0] as nat + 0x1_0000_0000_0000_0000 * words_value(w.push(x).drop_first()));
        assert(words_value(w) == w[0] as nat + 0x1_0000_0000_0000_0000 * words_value(w.drop_first()));
        assert(0x1_0000_0000_0000_0000 * (p * x) == (0x1_0000_0000_0000_0000 * p) * x) by (nonlinear_arith);
    }
}

/// Two digits make one word.
proof fn lemma_square_base(n: nat)
    ensures
        pow(0x1_0000_0000, 2 * n) == pow(0x1_0000_0000_0000_0000, n),
        pow(0x1_0000_0000, 2 * n + 1) == 0x1_0000_0000 * pow(0x1_0000_0000_0000_0000, n),
    decreases n,
{
    reveal(pow);
    if n > 0 {
        let m: nat = (n - 1) as nat;
        lemma_square_base(m);
        assert(pow(0x1_0000_0000, 2 * n) == 0x1_0000_0000 * pow(0x1_0000_0000, 2 * m + 1));
    }
}

/// Splits words into digits.
pub fn words_to_digits(w: &[u64]) -> (d: Vec<u32>)
    ensures
        digits_value(d@) == words_value(w@),
{
    let mut d: Vec<u32> = Vec::new();
    let mut i: usize = 0;
    while i < w.len()
        invariant
            i <= w@.len(),
            d@.len() == 2 * i,
            digits_value(d@) == words_value(w@.take(i as int)),
        decreases w@.len() - i,
    {
        let x: u64 = w[i];
        let lo: u32 = (x & 0xffff_ffff) as u32;
        let hi: u32 = (x >> 32) as u32;
        proof {
            assert(lo as u64 + 0x1_0000_0000 * hi as u64 == x) by (bit_vector)
                requires
                    lo == (x & 0xffff_ffff) as u32,
                    hi == (x >> 32) as u32,
            ;
            lemma_digits_push(d@, lo);
            lemma_digits_push(d@.push(lo), hi);
            lemma_square_base(i as nat);
            assert(w@.take(i + 1) =~= w@.take(i as int).push(x));
            lemma_words_push(w@.take(i as int), x);
            let p: int = pow(0x1_0000_0000_0000_0000, i as nat);
            assert(p * lo + (0x1_0000_0000 * p) * hi == p * x) by (nonlinear_arith)
                requires
                    lo + 0x1_0000_0000 * hi == x,
            ;
        }
        d.push(lo);
        d.push(hi);
        i += 1;
    }
    assert(w@.take(i as int) =~= w@);
    d
}

/// The digit at a position, zero beyond the last one.
fn digit(d: &[u32], i: usize) -> (r: u32)
    ensures
        i < d@.len() ==> r == d@[i as int],
        i >= d@.len() ==> r == 0,
{
    if i < d.len() {
        d[i]
    } else {
        0
    }
}

/// What is left of a sequence from a position on, which may lie beyond its end.
spec fn rest(d: Seq<u32>, i: nat) -> Seq<u32> {
    if i <= d.len() {
        d.skip(i as int)
    } else {
        Seq::empty()
    }
}

/// Taking one digit off what is left.
proof fn lemma_rest_step(d: Seq<u32>, i: nat)
    ensures
        digits_value(rest(d, i)) == (if i < d.len() {
            d[i as int] as nat
        } else {
            0
        }) + 0x1_0000_0000 * digits_value(rest(d, i + 1)),
{
    if i < d.len() {
        assert(rest(d, i).drop_first() =~= rest(d, i + 1));
    }
}

/// Reads the lowest `n` words of a number that is less than 2^(64 n).
pub fn digits_to_words(d: &[u32], n: usize) -> (w: Vec<u64>)
    requires
        digits_value(d@) < pow(0x1_0000_0000_0000_0000, n as nat),
        n < 0x1000,
    ensures
        w@.len() == n,
        words_value(w@) == digits_value(d@),
{
    let mut w: Vec<u64> = Vec::new();
    let mut i: usize = 0;
    proof {
        lemma_pow0(0x1_0000_0000_0000_0000);
        assert(rest(d@, 0) =~= d@);
    }
    while i < n
        invariant
            i <= n < 0x1000,
            w@.len() == i,
            digits_value(d@) == words_value(w@) + pow(0x1_0000_0000_0000_0000, i as nat) * digits_value(
                rest(d@, 2 * i as nat),
            ),
        decreases n - i,
    {
        let lo: u32 = digit(d, 2 * i);
        let hi: u32 = digit(d, 2 * i + 1);
        let x: u64 = lo as u64 | ((hi as u64) << 32);
        proof {
            assert(x == lo as u64 + 0x1_0000_0000 * hi as u64) by (bit_vector)
                requires
                    x == lo as u64 | ((hi as u64) << 32),
            ;
            lemma_rest_step(d@, 2 * i as nat);
            lemma_rest_step(d@, 2 * i as nat + 1);
            lemma_words_push(w@, x);
            reveal(pow);
            let p: int = pow(0x1_0000_0000_0000_0000, i as nat);
            let t: nat = digits_value(rest(d@, 2 * i as nat + 2));
            assert(p * (x + 0x1_0000_0000_0000_0000 * t) == p * x + (0x1_0000_0000_0000_0000 * p) * t)
                by (nonlinear_arith);
        }
        w.push(x);
        i += 1;
    }
    proof {
        let p: int = pow(0x1_0000_0000_0000_0000, n as nat);
        let t: nat = digits_value(rest(d@, 2 * n as nat));
        lemma_pow_positive(0x1_0000_0000_0000_0000, n as nat);
        assert(t == 0) by (nonlinear_arith)
            requires
                p * t < p,
                p >= 0,
                t >= 0,
        ;
        assert(p * t == 0) by (nonlinear_arith)
            requires
                t == 0,
        ;
    }
    w
}

/// Reads the lowest `n` digits of a number that is less than 2^(32 n).
pub fn digits_padded(d: &[u32], n: usize) -> (r: Vec<u32>)
    requires
        digits_value(d@) < pow(0x1_0000_0000, n as nat),
        n < 0x1000,
    ensures
        r@.len() == n,
        digits_value(r@) == digits_value(d@),
{
    let mut r: Vec<u32> = Vec::new();
    let mut i: usize = 0;
    proof {
        lemma_pow0(0x1_0000_0000);
        assert(rest(d@, 0) =~= d@);
    }
    while i < n
        invariant
            i <= n < 0x1000,
            r@.len() == i,
            digits_value(d@) == digits_value(r@) + pow(0x1_0000_0000, i as nat) * digits_value(rest(d@, i as nat)),
        decreases n - i,
    {
        let x: u32 = digit(d, i);
        proof {
            lemma_rest_step(d@, i as nat);
            lemma_digits_push(r@, x);
            reveal(pow);
            let p: int = pow(0x1_0000_0000, i as nat);
            let t: nat = digits_value(rest(d@, i as nat + 1));
            assert(p * (x + 0x1_0000_0000 * t) == p * x + (0x1_0000_0000 * p) * t) by (nonlinear_arith);
        }
        r.push(x);
        i += 1;
    }
    proof {
        let p: int = pow(0x1_0000_0000, n as nat);
        let t: nat = digits_value(rest(d@, n as nat));
        lemma_pow_positive(0x1_0000_0000, n as nat);
        assert(t == 0) by (nonlinear_arith)
            requires
                p * t < p,
                p >= 0,
                t >= 0,
        ;
        assert(p * t == 0) by (nonlinear_arith)
            requires
                t == 0,
        ;
    }
    r
}

/// Words of the same number are the same.
pub proof fn lemma_words_unique(v: Seq<u64>, w: Seq<u64>)
    requires
        v.len() == w.len(),
        words_value(v) == words_value(w),
    ensures
        v == w,
    decreases v.len(),
{
    if v.len() > 0 {
        assert(v[0] == w[0] && words_value(v.drop_first()) == words_value(w.drop_first()));
        lemma_words_unique(v.drop_first(), w.drop_first());
        assert forall|i: int| 0 <= i < v.len() implies v[i] == w[i] by {
            if i > 0 {
                assert(v[i] == v.drop_first()[i - 1]);
                assert(w[i] == w.drop_first()[i - 1]);
            }
        }
    }
    assert(v =~= w);
}

/// Digits of the same number are the same.
pub proof fn lemma_digits_unique(v: Seq<u32>, w: Seq<u32>)
    requires
        v.len() == w.len(),
        digits_value(v) == digits_value(w),
    ensures
        v == w,
    decreases v.len(),
{
    if v.len() > 0 {
        assert(v[0] == w[0] && digits_value(v.drop_first()) == digits_value(w.drop_first()));
        lemma_digits_unique(v.drop_first(), w.drop_first());
        assert forall|i: int| 0 <= i < v.len() implies v[i] == w[i] by {
            if i > 0 {
                assert(v[i] == v.drop_first()[i - 1]);
                assert(w[i] == w.drop_first()[i - 1]);
            }
        }
    }
    assert(v =~= w);
}

} // verus!
