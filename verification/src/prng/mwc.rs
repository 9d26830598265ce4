//! The arithmetic of multiply-with-carry generators.
//!
//! A generator with multiplier a, base b and lag k keeps k digits and a carry, which together are
//! the digits of a number s less than m = a b^k - 1. A draw replaces s by s b^-1 modulo m, and the
//! inverse of b modulo m is a b^(k-1). Skipping n draws is thus multiplying by a power.
use vstd::arithmetic::div_mod::*;
use vstd::arithmetic::mul::*;
use vstd::arithmetic::power::*;
use vstd::prelude::*;

use crate::prng::bignum;
use crate::prng::bignum::{digits_padded, digits_to_words, scale_modulo, words_to_digits};

verus! {

/// Replacing s by s' with b s' = s + x m, where x is a digit, multiplies by the inverse of b
/// modulo m.
proof fn lemma_divide(s: int, t: int, x: int, b: int, m: int, mu: int)
    requires
        b * t == s + x * m,
        0 <= x < b,
        0 <= s < m,
        mu * b == m + 1,
        t >= 0,
    ensures
        t < m,
        t == (mu * s) % m,
{
    assert(t < m) by (nonlinear_arith)
        requires
            b * t == s + x * m,
            0 <= x < b,
            0 <= s < m,
    ;
    assert(mu * s == (t - mu * x) * m + t) by (nonlinear_arith)
        requires
            b * t == s + x * m,
            mu * b == m + 1,
    ;
    lemma_fundamental_div_mod_converse(mu * s, m, t - mu * x, t);
}

/// One more factor, modulo m.
pub proof fn lemma_power_step(s: int, t: int, mu: int, m: int, n: nat)
    requires
        m > 0,
        t == (s * pow(mu, n)) % m,
    ensures
        (mu * t) % m == (s * pow(mu, n + 1)) % m,
{
    reveal(pow);
    lemma_mul_mod_noop_right(mu, s * pow(mu, n), m);
    assert(mu * (s * pow(mu, n)) == s * (mu * pow(mu, n))) by (nonlinear_arith);
}

/// The modulus of the generator with base 2^64.
pub open spec fn modulus_64(a: u64, k: nat) -> int {
    a * pow(0x1_0000_0000_0000_0000, k) - 1
}

/// The inverse of the base 2^64.
pub open spec fn inverse_64(a: u64, k: nat) -> int {
    a * pow(0x1_0000_0000_0000_0000, (k - 1) as nat)
}

/// The numbers of digits that fit in `w`.
proof fn lemma_bound_64(w: Seq<u64>)
    ensures
        bignum::words_value(w) < pow(0x1_0000_0000_0000_0000, w.len()),
    decreases w.len(),
{
    if w.len() == 0 {
        lemma_pow0(0x1_0000_0000_0000_0000);
    } else {
        lemma_bound_64(w.drop_last());
        assert(w =~= w.drop_last().push(w.last()));
        bignum::lemma_words_push(w.drop_last(), w.last());
        reveal(pow);
        let p: int = pow(0x1_0000_0000_0000_0000, w.drop_last().len());
        assert(p * w.last() <= 0x1_0000_0000_0000_0000 * p - p) by (nonlinear_arith)
            requires
                w.last() <= 0x1_0000_0000_0000_0000 - 1,
                p >= 0,
        ;
    }
}

/// A state with carry one is less than the modulus.
pub proof fn lemma_unit_carry_64(w: Seq<u64>, a: u64)
    requires
        w.len() >= 1,
        w.last() == 1,
        a > 2,
    ensures
        bignum::words_value(w) < modulus_64(a, (w.len() - 1) as nat),
{
    lemma_bound_64(w.drop_last());
    assert(w =~= w.drop_last().push(w.last()));
    bignum::lemma_words_push(w.drop_last(), w.last());
    let p: int = pow(0x1_0000_0000_0000_0000, (w.len() - 1) as nat);
    lemma_pow_positive(0x1_0000_0000_0000_0000, (w.len() - 1) as nat);
    assert(a * p >= 3 * p) by (nonlinear_arith)
        requires
            a >= 3,
            p > 0,
    ;
}

/// A draw multiplies the number that the state stands for by the inverse of the base.
pub proof fn lemma_draw_64(w: Seq<u64>, lo: u64, hi: u64, a: u64)
    requires
        w.len() >= 2,
        lo + 0x1_0000_0000_0000_0000 * hi == a * w[0] + w.last(),
        bignum::words_value(w) < modulus_64(a, (w.len() - 1) as nat),
    ensures
        bignum::words_value(w.drop_first().drop_last().push(lo).push(hi)) < modulus_64(a, (w.len() - 1) as nat),
        bignum::words_value(w.drop_first().drop_last().push(lo).push(hi)) == (inverse_64(a, (w.len() - 1) as nat)
            * bignum::words_value(w)) % modulus_64(a, (w.len() - 1) as nat),
{
    let k: nat = (w.len() - 1) as nat;
    let mid: Seq<u64> = w.drop_first().drop_last();
    let c: u64 = w.last();
    let x: u64 = w[0];
    assert(w.drop_first() =~= mid.push(c));
    bignum::lemma_words_push(mid, c);
    bignum::lemma_words_push(mid, lo);
    bignum::lemma_words_push(mid.push(lo), hi);
    reveal(pow);
    let q: int = pow(0x1_0000_0000_0000_0000, mid.len());
    let p: int = pow(0x1_0000_0000_0000_0000, k);
    assert(p == 0x1_0000_0000_0000_0000 * q);
    let v: int = bignum::words_value(mid) as int;
    let s: int = bignum::words_value(w) as int;
    let t: int = bignum::words_value(mid.push(lo).push(hi)) as int;
    assert(s == x + 0x1_0000_0000_0000_0000 * (v + q * c));
    assert(t == v + q * lo + p * hi);
    assert(0x1_0000_0000_0000_0000 * t == s + x * (a * p - 1)) by (nonlinear_arith)
        requires
            p == 0x1_0000_0000_0000_0000 * q,
            s == x + 0x1_0000_0000_0000_0000 * (v + q * c),
            t == v + q * lo + p * hi,
            lo + 0x1_0000_0000_0000_0000 * hi == a * x + c,
    ;
    assert((a * q) * 0x1_0000_0000_0000_0000 == a * p) by (nonlinear_arith)
        requires
            p == 0x1_0000_0000_0000_0000 * q,
    ;
    lemma_divide(s, t, x as int, 0x1_0000_0000_0000_0000, a * p - 1, a * q);
}

/// The two digits of a product and a sum.
pub fn multiply_add_64(a: u64, x: u64, c: u64) -> (r: (u64, u64))
    ensures
        r.0 + 0x1_0000_0000_0000_0000 * r.1 == a * x + c,
        r.0 == (a * x + c) % 0x1_0000_0000_0000_0000,
        r.1 == (a * x + c) / 0x1_0000_0000_0000_0000,
{
    assert(a * x + c <= u128::MAX) by (nonlinear_arith)
        requires
            a <= 0xffff_ffff_ffff_ffff,
            x <= 0xffff_ffff_ffff_ffff,
            c <= 0xffff_ffff_ffff_ffff,
    ;
    let t: u128 = (a as u128) * (x as u128) + c as u128;
    assert(t as u64 == t % 0x1_0000_0000_0000_0000 && (t >> 64) as u64 == t / 0x1_0000_0000_0000_0000) by (bit_vector);
    (t as u64, (t >> 64) as u64)
}

/// Skips `n` draws.
pub fn jump_64(w: &[u64], a: u64, n: u64) -> (r: Vec<u64>)
    requires
        2 <= w@.len() < 0x1000,
        a > 2,
        bignum::words_value(w@) < modulus_64(a, (w@.len() - 1) as nat),
    ensures
        r@.len() == w@.len(),
        bignum::words_value(r@) == (bignum::words_value(w@) * pow(inverse_64(a, (w@.len() - 1) as nat), n as nat))
            % modulus_64(a, (w@.len() - 1) as nat),
{
    let k: usize = w.len() - 1;
    let mut modulus: Vec<u64> = Vec::new();
    let mut inverse: Vec<u64> = Vec::new();
    proof {
        lemma_pow0(0x1_0000_0000_0000_0000);
    }
    let mut i: usize = 0;
    while i < k
        invariant
            i <= k < 0x1000,
            modulus@.len() == i,
            bignum::words_value(modulus@) == pow(0x1_0000_0000_0000_0000, i as nat) - 1,
            i < k ==> inverse@.len() == i,
            i < k ==> bignum::words_value(inverse@) == 0,
            i == k ==> bignum::words_value(inverse@) == a * pow(0x1_0000_0000_0000_0000, (k - 1) as nat),
        decreases k - i,
    {
        proof {
            bignum::lemma_words_push(modulus@, 0xffff_ffff_ffff_ffff);
            bignum::lemma_words_push(inverse@, 0);
            bignum::lemma_words_push(inverse@, a);
            reveal(pow);
            let p: int = pow(0x1_0000_0000_0000_0000, i as nat);
            assert(p - 1 + p * 0xffff_ffff_ffff_ffff == 0x1_0000_0000_0000_0000 * p - 1) by (nonlinear_arith);
            assert(p * 0 == 0 && p * a == a * p) by (nonlinear_arith);
        }
        modulus.push(0xffff_ffff_ffff_ffff);
        inverse.push(if i + 1 < k {
            0
        } else {
            a
        });
        i += 1;
    }
    proof {
        bignum::lemma_words_push(modulus@, (a - 1) as u64);
        let p: int = pow(0x1_0000_0000_0000_0000, k as nat);
        lemma_pow_positive(0x1_0000_0000_0000_0000, k as nat);
        assert(p - 1 + p * (a - 1) == a * p - 1) by (nonlinear_arith);
        reveal(pow);
        assert(a * p - 1 < 0x1_0000_0000_0000_0000 * p && a * p - 1 > 1) by (nonlinear_arith)
            requires
                2 < a < 0x1_0000_0000_0000_0000,
                p > 0,
        ;
        lemma_mod_bound(
            bignum::words_value(w@) * pow(inverse_64(a, k as nat), n as nat),
            modulus_64(a, k as nat),
        );
    }
    modulus.push(a - 1);
    let scaled: Vec<u32> = scale_modulo(
        words_to_digits(w).as_slice(),
        words_to_digits(inverse.as_slice()).as_slice(),
        n,
        words_to_digits(modulus.as_slice()).as_slice(),
    );
    digits_to_words(scaled.as_slice(), k + 1)
}

/// The modulus of the generator with base 2^32.
pub open spec fn modulus_32(a: u32, k: nat) -> int {
    a * pow(0x1_0000_0000, k) - 1
}

/// The inverse of the base 2^32.
pub open spec fn inverse_32(a: u32, k: nat) -> int {
    a * pow(0x1_0000_0000, (k - 1) as nat)
}

/// The numbers of digits that fit in `w`.
proof fn lemma_bound_32(w: Seq<u32>)
    ensures
        bignum::digits_value(w) < pow(0x1_0000_0000, w.len()),
    decreases w.len(),
{
    if w.len() == 0 {
        lemma_pow0(0x1_0000_0000);
    } else {
        lemma_bound_32(w.drop_last());
        assert(w =~= w.drop_last().push(w.last()));
        bignum::lemma_digits_push(w.drop_last(), w.last());
        reveal(pow);
        let p: int = pow(0x1_0000_0000, w.drop_last().len());
        assert(p * w.last() <= 0x1_0000_0000 * p - p) by (nonlinear_arith)
            requires
                w.last() <= 0x1_0000_0000 - 1,
                p >= 0,
        ;
    }
}

/// A state with carry one is less than the modulus.
pub proof fn lemma_unit_carry_32(w: Seq<u32>, a: u32)
    requires
        w.len() >= 1,
        w.last() == 1,
        a > 2,
    ensures
        bignum::digits_value(w) < modulus_32(a, (w.len() - 1) as nat),
{
    lemma_bound_32(w.drop_last());
    assert(w =~= w.drop_last().push(w.last()));
    bignum::lemma_digits_push(w.drop_last(), w.last());
    let p: int = pow(0x1_0000_0000, (w.len() - 1) as nat);
    lemma_pow_positive(0x1_0000_0000, (w.len() - 1) as nat);
    assert(a * p >= 3 * p) by (nonlinear_arith)
        requires
            a >= 3,
            p > 0,
    ;
}

/// A draw multiplies the number that the state stands for by the inverse of the base.
pub proof fn lemma_draw_32(w: Seq<u32>, lo: u32, hi: u32, a: u32)
    requires
        w.len() >= 2,
        lo + 0x1_0000_0000 * hi == a * w[0] + w.last(),
        bignum::digits_value(w) < modulus_32(a, (w.len() - 1) as nat),
    ensures
        bignum::digits_value(w.drop_first().drop_last().push(lo).push(hi)) < modulus_32(a, (w.len() - 1) as nat),
        bignum::digits_value(w.drop_first().drop_last().push(lo).push(hi)) == (inverse_32(a, (w.len() - 1) as nat)
            * bignum::digits_value(w)) % modulus_32(a, (w.len() - 1) as nat),
{
    let k: nat = (w.len() - 1) as nat;
    let mid: Seq<u32> = w.drop_first().drop_last();
    let c: u32 = w.last();
    let x: u32 = w[0];
    assert(w.drop_first() =~= mid.push(c));
    bignum::lemma_digits_push(mid, c);
    bignum::lemma_digits_push(mid, lo);
    bignum::lemma_digits_push(mid.push(lo), hi);
    reveal(pow);
    let q: int = pow(0x1_0000_0000, mid.len());
    let p: int = pow(0x1_0000_0000, k);
    assert(p == 0x1_0000_0000 * q);
    let v: int = bignum::digits_value(mid) as int;
    let s: int = bignum::digits_value(w) as int;
    let t: int = bignum::digits_value(mid.push(lo).push(hi)) as int;
    assert(s == x + 0x1_0000_0000 * (v + q * c));
    assert(t == v + q * lo + p * hi);
    assert(0x1_0000_0000 * t == s + x * (a * p - 1)) by (nonlinear_arith)
        requires
            p == 0x1_0000_0000 * q,
            s == x + 0x1_0000_0000 * (v + q * c),
            t == v + q * lo + p * hi,
            lo + 0x1_0000_0000 * hi == a * x + c,
    ;
    assert((a * q) * 0x1_0000_0000 == a * p) by (nonlinear_arith)
        requires
            p == 0x1_0000_0000 * q,
    ;
    lemma_divide(s, t, x as int, 0x1_0000_0000, a * p - 1, a * q);
}

/// The two digits of a product and a sum.
pub fn multiply_add_32(a: u32, x: u32, c: u32) -> (r: (u32, u32))
    ensures
        r.0 + 0x1_0000_0000 * r.1 == a * x + c,
        r.0 == (a * x + c) % 0x1_0000_0000,
        r.1 == (a * x + c) / 0x1_0000_0000,
{
    assert(a * x + c <= u64::MAX) by (nonlinear_arith)
        requires
            a <= 0xffff_ffff,
            x <= 0xffff_ffff,
            c <= 0xffff_ffff,
    ;
    let t: u64 = (a as u64) * (x as u64) + c as u64;
    assert(t as u32 == t % 0x1_0000_0000 && (t >> 32) as u32 == t / 0x1_0000_0000) by (bit_vector);
    (t as u32, (t >> 32) as u32)
}

/// Skips `n` draws.
pub fn jump_32(w: &[u32], a: u32, n: u64) -> (r: Vec<u32>)
    requires
        2 <= w@.len() < 0x1000,
        a > 2,
        bignum::digits_value(w@) < modulus_32(a, (w@.len() - 1) as nat),
    ensures
        r@.len() == w@.len(),
        bignum::digits_value(r@) == (bignum::digits_value(w@) * pow(inverse_32(a, (w@.len() - 1) as nat), n as nat))
            % modulus_32(a, (w@.len() - 1) as nat),
{
    let k: usize = w.len() - 1;
    let mut modulus: Vec<u32> = Vec::new();
    let mut inverse: Vec<u32> = Vec::new();
    proof {
        lemma_pow0(0x1_0000_0000);
    }
    let mut i: usize = 0;
    while i < k
        invariant
            i <= k < 0x1000,
            modulus@.len() == i,
            bignum::digits_value(modulus@) == pow(0x1_0000_0000, i as nat) - 1,
            i < k ==> inverse@.len() == i,
            i < k ==> bignum::digits_value(inverse@) == 0,
            i == k ==> bignum::digits_value(inverse@) == a * pow(0x1_0000_0000, (k - 1) as nat),
        decreases k - i,
    {
        proof {
            bignum::lemma_digits_push(modulus@, 0xffff_ffff);
            bignum::lemma_digits_push(inverse@, 0);
            bignum::lemma_digits_push(inverse@, a);
            reveal(pow);
            let p: int = pow(0x1_0000_0000, i as nat);
            assert(p - 1 + p * 0xffff_ffff == 0x1_0000_0000 * p - 1) by (nonlinear_arith);
            assert(p * 0 == 0 && p * a == a * p) by (nonlinear_arith);
        }
        modulus.push(0xffff_ffff);
        inverse.push(if i + 1 < k {
            0
        } else {
            a
        });
        i += 1;
    }
    proof {
        bignum::lemma_digits_push(modulus@, (a - 1) as u32);
        let p: int = pow(0x1_0000_0000, k as nat);
        lemma_pow_positive(0x1_0000_0000, k as nat);
        assert(p - 1 + p * (a - 1) == a * p - 1) by (nonlinear_arith);
        reveal(pow);
        assert(a * p - 1 < 0x1_0000_0000 * p && a * p - 1 > 1) by (nonlinear_arith)
            requires
                2 < a < 0x1_0000_0000,
                p > 0,
        ;
        lemma_mod_bound(
            bignum::digits_value(w@) * pow(inverse_32(a, k as nat), n as nat),
            modulus_32(a, k as nat),
        );
    }
    modulus.push(a - 1);
    let scaled: Vec<u32> = scale_modulo(w, inverse.as_slice(), n, modulus.as_slice());
    digits_padded(scaled.as_slice(), k + 1)
}

/// The inverse of the base, times the base, leaves one modulo the modulus.
pub proof fn lemma_inverses(a: u64, b: u32, k: nat)
    requires
        k > 0,
    ensures
        inverse_64(a, k) * 0x1_0000_0000_0000_0000 == modulus_64(a, k) + 1,
        inverse_32(b, k) * 0x1_0000_0000 == modulus_32(b, k) + 1,
        modulus_64(a, k) + 1 == a * pow(0x1_0000_0000_0000_0000, k),
        modulus_32(b, k) + 1 == b * pow(0x1_0000_0000, k),
{
    reveal(pow);
    let p: int = pow(0x1_0000_0000_0000_0000, (k - 1) as nat);
    let q: int = pow(0x1_0000_0000, (k - 1) as nat);
    assert((a * p) * 0x1_0000_0000_0000_0000 == a * (0x1_0000_0000_0000_0000 * p)) by (nonlinear_arith);
    assert((b * q) * 0x1_0000_0000 == b * (0x1_0000_0000 * q)) by (nonlinear_arith);
}

} // verus!
