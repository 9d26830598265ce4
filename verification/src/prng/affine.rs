//! Iterated affine maps x -> a * x + 1 on machine words.
use vstd::arithmetic::div_mod::*;
use vstd::arithmetic::mul::*;
use vstd::arithmetic::power::*;
use vstd::arithmetic::power2::*;
use vstd::prelude::*;

verus! {

/// The constant term of the `n`-fold composition of x -> a * x + 1, over the integers.
pub open spec fn translation(a: int, n: nat) -> int
    decreases n,
{
    if n == 0 {
        0
    } else {
        a * translation(a, (n - 1) as nat) + 1
    }
}

/// The constant term of a composition of two iterates.
proof fn lemma_translation_adds(a: int, m: nat, n: nat)
    ensures
        translation(a, m + n) == translation(a, m) * pow(a, n) + translation(a, n),
    decreases n,
{
    reveal(pow);
    if n > 0 {
        let k: nat = (n - 1) as nat;
        lemma_translation_adds(a, m, k);
        assert(translation(a, m + n) == a * translation(a, m + k) + 1);
        assert(a * (translation(a, m) * pow(a, k) + translation(a, k)) + 1 == translation(a, m) * (a * pow(a, k)) + (a
            * translation(a, k) + 1)) by (nonlinear_arith);
    }
}

/// The 32-bit word reached from `x` after `n` applications of the map.
pub open spec fn iterate_32(a: u32, x: u32, n: nat) -> u32
    decreases n,
{
    if n == 0 {
        x
    } else {
        iterate_32(a, x, (n - 1) as nat).wrapping_mul(a).wrapping_add(1)
    }
}

/// The closed form of [`iterate_32`].
proof fn lemma_iterate_32(a: u32, x: u32, n: nat)
    ensures
        iterate_32(a, x, n) == (pow(a as int, n) * x + translation(a as int, n)) % 0x1_0000_0000,
    decreases n,
{
    let m: int = 0x1_0000_0000;
    if n == 0 {
        lemma_pow0(a as int);
        lemma_small_mod(x as nat, m as nat);
    } else {
        let k: nat = (n - 1) as nat;
        lemma_iterate_32(a, x, k);
        let y: u32 = iterate_32(a, x, k);
        let big: int = pow(a as int, k) * x + translation(a as int, k);
        reveal(pow);
        assert(a * big + 1 == pow(a as int, n) * x + translation(a as int, n)) by (nonlinear_arith)
            requires
                big == pow(a as int, k) * x + translation(a as int, k),
                pow(a as int, n) == a * pow(a as int, k),
                translation(a as int, n) == a * translation(a as int, k) + 1,
        ;
        lemma_wrapped_32(y, a, 1, big, a as int, 1);
        lemma_mul_is_commutative(big, a as int);
        lemma_small_mod(a as nat, m as nat);
    }
}

/// A wrapped product plus a wrapped term is the residue of the exact value.
proof fn lemma_wrapped_32(x: u32, y: u32, z: u32, bx: int, by: int, bz: int)
    requires
        x == bx % 0x1_0000_0000,
        y == by % 0x1_0000_0000,
        z == bz % 0x1_0000_0000,
    ensures
        x.wrapping_mul(y).wrapping_add(z) == (bx * by + bz) % 0x1_0000_0000,
        x.wrapping_mul(y) == (bx * by) % 0x1_0000_0000,
{
    let m: int = 0x1_0000_0000;
    lemma_mul_mod_noop_general(bx, by, m);
    let p: u32 = x.wrapping_mul(y);
    assert(p.wrapping_add(z) == (p + z) % m);
    lemma_add_mod_noop(bx * by, bz, m);
}

/// Applies the map x -> a * x + 1 on 32-bit words `n` times, by squaring.
pub fn skip_32(a: u32, x: u32, n: u64) -> (r: u32)
    ensures
        r == iterate_32(a, x, n as nat),
{
    // (am, ac) is the composition gathered so far, (ai, ci) the current power of the map, and
    // composing (m1, c1) with (m2, c2) gives (m1 * m2, m2 * c1 + c2).
    let mut am: u32 = 1;
    let mut ac: u32 = 0;
    let mut ai: u32 = a;
    let mut ci: u32 = 1;
    let mut k: u64 = n;
    let ghost mut done: nat = 0;
    let ghost mut p: nat = 1;
    let ghost b: int = a as int;
    proof {
        lemma_pow0(b);
        lemma_pow1(b);
        assert(translation(b, 1) == b * translation(b, 0) + 1);
        lemma_small_mod(a as nat, 0x1_0000_0000);
    }
    while k > 0
        invariant
            b == a,
            n == done + k * p,
            am == pow(b, done) % 0x1_0000_0000,
            ac == translation(b, done) % 0x1_0000_0000,
            ai == pow(b, p) % 0x1_0000_0000,
            ci == translation(b, p) % 0x1_0000_0000,
        decreases k,
    {
        assert(k & 1 == k % 2 && k >> 1 == k / 2) by (bit_vector);
        let ghost odd: nat = (k % 2) as nat;
        let ghost half: nat = (k / 2) as nat;
        proof {
            assert(k * p == odd * p + half * (2 * p)) by (nonlinear_arith)
                requires
                    k == odd + 2 * half,
            ;
            lemma_mul_basics(p as int);
            lemma_pow_adds(b, done, p);
            lemma_pow_adds(b, p, p);
            lemma_translation_adds(b, done, p);
            lemma_translation_adds(b, p, p);
            lemma_wrapped_32(ac, ai, ci, translation(b, done), pow(b, p), translation(b, p));
            lemma_wrapped_32(am, ai, 0, pow(b, done), pow(b, p), 0);
            lemma_wrapped_32(ai, ai, 0, pow(b, p), pow(b, p), 0);
            let up: u32 = ai.wrapping_add(1);
            assert(up == (ai + 1) % 0x1_0000_0000);
            lemma_add_mod_noop(pow(b, p), 1, 0x1_0000_0000);
            lemma_wrapped_32(ci, up, 0, translation(b, p), pow(b, p) + 1, 0);
            lemma_mul_is_distributive_add(translation(b, p), pow(b, p), 1);
        }
        if k & 1 == 1 {
            ac = ac.wrapping_mul(ai).wrapping_add(ci);
            am = am.wrapping_mul(ai);
            proof {
                done = done + p;
            }
        }
        ci = ci.wrapping_mul(ai.wrapping_add(1));
        ai = ai.wrapping_mul(ai);
        k = k >> 1;
        proof {
            p = p + p;
        }
    }
    proof {
        lemma_iterate_32(a, x, n as nat);
        lemma_small_mod(x as nat, 0x1_0000_0000);
        lemma_wrapped_32(am, x, ac, pow(b, n as nat), x as int, translation(b, n as nat));
    }
    am.wrapping_mul(x).wrapping_add(ac)
}

/// The 64-bit word reached from `x` after `n` applications of the map.
pub open spec fn iterate_64(a: u64, x: u64, n: nat) -> u64
    decreases n,
{
    if n == 0 {
        x
    } else {
        iterate_64(a, x, (n - 1) as nat).wrapping_mul(a).wrapping_add(1)
    }
}

/// The closed form of [`iterate_64`].
proof fn lemma_iterate_64(a: u64, x: u64, n: nat)
    ensures
        iterate_64(a, x, n) == (pow(a as int, n) * x + translation(a as int, n)) % 0x1_0000_0000_0000_0000,
    decreases n,
{
    let m: int = 0x1_0000_0000_0000_0000;
    if n == 0 {
        lemma_pow0(a as int);
        lemma_small_mod(x as nat, m as nat);
    } else {
        let k: nat = (n - 1) as nat;
        lemma_iterate_64(a, x, k);
        let y: u64 = iterate_64(a, x, k);
        let big: int = pow(a as int, k) * x + translation(a as int, k);
        reveal(pow);
        assert(a * big + 1 == pow(a as int, n) * x + translation(a as int, n)) by (nonlinear_arith)
            requires
                big == pow(a as int, k) * x + translation(a as int, k),
                pow(a as int, n) == a * pow(a as int, k),
                translation(a as int, n) == a * translation(a as int, k) + 1,
        ;
        lemma_wrapped_64(y, a, 1, big, a as int, 1);
        lemma_mul_is_commutative(big, a as int);
        lemma_small_mod(a as nat, m as nat);
    }
}

/// A wrapped product plus a wrapped term is the residue of the exact value.
proof fn lemma_wrapped_64(x: u64, y: u64, z: u64, bx: int, by: int, bz: int)
    requires
        x == bx % 0x1_0000_0000_0000_0000,
        y == by % 0x1_0000_0000_0000_0000,
        z == bz % 0x1_0000_0000_0000_0000,
    ensures
        x.wrapping_mul(y).wrapping_add(z) == (bx * by + bz) % 0x1_0000_0000_0000_0000,
        x.wrapping_mul(y) == (bx * by) % 0x1_0000_0000_0000_0000,
{
    let m: int = 0x1_0000_0000_0000_0000;
    lemma_mul_mod_noop_general(bx, by, m);
    let p: u64 = x.wrapping_mul(y);
    assert(p.wrapping_add(z) == (p + z) % m);
    lemma_add_mod_noop(bx * by, bz, m);
}

/// Applies the map x -> a * x + 1 on 64-bit words `n` times, by squaring.
pub fn skip_64(a: u64, x: u64, n: u64) -> (r: u64)
    ensures
        r == iterate_64(a, x, n as nat),
{
    // (am, ac) is the composition gathered so far, (ai, ci) the current power of the map, and
    // composing (m1, c1) with (m2, c2) gives (m1 * m2, m2 * c1 + c2).
    let mut am: u64 = 1;
    let mut ac: u64 = 0;
    let mut ai: u64 = a;
    let mut ci: u64 = 1;
    let mut k: u64 = n;
    let ghost mut done: nat = 0;
    let ghost mut p: nat = 1;
    let ghost b: int = a as int;
    proof {
        lemma_pow0(b);
        lemma_pow1(b);
        assert(translation(b, 1) == b * translation(b, 0) + 1);
        lemma_small_mod(a as nat, 0x1_0000_0000_0000_0000);
    }
    while k > 0
        invariant
            b == a,
            n == done + k * p,
            am == pow(b, done) % 0x1_0000_0000_0000_0000,
            ac == translation(b, done) % 0x1_0000_0000_0000_0000,
            ai == pow(b, p) % 0x1_0000_0000_0000_0000,
            ci == translation(b, p) % 0x1_0000_0000_0000_0000,
        decreases k,
    {
        assert(k & 1 == k % 2 && k >> 1 == k / 2) by (bit_vector);
        let ghost odd: nat = (k % 2) as nat;
        let ghost half: nat = (k / 2) as nat;
        proof {
            assert(k * p == odd * p + half * (2 * p)) by (nonlinear_arith)
                requires
                    k == odd + 2 * half,
            ;
            lemma_mul_basics(p as int);
            lemma_pow_adds(b, done, p);
            lemma_pow_adds(b, p, p);
            lemma_translation_adds(b, done, p);
            lemma_translation_adds(b, p, p);
            lemma_wrapped_64(ac, ai, ci, translation(b, done), pow(b, p), translation(b, p));
            lemma_wrapped_64(am, ai, 0, pow(b, done), pow(b, p), 0);
            lemma_wrapped_64(ai, ai, 0, pow(b, p), pow(b, p), 0);
            let up: u64 = ai.wrapping_add(1);
            assert(up == (ai + 1) % 0x1_0000_0000_0000_0000);
            lemma_add_mod_noop(pow(b, p), 1, 0x1_0000_0000_0000_0000);
            lemma_wrapped_64(ci, up, 0, translation(b, p), pow(b, p) + 1, 0);
            lemma_mul_is_distributive_add(translation(b, p), pow(b, p), 1);
        }
        if k & 1 == 1 {
            ac = ac.wrapping_mul(ai).wrapping_add(ci);
            am = am.wrapping_mul(ai);
            proof {
                done = done + p;
            }
        }
        ci = ci.wrapping_mul(ai.wrapping_add(1));
        ai = ai.wrapping_mul(ai);
        k = k >> 1;
        proof {
            p = p + p;
        }
    }
    proof {
        lemma_iterate_64(a, x, n as nat);
        lemma_small_mod(x as nat, 0x1_0000_0000_0000_0000);
        lemma_wrapped_64(am, x, ac, pow(b, n as nat), x as int, translation(b, n as nat));
    }
    am.wrapping_mul(x).wrapping_add(ac)
}

/// A power is one more than a multiple of the translation.
proof fn lemma_power_translation(a: int, n: nat)
    ensures
        pow(a, n) == 1 + (a - 1) * translation(a, n),
    decreases n,
{
    reveal(pow);
    if n > 0 {
        let t: int = translation(a, (n - 1) as nat);
        lemma_power_translation(a, (n - 1) as nat);
        assert(a * (1 + (a - 1) * t) == 1 + (a - 1) * (a * t + 1)) by (nonlinear_arith);
    } else {
        lemma_mul_basics(a - 1);
    }
}

/// The powers of an odd number are odd.
proof fn lemma_power_odd(a: int, n: nat)
    requires
        a % 2 == 1,
    ensures
        pow(a, n) % 2 == 1,
    decreases n,
{
    reveal(pow);
    if n > 0 {
        lemma_power_odd(a, (n - 1) as nat);
        let p: int = pow(a, (n - 1) as nat);
        assert((a * p) % 2 == 1) by {
            lemma_mul_mod_noop_general(a, p, 2);
        }
    }
}

/// With an odd multiplier, the translation of 2^k steps is a multiple of 2^k.
proof fn lemma_translation_multiple(a: int, k: nat) -> (q: int)
    requires
        a % 2 == 1,
    ensures
        translation(a, pow2(k)) == pow2(k) * q,
    decreases k,
{
    if k == 0 {
        lemma2_to64();
        assert(translation(a, 1) == a * translation(a, 0) + 1);
        lemma_mul_basics(a);
        1
    } else {
        let j: nat = (k - 1) as nat;
        let h: nat = pow2(j);
        let q: int = lemma_translation_multiple(a, j);
        lemma_pow2_unfold(k);
        lemma_translation_adds(a, h, h);
        lemma_power_odd(a, h);
        let p: int = pow(a, h);
        let e: int = (p + 1) / 2;
        assert(p + 1 == 2 * e);
        let r: int = q * e;
        assert((h * q) * p + h * q == (2 * h) * r) by (nonlinear_arith)
            requires
                p + 1 == 2 * e,
                r == q * e,
        ;
        r
    }
}

/// With an odd multiplier, 2^64 applications of the map on 64-bit words come full circle.
pub proof fn lemma_cycle_64(a: u64, x: u64)
    requires
        a % 2 == 1,
    ensures
        iterate_64(a, x, 0x1_0000_0000_0000_0000) == x,
{
    let m: int = 0x1_0000_0000_0000_0000;
    lemma2_to64();
    let q: int = lemma_translation_multiple(a as int, 64);
    lemma_power_translation(a as int, m as nat);
    lemma_iterate_64(a, x, m as nat);
    let w: int = (a - 1) * q * x + q;
    assert((1 + (a - 1) * (m * q)) * x + m * q == m * w + x) by (nonlinear_arith)
        requires
            w == (a - 1) * q * x + q,
    ;
    lemma_mod_multiples_vanish(w, x as int, m);
    lemma_small_mod(x as nat, m as nat);
}

/// With an odd multiplier, 2^64 applications of the map on 32-bit words come full circle.
pub proof fn lemma_cycle_32(a: u32, x: u32)
    requires
        a % 2 == 1,
    ensures
        iterate_32(a, x, 0x1_0000_0000_0000_0000) == x,
{
    let m: int = 0x1_0000_0000;
    let n: int = 0x1_0000_0000_0000_0000;
    lemma2_to64();
    let q: int = lemma_translation_multiple(a as int, 64);
    lemma_power_translation(a as int, n as nat);
    lemma_iterate_32(a, x, n as nat);
    let w: int = m * ((a - 1) * q * x + q);
    assert((1 + (a - 1) * (n * q)) * x + n * q == m * w + x) by (nonlinear_arith)
        requires
            n == m * m,
            w == m * ((a - 1) * q * x + q),
    ;
    lemma_mod_multiples_vanish(w, x as int, m);
    lemma_small_mod(x as nat, m as nat);
}

/// The words that the map leads to: none of its applications leaves the word as it is, and one more of them
/// multiplies by `a` and adds one.
pub proof fn lemma_iterates(a: u32, x: u32, b: u64, y: u64, n: nat)
    ensures
        iterate_32(a, x, 0) == x,
        iterate_32(a, x, n + 1) as int == (a * iterate_32(a, x, n) + 1) % 0x1_0000_0000,
        iterate_64(b, y, 0) == y,
        iterate_64(b, y, n + 1) as int == (b * iterate_64(b, y, n) + 1) % 0x1_0000_0000_0000_0000,
{
    let u: u32 = iterate_32(a, x, n);
    let p: u32 = u.wrapping_mul(a);
    assert(p.wrapping_add(1) == (p + 1) % 0x1_0000_0000);
    lemma_add_mod_noop(u * a, 1, 0x1_0000_0000);
    lemma_mul_is_commutative(u as int, a as int);
    let v: u64 = iterate_64(b, y, n);
    let q: u64 = v.wrapping_mul(b);
    assert(q.wrapping_add(1) == (q + 1) % 0x1_0000_0000_0000_0000);
    lemma_add_mod_noop(v * b, 1, 0x1_0000_0000_0000_0000);
    lemma_mul_is_commutative(v as int, b as int);
}

} // verus!
