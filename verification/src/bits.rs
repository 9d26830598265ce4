//! Facts that tie shifts, masks and exclusive-ors of machine words to arithmetic on powers of two.
use vstd::arithmetic::div_mod::*;
use vstd::arithmetic::mul::*;
use vstd::arithmetic::power2::*;
use vstd::bits::*;
use vstd::prelude::*;

verus! {

/// The moduli of the three word sizes.
pub proof fn lemma_word_moduli()
    ensures
        pow2(32) == 0x1_0000_0000,
        pow2(64) == 0x1_0000_0000_0000_0000,
        pow2(128) == 0x1_0000_0000_0000_0000_0000_0000_0000_0000int,
{
    lemma2_to64();
    lemma_pow2_adds(32, 32);
    lemma_pow2_adds(64, 64);
}

/// A left shift multiplies by a power of two, discarding what leaves the word.
pub proof fn lemma_u32_shl(x: u32, w: u32)
    requires
        w < 32,
    ensures
        (x << w) as nat == (x as nat * pow2(w as nat)) % pow2(32),
    decreases w,
{
    lemma_word_moduli();
    if w == 0 {
        assert(x << 0u32 == x) by (bit_vector);
        lemma2_to64();
        lemma_small_mod(x as nat, pow2(32));
    } else {
        let v: u32 = (w - 1) as u32;
        let y: u32 = x << v;
        lemma_u32_shl(x, v);
        assert((x << w) == ((x << v) << 1u32) && (y << 1u32) == (y * 2) % 0x1_0000_0000) by (bit_vector)
            requires
                0 < w < 32,
                v == w - 1,
        ;
        lemma_pow2_unfold(w as nat);
        lemma_mul_is_associative(x as int, pow2(v as nat) as int, 2);
        lemma_mul_mod_noop_left(x * pow2(v as nat), 2, pow2(32) as int);
    }
}

/// Shifting in `w` bits and XORing a `w`-bit value appends that value.
pub proof fn lemma_u32_append(x: u32, e: u32, w: u32)
    requires
        w < 32,
        (e as nat) < pow2(w as nat),
    ensures
        ((x << w) ^ e) as nat == (x as nat * pow2(w as nat) + e as nat) % pow2(32),
{
    lemma_word_moduli();
    let y: u32 = x << w;
    lemma_u32_shl(x, w);
    lemma_u32_one_shl(w);
    assert(((x << w) ^ e) == (x << w) + e) by (bit_vector)
        requires
            w < 32,
            e < (1u32 << w),
    ;
    lemma_add_mod_noop(x * pow2(w as nat), e as int, pow2(32) as int);
    lemma_small_mod(e as nat, pow2(32));
    lemma_small_mod((y + e) as nat, pow2(32));
}

/// A one shifted left is a power of two.
pub proof fn lemma_u32_one_shl(w: u32)
    requires
        w < 32,
    ensures
        (1u32 << w) as nat == pow2(w as nat),
        pow2(w as nat) < pow2(32),
{
    lemma_u32_shl(1, w);
    lemma_pow2_strictly_increases(w as nat, 32);
    lemma_small_mod(pow2(w as nat), pow2(32));
}

/// Masking the low `b` bits takes the remainder modulo a power of two.
pub proof fn lemma_u32_mask(x: u32, b: u32)
    requires
        b < 32,
    ensures
        (x & (((1u32 << b) - 1) as u32)) as nat == x as nat % pow2(b as nat),
{
    lemma_u32_one_shl(b);
    lemma_u32_shr_is_div(x, b);
    lemma_pow2_pos(b as nat);
    let m: u32 = ((1u32 << b) - 1) as u32;
    let q: u32 = x >> b;
    let r: u32 = x & m;
    let one: u32 = 1u32 << b;
    assert(q << b <= x && r == x - (q << b) && r < one) by (bit_vector)
        requires
            b < 32,
            one == 1u32 << b,
            one >= 1,
            m == one - 1,
            q == x >> b,
            r == x & m,
    ;
    lemma_u32_shl(q, b);
    lemma_fundamental_div_mod(x as int, pow2(b as nat) as int);
    lemma_mul_is_commutative(q as int, pow2(b as nat) as int);
    lemma_word_moduli();
    lemma_small_mod((q * pow2(b as nat)) as nat, pow2(32));
}

/// A left shift multiplies by a power of two, discarding what leaves the word.
pub proof fn lemma_u64_shl(x: u64, w: u64)
    requires
        w < 64,
    ensures
        (x << w) as nat == (x as nat * pow2(w as nat)) % pow2(64),
    decreases w,
{
    lemma_word_moduli();
    if w == 0 {
        assert(x << 0u64 == x) by (bit_vector);
        lemma2_to64();
        lemma_small_mod(x as nat, pow2(64));
    } else {
        let v: u64 = (w - 1) as u64;
        let y: u64 = x << v;
        lemma_u64_shl(x, v);
        assert((x << w) == ((x << v) << 1u64) && (y << 1u64) == (y * 2) % 0x1_0000_0000_0000_0000) by (bit_vector)
            requires
                0 < w < 64,
                v == w - 1,
        ;
        lemma_pow2_unfold(w as nat);
        lemma_mul_is_associative(x as int, pow2(v as nat) as int, 2);
        lemma_mul_mod_noop_left(x * pow2(v as nat), 2, pow2(64) as int);
    }
}

/// Shifting in `w` bits and XORing a `w`-bit value appends that value.
pub proof fn lemma_u64_append(x: u64, e: u64, w: u64)
    requires
        w < 64,
        (e as nat) < pow2(w as nat),
    ensures
        ((x << w) ^ e) as nat == (x as nat * pow2(w as nat) + e as nat) % pow2(64),
{
    lemma_word_moduli();
    let y: u64 = x << w;
    lemma_u64_shl(x, w);
    lemma_u64_one_shl(w);
    assert(((x << w) ^ e) == (x << w) + e) by (bit_vector)
        requires
            w < 64,
            e < (1u64 << w),
    ;
    lemma_add_mod_noop(x * pow2(w as nat), e as int, pow2(64) as int);
    lemma_small_mod(e as nat, pow2(64));
    lemma_small_mod((y + e) as nat, pow2(64));
}

/// A one shifted left is a power of two.
pub proof fn lemma_u64_one_shl(w: u64)
    requires
        w < 64,
    ensures
        (1u64 << w) as nat == pow2(w as nat),
        pow2(w as nat) < pow2(64),
{
    lemma_u64_shl(1, w);
    lemma_pow2_strictly_increases(w as nat, 64);
    lemma_small_mod(pow2(w as nat), pow2(64));
}

/// Masking the low `b` bits takes the remainder modulo a power of two.
pub proof fn lemma_u64_mask(x: u64, b: u64)
    requires
        b < 64,
    ensures
        (x & (((1u64 << b) - 1) as u64)) as nat == x as nat % pow2(b as nat),
{
    lemma_u64_one_shl(b);
    lemma_u64_shr_is_div(x, b);
    lemma_pow2_pos(b as nat);
    let m: u64 = ((1u64 << b) - 1) as u64;
    let q: u64 = x >> b;
    let r: u64 = x & m;
    let one: u64 = 1u64 << b;
    assert(q << b <= x && r == x - (q << b) && r < one) by (bit_vector)
        requires
            b < 64,
            one == 1u64 << b,
            one >= 1,
            m == one - 1,
            q == x >> b,
            r == x & m,
    ;
    lemma_u64_shl(q, b);
    lemma_fundamental_div_mod(x as int, pow2(b as nat) as int);
    lemma_mul_is_commutative(q as int, pow2(b as nat) as int);
    lemma_word_moduli();
    lemma_small_mod((q * pow2(b as nat)) as nat, pow2(64));
}

/// A left shift multiplies by a power of two, discarding what leaves the word.
pub proof fn lemma_u128_shl(x: u128, w: u128)
    requires
        w < 128,
    ensures
        (x << w) as nat == (x as nat * pow2(w as nat)) % pow2(128),
    decreases w,
{
    lemma_word_moduli();
    if w == 0 {
        assert(x << 0u128 == x) by (bit_vector);
        lemma2_to64();
        lemma_small_mod(x as nat, pow2(128));
    } else {
        let v: u128 = (w - 1) as u128;
        let y: u128 = x << v;
        lemma_u128_shl(x, v);
        assert((x << w) == ((x << v) << 1u128) && (y << 1u128) == (y * 2) % 0x1_0000_0000_0000_0000_0000_0000_0000_0000int) by (bit_vector)
            requires
                0 < w < 128,
                v == w - 1,
        ;
        lemma_pow2_unfold(w as nat);
        lemma_mul_is_associative(x as int, pow2(v as nat) as int, 2);
        lemma_mul_mod_noop_left(x * pow2(v as nat), 2, pow2(128) as int);
    }
}

/// Shifting in `w` bits and XORing a `w`-bit value appends that value.
pub proof fn lemma_u128_append(x: u128, e: u128, w: u128)
    requires
        w < 128,
        (e as nat) < pow2(w as nat),
    ensures
        ((x << w) ^ e) as nat == (x as nat * pow2(w as nat) + e as nat) % pow2(128),
{
    lemma_word_moduli();
    let y: u128 = x << w;
    lemma_u128_shl(x, w);
    lemma_u128_one_shl(w);
    assert(((x << w) ^ e) == (x << w) + e) by (bit_vector)
        requires
            w < 128,
            e < (1u128 << w),
    ;
    lemma_add_mod_noop(x * pow2(w as nat), e as int, pow2(128) as int);
    lemma_small_mod(e as nat, pow2(128));
    lemma_small_mod((y + e) as nat, pow2(128));
}

/// A one shifted left is a power of two.
pub proof fn lemma_u128_one_shl(w: u128)
    requires
        w < 128,
    ensures
        (1u128 << w) as nat == pow2(w as nat),
        pow2(w as nat) < pow2(128),
{
    lemma_u128_shl(1, w);
    lemma_pow2_strictly_increases(w as nat, 128);
    lemma_small_mod(pow2(w as nat), pow2(128));
}

/// Masking the low `b` bits takes the remainder modulo a power of two.
pub proof fn lemma_u128_mask(x: u128, b: u128)
    requires
        b < 128,
    ensures
        (x & (((1u128 << b) - 1) as u128)) as nat == x as nat % pow2(b as nat),
{
    lemma_u128_one_shl(b);
    lemma_u128_shr_is_div(x, b);
    lemma_pow2_pos(b as nat);
    let m: u128 = ((1u128 << b) - 1) as u128;
    let q: u128 = x >> b;
    let r: u128 = x & m;
    let one: u128 = 1u128 << b;
    let all: u128 = 0xffff_ffff_ffff_ffff_ffff_ffff_ffff_ffffu128;
    assert(m == !(all << b)) by (bit_vector)
        requires
            b < 128,
            one == 1u128 << b,
            one >= 1,
            m == one - 1,
            all == 0xffff_ffff_ffff_ffff_ffff_ffff_ffff_ffffu128,
    ;
    let h: u128 = q << b;
    assert(h | r == x && h & r == 0) by (bit_vector)
        requires
            b < 128,
            m == !(all << b),
            all == 0xffff_ffff_ffff_ffff_ffff_ffff_ffff_ffffu128,
            q == x >> b,
            r == x & m,
            h == q << b,
    ;
    assert(h | r == h + r) by (bit_vector)
        requires
            h & r == 0,
    ;
    assert(r <= m) by (bit_vector)
        requires
            r == x & m,
    ;
    lemma_u128_shl(q, b);
    lemma_fundamental_div_mod(x as int, pow2(b as nat) as int);
    lemma_mul_is_commutative(q as int, pow2(b as nat) as int);
    lemma_word_moduli();
    lemma_small_mod((q * pow2(b as nat)) as nat, pow2(128));
}

/// Bit `i` of a remainder modulo 2^n, for `i` less than `n`, is bit `i` of the number.
pub proof fn lemma_bit_of_remainder(x: nat, n: nat, i: nat)
    requires
        i < n,
    ensures
        ((x % pow2(n)) / pow2(i)) % 2 == (x / pow2(i)) % 2,
{
    lemma_pow2_pos(i);
    lemma_pow2_pos((n - i) as nat);
    lemma_pow2_pos((n - i - 1) as nat);
    lemma_pow2_adds(i, (n - i) as nat);
    lemma_pow2_adds(1, (n - i - 1) as nat);
    lemma2_to64();
    let (y, z): (int, int) = (pow2(i) as int, pow2((n - i) as nat) as int);
    let q: int = x as int / y;
    lemma_mod_breakdown(x as int, y, z);
    lemma_mod_bound(x as int, y);
    lemma_mod_bound(q, z);
    lemma_fundamental_div_mod_converse(x as int % (y * z), y, q % z, x as int % y);
    lemma_mod_mod(q, 2, pow2((n - i - 1) as nat) as int);
}

/// Bit `i` of a quotient by 2^c is bit `c + i` of the number.
pub proof fn lemma_bit_of_quotient(x: nat, c: nat, i: nat)
    ensures
        ((x / pow2(c)) / pow2(i)) % 2 == (x / pow2(c + i)) % 2,
{
    lemma_pow2_pos(c);
    lemma_pow2_pos(i);
    lemma_pow2_adds(c, i);
    lemma_div_denominator(x as int, pow2(c) as int, pow2(i) as int);
}

/// A number is a multiple of 2^n when its low `n` bits are zero.
pub proof fn lemma_low_bits_zero(x: nat, n: nat)
    ensures
        x % pow2(n) == 0 <==> (forall|k: nat| k < n ==> (x / #[trigger] pow2(k)) % 2 == 0),
    decreases n,
{
    lemma2_to64();
    if n > 0 {
        let m: nat = (n - 1) as nat;
        lemma_low_bits_zero(x, m);
        lemma_pow2_pos(m);
        lemma_pow2_unfold(n);
        let (y, q): (int, int) = (pow2(m) as int, (x / pow2(m)) as int);
        assert(pow2(n) == y * 2);
        lemma_mod_breakdown(x as int, y, 2);
        lemma_mod_bound(x as int, y);
        assert((x / pow2(m)) % 2 == q % 2);
        assert(y * (q % 2) + x as int % y == 0 <==> q % 2 == 0 && x as int % y == 0) by (nonlinear_arith)
            requires
                y > 0,
                0 <= q % 2 < 2,
                0 <= x as int % y,
        ;
        if x % pow2(n) == 0 {
            assert forall|k: nat| k < n implies (x / #[trigger] pow2(k)) % 2 == 0 by {
                if k == m {
                    assert((x / pow2(m)) % 2 == 0);
                }
            }
        }
    }
}

} // verus!
