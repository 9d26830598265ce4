//! Modular arithmetic shared by the generators.
use vstd::arithmetic::div_mod::*;
use vstd::arithmetic::mul::*;
use vstd::prelude::*;

verus! {

/// The word `x` with its bits moved left by `n` places, those that leave coming back on the right.
pub open spec fn rotated_left(x: u64, n: u32) -> u64 {
    (x << n) | (x >> (64 - n))
}

/// Rotates a word to the left.
pub fn rotate_left(x: u64, n: u32) -> (r: u64)
    requires
        0 < n < 64,
    ensures
        r == rotated_left(x, n),
{
    (x << n) | (x >> (64 - n))
}

/// The 32-bit word `x` with its bits moved left by `n` places, those that leave coming back on the
/// right.
pub open spec fn rotated_left_32(x: u32, n: u32) -> u32 {
    (x << n) | (x >> (32 - n))
}

/// Rotates a 32-bit word to the left.
pub fn rotate_left_32(x: u32, n: u32) -> (r: u32)
    requires
        0 < n < 32,
    ensures
        r == rotated_left_32(x, n),
{
    (x << n) | (x >> (32 - n))
}

/// One more multiple of `c` is one more addition of `c`.
pub proof fn lemma_weyl_step(x: u64, n: u64, c: u64)
    requires
        n > 0,
    ensures
        x.wrapping_add(n.wrapping_mul(c)) == x.wrapping_add(((n - 1) as u64).wrapping_mul(c)).wrapping_add(c),
{
    let m: int = 0x1_0000_0000_0000_0000;
    let a: int = (n - 1) * c;
    assert(n * c == a + c) by {
        lemma_mul_is_distributive_sub_other_way(c as int, n as int, 1);
    }
    lemma_add_mod_noop(x as int, a + c, m);
    lemma_add_mod_noop(x as int, a, m);
    lemma_add_mod_noop(x + a, c as int, m);
    lemma_small_mod(x as nat, m as nat);
    lemma_small_mod(c as nat, m as nat);
    let p: int = a % m;
    let q: int = (a + c) % m;
    lemma_mod_bound(a, m);
    lemma_mod_bound(a + c, m);
    assert(x.wrapping_add(q as u64) == (x + q) % m);
    assert(x.wrapping_add(p as u64) == (x + p) % m);
    let y: u64 = x.wrapping_add(p as u64);
    assert(y.wrapping_add(c) == (y + c) % m);
}

/// Adding `c` once, and then 2^64 - 1 more times, comes back to where it started.
pub proof fn lemma_weyl_cycle(x: u64, c: u64)
    ensures
        x.wrapping_add(c).wrapping_add(u64::MAX.wrapping_mul(c)) == x,
{
    let m: int = 0x1_0000_0000_0000_0000;
    let a: int = u64::MAX * c;
    assert(x + c + a == m * c + x) by {
        lemma_mul_is_distributive_sub_other_way(c as int, m, 1);
    }
    lemma_add_mod_noop(x + c, a, m);
    lemma_mod_multiples_vanish(c as int, x as int, m);
    lemma_small_mod(x as nat, m as nat);
    lemma_mod_bound(a, m);
    lemma_mod_bound(x + c, m);
    let y: u64 = x.wrapping_add(c);
    let z: u64 = u64::MAX.wrapping_mul(c);
    assert(y == (x + c) % m);
    assert(z == a % m);
    assert(y.wrapping_add(z) == (y + z) % m);
}

/// Multiplying by a number, and then by its inverse, changes nothing.
pub proof fn lemma_inverse(x: u64, c: u64, d: u64)
    requires
        (c * d) % 0x1_0000_0000_0000_0000 == 1,
    ensures
        x.wrapping_mul(c).wrapping_mul(d) == x,
{
    let m: int = 0x1_0000_0000_0000_0000;
    let y: u64 = x.wrapping_mul(c);
    assert(y == (x * c) % m);
    assert(y.wrapping_mul(d) == (y * d) % m);
    lemma_mul_mod_noop_left(x * c, d as int, m);
    lemma_mul_is_associative(x as int, c as int, d as int);
    lemma_mul_mod_noop_right(x as int, c * d, m);
    lemma_small_mod(x as nat, m as nat);
}

/// Adding no multiple of `c` changes nothing.
pub proof fn lemma_weyl_zero(x: u64, c: u64)
    ensures
        x.wrapping_add(0u64.wrapping_mul(c)) == x,
{
    assert(0 * c as nat == 0);
}

/// Rotating moves every bit by the same number of places: bit `i` of the rotated word is the one that many
/// places to the right of it, counted round the word.
pub proof fn lemma_rotation(x: u64, n: u32, i: u32)
    requires
        0 < n < 64,
        i < 64,
    ensures
        i >= n ==> (rotated_left(x, n) >> i) & 1 == (x >> ((i - n) as u32)) & 1,
        i < n ==> (rotated_left(x, n) >> i) & 1 == (x >> ((i + 64 - n) as u32)) & 1,
{
    assert((i >= n ==> (((x << n) | (x >> ((64 - n) as u32))) >> i) & 1 == (x >> ((i - n) as u32)) & 1) && (i < n ==> (((x << n)
        | (x >> ((64 - n) as u32))) >> i) & 1 == (x >> ((i + 64 - n) as u32)) & 1)) by (bit_vector)
        requires
            0 < n < 64,
            i < 64,
    ;
}

/// Rotating a 32-bit word moves every bit by the same number of places, counted round the word.
pub proof fn lemma_rotation_32(x: u32, n: u32, i: u32)
    requires
        0 < n < 32,
        i < 32,
    ensures
        i >= n ==> (rotated_left_32(x, n) >> i) & 1 == (x >> ((i - n) as u32)) & 1,
        i < n ==> (rotated_left_32(x, n) >> i) & 1 == (x >> ((i + 32 - n) as u32)) & 1,
{
    assert((i >= n ==> (((x << n) | (x >> ((32 - n) as u32))) >> i) & 1 == (x >> ((i - n) as u32)) & 1) && (i < n ==> (((x << n)
        | (x >> ((32 - n) as u32))) >> i) & 1 == (x >> ((i + 32 - n) as u32)) & 1)) by (bit_vector)
        requires
            0 < n < 32,
            i < 32,
    ;
}

/// Rotating by half a word swaps its halves.
pub proof fn lemma_halves_swapped(x: u64)
    ensures
        rotated_left(x, 32) as int == (x as int % 0x1_0000_0000) * 0x1_0000_0000 + x as int / 0x1_0000_0000,
{
    assert((x << 32u32) | (x >> 32u32) == (x % 0x1_0000_0000) * 0x1_0000_0000 + x / 0x1_0000_0000) by (bit_vector);
}

/// A 32-bit word in the upper half of a word.
pub proof fn lemma_upper_half(x: u32)
    ensures
        (x as u64) << 32 == x * 0x1_0000_0000,
{
    assert((x as u64) << 32 == x * 0x1_0000_0000) by (bit_vector);
}

/// The lower half of a word.
pub proof fn lemma_low_half(x: u64)
    ensures
        x as u32 == x % 0x1_0000_0000,
{
    assert(x as u32 == x % 0x1_0000_0000) by (bit_vector);
}

} // verus!
