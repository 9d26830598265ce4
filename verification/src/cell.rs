//! The [`Cell`] trait abstracts over the integer types that store cell indices (`u32`, `u64`,
//! `u128`).
use voracious_radix_sort::{ska_sort, RadixSort};
use vstd::arithmetic::div_mod::*;
use vstd::arithmetic::power2::*;
use vstd::bits::*;
use vstd::prelude::*;

use crate::bits;
use crate::prng;
use crate::prng::Generator;
use crate::sampling;
use crate::sampling::Geometry;
use crate::util::parallelism;

verus! {

/// Storage and operations of a cell-index integer type.
pub trait Cell: Copy + Send + Sync {
    /// The width of the type.
    spec fn bits() -> nat;

    /// The index that a value stores.
    spec fn val(self) -> nat;

    /// The widths of the three storage types.
    proof fn lemma_bits()
        ensures
            Self::bits() == 32 || Self::bits() == 64 || Self::bits() == 128,
    ;

    /// A value stores an index of the width of its type.
    proof fn lemma_val_bound(self)
        ensures
            self.val() < pow2(Self::bits()),
    ;

    /// Values that store the same index are the same.
    proof fn lemma_val_injective(self, other: Self)
        requires
            self.val() == other.val(),
        ensures
            self == other,
    ;

    /// The width of the type, in bits.
    fn width() -> (r: usize)
        ensures
            r == Self::bits(),
    ;

    /// The index zero.
    fn zero() -> (r: Self)
        ensures
            r.val() == 0,
    ;

    /// The low bits of a 64-bit integer.
    fn from_u64(x: u64) -> (r: Self)
        ensures
            r.val() == x as nat % pow2(Self::bits()),
    ;

    /// The low bits of a 128-bit integer.
    fn from_u128(x: u128) -> (r: Self)
        ensures
            r.val() == x as nat % pow2(Self::bits()),
    ;

    /// Mask of the low `b` bits, saturating to all ones when `b` reaches the type width.
    fn low_bits_mask(b: usize) -> (r: Self)
        ensures
            r.val() == pow2(if b < Self::bits() {
                b as nat
            } else {
                Self::bits()
            }) - 1,
    ;

    /// Shifts in the `w`-bit value `e` from the right.
    fn append(self, w: usize, e: u64) -> (r: Self)
        requires
            w < Self::bits(),
            (e as nat) < pow2(w as nat),
        ensures
            r.val() == (self.val() * pow2(w as nat) + e as nat) % pow2(Self::bits()),
    ;

    /// Drops the low `n` bits.
    fn shr(self, n: usize) -> (r: Self)
        requires
            n < Self::bits(),
        ensures
            r.val() == self.val() / pow2(n as nat),
    ;

    /// Keeps the bits of a mask made by [`Cell::low_bits_mask`].
    fn masked(self, mask: Self) -> (r: Self)
        ensures
            forall|b: nat|
                b <= Self::bits() && mask.val() + 1 == #[trigger] pow2(b) ==> r.val() == self.val() % pow2(b),
    ;

    /// Whether two indices are equal.
    fn same(self, other: Self) -> (r: bool)
        ensures
            r == (self.val() == other.val()),
    ;

    /// Whether an index is at least another one.
    fn at_least(self, other: Self) -> (r: bool)
        ensures
            r == (self.val() >= other.val()),
    ;

    /// The sum of two indices.
    fn plus(self, other: Self) -> (r: Self)
        requires
            self.val() + other.val() < pow2(Self::bits()),
        ensures
            r.val() == self.val() + other.val(),
    ;

    /// The difference of two indices.
    fn minus(self, other: Self) -> (r: Self)
        requires
            self.val() >= other.val(),
        ensures
            r.val() == self.val() - other.val(),
    ;

    /// Sorts in place, using all threads.
    fn sort_mt(v: &mut [Self])
        ensures
            final(v)@.to_multiset() == old(v)@.to_multiset(),
            forall|i: int, j: int|
                0 <= i <= j < final(v)@.len() ==> #[trigger] final(v)@[i].val() <= #[trigger] final(v)@[j].val(),
    ;

    /// Sorts in place, using the current thread only.
    fn sort_st(v: &mut [Self])
        ensures
            final(v)@.to_multiset() == old(v)@.to_multiset(),
            forall|i: int, j: int|
                0 <= i <= j < final(v)@.len() ==> #[trigger] final(v)@[i].val() <= #[trigger] final(v)@[j].val(),
    ;
}

/// The indices in nondecreasing order.
pub open spec fn ascending<T: Cell>(v: Seq<T>) -> bool {
    forall|i: int, j: int| 0 <= i <= j < v.len() ==> #[trigger] v[i].val() <= #[trigger] v[j].val()
}

/// Sorts with [`RadixSort::voracious_mt_sort`], the multithreaded radix sort, on the given number
/// of threads. The result has the same elements, in nondecreasing order. The sort starts threads,
/// and panics where the operating system has none to give.
#[verifier::external_body]
fn voracious_mt_sort_u32(v: &mut [u32], threads: usize)
    requires
        1 <= threads < 0x1_0000,
    ensures
        final(v)@.to_multiset() == old(v)@.to_multiset(),
        forall|i: int, j: int| 0 <= i <= j < final(v)@.len() ==> final(v)@[i] <= final(v)@[j],
{
    v.voracious_mt_sort(threads);
}

/// Sorts with [`ska_sort`], the in-place radix sort, on digits of eight bits. The result has the
/// same elements, in nondecreasing order.
#[verifier::external_body]
fn ska_sort_u32(v: &mut [u32])
    ensures
        final(v)@.to_multiset() == old(v)@.to_multiset(),
        forall|i: int, j: int| 0 <= i <= j < final(v)@.len() ==> final(v)@[i] <= final(v)@[j],
{
    ska_sort(v, 8);
}

impl Cell for u32 {
    open spec fn bits() -> nat {
        32
    }

    open spec fn val(self) -> nat {
        self as nat
    }

    proof fn lemma_bits() {
    }

    proof fn lemma_val_bound(self) {
        bits::lemma_word_moduli();
    }

    proof fn lemma_val_injective(self, other: Self) {
    }

    fn width() -> (r: usize) {
        32
    }

    fn zero() -> (r: Self) {
        0
    }

    fn from_u64(x: u64) -> (r: Self) {
        proof {
            bits::lemma_word_moduli();
            assert(x as u32 == x % 0x1_0000_0000) by (bit_vector);
        }
        x as u32
    }

    fn from_u128(x: u128) -> (r: Self) {
        proof {
            bits::lemma_word_moduli();
            assert(x as u32 == x % 0x1_0000_0000) by (bit_vector);
        }
        x as u32
    }

    fn low_bits_mask(b: usize) -> (r: Self) {
        proof {
            bits::lemma_word_moduli();
        }
        if b >= 32 {
            u32::MAX
        } else {
            proof {
                bits::lemma_u32_one_shl(b as u32);
                lemma_pow2_pos(b as nat);
            }
            (1u32 << (b as u32)) - 1
        }
    }

    fn append(self, w: usize, e: u64) -> (r: Self) {
        proof {
            bits::lemma_u32_one_shl(w as u32);
            bits::lemma_word_moduli();
            bits::lemma_u32_append(self, e as u32, w as u32);
        }
        (self << (w as u32)) ^ (e as u32)
    }

    fn shr(self, n: usize) -> (r: Self) {
        proof {
            lemma_u32_shr_is_div(self, n as u32);
        }
        self >> (n as u32)
    }

    fn masked(self, mask: Self) -> (r: Self) {
        proof {
            assert forall|b: nat| b <= 32 && mask.val() + 1 == #[trigger] pow2(b) implies (self & mask).val()
                == self.val() % pow2(b) by {
                bits::lemma_word_moduli();
                if b < 32 {
                    bits::lemma_u32_one_shl(b as u32);
                    bits::lemma_u32_mask(self, b as u32);
                } else {
                    assert(self & u32::MAX == self) by (bit_vector);
                    lemma_small_mod(self as nat, pow2(b));
                }
            }
        }
        self & mask
    }

    fn same(self, other: Self) -> (r: bool) {
        self == other
    }

    fn at_least(self, other: Self) -> (r: bool) {
        self >= other
    }

    fn plus(self, other: Self) -> (r: Self) {
        proof {
            bits::lemma_word_moduli();
        }
        self + other
    }

    fn minus(self, other: Self) -> (r: Self) {
        self - other
    }

    fn sort_mt(v: &mut [Self]) {
        voracious_mt_sort_u32(v, parallelism());
    }

    fn sort_st(v: &mut [Self]) {
        ska_sort_u32(v);
    }
}

/// Sorts with [`RadixSort::voracious_mt_sort`], the multithreaded radix sort, on the given number
/// of threads. The result has the same elements, in nondecreasing order. The sort starts threads,
/// and panics where the operating system has none to give.
#[verifier::external_body]
fn voracious_mt_sort_u64(v: &mut [u64], threads: usize)
    requires
        1 <= threads < 0x1_0000,
    ensures
        final(v)@.to_multiset() == old(v)@.to_multiset(),
        forall|i: int, j: int| 0 <= i <= j < final(v)@.len() ==> final(v)@[i] <= final(v)@[j],
{
    v.voracious_mt_sort(threads);
}

/// Sorts with [`ska_sort`], the in-place radix sort, on digits of eight bits. The result has the
/// same elements, in nondecreasing order.
#[verifier::external_body]
fn ska_sort_u64(v: &mut [u64])
    ensures
        final(v)@.to_multiset() == old(v)@.to_multiset(),
        forall|i: int, j: int| 0 <= i <= j < final(v)@.len() ==> final(v)@[i] <= final(v)@[j],
{
    ska_sort(v, 8);
}

impl Cell for u64 {
    open spec fn bits() -> nat {
        64
    }

    open spec fn val(self) -> nat {
        self as nat
    }

    proof fn lemma_bits() {
    }

    proof fn lemma_val_bound(self) {
        bits::lemma_word_moduli();
    }

    proof fn lemma_val_injective(self, other: Self) {
    }

    fn width() -> (r: usize) {
        64
    }

    fn zero() -> (r: Self) {
        0
    }

    fn from_u64(x: u64) -> (r: Self) {
        proof {
            bits::lemma_word_moduli();
            lemma_small_mod(x as nat, pow2(64));
        }
        x as u64
    }

    fn from_u128(x: u128) -> (r: Self) {
        proof {
            bits::lemma_word_moduli();
            assert(x as u64 == x % 0x1_0000_0000_0000_0000) by (bit_vector);
        }
        x as u64
    }

    fn low_bits_mask(b: usize) -> (r: Self) {
        proof {
            bits::lemma_word_moduli();
        }
        if b >= 64 {
            u64::MAX
        } else {
            proof {
                bits::lemma_u64_one_shl(b as u64);
                lemma_pow2_pos(b as nat);
            }
            (1u64 << (b as u64)) - 1
        }
    }

    fn append(self, w: usize, e: u64) -> (r: Self) {
        proof {
            bits::lemma_u64_one_shl(w as u64);
            bits::lemma_word_moduli();
            bits::lemma_u64_append(self, e as u64, w as u64);
        }
        (self << (w as u64)) ^ (e as u64)
    }

    fn shr(self, n: usize) -> (r: Self) {
        proof {
            lemma_u64_shr_is_div(self, n as u64);
        }
        self >> (n as u64)
    }

    fn masked(self, mask: Self) -> (r: Self) {
        proof {
            assert forall|b: nat| b <= 64 && mask.val() + 1 == #[trigger] pow2(b) implies (self & mask).val()
                == self.val() % pow2(b) by {
                bits::lemma_word_moduli();
                if b < 64 {
                    bits::lemma_u64_one_shl(b as u64);
                    bits::lemma_u64_mask(self, b as u64);
                } else {
                    assert(self & u64::MAX == self) by (bit_vector);
                    lemma_small_mod(self as nat, pow2(b));
                }
            }
        }
        self & mask
    }

    fn same(self, other: Self) -> (r: bool) {
        self == other
    }

    fn at_least(self, other: Self) -> (r: bool) {
        self >= other
    }

    fn plus(self, other: Self) -> (r: Self) {
        proof {
            bits::lemma_word_moduli();
        }
        self + other
    }

    fn minus(self, other: Self) -> (r: Self) {
        self - other
    }

    fn sort_mt(v: &mut [Self]) {
        voracious_mt_sort_u64(v, parallelism());
    }

    fn sort_st(v: &mut [Self]) {
        ska_sort_u64(v);
    }
}

/// Sorts with [`RadixSort::voracious_mt_sort`], the multithreaded radix sort, on the given number
/// of threads. The result has the same elements, in nondecreasing order. The sort starts threads,
/// and panics where the operating system has none to give.
#[verifier::external_body]
fn voracious_mt_sort_u128(v: &mut [u128], threads: usize)
    requires
        1 <= threads < 0x1_0000,
    ensures
        final(v)@.to_multiset() == old(v)@.to_multiset(),
        forall|i: int, j: int| 0 <= i <= j < final(v)@.len() ==> final(v)@[i] <= final(v)@[j],
{
    v.voracious_mt_sort(threads);
}

/// Sorts with [`ska_sort`], the in-place radix sort, on digits of eight bits. The result has the
/// same elements, in nondecreasing order.
#[verifier::external_body]
fn ska_sort_u128(v: &mut [u128])
    ensures
        final(v)@.to_multiset() == old(v)@.to_multiset(),
        forall|i: int, j: int| 0 <= i <= j < final(v)@.len() ==> final(v)@[i] <= final(v)@[j],
{
    ska_sort(v, 8);
}

impl Cell for u128 {
    open spec fn bits() -> nat {
        128
    }

    open spec fn val(self) -> nat {
        self as nat
    }

    proof fn lemma_bits() {
    }

    proof fn lemma_val_bound(self) {
        bits::lemma_word_moduli();
    }

    proof fn lemma_val_injective(self, other: Self) {
    }

    fn width() -> (r: usize) {
        128
    }

    fn zero() -> (r: Self) {
        0
    }

    fn from_u64(x: u64) -> (r: Self) {
        proof {
            bits::lemma_word_moduli();
            lemma_small_mod(x as nat, pow2(128));
        }
        x as u128
    }

    fn from_u128(x: u128) -> (r: Self) {
        proof {
            bits::lemma_word_moduli();
            lemma_small_mod(x as nat, pow2(128));
        }
        x as u128
    }

    fn low_bits_mask(b: usize) -> (r: Self) {
        proof {
            bits::lemma_word_moduli();
        }
        if b >= 128 {
            u128::MAX
        } else {
            proof {
                bits::lemma_u128_one_shl(b as u128);
                lemma_pow2_pos(b as nat);
            }
            (1u128 << (b as u128)) - 1
        }
    }

    fn append(self, w: usize, e: u64) -> (r: Self) {
        proof {
            bits::lemma_u128_one_shl(w as u128);
            bits::lemma_word_moduli();
            bits::lemma_u128_append(self, e as u128, w as u128);
        }
        (self << (w as u128)) ^ (e as u128)
    }

    fn shr(self, n: usize) -> (r: Self) {
        proof {
            lemma_u128_shr_is_div(self, n as u128);
        }
        self >> (n as u128)
    }

    fn masked(self, mask: Self) -> (r: Self) {
        proof {
            assert forall|b: nat| b <= 128 && mask.val() + 1 == #[trigger] pow2(b) implies (self & mask).val()
                == self.val() % pow2(b) by {
                bits::lemma_word_moduli();
                if b < 128 {
                    bits::lemma_u128_one_shl(b as u128);
                    bits::lemma_u128_mask(self, b as u128);
                } else {
                    assert(self & u128::MAX == self) by (bit_vector);
                    lemma_small_mod(self as nat, pow2(b));
                }
            }
        }
        self & mask
    }

    fn same(self, other: Self) -> (r: bool) {
        self == other
    }

    fn at_least(self, other: Self) -> (r: bool) {
        self >= other
    }

    fn plus(self, other: Self) -> (r: Self) {
        proof {
            bits::lemma_word_moduli();
        }
        self + other
    }

    fn minus(self, other: Self) -> (r: Self) {
        self - other
    }

    fn sort_mt(v: &mut [Self]) {
        voracious_mt_sort_u128(v, parallelism());
    }

    fn sort_st(v: &mut [Self]) {
        ska_sort_u128(v);
    }
}

/// The number of elements of a sample: the constant `dim`, or the run-time value if that is zero.
pub open spec fn dimension(dim: usize, t_rt: usize) -> usize {
    if dim == 0 {
        t_rt
    } else {
        dim
    }
}

/// The parameters on which a sample is defined: every element lies within a word and, where there
/// are several, is narrower than the storage.
pub open spec fn drawable(t: usize, u: usize, s: usize, d: usize, full: bool, bits: nat) -> bool {
    &&& 1 <= t
    &&& 1 <= u + s <= 64
    &&& d <= u
    &&& d < 64
    &&& full ==> u == 64 && s == 0
    &&& t == 1 || u - d < bits
}

/// The samples that parameters give.
pub open spec fn geometry(t: usize, u: usize, s: usize, d: usize, bits: nat) -> Geometry {
    Geometry { u: u as nat, t: t as nat, s: s as nat, d: d as nat, bits }
}

/// Extracts the element that a word contributes. With `FULL` the element is the whole word.
fn extract<const FULL: bool>(raw: u64, u: usize, s: usize) -> (r: u64)
    requires
        1 <= u + s <= 64,
        FULL ==> u == 64 && s == 0,
    ensures
        r == sampling::element(geometry(1, u, s, 0, 64), raw),
{
    proof {
        bits::lemma_word_moduli();
        lemma2_to64();
    }
    if FULL {
        proof {
            lemma_small_mod(raw as nat, pow2(64));
        }
        raw
    } else {
        let combined_shift: u64 = 64 - (u as u64) - (s as u64);
        let shifted: u64 = raw >> combined_shift;
        proof {
            lemma_u64_shr_is_div(raw, combined_shift);
        }
        if u >= 64 {
            proof {
                lemma_small_mod(shifted as nat, pow2(64));
            }
            shifted
        } else {
            proof {
                bits::lemma_u64_one_shl(u as u64);
                bits::lemma_u64_mask(shifted, u as u64);
                lemma_pow2_pos(u as nat);
            }
            shifted & ((1u64 << (u as u64)) - 1)
        }
    }
}

/// Shifting in one more element, modulo the storage.
proof fn lemma_append(x: nat, p: nat, e: nat, m: nat)
    requires
        m > 0,
    ensures
        ((x % m) * p + e) % m == (x * p + e) % m,
{
    lemma_mul_mod_noop_left(x as int, p as int, m as int);
    lemma_add_mod_noop((x % m) * p as int, e as int, m as int);
    lemma_add_mod_noop((x * p) as int, e as int, m as int);
}

/// Draws a single (non-decimated) cell index.
///
/// The index concatenates *t* chunks of *u* bits taken from the top of the words drawn (after a
/// left shift by *s*), from left to right. Decimation is handled separately by [`decimate_once`].
///
/// Const generics select hot-loop specializations:
/// - `DIM`: the dimension *t*; zero falls back to the run-time argument.
/// - `FULL`: when true (*u* = 64 and *s* = 0) the extraction is an identity.
pub fn cell_index<T: Cell, const DIM: usize, const FULL: bool, G: Generator>(
    prng: &mut G,
    t_rt: usize,
    u: usize,
    s: usize,
) -> (r: T)
    requires
        drawable(dimension(DIM, t_rt), u, s, 0, FULL, T::bits()),
    ensures
        r.val() == sampling::index::<G>(
            geometry(dimension(DIM, t_rt), u, s, 0, T::bits()),
            old(prng).state(),
            dimension(DIM, t_rt) as nat,
        ) % pow2(T::bits()),
        sampling::sample::<G>(geometry(dimension(DIM, t_rt), u, s, 0, T::bits()), old(prng).state()) == Some(r.val()),
        final(prng).state() == prng::orbit::<G>(old(prng).state(), dimension(DIM, t_rt) as nat),
{
    let t: usize = if DIM == 0 {
        t_rt
    } else {
        DIM
    };
    let ghost g: Geometry = geometry(t, u, s, 0, T::bits());
    let ghost s0: G::State = prng.state();
    proof {
        lemma2_to64();
        lemma_pow2_pos(T::bits());
    }
    let first: u64 = extract::<FULL>(prng.next_u64(), u, s);
    let mut x: T = T::from_u64(first);
    proof {
        reveal_with_fuel(sampling::index, 2);
        reveal_with_fuel(prng::orbit, 2);
    }
    let mut i: usize = 1;
    while i < t
        invariant
            1 <= i <= t,
            drawable(t, u, s, 0, FULL, T::bits()),
            g == geometry(t, u, s, 0, T::bits()),
            pow2(0) == 1,
            pow2(T::bits()) > 0,
            prng.state() == prng::orbit::<G>(s0, i as nat),
            x.val() == sampling::index::<G>(g, s0, i as nat) % pow2(T::bits()),
        decreases t - i,
    {
        let e: u64 = extract::<FULL>(prng.next_u64(), u, s);
        proof {
            sampling::lemma_element_bound(g, prng::word::<G>(s0, i as nat));
            lemma_append(
                sampling::index::<G>(g, s0, i as nat),
                pow2(u as nat),
                e as nat,
                pow2(T::bits()),
            );
        }
        x = x.append(u, e);
        i += 1;
    }
    proof {
        sampling::lemma_undecimated::<G>(g, s0);
    }
    x
}

/// One decimating attempt: draws exactly *t* words (a full candidate tuple) and returns the dense
/// index (each element compacted to *u* − *d* bits) if the low *d* bits of every element are zero,
/// `None` otherwise. The *t* draws are always consumed, so sample *j* sits at orbit offset *j* · *t*.
pub fn decimate_once<T: Cell, const DIM: usize, const FULL: bool, G: Generator>(
    prng: &mut G,
    t_rt: usize,
    u: usize,
    s: usize,
    d: usize,
) -> (r: Option<T>)
    requires
        drawable(dimension(DIM, t_rt), u, s, d, FULL, T::bits()),
    ensures
        r is Some <==> sampling::accepted::<G>(
            geometry(dimension(DIM, t_rt), u, s, d, T::bits()),
            old(prng).state(),
            dimension(DIM, t_rt) as nat,
        ),
        r matches Some(x) ==> x.val() == sampling::index::<G>(
            geometry(dimension(DIM, t_rt), u, s, d, T::bits()),
            old(prng).state(),
            dimension(DIM, t_rt) as nat,
        ) % pow2(T::bits()),
        sampling::sample::<G>(geometry(dimension(DIM, t_rt), u, s, d, T::bits()), old(prng).state()) == (match r {
            Some(x) => Some(x.val()),
            None => None,
        }),
        final(prng).state() == prng::orbit::<G>(old(prng).state(), dimension(DIM, t_rt) as nat),
{
    let t: usize = if DIM == 0 {
        t_rt
    } else {
        DIM
    };
    let ghost g: Geometry = geometry(t, u, s, d, T::bits());
    let ghost s0: G::State = prng.state();
    proof {
        bits::lemma_u64_one_shl(d as u64);
        lemma_pow2_pos(d as nat);
        lemma_pow2_pos(T::bits());
    }
    let dec_mask: u64 = (1u64 << (d as u64)) - 1;
    let width: usize = u - d;
    let first: u64 = extract::<FULL>(prng.next_u64(), u, s);
    proof {
        bits::lemma_u64_mask(first, d as u64);
        lemma_u64_shr_is_div(first, d as u64);
        reveal_with_fuel(sampling::index, 2);
        reveal_with_fuel(prng::orbit, 2);
        assert(sampling::element(g, prng::word::<G>(s0, 0)) == first);
    }
    let mut rejected: bool = first & dec_mask != 0;
    let mut x: T = T::from_u64(first >> (d as u64));
    let mut i: usize = 1;
    while i < t
        invariant
            1 <= i <= t,
            drawable(t, u, s, d, FULL, T::bits()),
            g == geometry(t, u, s, d, T::bits()),
            width == u - d,
            dec_mask == (1u64 << (d as u64)) - 1,
            pow2(T::bits()) > 0,
            prng.state() == prng::orbit::<G>(s0, i as nat),
            rejected == !sampling::accepted::<G>(g, s0, i as nat),
            x.val() == sampling::index::<G>(g, s0, i as nat) % pow2(T::bits()),
        decreases t - i,
    {
        let e: u64 = extract::<FULL>(prng.next_u64(), u, s);
        proof {
            assert(sampling::element(g, prng::word::<G>(s0, i as nat)) == e);
            bits::lemma_u64_mask(e, d as u64);
            lemma_u64_shr_is_div(e, d as u64);
            sampling::lemma_element_bound(g, prng::word::<G>(s0, i as nat));
            lemma_append(
                sampling::index::<G>(g, s0, i as nat),
                pow2(width as nat),
                (e >> (d as u64)) as nat,
                pow2(T::bits()),
            );
        }
        rejected = rejected || e & dec_mask != 0;
        x = x.append(width, e >> (d as u64));
        i += 1;
    }
    if rejected {
        None
    } else {
        Some(x)
    }
}

/// A constant dimension gives the samples that the same dimension gives at run time.
pub proof fn lemma_dimension_specialized<G: Generator>(
    dim: usize,
    t_rt: usize,
    u: usize,
    s: usize,
    d: usize,
    width: nat,
    st: G::State,
)
    requires
        dim > 0,
    ensures
        sampling::sample::<G>(geometry(dimension(dim, t_rt), u, s, d, width), st) == sampling::sample::<G>(
            geometry(dimension(0, dim), u, s, d, width),
            st,
        ),
{
}

/// When the element is the whole word, extraction changes nothing.
pub proof fn lemma_full_element(t: usize, d: usize, width: nat, w: u64)
    ensures
        sampling::element(geometry(t, 64, 0, d, width), w) == w as nat,
{
    bits::lemma_word_moduli();
    lemma2_to64();
    let g: Geometry = geometry(t, 64, 0, d, width);
    assert((64 - g.u - g.s) as nat == 0);
    lemma_small_mod(w as nat, pow2(64));
}

/// An accepted sample has a dense index: it is less than 2^((*u* − *d*) *t*).
pub proof fn lemma_dense<G: Generator>(t: usize, u: usize, s: usize, d: usize, width: nat, st: G::State)
    requires
        d <= u,
    ensures
        sampling::sample::<G>(geometry(t, u, s, d, width), st) matches Some(x) ==> x < pow2(((u - d) * t) as nat),
{
    sampling::lemma_sample_bound::<G>(geometry(t, u, s, d, width), st);
}

/// The storage types hold numbers of 32, 64 and 128 bits, as they are.
pub proof fn lemma_storage_types(x: u32, y: u64, z: u128)
    ensures
        x.val() == x as nat && u32::bits() == 32,
        y.val() == y as nat && u64::bits() == 64,
        z.val() == z as nat && u128::bits() == 128,
{
}

/// What drawing with given parameters gives, by the bits of the words drawn. A tuple of `t` words is
/// kept when each of the `d` low bits of the `u` upper ones of each word, shifted left by `s`, is zero:
/// for all `t` words, and all `d` bits.
pub proof fn lemma_drawn_kept<G: Generator>(
    dim: usize,
    t_rt: usize,
    u: usize,
    s: usize,
    d: usize,
    width: nat,
    st: G::State,
)
    requires
        u + s <= 64,
        d <= u,
    ensures
        sampling::sample::<G>(geometry(dimension(dim, t_rt), u, s, d, width), st) is Some <==> (forall|i: nat, k: nat|
            i < (if dim == 0 {
                t_rt
            } else {
                dim
            }) && k < d ==> (#[trigger] prng::word::<G>(st, i) as nat / #[trigger] pow2((64 - u - s) as nat + k)) % 2
                == 0),
        sampling::accepted::<G>(geometry(dimension(dim, t_rt), u, s, d, width), st, dimension(dim, t_rt) as nat)
            == sampling::sample::<G>(geometry(dimension(dim, t_rt), u, s, d, width), st) is Some,
{
    sampling::lemma_sample_kept::<G>(geometry(dimension(dim, t_rt), u, s, d, width), st);
}

/// The bits of the index drawn: the elements follow each other from left to right, in the order in which
/// their words are drawn, each with its `u` - `d` bits in their order.
pub proof fn lemma_drawn_bits<G: Generator>(
    dim: usize,
    t_rt: usize,
    u: usize,
    s: usize,
    d: usize,
    width: nat,
    st: G::State,
    i: nat,
    k: nat,
)
    requires
        u + s <= 64,
        d <= u,
        i < dimension(dim, t_rt),
        k < u - d,
        (u - d) as nat * dimension(dim, t_rt) as nat <= width,
    ensures
        dimension(dim, t_rt) == if dim == 0 {
            t_rt
        } else {
            dim
        },
        sampling::sample::<G>(geometry(dimension(dim, t_rt), u, s, d, width), st) matches Some(x) ==> {
            &&& (x / pow2((u - d) as nat * ((dimension(dim, t_rt) - 1 - i) as nat) + k)) % 2 == (prng::word::<G>(
                st,
                i,
            ) as nat / pow2((64 - u - s + d) as nat + k)) % 2
            &&& x < pow2((u - d) as nat * dimension(dim, t_rt) as nat)
            &&& x == sampling::index::<G>(
                geometry(dimension(dim, t_rt), u, s, d, width),
                st,
                dimension(dim, t_rt) as nat,
            ) % pow2(width)
        },
{
    let g: Geometry = geometry(dimension(dim, t_rt), u, s, d, width);
    sampling::lemma_sample_bits::<G>(g, st, i, k);
    sampling::lemma_sample_bound::<G>(g, st);
}

/// With storage too narrow for all elements, what is stored is the index with its upper bits cut off.
pub proof fn lemma_drawn_narrow<G: Generator>(t: usize, u: usize, s: usize, d: usize, width: nat, wide: nat, st: G::State)
    requires
        width <= wide,
    ensures
        match sampling::sample::<G>(geometry(t, u, s, d, wide), st) {
            Some(x) => sampling::sample::<G>(geometry(t, u, s, d, width), st) == Some(x % pow2(width)),
            None => sampling::sample::<G>(geometry(t, u, s, d, width), st) is None,
        },
{
    let (a, b): (Geometry, Geometry) = (geometry(t, u, s, d, wide), geometry(t, u, s, d, width));
    assert forall|w: u64| sampling::element(a, w) == sampling::element(b, w) by {}
    assert(sampling::accepted::<G>(a, st, t as nat) == sampling::accepted::<G>(b, st, t as nat)) by {
        if sampling::accepted::<G>(a, st, t as nat) {
            assert forall|i: nat| i < t implies #[trigger] sampling::element(b, prng::word::<G>(st, i)) % pow2(b.d)
                == 0 by {
                assert(sampling::element(a, prng::word::<G>(st, i)) % pow2(a.d) == 0);
            }
        }
        if sampling::accepted::<G>(b, st, t as nat) {
            assert forall|i: nat| i < t implies #[trigger] sampling::element(a, prng::word::<G>(st, i)) % pow2(a.d)
                == 0 by {
                assert(sampling::element(b, prng::word::<G>(st, i)) % pow2(b.d) == 0);
            }
        }
    }
    lemma_same_index::<G>(a, b, st, t as nat);
    let x: nat = sampling::index::<G>(a, st, t as nat);
    lemma_pow2_pos(width);
    lemma_pow2_pos((wide - width) as nat);
    lemma_pow2_adds(width, (wide - width) as nat);
    lemma_mod_mod(x as int, pow2(width) as int, pow2((wide - width) as nat) as int);
}

/// The storage has no part in the index.
proof fn lemma_same_index<G: Generator>(a: Geometry, b: Geometry, st: G::State, j: nat)
    requires
        a.u == b.u,
        a.s == b.s,
        a.d == b.d,
    ensures
        sampling::index::<G>(a, st, j) == sampling::index::<G>(b, st, j),
    decreases j,
{
    if j > 0 {
        lemma_same_index::<G>(a, b, st, (j - 1) as nat);
    }
}

} // verus!
