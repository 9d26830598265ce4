//! What a test samples: the cell indices that successive tuples of words of a generator give.
//!
//! A sample takes `t` successive words of the generator. Each word contributes an element, made of
//! `u` of its bits; the elements are concatenated into a cell index. Decimation drops the samples
//! in which the low `d` bits of some element are not all zero, and leaves those bits out of the
//! index of the others.
use vstd::arithmetic::div_mod::*;
use vstd::arithmetic::mul::*;
use vstd::arithmetic::power2::*;
use vstd::prelude::*;

use crate::bits;
use crate::prng;
use crate::prng::Recurrence;

verus! {

/// How samples are made.
pub struct Geometry {
    /// Bits of an element.
    pub u: nat,
    /// Elements of a sample.
    pub t: nat,
    /// Left shift of a word before its upper bits are taken.
    pub s: nat,
    /// Decimated bits of an element.
    pub d: nat,
    /// Width of the storage of an index.
    pub bits: nat,
}

/// The element that a word contributes: its upper `u` bits after a left shift by `s`.
pub open spec fn element(g: Geometry, w: u64) -> nat {
    (w as nat / pow2((64 - g.u - g.s) as nat)) % pow2(g.u)
}

/// The concatenation of the first `j` elements drawn from a state, each without its `d` low bits.
pub open spec fn index<G: Recurrence>(g: Geometry, s: G::State, j: nat) -> nat
    decreases j,
{
    if j == 0 {
        0
    } else {
        index::<G>(g, s, (j - 1) as nat) * pow2((g.u - g.d) as nat) + element(
            g,
            prng::word::<G>(s, (j - 1) as nat),
        ) / pow2(g.d)
    }
}

/// Whether the low `d` bits of the first `j` elements are all zero.
pub open spec fn accepted<G: Recurrence>(g: Geometry, s: G::State, j: nat) -> bool {
    forall|i: nat| i < j ==> #[trigger] element(g, prng::word::<G>(s, i)) % pow2(g.d) == 0
}

/// The sample taken from a state: the stored cell index, unless decimation drops it.
pub open spec fn sample<G: Recurrence>(g: Geometry, s: G::State) -> Option<nat> {
    if accepted::<G>(g, s, g.t) {
        Some(index::<G>(g, s, g.t) % pow2(g.bits))
    } else {
        None
    }
}

/// The state after `n` samples.
pub open spec fn advance<G: Recurrence>(g: Geometry, s: G::State, n: nat) -> G::State {
    prng::orbit::<G>(s, n * g.t)
}

/// The first `n` samples taken from a state.
pub open spec fn samples<G: Recurrence>(g: Geometry, s: G::State, n: nat) -> Seq<Option<nat>> {
    Seq::new(n, |j: int| sample::<G>(g, advance::<G>(g, s, j as nat)))
}

/// The samples that are not dropped.
pub open spec fn kept(q: Seq<Option<nat>>) -> Seq<nat>
    decreases q.len(),
{
    if q.len() == 0 {
        Seq::empty()
    } else {
        match q.last() {
            Some(x) => kept(q.drop_last()).push(x),
            None => kept(q.drop_last()),
        }
    }
}

/// The points of a test: what is kept of the first `n` samples taken from a state.
pub open spec fn points<G: Recurrence>(g: Geometry, s: G::State, n: nat) -> Seq<nat> {
    kept(samples::<G>(g, s, n))
}

/// An element has `u` bits, and `u - d` bits without its low ones.
pub proof fn lemma_element_bound(g: Geometry, w: u64)
    requires
        g.d <= g.u,
    ensures
        element(g, w) < pow2(g.u),
        element(g, w) / pow2(g.d) < pow2((g.u - g.d) as nat),
{
    let e: nat = element(g, w);
    lemma_pow2_pos(g.u);
    lemma_pow2_pos(g.d);
    lemma_pow2_adds(g.d, (g.u - g.d) as nat);
    lemma_mod_bound((w as nat / pow2((64 - g.u - g.s) as nat)) as int, pow2(g.u) as int);
    lemma_fundamental_div_mod(e as int, pow2(g.d) as int);
    lemma_mod_bound(e as int, pow2(g.d) as int);
    let q: int = (e / pow2(g.d)) as int;
    assert(q < pow2((g.u - g.d) as nat)) by (nonlinear_arith)
        requires
            pow2(g.d) * q <= e,
            e < pow2(g.d) * pow2((g.u - g.d) as nat),
            pow2(g.d) > 0,
    ;
}

/// The index of a sample is dense: the index made of `j` elements takes `(u - d) j` bits.
pub proof fn lemma_index_bound<G: Recurrence>(g: Geometry, s: G::State, j: nat)
    requires
        g.d <= g.u,
    ensures
        index::<G>(g, s, j) < pow2((g.u - g.d) as nat * j),
    decreases j,
{
    let w: nat = (g.u - g.d) as nat;
    if j == 0 {
        lemma_pow2_pos(w * j);
    } else {
        let k: nat = (j - 1) as nat;
        lemma_index_bound::<G>(g, s, k);
        lemma_element_bound(g, prng::word::<G>(s, k));
        assert(w * j == w * k + w) by (nonlinear_arith)
            requires
                j == k + 1,
        ;
        lemma_pow2_adds(w * k, w);
        let x: nat = index::<G>(g, s, k);
        let e: nat = element(g, prng::word::<G>(s, k)) / pow2(g.d);
        assert(x * pow2(w) + e < pow2(w * k) * pow2(w)) by (nonlinear_arith)
            requires
                x + 1 <= pow2(w * k),
                e < pow2(w),
        ;
    }
}

/// A kept sample is less than 2^((u - d) t).
pub proof fn lemma_sample_bound<G: Recurrence>(g: Geometry, s: G::State)
    requires
        g.d <= g.u,
    ensures
        sample::<G>(g, s) matches Some(x) ==> x < pow2((g.u - g.d) as nat * g.t) && x < pow2(g.bits),
{
    lemma_index_bound::<G>(g, s, g.t);
    lemma_pow2_pos(g.bits);
    let x: nat = index::<G>(g, s, g.t);
    lemma_mod_bound(x as int, pow2(g.bits) as int);
    lemma_mod_decreases(x, pow2(g.bits));
}

/// Without decimation every sample is kept.
pub proof fn lemma_undecimated<G: Recurrence>(g: Geometry, s: G::State)
    requires
        g.d == 0,
    ensures
        sample::<G>(g, s) == Some(index::<G>(g, s, g.t) % pow2(g.bits)),
{
    lemma2_to64();
}

/// The samples of a stretch of the orbit are those of its parts.
pub proof fn lemma_samples_split<G: Recurrence>(g: Geometry, s: G::State, m: nat, n: nat)
    ensures
        samples::<G>(g, s, m + n) == samples::<G>(g, s, m) + samples::<G>(g, advance::<G>(g, s, m), n),
        advance::<G>(g, s, m + n) == advance::<G>(g, advance::<G>(g, s, m), n),
{
    let a: Seq<Option<nat>> = samples::<G>(g, s, m + n);
    let b: Seq<Option<nat>> = samples::<G>(g, s, m) + samples::<G>(g, advance::<G>(g, s, m), n);
    assert forall|j: int| 0 <= j < m + n implies a[j] == b[j] by {
        if j >= m {
            lemma_advance_compose::<G>(g, s, m, (j - m) as nat);
        }
    }
    assert(a =~= b);
    lemma_advance_compose::<G>(g, s, m, n);
}

/// Advancing composes.
pub proof fn lemma_advance_compose<G: Recurrence>(g: Geometry, s: G::State, m: nat, n: nat)
    ensures
        advance::<G>(g, advance::<G>(g, s, m), n) == advance::<G>(g, s, m + n),
{
    prng::lemma_orbit_compose::<G>(s, m * g.t, n * g.t);
    lemma_mul_is_distributive_add_other_way(g.t as int, m as int, n as int);
}

/// What is kept of a concatenation.
pub proof fn lemma_kept_concat(a: Seq<Option<nat>>, b: Seq<Option<nat>>)
    ensures
        kept(a + b) == kept(a) + kept(b),
    decreases b.len(),
{
    if b.len() == 0 {
        assert(a + b =~= a);
        assert(kept(a) + kept(b) =~= kept(a));
    } else {
        lemma_kept_concat(a, b.drop_last());
        assert((a + b).drop_last() =~= a + b.drop_last());
        assert((a + b).last() == b.last());
        match b.last() {
            Some(x) => {
                assert(kept(a) + kept(b.drop_last()).push(x) =~= (kept(a) + kept(b.drop_last())).push(x));
            },
            None => {},
        }
    }
}

/// No more is kept than there is.
pub proof fn lemma_kept_len(q: Seq<Option<nat>>)
    ensures
        kept(q).len() <= q.len(),
    decreases q.len(),
{
    if q.len() > 0 {
        lemma_kept_len(q.drop_last());
    }
}

/// The points of a stretch of the orbit are those of its parts, one after the other.
pub proof fn lemma_points_split<G: Recurrence>(g: Geometry, s: G::State, m: nat, n: nat)
    ensures
        points::<G>(g, s, m + n) == points::<G>(g, s, m) + points::<G>(g, advance::<G>(g, s, m), n),
{
    lemma_samples_split::<G>(g, s, m, n);
    lemma_kept_concat(samples::<G>(g, s, m), samples::<G>(g, advance::<G>(g, s, m), n));
}

/// One more sample.
pub proof fn lemma_points_step<G: Recurrence>(g: Geometry, s: G::State, n: nat)
    ensures
        points::<G>(g, s, n + 1) == match sample::<G>(g, advance::<G>(g, s, n)) {
            Some(x) => points::<G>(g, s, n).push(x),
            None => points::<G>(g, s, n),
        },
        advance::<G>(g, s, n + 1) == prng::orbit::<G>(advance::<G>(g, s, n), g.t),
{
    let q: Seq<Option<nat>> = samples::<G>(g, s, n + 1);
    assert(q.drop_last() =~= samples::<G>(g, s, n));
    prng::lemma_orbit_compose::<G>(s, n * g.t, g.t);
    assert((n + 1) * g.t == n * g.t + g.t) by (nonlinear_arith);
}

/// Every point is less than 2^((u - d) t).
pub proof fn lemma_points_bound<G: Recurrence>(g: Geometry, s: G::State, n: nat)
    requires
        g.d <= g.u,
    ensures
        points::<G>(g, s, n).len() <= n,
        forall|i: int|
            0 <= i < points::<G>(g, s, n).len() ==> #[trigger] points::<G>(g, s, n)[i] < pow2(
                (g.u - g.d) as nat * g.t,
            ) && points::<G>(g, s, n)[i] < pow2(g.bits),
    decreases n,
{
    if n > 0 {
        let m: nat = (n - 1) as nat;
        lemma_points_bound::<G>(g, s, m);
        lemma_points_step::<G>(g, s, m);
        lemma_sample_bound::<G>(g, advance::<G>(g, s, m));
    }
}

/// Without decimation there are as many points as samples.
pub proof fn lemma_points_undecimated<G: Recurrence>(g: Geometry, s: G::State, n: nat)
    requires
        g.d == 0,
    ensures
        points::<G>(g, s, n).len() == n,
    decreases n,
{
    if n > 0 {
        let m: nat = (n - 1) as nat;
        lemma_points_undecimated::<G>(g, s, m);
        lemma_points_step::<G>(g, s, m);
        lemma_undecimated::<G>(g, advance::<G>(g, s, m));
    }
}

/// The bits of an element are the upper bits of the shifted word, in their order: bit `i` of the
/// element of a word is bit 64 - u - s + `i` of the word. Above those there is nothing.
pub proof fn lemma_element_bits(g: Geometry, w: u64, i: nat)
    requires
        g.u + g.s <= 64,
        i < g.u,
    ensures
        (element(g, w) / pow2(i)) % 2 == (w as nat / pow2((64 - g.u - g.s + i) as nat)) % 2,
        element(g, w) < pow2(g.u),
{
    let c: nat = (64 - g.u - g.s) as nat;
    bits::lemma_bit_of_remainder(w as nat / pow2(c), g.u, i);
    bits::lemma_bit_of_quotient(w as nat, c, i);
    lemma_pow2_pos(g.u);
    lemma_mod_bound((w as nat / pow2(c)) as int, pow2(g.u) as int);
}

/// Every number of `u` bits is the element of some word: no cell is left out.
pub proof fn lemma_element_onto(g: Geometry, e: nat) -> (w: u64)
    requires
        g.u + g.s <= 64,
        e < pow2(g.u),
    ensures
        element(g, w) == e,
{
    let c: nat = (64 - g.u - g.s) as nat;
    lemma_pow2_pos(c);
    lemma_pow2_adds(c, g.u);
    bits::lemma_word_moduli();
    if c + g.u < 64 {
        lemma_pow2_strictly_increases(c + g.u, 64);
    }
    assert(e * pow2(c) < pow2(c) * pow2(g.u)) by (nonlinear_arith)
        requires
            e < pow2(g.u),
            pow2(c) > 0,
    ;
    let w: u64 = (e * pow2(c)) as u64;
    lemma_div_by_multiple(e as int, pow2(c) as int);
    lemma_small_mod(e, pow2(g.u));
    w
}

/// A tuple is accepted when each of its elements is: if `j` elements are accepted, then the low `d`
/// bits of each of them are zero, whichever it is, and one more element is accepted when its own are.
pub proof fn lemma_accepted_each<G: Recurrence>(g: Geometry, s: G::State, j: nat, i: nat)
    requires
        i < j,
    ensures
        accepted::<G>(g, s, j) ==> element(g, prng::word::<G>(s, i)) % pow2(g.d) == 0,
        element(g, prng::word::<G>(s, i)) % pow2(g.d) != 0 ==> !accepted::<G>(g, s, j),
        accepted::<G>(g, s, 0),
        accepted::<G>(g, s, j + 1) <==> accepted::<G>(g, s, j) && element(g, prng::word::<G>(s, j)) % pow2(g.d) == 0,
        accepted::<G>(g, s, 1) <==> element(g, prng::word::<G>(s, 0)) % pow2(g.d) == 0,
{
    if accepted::<G>(g, s, j + 1) {
        assert(element(g, prng::word::<G>(s, j)) % pow2(g.d) == 0);
    }
}

/// The digits of an index, in base 2^(u - d), are the elements without their low bits, the first one
/// drawn in front.
pub proof fn lemma_index_digits<G: Recurrence>(g: Geometry, s: G::State, j: nat, i: nat)
    requires
        g.d <= g.u,
        i < j,
    ensures
        (index::<G>(g, s, j) / pow2((g.u - g.d) as nat * ((j - 1 - i) as nat))) % pow2((g.u - g.d) as nat) == element(
            g,
            prng::word::<G>(s, i),
        ) / pow2(g.d),
    decreases j,
{
    let w: nat = (g.u - g.d) as nat;
    let k: nat = (j - 1) as nat;
    let x: nat = index::<G>(g, s, k);
    let e: nat = element(g, prng::word::<G>(s, k)) / pow2(g.d);
    lemma_pow2_pos(w);
    lemma_element_bound(g, prng::word::<G>(s, k));
    lemma_pow2_pos(g.d);
    lemma_div_pos_is_pos(element(g, prng::word::<G>(s, k)) as int, pow2(g.d) as int);
    lemma_fundamental_div_mod_converse((x * pow2(w) + e) as int, pow2(w) as int, x as int, e as int);
    if i == k {
        let y: nat = index::<G>(g, s, j);
        assert(w * 0 == 0) by (nonlinear_arith);
        lemma2_to64();
        assert(w * ((j - 1 - i) as nat) == 0);
        assert(y / pow2(0) == y);
    } else {
        lemma_index_digits::<G>(g, s, k, i);
        let m: nat = (k - 1 - i) as nat;
        assert(w * (m + 1) == w + w * m) by (nonlinear_arith);
        lemma_pow2_adds(w, w * m);
        lemma_pow2_pos(w * m);
        lemma_div_denominator(index::<G>(g, s, j) as int, pow2(w) as int, pow2(w * m) as int);
    }
}

/// A sample is kept when no low bit of its elements is set: when the bits 64 - u - s to 64 - u - s + d - 1
/// of each of its `t` words are zero.
pub proof fn lemma_sample_kept<G: Recurrence>(g: Geometry, s: G::State)
    requires
        g.u + g.s <= 64,
        g.d <= g.u,
    ensures
        sample::<G>(g, s) is Some <==> (forall|i: nat, k: nat|
            i < g.t && k < g.d ==> (#[trigger] prng::word::<G>(s, i) as nat / #[trigger] pow2(
                (64 - g.u - g.s) as nat + k,
            )) % 2 == 0),
{
    let c: nat = (64 - g.u - g.s) as nat;
    assert forall|i: nat, k: nat| i < g.t && k < g.d implies (#[trigger] prng::word::<G>(s, i) as nat
        / #[trigger] pow2(c + k)) % 2 == (element(g, prng::word::<G>(s, i)) / pow2(k)) % 2 by {
        lemma_element_bits(g, prng::word::<G>(s, i), k);
    }
    if sample::<G>(g, s) is Some {
        assert forall|i: nat, k: nat| i < g.t && k < g.d implies (#[trigger] prng::word::<G>(s, i) as nat
            / #[trigger] pow2(c + k)) % 2 == 0 by {
            let e: nat = element(g, prng::word::<G>(s, i));
            assert(e % pow2(g.d) == 0);
            bits::lemma_low_bits_zero(e, g.d);
            assert((e / pow2(k)) % 2 == 0);
        }
    }
    if forall|i: nat, k: nat|
        i < g.t && k < g.d ==> (#[trigger] prng::word::<G>(s, i) as nat / #[trigger] pow2(c + k)) % 2 == 0 {
        assert forall|i: nat| i < g.t implies #[trigger] element(g, prng::word::<G>(s, i)) % pow2(g.d) == 0 by {
            let e: nat = element(g, prng::word::<G>(s, i));
            assert forall|k: nat| k < g.d implies (e / #[trigger] pow2(k)) % 2 == 0 by {
                assert((prng::word::<G>(s, i) as nat / pow2(c + k)) % 2 == 0);
            }
            bits::lemma_low_bits_zero(e, g.d);
        }
    }
}

/// The bits of a kept sample are bits of its words: from the right, bit `k` of the block number
/// t - 1 - `i` of u - d bits is bit 64 - u - s + d + `k` of the word number `i`.
pub proof fn lemma_sample_bits<G: Recurrence>(g: Geometry, s: G::State, i: nat, k: nat)
    requires
        g.u + g.s <= 64,
        g.d <= g.u,
        i < g.t,
        k < g.u - g.d,
        (g.u - g.d) as nat * g.t <= g.bits,
    ensures
        sample::<G>(g, s) matches Some(x) ==> (x / pow2((g.u - g.d) as nat * ((g.t - 1 - i) as nat) + k)) % 2 == (
        prng::word::<G>(s, i) as nat / pow2((64 - g.u - g.s + g.d) as nat + k)) % 2,
{
    if sample::<G>(g, s) is Some {
        let w: nat = (g.u - g.d) as nat;
        let x: nat = index::<G>(g, s, g.t);
        let n: nat = w * ((g.t - 1 - i) as nat);
        let e: nat = element(g, prng::word::<G>(s, i));
        lemma_index_bound::<G>(g, s, g.t);
        if w * g.t < g.bits {
            lemma_pow2_strictly_increases(w * g.t, g.bits);
        }
        lemma_small_mod(x, pow2(g.bits));
        lemma_index_digits::<G>(g, s, g.t, i);
        bits::lemma_bit_of_remainder(x / pow2(n), w, k);
        bits::lemma_bit_of_quotient(x, n, k);
        bits::lemma_bit_of_quotient(e, g.d, k);
        lemma_element_bits(g, prng::word::<G>(s, i), g.d + k);
    }
}

/// The points of a scan are the kept samples, each one once and in their order: sample number `j` is
/// taken behind `j` times `t` draws. Returns the numbers of the samples that are kept.
pub proof fn lemma_points_are_samples<G: Recurrence>(g: Geometry, s: G::State, n: nat) -> (at: Seq<nat>)
    ensures
        at.len() == points::<G>(g, s, n).len(),
        forall|i: int| 0 <= i < at.len() ==> #[trigger] at[i] < n,
        forall|i: int, j: int| 0 <= i < j < at.len() ==> #[trigger] at[i] < #[trigger] at[j],
        forall|i: int|
            0 <= i < at.len() ==> sample::<G>(g, prng::orbit::<G>(s, #[trigger] at[i] * g.t)) == Some(
                points::<G>(g, s, n)[i],
            ),
        forall|j: nat|
            j < n && sample::<G>(g, #[trigger] prng::orbit::<G>(s, j * g.t)) is Some ==> at.contains(j),
    decreases n,
{
    if n == 0 {
        assert(points::<G>(g, s, n) =~= Seq::<nat>::empty());
        Seq::empty()
    } else {
        let m: nat = (n - 1) as nat;
        let before: Seq<nat> = lemma_points_are_samples::<G>(g, s, m);
        lemma_points_step::<G>(g, s, m);
        let at: Seq<nat> = if sample::<G>(g, advance::<G>(g, s, m)) is Some {
            before.push(m)
        } else {
            before
        };
        assert forall|j: nat| j < n && sample::<G>(g, #[trigger] prng::orbit::<G>(s, j * g.t)) is Some implies at.contains(
            j,
        ) by {
            if j == m {
                assert(at[at.len() - 1] == m);
            } else {
                assert(before.contains(j));
                let i: int = choose|i: int| 0 <= i < before.len() && before[i] == j;
                assert(at[i] == j);
            }
        }
        at
    }
}

/// Each sample takes `t` draws, whether it is kept or not.
pub proof fn lemma_advance<G: Recurrence>(g: Geometry, s: G::State, n: nat)
    ensures
        advance::<G>(g, s, n) == prng::orbit::<G>(s, n * g.t),
        advance::<G>(g, s, 0) == s,
        advance::<G>(g, s, 1) == prng::orbit::<G>(s, g.t),
{
    assert(0 * g.t == 0);
    assert(1 * g.t == g.t);
}

} // verus!
