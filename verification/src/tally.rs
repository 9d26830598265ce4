//! Counting: collisions of a sequence, selections of it, and spacings of its sorted order.
use vstd::arithmetic::div_mod::*;
use vstd::arithmetic::power2::*;
use vstd::multiset::Multiset;
use vstd::prelude::*;
use vstd::relations::*;
use vstd::seq_lib::*;

use crate::cell::Cell;

verus! {

/// How many elements repeat an earlier one.
pub open spec fn collisions(p: Seq<nat>) -> nat {
    (p.len() - p.to_set().len()) as nat
}

/// How many elements equal their predecessor.
pub open spec fn adjacent(p: Seq<nat>) -> nat
    decreases p.len(),
{
    if p.len() < 2 {
        0
    } else {
        adjacent(p.drop_last()) + if p[p.len() - 2] == p.last() {
            1nat
        } else {
            0
        }
    }
}

/// In nondecreasing order.
pub open spec fn ascending(p: Seq<nat>) -> bool {
    forall|i: int, j: int| 0 <= i <= j < p.len() ==> p[i] <= p[j]
}

/// The order of the natural numbers.
pub open spec fn leq() -> spec_fn(nat, nat) -> bool {
    |a: nat, b: nat| a <= b
}

/// The elements in nondecreasing order.
pub open spec fn sorted(p: Seq<nat>) -> Seq<nat> {
    p.sort_by(leq())
}

/// The elements with a given key.
pub open spec fn select(p: Seq<nat>, key: spec_fn(nat) -> nat, k: nat) -> Seq<nat>
    decreases p.len(),
{
    if p.len() == 0 {
        Seq::empty()
    } else if key(p.last()) == k {
        select(p.drop_last(), key, k).push(p.last())
    } else {
        select(p.drop_last(), key, k)
    }
}

/// The key of the intervals of length 2^shift.
pub open spec fn top_key(shift: nat) -> spec_fn(nat) -> nat {
    |x: nat| x / pow2(shift)
}

/// The key of the classes modulo 2^b.
pub open spec fn low_key(b: nat) -> spec_fn(nat) -> nat {
    |x: nat| x % pow2(b)
}

/// The collisions within the selections `lo..hi`.
pub open spec fn collisions_in(p: Seq<nat>, key: spec_fn(nat) -> nat, lo: nat, hi: nat) -> nat
    decreases hi,
{
    if hi <= lo {
        0
    } else {
        collisions_in(p, key, lo, (hi - 1) as nat) + collisions(select(p, key, (hi - 1) as nat))
    }
}

/// The number of elements of the selections `lo..hi`.
pub open spec fn selected_in(p: Seq<nat>, key: spec_fn(nat) -> nat, lo: nat, hi: nat) -> nat
    decreases hi,
{
    if hi <= lo {
        0
    } else {
        selected_in(p, key, lo, (hi - 1) as nat) + select(p, key, (hi - 1) as nat).len()
    }
}

/// The indices that cells store.
pub open spec fn vals<T: Cell>(v: Seq<T>) -> Seq<nat> {
    Seq::new(v.len(), |i: int| v[i].val())
}

/// There are no more collisions than elements.
pub proof fn lemma_collisions_bound(p: Seq<nat>)
    ensures
        p.to_set().len() <= p.len(),
        collisions(p) <= p.len(),
        p.len() > 0 ==> collisions(p) < p.len(),
{
    p.lemma_cardinality_of_set();
    seq_to_set_is_finite(p);
    if p.len() > 0 {
        assert(p.to_set().contains(p[0]));
    }
}

/// One more element collides if it is there already.
pub proof fn lemma_collisions_insert(p: Seq<nat>, x: nat, q: Seq<nat>)
    requires
        q.len() == p.len() + 1,
        forall|y: nat| #[trigger] q.contains(y) <==> p.contains(y) || y == x,
    ensures
        collisions(q) == collisions(p) + if p.contains(x) {
            1nat
        } else {
            0
        },
{
    lemma_collisions_bound(p);
    lemma_collisions_bound(q);
    seq_to_set_is_finite(p);
    assert(q.to_set() =~= p.to_set().insert(x));
}

/// One more element at the end.
pub proof fn lemma_collisions_push(p: Seq<nat>, x: nat)
    ensures
        collisions(p.push(x)) == collisions(p) + if p.contains(x) {
            1nat
        } else {
            0
        },
{
    let q: Seq<nat> = p.push(x);
    assert forall|y: nat| #[trigger] q.contains(y) <==> p.contains(y) || y == x by {
        if p.contains(y) {
            let i: int = choose|i: int| 0 <= i < p.len() && p[i] == y;
            assert(q[i] == y);
        }
        if y == x {
            assert(q[p.len() as int] == y);
        }
    }
    lemma_collisions_insert(p, x, q);
}

/// Collisions do not depend on the order of the elements.
pub proof fn lemma_collisions_permuted(p: Seq<nat>, q: Seq<nat>)
    requires
        p.to_multiset() == q.to_multiset(),
    ensures
        collisions(p) == collisions(q),
        p.len() == q.len(),
{
    broadcast use group_to_multiset_ensures;

    assert(p.to_set() =~= q.to_set()) by {
        assert forall|x: nat| p.contains(x) == q.contains(x) by {
            assert(p.to_multiset().count(x) > 0 <==> p.contains(x));
            assert(q.to_multiset().count(x) > 0 <==> q.contains(x));
        }
    }
    assert(p.len() == p.to_multiset().len());
}

/// In sorted order, collisions are equal neighbours.
pub proof fn lemma_adjacent_collisions(p: Seq<nat>)
    requires
        ascending(p),
    ensures
        adjacent(p) == collisions(p),
    decreases p.len(),
{
    lemma_collisions_bound(p);
    if p.len() == 1 {
    } else if p.len() > 1 {
        let q: Seq<nat> = p.drop_last();
        lemma_adjacent_collisions(q);
        assert(p =~= q.push(p.last()));
        lemma_collisions_push(q, p.last());
        if q.contains(p.last()) {
            let i: int = choose|i: int| 0 <= i < q.len() && q[i] == p.last();
            assert(p[i] <= p[p.len() - 2]);
        } else {
            assert(p[p.len() - 2] == q[q.len() - 1]);
        }
    }
}

/// The order of the natural numbers is total.
proof fn lemma_leq_total()
    ensures
        total_ordering(leq()),
{
}

/// Sorting keeps the elements and puts them in order.
pub proof fn lemma_sorted(p: Seq<nat>)
    ensures
        sorted(p).to_multiset() == p.to_multiset(),
        ascending(sorted(p)),
        sorted(p).len() == p.len(),
{
    broadcast use group_to_multiset_ensures;

    lemma_leq_total();
    p.lemma_sort_by_ensures(leq());
    let q: Seq<nat> = sorted(p);
    assert forall|i: int, j: int| 0 <= i <= j < q.len() implies q[i] <= q[j] by {
        assert(leq()(q[i], q[j]));
    }
    assert(q.len() == q.to_multiset().len());
}

/// A sequence in order is the sorted order of its elements.
pub proof fn lemma_sorted_unique_order(p: Seq<nat>, q: Seq<nat>)
    requires
        ascending(q),
        q.to_multiset() == p.to_multiset(),
    ensures
        q == sorted(p),
{
    lemma_sorted(p);
    lemma_leq_total();
    assert(sorted_by(q, leq()));
    assert(sorted_by(sorted(p), leq()));
    lemma_sorted_unique(q, sorted(p), leq());
}

/// Sorting forgets the order in which the elements came.
pub proof fn lemma_sorted_permuted(p: Seq<nat>, q: Seq<nat>)
    requires
        p.to_multiset() == q.to_multiset(),
    ensures
        sorted(p) == sorted(q),
{
    lemma_sorted(p);
    lemma_sorted_unique_order(q, sorted(p));
}

/// Rearranging cells rearranges the indices that they store.
pub proof fn lemma_vals_permuted<T: Cell>(v: Seq<T>, w: Seq<T>)
    requires
        v.to_multiset() == w.to_multiset(),
    ensures
        vals(v).to_multiset() == vals(w).to_multiset(),
        v.len() == w.len(),
    decreases v.len(),
{
    broadcast use group_to_multiset_ensures;

    assert(v.len() == v.to_multiset().len());
    assert(w.len() == w.to_multiset().len());
    if v.len() == 0 {
        assert(vals(v) =~= vals(w));
    } else {
        let n: int = v.len() - 1;
        let x: T = v[n];
        assert(v.contains(x));
        assert(v.to_multiset().count(x) > 0);
        assert(w.contains(x));
        let i: int = choose|i: int| 0 <= i < w.len() && w[i] == x;
        to_multiset_remove(v, n);
        to_multiset_remove(w, i);
        lemma_vals_permuted(v.remove(n), w.remove(i));
        assert(vals(v.remove(n)) =~= vals(v).remove(n));
        assert(vals(w.remove(i)) =~= vals(w).remove(i));
        to_multiset_remove(vals(v), n);
        to_multiset_remove(vals(w), i);
        assert(vals(v).contains(x.val())) by {
            assert(vals(v)[n] == x.val());
        }
        assert(vals(w).contains(x.val())) by {
            assert(vals(w)[i] == x.val());
        }
        assert(vals(v).to_multiset() =~= vals(v).remove(n).to_multiset().insert(x.val()));
        assert(vals(w).to_multiset() =~= vals(w).remove(i).to_multiset().insert(x.val()));
    }
}

/// A sorted rearrangement of cells holds the sorted order of their indices.
pub proof fn lemma_sorted_vals<T: Cell>(v: Seq<T>, w: Seq<T>)
    requires
        v.to_multiset() == w.to_multiset(),
        forall|i: int, j: int| 0 <= i <= j < w.len() ==> #[trigger] w[i].val() <= #[trigger] w[j].val(),
    ensures
        vals(w) == sorted(vals(v)),
        v.len() == w.len(),
{
    lemma_vals_permuted(v, w);
    let q: Seq<nat> = vals(w);
    assert forall|i: int, j: int| 0 <= i <= j < q.len() implies q[i] <= q[j] by {
        assert(w[i].val() <= w[j].val());
    }
    lemma_sorted_unique_order(vals(v), q);
}

/// How often an element is selected.
pub proof fn lemma_select_count(p: Seq<nat>, key: spec_fn(nat) -> nat, k: nat, x: nat)
    ensures
        select(p, key, k).to_multiset().count(x) == if key(x) == k {
            p.to_multiset().count(x)
        } else {
            0
        },
    decreases p.len(),
{
    broadcast use group_to_multiset_ensures;

    if p.len() == 0 {
        assert(select(p, key, k) =~= p);
        assert(p.to_multiset().count(x) == 0) by {
            assert(!p.contains(x));
        }
    } else {
        let q: Seq<nat> = p.drop_last();
        lemma_select_count(q, key, k, x);
        assert(p =~= q.push(p.last()));
        to_multiset_build(q, p.last());
        to_multiset_build(select(q, key, k), p.last());
    }
}

/// Selecting commutes with rearranging.
pub proof fn lemma_select_permuted(p: Seq<nat>, q: Seq<nat>, key: spec_fn(nat) -> nat, k: nat)
    requires
        p.to_multiset() == q.to_multiset(),
    ensures
        select(p, key, k).to_multiset() == select(q, key, k).to_multiset(),
{
    assert forall|x: nat|
        select(p, key, k).to_multiset().count(x) == select(q, key, k).to_multiset().count(x) by {
        lemma_select_count(p, key, k, x);
        lemma_select_count(q, key, k, x);
    }
    assert(select(p, key, k).to_multiset() =~= select(q, key, k).to_multiset());
}

/// Selecting from a concatenation.
pub proof fn lemma_select_concat(a: Seq<nat>, b: Seq<nat>, key: spec_fn(nat) -> nat, k: nat)
    ensures
        select(a + b, key, k) == select(a, key, k) + select(b, key, k),
    decreases b.len(),
{
    if b.len() == 0 {
        assert(a + b =~= a);
        assert(select(a, key, k) + select(b, key, k) =~= select(a, key, k));
    } else {
        let c: Seq<nat> = b.drop_last();
        lemma_select_concat(a, c, key, k);
        assert((a + b).drop_last() =~= a + c);
        assert((a + b).last() == b.last());
        assert(select(a, key, k) + select(c, key, k).push(b.last()) =~= (select(a, key, k) + select(c, key, k)).push(
            b.last(),
        ));
    }
}

/// What is selected is there, and has the key.
pub proof fn lemma_select_contains(p: Seq<nat>, key: spec_fn(nat) -> nat, k: nat)
    ensures
        select(p, key, k).len() <= p.len(),
        forall|x: nat| #[trigger] select(p, key, k).contains(x) <==> p.contains(x) && key(x) == k,
{
    broadcast use group_to_multiset_ensures;

    assert forall|x: nat| #[trigger] select(p, key, k).contains(x) <==> p.contains(x) && key(x) == k by {
        lemma_select_count(p, key, k, x);
        assert(select(p, key, k).contains(x) <==> select(p, key, k).to_multiset().count(x) > 0);
        assert(p.contains(x) <==> p.to_multiset().count(x) > 0);
    }
    lemma_select_len(p, key, k);
}

/// No more is selected than there is.
pub proof fn lemma_select_len(p: Seq<nat>, key: spec_fn(nat) -> nat, k: nat)
    ensures
        select(p, key, k).len() <= p.len(),
    decreases p.len(),
{
    if p.len() > 0 {
        lemma_select_len(p.drop_last(), key, k);
    }
}

/// Selecting everything.
pub proof fn lemma_select_all(p: Seq<nat>, key: spec_fn(nat) -> nat, k: nat)
    requires
        forall|i: int| 0 <= i < p.len() ==> key(#[trigger] p[i]) == k,
    ensures
        select(p, key, k) == p,
    decreases p.len(),
{
    if p.len() > 0 {
        let q: Seq<nat> = p.drop_last();
        assert forall|i: int| 0 <= i < q.len() implies key(#[trigger] q[i]) == k by {
            assert(q[i] == p[i]);
        }
        lemma_select_all(q, key, k);
        assert(q.push(p.last()) =~= p);
    } else {
        assert(select(p, key, k) =~= p);
    }
}

/// One more element adds to the selection of its key only.
proof fn lemma_in_push(p: Seq<nat>, x: nat, key: spec_fn(nat) -> nat, lo: nat, hi: nat)
    ensures
        selected_in(p.push(x), key, lo, hi) == selected_in(p, key, lo, hi) + if lo <= key(x) < hi {
            1nat
        } else {
            0
        },
        collisions_in(p.push(x), key, lo, hi) == collisions_in(p, key, lo, hi) + if lo <= key(x) < hi && p.contains(x) {
            1nat
        } else {
            0
        },
    decreases hi,
{
    if hi > lo {
        let k: nat = (hi - 1) as nat;
        lemma_in_push(p, x, key, lo, k);
        assert(p.push(x).drop_last() =~= p);
        lemma_collisions_push(select(p, key, k), x);
        lemma_select_contains(p, key, k);
    }
}

/// A selection of no elements.
proof fn lemma_in_empty(key: spec_fn(nat) -> nat, lo: nat, hi: nat)
    ensures
        selected_in(Seq::empty(), key, lo, hi) == 0,
        collisions_in(Seq::empty(), key, lo, hi) == 0,
    decreases hi,
{
    if hi > lo {
        lemma_in_empty(key, lo, (hi - 1) as nat);
        lemma_collisions_bound(Seq::empty());
    }
}

/// Selections over a range of keys have no more elements than there are, nor more collisions than
/// elements.
pub proof fn lemma_in_bound(p: Seq<nat>, key: spec_fn(nat) -> nat, lo: nat, hi: nat)
    ensures
        selected_in(p, key, lo, hi) <= p.len(),
        collisions_in(p, key, lo, hi) <= selected_in(p, key, lo, hi),
    decreases p.len(),
{
    if p.len() == 0 {
        assert(p =~= Seq::empty());
        lemma_in_empty(key, lo, hi);
    } else {
        let q: Seq<nat> = p.drop_last();
        lemma_in_bound(q, key, lo, hi);
        assert(p =~= q.push(p.last()));
        lemma_in_push(q, p.last(), key, lo, hi);
    }
}

/// Over more keys there is no less.
pub proof fn lemma_in_monotone(p: Seq<nat>, key: spec_fn(nat) -> nat, lo: nat, mid: nat, hi: nat)
    requires
        mid <= hi,
    ensures
        selected_in(p, key, lo, mid) <= selected_in(p, key, lo, hi),
        collisions_in(p, key, lo, mid) <= collisions_in(p, key, lo, hi),
    decreases hi,
{
    if mid < hi && lo < hi {
        lemma_in_monotone(p, key, lo, mid, (hi - 1) as nat);
    }
}

/// Equal elements have equal keys: the collisions of the selections over all keys are the
/// collisions of the whole, and every element is in one selection.
pub proof fn lemma_partition(p: Seq<nat>, key: spec_fn(nat) -> nat, n: nat)
    requires
        forall|i: int| 0 <= i < p.len() ==> key(#[trigger] p[i]) < n,
    ensures
        collisions_in(p, key, 0, n) == collisions(p),
        selected_in(p, key, 0, n) == p.len(),
    decreases p.len(),
{
    if p.len() == 0 {
        assert(p =~= Seq::empty());
        lemma_in_empty(key, 0, n);
        lemma_collisions_bound(p);
    } else {
        let q: Seq<nat> = p.drop_last();
        assert forall|i: int| 0 <= i < q.len() implies key(#[trigger] q[i]) < n by {
            assert(q[i] == p[i]);
        }
        lemma_partition(q, key, n);
        assert(p =~= q.push(p.last()));
        assert(key(p[p.len() - 1]) < n);
        lemma_in_push(q, p.last(), key, 0, n);
        lemma_collisions_push(q, p.last());
    }
}

/// Collisions over a range of keys do not depend on the order of the elements.
pub proof fn lemma_in_permuted(p: Seq<nat>, q: Seq<nat>, key: spec_fn(nat) -> nat, lo: nat, hi: nat)
    requires
        p.to_multiset() == q.to_multiset(),
    ensures
        collisions_in(p, key, lo, hi) == collisions_in(q, key, lo, hi),
        selected_in(p, key, lo, hi) == selected_in(q, key, lo, hi),
    decreases hi,
{
    if hi > lo {
        let k: nat = (hi - 1) as nat;
        lemma_in_permuted(p, q, key, lo, k);
        lemma_select_permuted(p, q, key, k);
        lemma_collisions_permuted(select(p, key, k), select(q, key, k));
    }
}

/// A range of keys splits: the counts of its parts add up.
pub proof fn lemma_in_split(p: Seq<nat>, key: spec_fn(nat) -> nat, lo: nat, mid: nat, hi: nat)
    requires
        lo <= mid <= hi,
    ensures
        collisions_in(p, key, lo, hi) == collisions_in(p, key, lo, mid) + collisions_in(p, key, mid, hi),
        selected_in(p, key, lo, hi) == selected_in(p, key, lo, mid) + selected_in(p, key, mid, hi),
    decreases hi,
{
    if hi > mid {
        lemma_in_split(p, key, lo, mid, (hi - 1) as nat);
    }
}

/// The collisions of a sequence are its repetitions: as many as there are places at which an element
/// stands that stood before.
pub proof fn lemma_collisions_repeats(p: Seq<nat>)
    ensures
        collisions(p) == Set::new(|i: int| 0 <= i < p.len() && p.take(i).contains(p[i])).len(),
        Set::new(|i: int| 0 <= i < p.len() && p.take(i).contains(p[i])).finite(),
    decreases p.len(),
{
    let all: Set<int> = Set::new(|i: int| 0 <= i < p.len() && p.take(i).contains(p[i]));
    if p.len() == 0 {
        assert(all =~= Set::empty());
        lemma_collisions_bound(p);
    } else {
        let q: Seq<nat> = p.drop_last();
        let n: int = p.len() - 1;
        lemma_collisions_repeats(q);
        let some: Set<int> = Set::new(|i: int| 0 <= i < q.len() && q.take(i).contains(q[i]));
        assert(p =~= q.push(p.last()));
        lemma_collisions_push(q, p.last());
        assert(p.take(n) =~= q);
        assert forall|i: int| 0 <= i < n implies (#[trigger] all.contains(i) == some.contains(i)) by {
            assert(p.take(i) =~= q.take(i));
        }
        if q.contains(p.last()) {
            assert(all =~= some.insert(n));
        } else {
            assert(all =~= some);
        }
    }
}

/// Over a range of keys, the elements selected are those whose keys are in it, and the collisions are
/// those of them that stood before.
pub proof fn lemma_in_places(p: Seq<nat>, key: spec_fn(nat) -> nat, lo: nat, hi: nat)
    ensures
        selected_in(p, key, lo, hi) == Set::new(|i: int| 0 <= i < p.len() && lo <= key(p[i]) < hi).len(),
        collisions_in(p, key, lo, hi) == Set::new(
            |i: int| 0 <= i < p.len() && lo <= key(p[i]) < hi && p.take(i).contains(p[i]),
        ).len(),
        Set::new(|i: int| 0 <= i < p.len() && lo <= key(p[i]) < hi).finite(),
        Set::new(|i: int| 0 <= i < p.len() && lo <= key(p[i]) < hi && p.take(i).contains(p[i])).finite(),
    decreases p.len(),
{
    let all: Set<int> = Set::new(|i: int| 0 <= i < p.len() && lo <= key(p[i]) < hi);
    let again: Set<int> = Set::new(
        |i: int| 0 <= i < p.len() && lo <= key(p[i]) < hi && p.take(i).contains(p[i]),
    );
    if p.len() == 0 {
        assert(p =~= Seq::empty());
        lemma_in_empty(key, lo, hi);
        assert(all =~= Set::empty());
        assert(again =~= Set::empty());
    } else {
        let q: Seq<nat> = p.drop_last();
        let n: int = p.len() - 1;
        lemma_in_places(q, key, lo, hi);
        let all_q: Set<int> = Set::new(|i: int| 0 <= i < q.len() && lo <= key(q[i]) < hi);
        let again_q: Set<int> = Set::new(
            |i: int| 0 <= i < q.len() && lo <= key(q[i]) < hi && q.take(i).contains(q[i]),
        );
        assert(p =~= q.push(p.last()));
        lemma_in_push(q, p.last(), key, lo, hi);
        assert(p.take(n) =~= q);
        assert forall|i: int| 0 <= i < n implies (#[trigger] again.contains(i) == again_q.contains(i)) by {
            assert(p.take(i) =~= q.take(i));
        }
        if lo <= key(p.last()) < hi {
            assert(all =~= all_q.insert(n));
            if q.contains(p.last()) {
                assert(again =~= again_q.insert(n));
            } else {
                assert(again =~= again_q);
            }
        } else {
            assert(all =~= all_q);
            assert(again =~= again_q);
        }
    }
}

/// A selection is what is left when the other keys are filtered out, in the same order.
pub proof fn lemma_select_filter(p: Seq<nat>, key: spec_fn(nat) -> nat, k: nat)
    ensures
        select(p, key, k) == p.filter(|x: nat| key(x) == k),
    decreases p.len(),
{
    reveal(Seq::filter);
    if p.len() > 0 {
        lemma_select_filter(p.drop_last(), key, k);
    } else {
        assert(select(p, key, k) =~= p.filter(|x: nat| key(x) == k));
    }
}

/// The interval of a number: those of length 2^shift follow each other from zero on.
pub proof fn lemma_top_key(shift: nat, x: nat, k: nat)
    ensures
        top_key(shift)(x) == k <==> k * pow2(shift) <= x < (k + 1) * pow2(shift),
{
    lemma_pow2_pos(shift);
    let m: int = pow2(shift) as int;
    let q: int = x as int / m;
    lemma_fundamental_div_mod(x as int, m);
    lemma_mod_bound(x as int, m);
    assert(k * m <= x < (k + 1) * m <==> k == q) by (nonlinear_arith)
        requires
            x == m * q + x as int % m,
            0 <= x as int % m < m,
    ;
}

/// The class of a number: its low bits, which differ from it by a multiple of 2^b.
pub proof fn lemma_low_key(b: nat, x: nat)
    ensures
        low_key(b)(x) < pow2(b),
        exists|q: nat| x == #[trigger] (q * pow2(b)) + low_key(b)(x),
{
    lemma_pow2_pos(b);
    lemma_fundamental_div_mod(x as int, pow2(b) as int);
    lemma_mod_bound(x as int, pow2(b) as int);
    lemma_div_pos_is_pos(x as int, pow2(b) as int);
    let q: nat = x / pow2(b);
    assert(q * pow2(b) == pow2(b) * q) by (nonlinear_arith);
    assert(x == q * pow2(b) + low_key(b)(x));
}

/// In order means that no element is less than the one before; cells are in order when their indices
/// are.
pub proof fn lemma_ascending_steps<T: Cell>(v: Seq<T>)
    ensures
        ascending(vals(v)) <==> (forall|i: int| 0 <= i < v.len() - 1 ==> (#[trigger] v[i]).val() <= v[i + 1].val()),
        crate::cell::ascending(v) <==> ascending(vals(v)),
        vals(v).len() == v.len(),
        forall|i: int| 0 <= i < v.len() ==> vals(v)[i] == (#[trigger] v[i]).val(),
{
    let p: Seq<nat> = vals(v);
    if ascending(p) {
        assert forall|i: int| 0 <= i < v.len() - 1 implies (#[trigger] v[i]).val() <= v[i + 1].val() by {
            assert(p[i] <= p[i + 1]);
        }
        assert forall|i: int, j: int| 0 <= i <= j < v.len() implies #[trigger] v[i].val() <= #[trigger] v[j].val() by {
            assert(p[i] <= p[j]);
        }
    }
    if crate::cell::ascending(v) {
        assert forall|i: int, j: int| 0 <= i <= j < p.len() implies p[i] <= p[j] by {
            assert(v[i].val() <= v[j].val());
        }
    }
    if forall|i: int| 0 <= i < v.len() - 1 ==> (#[trigger] v[i]).val() <= v[i + 1].val() {
        assert forall|i: int, j: int| 0 <= i <= j < p.len() implies p[i] <= p[j] by {
            lemma_steps_up(v, i, j);
        }
    }
}

/// Elements that are never less than the one before are never less than an earlier one.
proof fn lemma_steps_up<T: Cell>(v: Seq<T>, i: int, j: int)
    requires
        0 <= i <= j < v.len(),
        forall|k: int| 0 <= k < v.len() - 1 ==> (#[trigger] v[k]).val() <= v[k + 1].val(),
    ensures
        v[i].val() <= v[j].val(),
    decreases j - i,
{
    if i < j {
        lemma_steps_up(v, i, j - 1);
        assert(v[j - 1].val() <= v[j - 1 + 1].val());
    }
}

/// The elements that equal their predecessor, by the places at which they stand.
pub proof fn lemma_adjacent_places(p: Seq<nat>)
    ensures
        adjacent(p) == Set::new(|i: int| 0 < i < p.len() && p[i - 1] == p[i]).len(),
        Set::new(|i: int| 0 < i < p.len() && p[i - 1] == p[i]).finite(),
    decreases p.len(),
{
    let all: Set<int> = Set::new(|i: int| 0 < i < p.len() && p[i - 1] == p[i]);
    if p.len() < 2 {
        assert(all =~= Set::empty());
    } else {
        let q: Seq<nat> = p.drop_last();
        let n: int = p.len() - 1;
        lemma_adjacent_places(q);
        let some: Set<int> = Set::new(|i: int| 0 < i < q.len() && q[i - 1] == q[i]);
        if p[n - 1] == p[n] {
            assert(all =~= some.insert(n));
        } else {
            assert(all =~= some);
        }
    }
}

} // verus!
