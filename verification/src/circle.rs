//! Points on a circle of cells: the spacings between neighbours, and how they come about when the
//! points are sorted one interval at a time.
use vstd::arithmetic::div_mod::*;
use vstd::arithmetic::power2::*;
use vstd::prelude::*;
use vstd::seq_lib::*;

use crate::tally;

verus! {

/// Each element less the one before, from the second one on.
pub open spec fn gaps(s: Seq<nat>) -> Seq<nat> {
    if s.len() == 0 {
        Seq::empty()
    } else {
        Seq::new((s.len() - 1) as nat, |i: int| (s[i + 1] - s[i]) as nat)
    }
}

/// The spacings of sorted points on a circle of `cells` cells: each point less the one before, and
/// for the first one the way from the last point round the circle.
pub open spec fn spacings(s: Seq<nat>, cells: nat) -> Seq<nat> {
    Seq::new(
        s.len(),
        |i: int|
            if i == 0 {
                (cells - s.last() + s[0]) as nat
            } else {
                (s[i] - s[i - 1]) as nat
            },
    )
}

/// The spacings, less the one round the whole circle that there is when all points coincide.
pub open spec fn proper_spacings(s: Seq<nat>, cells: nat) -> Seq<nat> {
    if s.len() == 0 || s[0] == s.last() {
        gaps(s)
    } else {
        gaps(s).push((cells - s.last() + s[0]) as nat)
    }
}

/// The birthday-spacings statistic: the collisions of the spacings of the sorted points.
pub open spec fn birthday(p: Seq<nat>, cells: nat) -> nat {
    tally::collisions(spacings(tally::sorted(p), cells))
}

/// The points below the interval `k`.
pub open spec fn below(p: Seq<nat>, shift: nat, k: nat) -> Seq<nat>
    decreases p.len(),
{
    if p.len() == 0 {
        Seq::empty()
    } else if p.last() / pow2(shift) < k {
        below(p.drop_last(), shift, k).push(p.last())
    } else {
        below(p.drop_last(), shift, k)
    }
}

/// The part of the birthday-spacings statistic that the spacing classes `lo..hi` modulo 2^b give.
pub open spec fn birthday_in(p: Seq<nat>, cells: nat, b: nat, lo: nat, hi: nat) -> nat {
    tally::collisions_in(spacings(tally::sorted(p), cells), tally::low_key(b), lo, hi)
}

/// The spacings as they are stored: when all points coincide, the spacing round the whole circle,
/// which may not fit the storage, is replaced by a one.
pub open spec fn stored_spacings(s: Seq<nat>, cells: nat) -> Seq<nat> {
    if s.len() > 0 && s[0] == s.last() {
        spacings(s, cells).update(0, 1)
    } else {
        spacings(s, cells)
    }
}

/// How often a point lies below an interval.
proof fn lemma_below_count(p: Seq<nat>, shift: nat, k: nat, x: nat)
    ensures
        below(p, shift, k).to_multiset().count(x) == if x / pow2(shift) < k {
            p.to_multiset().count(x)
        } else {
            0
        },
    decreases p.len(),
{
    broadcast use group_to_multiset_ensures;

    if p.len() == 0 {
        assert(below(p, shift, k) =~= p);
        assert(p.to_multiset().count(x) == 0) by {
            assert(!p.contains(x));
        }
    } else {
        let q: Seq<nat> = p.drop_last();
        lemma_below_count(q, shift, k, x);
        assert(p =~= q.push(p.last()));
        to_multiset_build(q, p.last());
        to_multiset_build(below(q, shift, k), p.last());
    }
}

/// The sorted points below the next interval are those below this one, then those in it.
pub proof fn lemma_below_step(p: Seq<nat>, shift: nat, k: nat)
    ensures
        tally::sorted(below(p, shift, k + 1)) == tally::sorted(below(p, shift, k)) + tally::sorted(
            tally::select(p, tally::top_key(shift), k),
        ),
{
    broadcast use group_to_multiset_ensures;

    let key: spec_fn(nat) -> nat = tally::top_key(shift);
    let lower: Seq<nat> = below(p, shift, k);
    let upper: Seq<nat> = tally::select(p, key, k);
    let a: Seq<nat> = tally::sorted(lower);
    let b: Seq<nat> = tally::sorted(upper);
    tally::lemma_sorted(lower);
    tally::lemma_sorted(upper);
    lemma_multiset_commutative(a, b);
    assert forall|x: nat|
        (a + b).to_multiset().count(x) == below(p, shift, k + 1).to_multiset().count(x) by {
        lemma_below_count(p, shift, k, x);
        lemma_below_count(p, shift, k + 1, x);
        tally::lemma_select_count(p, key, k, x);
        assert(key(x) == x / pow2(shift));
    }
    assert((a + b).to_multiset() =~= below(p, shift, k + 1).to_multiset());
    let c: Seq<nat> = a + b;
    lemma_pow2_pos(shift);
    assert forall|i: int, j: int| 0 <= i <= j < c.len() implies c[i] <= c[j] by {
        if i < a.len() && j >= a.len() {
            let x: nat = c[i];
            let y: nat = c[j];
            assert(a[i] == x && b[j - a.len()] == y);
            assert(a.contains(x) && b.contains(y));
            assert(a.to_multiset().count(x) > 0 && b.to_multiset().count(y) > 0);
            lemma_below_count(p, shift, k, x);
            tally::lemma_select_count(p, key, k, y);
            assert(key(y) == y / pow2(shift));
            if x > y {
                lemma_div_is_ordered(y as int, x as int, pow2(shift) as int);
            }
        } else if i < a.len() {
            assert(a[i] <= a[j]);
        } else {
            assert(b[i - a.len()] <= b[j - a.len()]);
        }
    }
    tally::lemma_sorted_unique_order(below(p, shift, k + 1), c);
}

/// No point lies below the first interval.
pub proof fn lemma_below_none(p: Seq<nat>, shift: nat)
    ensures
        below(p, shift, 0) == Seq::<nat>::empty(),
        tally::sorted(below(p, shift, 0)) == Seq::<nat>::empty(),
    decreases p.len(),
{
    lemma_pow2_pos(shift);
    if p.len() > 0 {
        lemma_below_none(p.drop_last(), shift);
        lemma_div_pos_is_pos(p.last() as int, pow2(shift) as int);
    }
    assert(below(p, shift, 0) =~= Seq::<nat>::empty());
    tally::lemma_sorted(below(p, shift, 0));
    assert(tally::sorted(below(p, shift, 0)) =~= Seq::<nat>::empty());
}

/// All points lie below the end of the last interval.
pub proof fn lemma_below_all(p: Seq<nat>, shift: nat, n: nat)
    requires
        forall|i: int| 0 <= i < p.len() ==> #[trigger] p[i] / pow2(shift) < n,
    ensures
        below(p, shift, n) == p,
    decreases p.len(),
{
    if p.len() > 0 {
        let q: Seq<nat> = p.drop_last();
        assert forall|i: int| 0 <= i < q.len() implies #[trigger] q[i] / pow2(shift) < n by {
            assert(q[i] == p[i]);
        }
        lemma_below_all(q, shift, n);
        assert(q.push(p.last()) =~= p);
        assert(p[p.len() - 1] / pow2(shift) < n);
    } else {
        assert(below(p, shift, n) =~= p);
    }
}

/// The gaps of a concatenation: those of the parts, and the one between them.
pub proof fn lemma_gaps_concat(a: Seq<nat>, b: Seq<nat>)
    requires
        b.len() > 0,
    ensures
        a.len() == 0 ==> gaps(a + b) == gaps(b),
        a.len() > 0 ==> gaps(a + b) == gaps(a) + seq![(b[0] - a.last()) as nat] + gaps(b),
{
    if a.len() == 0 {
        assert(a + b =~= b);
    } else {
        let c: Seq<nat> = a + b;
        let g: Seq<nat> = gaps(a) + seq![(b[0] - a.last()) as nat] + gaps(b);
        assert(gaps(c).len() == g.len());
        assert forall|i: int| 0 <= i < g.len() implies gaps(c)[i] == g[i] by {
            if i < a.len() - 1 {
                assert(c[i] == a[i] && c[i + 1] == a[i + 1]);
            } else if i == a.len() - 1 {
                assert(c[i] == a.last() && c[i + 1] == b[0]);
            } else {
                assert(c[i] == b[i - a.len()] && c[i + 1] == b[i + 1 - a.len()]);
            }
        }
        assert(gaps(c) =~= g);
    }
}

/// Neighbours that coincide with the ends are no distance apart.
proof fn lemma_gaps_degenerate(s: Seq<nat>)
    requires
        s.len() > 0,
        tally::ascending(s),
        s[0] == s.last(),
    ensures
        forall|i: int| 0 <= i < gaps(s).len() ==> gaps(s)[i] == 0,
{
    assert forall|i: int| 0 <= i < gaps(s).len() implies gaps(s)[i] == 0 by {
        assert(s[0] <= s[i] && s[i] <= s[s.len() - 1]);
        assert(s[0] <= s[i + 1] && s[i + 1] <= s[s.len() - 1]);
    }
}

/// A nonzero element in front of zeros collides with none of them.
proof fn lemma_front(w: nat, z: Seq<nat>)
    requires
        w > 0,
        forall|i: int| 0 <= i < z.len() ==> z[i] == 0,
    ensures
        tally::collisions(seq![w] + z) == tally::collisions(z),
{
    let q: Seq<nat> = seq![w] + z;
    assert forall|y: nat| #[trigger] q.contains(y) <==> z.contains(y) || y == w by {
        if z.contains(y) {
            let i: int = choose|i: int| 0 <= i < z.len() && z[i] == y;
            assert(q[i + 1] == y);
        }
        if y == w {
            assert(q[0] == y);
        }
        if q.contains(y) && y != w {
            let i: int = choose|i: int| 0 <= i < q.len() && q[i] == y;
            assert(z[i - 1] == y);
        }
    }
    tally::lemma_collisions_insert(z, w, q);
}

/// The spacings are the gaps with the way round the circle in front.
proof fn lemma_spacings_front(s: Seq<nat>, cells: nat)
    requires
        s.len() > 0,
    ensures
        spacings(s, cells) == seq![(cells - s.last() + s[0]) as nat] + gaps(s),
{
    assert(spacings(s, cells) =~= seq![(cells - s.last() + s[0]) as nat] + gaps(s));
}

/// The spacing round the whole circle collides with no other one, so that it may be left out of
/// its class.
pub proof fn lemma_proper(s: Seq<nat>, cells: nat, key: spec_fn(nat) -> nat, j: nat)
    requires
        tally::ascending(s),
        forall|i: int| 0 <= i < s.len() ==> #[trigger] s[i] < cells,
    ensures
        tally::collisions(tally::select(spacings(s, cells), key, j)) == tally::collisions(
            tally::select(proper_spacings(s, cells), key, j),
        ),
{
    broadcast use group_to_multiset_ensures;

    if s.len() == 0 {
        assert(spacings(s, cells) =~= proper_spacings(s, cells));
    } else {
        let w: nat = (cells - s.last() + s[0]) as nat;
        let z: Seq<nat> = gaps(s);
        lemma_spacings_front(s, cells);
        if s[0] == s.last() {
            lemma_gaps_degenerate(s);
            let front: Seq<nat> = seq![w];
            reveal_with_fuel(tally::select, 2);
            tally::lemma_select_concat(front, z, key, j);
            assert(front.drop_last() =~= Seq::<nat>::empty());
            let y: Seq<nat> = tally::select(z, key, j);
            tally::lemma_select_contains(z, key, j);
            assert forall|i: int| 0 <= i < y.len() implies y[i] == 0 by {
                assert(y.contains(y[i]));
                assert(z.contains(y[i]));
            }
            if key(w) == j {
                assert(tally::select(front, key, j) =~= front);
                assert(s[0] < cells);
                lemma_front(w, y);
            } else {
                assert(tally::select(front, key, j) =~= Seq::<nat>::empty());
                assert(Seq::<nat>::empty() + y =~= y);
            }
        } else {
            lemma_multiset_commutative(seq![w], z);
            lemma_multiset_commutative(z, seq![w]);
            assert(z.push(w) =~= z + seq![w]);
            assert((seq![w] + z).to_multiset() =~= (z + seq![w]).to_multiset());
            tally::lemma_select_permuted(seq![w] + z, z.push(w), key, j);
            tally::lemma_collisions_permuted(
                tally::select(seq![w] + z, key, j),
                tally::select(z.push(w), key, j),
            );
        }
    }
}

/// The stand-in for the spacing round the whole circle leaves the count as it is.
pub proof fn lemma_stored(s: Seq<nat>, cells: nat)
    requires
        tally::ascending(s),
        forall|i: int| 0 <= i < s.len() ==> #[trigger] s[i] < cells,
    ensures
        tally::collisions(stored_spacings(s, cells)) == tally::collisions(spacings(s, cells)),
{
    if s.len() > 0 && s[0] == s.last() {
        assert(s[0] < cells);
        lemma_gaps_degenerate(s);
        lemma_spacings_front(s, cells);
        lemma_front(cells, gaps(s));
        lemma_front(1, gaps(s));
        assert(stored_spacings(s, cells) =~= seq![1nat] + gaps(s));
        assert(spacings(s, cells) =~= seq![cells] + gaps(s));
    } else if s.len() == 0 {
        assert(stored_spacings(s, cells) =~= spacings(s, cells));
    }
}

/// The spacing classes together give the whole statistic.
pub proof fn lemma_birthday_classes(p: Seq<nat>, cells: nat, b: nat)
    ensures
        birthday_in(p, cells, b, 0, pow2(b)) == birthday(p, cells),
{
    let q: Seq<nat> = spacings(tally::sorted(p), cells);
    let key: spec_fn(nat) -> nat = tally::low_key(b);
    lemma_pow2_pos(b);
    assert forall|i: int| 0 <= i < q.len() implies key(#[trigger] q[i]) < pow2(b) by {
        lemma_mod_bound(q[i] as int, pow2(b) as int);
    }
    tally::lemma_partition(q, key, pow2(b));
}

/// The statistic does not depend on the order in which the points come.
pub proof fn lemma_birthday_permuted(p: Seq<nat>, q: Seq<nat>, cells: nat)
    requires
        p.to_multiset() == q.to_multiset(),
    ensures
        birthday(p, cells) == birthday(q, cells),
{
    tally::lemma_sorted_permuted(p, q);
}

/// Going from each sorted point by its spacing leads to the next one, and from the last one round the
/// circle to the first.
pub proof fn lemma_spacings_lead_on(s: Seq<nat>, cells: nat)
    requires
        tally::ascending(s),
        s.len() > 0,
        s.last() < cells,
    ensures
        spacings(s, cells).len() == s.len(),
        s.last() + spacings(s, cells)[0] == cells + s[0],
        forall|i: int| 0 < i < s.len() ==> s[i - 1] + #[trigger] spacings(s, cells)[i] == s[i],
        gaps(s).len() == s.len() - 1,
        forall|i: int| 0 <= i < s.len() - 1 ==> s[i] + #[trigger] gaps(s)[i] == s[i + 1],
        s[0] != s.last() ==> stored_spacings(s, cells) == spacings(s, cells),
        s[0] == s.last() ==> stored_spacings(s, cells) == seq![1nat] + gaps(s),
        s[0] != s.last() ==> proper_spacings(s, cells) == gaps(s).push(spacings(s, cells)[0]),
        s[0] == s.last() ==> proper_spacings(s, cells) == gaps(s),
{
    assert forall|i: int| 0 < i < s.len() implies s[i - 1] + #[trigger] spacings(s, cells)[i] == s[i] by {
        assert(s[i - 1] <= s[i]);
    }
    assert forall|i: int| 0 <= i < s.len() - 1 implies s[i] + #[trigger] gaps(s)[i] == s[i + 1] by {
        assert(s[i] <= s[i + 1]);
    }
    if s[0] == s.last() {
        assert(stored_spacings(s, cells) =~= seq![1nat] + gaps(s));
    }
}

/// The spacings go round the circle once: together they are as long as it is.
pub proof fn lemma_spacings_sum(s: Seq<nat>, cells: nat, k: nat)
    requires
        tally::ascending(s),
        s.len() > 0,
        s.last() < cells,
        0 < k <= s.len(),
    ensures
        spacings(s, cells).take(k as int).fold_left(0nat, |a: nat, x: nat| a + x) == cells - s.last() + s[k - 1],
    decreases k,
{
    let f: spec_fn(nat, nat) -> nat = |a: nat, x: nat| a + x;
    let q: Seq<nat> = spacings(s, cells).take(k as int);
    lemma_spacings_lead_on(s, cells);
    assert(q.last() == spacings(s, cells)[k - 1]);
    assert(q.drop_last() =~= spacings(s, cells).take(k - 1));
    if k == 1 {
        assert(q.drop_last() =~= Seq::<nat>::empty());
        assert(q.drop_last().fold_left(0nat, f) == 0);
    } else {
        lemma_spacings_sum(s, cells, (k - 1) as nat);
        assert(s[k - 2] + spacings(s, cells)[k - 1] == s[k - 1]);
    }
}

/// The statistic is the number of spacings that came before, and the part of it in some classes that of
/// those among them with low bits in the range: whatever `q` is, if it holds the points in order, and
/// whatever `d` is, if it holds the distances between them round the circle.
pub proof fn lemma_birthday_repeats(p: Seq<nat>, q: Seq<nat>, d: Seq<nat>, cells: nat, b: nat, lo: nat, hi: nat)
    requires
        q.to_multiset() == p.to_multiset(),
        forall|i: int| 0 < i < q.len() ==> q[i - 1] <= #[trigger] q[i],
        q.len() > 0 ==> q.last() < cells,
        d.len() == q.len(),
        q.len() > 0 ==> q.last() + d[0] == cells + q[0],
        forall|i: int| 0 < i < q.len() ==> q[i - 1] + #[trigger] d[i] == q[i],
    ensures
        birthday(p, cells) == Set::new(|i: int| 0 <= i < d.len() && d.take(i).contains(d[i])).len(),
        birthday_in(p, cells, b, lo, hi) == Set::new(
            |i: int| 0 <= i < d.len() && lo <= d[i] % pow2(b) < hi && d.take(i).contains(d[i]),
        ).len(),
{
    lemma_spacings_of(p, q, d, cells);
    let key: spec_fn(nat) -> nat = tally::low_key(b);
    tally::lemma_collisions_repeats(d);
    tally::lemma_in_places(d, key, lo, hi);
    assert(Set::new(|i: int| 0 <= i < d.len() && lo <= key(d[i]) < hi && d.take(i).contains(d[i])) =~= Set::new(
        |i: int| 0 <= i < d.len() && lo <= d[i] % pow2(b) < hi && d.take(i).contains(d[i]),
    ));
}

/// Elements that are never less than the one before are never less than an earlier one.
proof fn lemma_climbs(q: Seq<nat>, i: int, j: int)
    requires
        0 <= i <= j < q.len(),
        forall|k: int| 0 < k < q.len() ==> q[k - 1] <= #[trigger] q[k],
    ensures
        q[i] <= q[j],
    decreases j - i,
{
    if i < j {
        lemma_climbs(q, i, j - 1);
        assert(q[j - 1] <= q[j]);
    }
}

/// The points below an interval are those less than its start, in the same order.
pub proof fn lemma_below_filter(p: Seq<nat>, shift: nat, k: nat)
    ensures
        below(p, shift, k) == p.filter(|x: nat| x < k * pow2(shift)),
    decreases p.len(),
{
    reveal(Seq::filter);
    if p.len() > 0 {
        lemma_below_filter(p.drop_last(), shift, k);
        lemma_pow2_pos(shift);
        let (x, m): (int, int) = (p.last() as int, pow2(shift) as int);
        lemma_fundamental_div_mod(x, m);
        lemma_mod_bound(x, m);
        let q: int = x / m;
        assert(q < k <==> x < k * m) by (nonlinear_arith)
            requires
                x == m * q + x % m,
                0 <= x % m < m,
        ;
    } else {
        assert(below(p, shift, k) =~= p.filter(|x: nat| x < k * pow2(shift)));
    }
}

/// Points in order, and the distances between them round the circle, are what sorting and spacing give.
pub proof fn lemma_spacings_of(p: Seq<nat>, q: Seq<nat>, d: Seq<nat>, cells: nat)
    requires
        q.to_multiset() == p.to_multiset(),
        forall|i: int| 0 < i < q.len() ==> q[i - 1] <= #[trigger] q[i],
        q.len() > 0 ==> q.last() < cells,
        d.len() == q.len(),
        q.len() > 0 ==> q.last() + d[0] == cells + q[0],
        forall|i: int| 0 < i < q.len() ==> q[i - 1] + #[trigger] d[i] == q[i],
    ensures
        tally::sorted(p) == q,
        spacings(q, cells) == d,
{
    assert forall|i: int, j: int| 0 <= i <= j < q.len() implies q[i] <= q[j] by {
        lemma_climbs(q, i, j);
    }
    tally::lemma_sorted_unique_order(p, q);
    let e: Seq<nat> = spacings(q, cells);
    if q.len() > 0 {
        lemma_spacings_lead_on(q, cells);
        assert forall|i: int| 0 <= i < d.len() implies d[i] == e[i] by {
            if i > 0 {
                assert(q[i - 1] + d[i] == q[i]);
                assert(q[i - 1] + e[i] == q[i]);
            }
        }
    }
    assert(d =~= e);
}

} // verus!
