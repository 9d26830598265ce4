//! Spacing classes: the spacings with given low bits, collected while the points are sorted one
//! value interval after the other.
use vstd::arithmetic::power2::*;
use vstd::prelude::*;

use crate::birthday;
use crate::birthday::wrap_around;
use crate::cell;
use crate::cell::Cell;
use crate::circle;
use crate::collision;
use crate::common;
use crate::common::Cells;
use crate::fill;
use crate::orbit;
use crate::orbit::{share_lens, share_starts};
use crate::par;
use crate::par::{par_map, par_parts, split_regions};
use crate::progress::Event;
use crate::tally;

verus! {

/// The spacings of the class `j` modulo 2^b.
pub open spec fn class(p: Seq<nat>, cells: nat, b: nat, j: nat) -> Seq<nat> {
    tally::select(circle::proper_spacings(tally::sorted(p), cells), tally::low_key(b), j)
}

/// The spacings that an interval adds: those of its points, the first of which may have a
/// predecessor in an earlier interval.
pub open spec fn added(prev: Option<nat>, s: Seq<nat>) -> Seq<nat> {
    match prev {
        Some(x) => seq![(s[0] - x) as nat] + circle::gaps(s),
        None => circle::gaps(s),
    }
}

/// The last element, if any.
pub open spec fn last_of(s: Seq<nat>) -> Option<nat> {
    if s.len() == 0 {
        None
    } else {
        Some(s.last())
    }
}

/// The index that a cell stores, if there is one.
pub open spec fn val_of<T: Cell>(x: Option<T>) -> Option<nat> {
    match x {
        Some(y) => Some(y.val()),
        None => None,
    }
}

/// What the first `k` intervals of a class report.
pub open spec fn interval_events(
    p: Seq<nat>,
    key: spec_fn(nat) -> nat,
    of: nat,
    class: nat,
    filtering: bool,
    k: nat,
) -> Seq<Event>
    decreases k,
{
    if k == 0 {
        Seq::empty()
    } else {
        let q: Seq<nat> = tally::select(p, key, (k - 1) as nat);
        interval_events(p, key, of, class, filtering, (k - 1) as nat) + seq![
            Event::Interval { class: class as u64, interval: k as u64, of: of as u64 },
        ] + (if q.len() == 0 {
            seq![Event::IntervalEmpty]
        } else if filtering {
            seq![Event::Sorting, Event::Filtering, Event::IntervalDone { points: q.len() as usize }]
        } else {
            seq![Event::Sorting, Event::IntervalDone { points: q.len() as usize }]
        })
    }
}

/// What the classes `lo..hi` report.
pub open spec fn class_events(
    p: Seq<nat>,
    cells: nat,
    key: spec_fn(nat) -> nat,
    b: nat,
    filtering: bool,
    lo: nat,
    hi: nat,
) -> Seq<Event>
    decreases hi,
{
    if hi <= lo {
        Seq::empty()
    } else {
        class_events(p, cells, key, b, filtering, lo, (hi - 1) as nat) + interval_events(
            p,
            key,
            pow2(b),
            hi,
            filtering,
            pow2(b),
        ) + seq![
            Event::ClassDone {
                class: hi as u64,
                of: pow2(b) as u64,
                spacings: class(p, cells, b, (hi - 1) as nat).len() as usize,
                collisions: tally::collisions(class(p, cells, b, (hi - 1) as nat)) as usize,
                all_collisions: circle::birthday_in(p, cells, b, lo, hi) as usize,
            },
        ]
    }
}

/// The gaps of the points so far and of an interval after them.
pub proof fn lemma_added(a: Seq<nat>, s: Seq<nat>)
    requires
        s.len() > 0,
    ensures
        circle::gaps(a + s) == circle::gaps(a) + added(last_of(a), s),
{
    circle::lemma_gaps_concat(a, s);
    if a.len() == 0 {
        assert(circle::gaps(a) + added(last_of(a), s) =~= circle::gaps(s));
    } else {
        assert(circle::gaps(a) + seq![(s[0] - a.last()) as nat] + circle::gaps(s) =~= circle::gaps(a) + added(
            last_of(a),
            s,
        ));
    }
}

/// The sorted points so far are a part of those of the next interval on, and a class grows.
pub proof fn lemma_class_grows(p: Seq<nat>, shift: nat, k: nat, n: nat, key: spec_fn(nat) -> nat, j: nat)
    requires
        k <= n,
    ensures
        tally::select(circle::gaps(tally::sorted(circle::below(p, shift, k))), key, j).len() <= tally::select(
            circle::gaps(tally::sorted(circle::below(p, shift, n))),
            key,
            j,
        ).len(),
    decreases n - k,
{
    if k < n {
        lemma_class_grows(p, shift, k + 1, n, key, j);
        let a: Seq<nat> = tally::sorted(circle::below(p, shift, k));
        let s: Seq<nat> = tally::sorted(tally::select(p, tally::top_key(shift), k));
        circle::lemma_below_step(p, shift, k);
        if s.len() > 0 {
            lemma_added(a, s);
            tally::lemma_select_concat(circle::gaps(a), added(last_of(a), s), key, j);
        } else {
            assert(a + s =~= a);
        }
    }
}

/// The spacings of the class `j` among the points of the first `k` value intervals.
pub open spec fn class_upto(p: Seq<nat>, shift: nat, b: nat, j: nat, k: nat) -> Seq<nat> {
    tally::select(circle::gaps(tally::sorted(circle::below(p, shift, k))), tally::low_key(b), j)
}

/// What the classes `lo..hi` leave in a buffer: each of them writes its sorted spacings to the front.
pub open spec fn classes_left(before: Seq<nat>, p: Seq<nat>, cells: nat, b: nat, lo: nat, hi: nat) -> Seq<nat>
    decreases hi,
{
    if hi <= lo {
        before
    } else {
        common::overlaid(
            classes_left(before, p, cells, b, lo, (hi - 1) as nat),
            tally::sorted(class(p, cells, b, (hi - 1) as nat)),
        )
    }
}

/// A value interval overflows its buffer, which holds `points` points, before the spacings of the
/// class `j` overflow theirs, which holds `spacings`.
pub open spec fn interval_overflows(p: Seq<nat>, shift: nat, b: nat, j: nat, spacings: nat, points: nat) -> bool {
    exists|k: nat|
        k < pow2(b) && #[trigger] tally::select(p, tally::top_key(shift), k).len() > points && class_upto(
            p,
            shift,
            b,
            j,
            k,
        ).len() <= spacings
}

/// Whether a value interval fits, while the class `j` is collected: its points do, and the spacings so
/// far fit in a buffer that holds `spacings`.
pub open spec fn interval_fits(
    p: Seq<nat>,
    shift: nat,
    b: nat,
    j: nat,
    fits: spec_fn(nat) -> bool,
    spacings: nat,
) -> spec_fn(nat) -> bool {
    |k: nat| fits(k) && class_upto(p, shift, b, j, k + 1).len() <= spacings
}

/// What the sweep of the class `j` has reported when a value interval does not fit, in the buffer for
/// points or, with its spacings, in that for the class; or when all of them do.
pub open spec fn sweep_stopped(
    p: Seq<nat>,
    shift: nat,
    b: nat,
    j: nat,
    filtering: bool,
    fits: spec_fn(nat) -> bool,
    spacings: nat,
) -> Seq<Event> {
    let of: nat = pow2(b);
    let k: nat = common::first_misfit(interval_fits(p, shift, b, j, fits, spacings), 0, of);
    let before: Seq<Event> = interval_events(p, tally::top_key(shift), of, j + 1, filtering, k);
    let begun: Seq<Event> = seq![Event::Interval { class: (j + 1) as u64, interval: (k + 1) as u64, of: of as u64 }];
    if k == of {
        before
    } else if !fits(k) {
        before + begun
    } else if filtering {
        before + begun + seq![Event::Sorting, Event::Filtering]
    } else {
        before + begun + seq![Event::Sorting]
    }
}

/// Whether a class fits: all value intervals do, and so do its spacings in a buffer that holds
/// `spacings`.
pub open spec fn class_fits(
    p: Seq<nat>,
    cells: nat,
    b: nat,
    fits: spec_fn(nat) -> bool,
    spacings: nat,
) -> spec_fn(nat) -> bool {
    |j: nat| (forall|k: nat| k < pow2(b) ==> #[trigger] fits(k)) && class(p, cells, b, j).len() <= spacings
}

/// What the classes `lo..hi` have reported when one of them does not fit.
pub open spec fn classes_stopped(
    p: Seq<nat>,
    cells: nat,
    shift: nat,
    b: nat,
    filtering: bool,
    lo: nat,
    hi: nat,
    fits: spec_fn(nat) -> bool,
    spacings: nat,
) -> Seq<Event> {
    let j: nat = common::first_misfit(class_fits(p, cells, b, fits, spacings), lo, hi);
    class_events(p, cells, tally::top_key(shift), b, filtering, lo, j) + sweep_stopped(
        p,
        shift,
        b,
        j,
        filtering,
        fits,
        spacings,
    )
}

/// The intervals before `k` fit, when their points do and the spacings so far do.
pub proof fn lemma_intervals_fit(
    p: Seq<nat>,
    shift: nat,
    b: nat,
    j: nat,
    fits: spec_fn(nat) -> bool,
    spacings: nat,
    k: nat,
)
    requires
        forall|i: nat| i < k ==> #[trigger] fits(i),
        class_upto(p, shift, b, j, k).len() <= spacings,
    ensures
        forall|i: nat| i < k ==> #[trigger] interval_fits(p, shift, b, j, fits, spacings)(i),
{
    let all: spec_fn(nat) -> bool = interval_fits(p, shift, b, j, fits, spacings);
    assert forall|i: nat| i < k implies #[trigger] all(i) by {
        lemma_class_grows(p, shift, i + 1, k, tally::low_key(b), j);
        assert(fits(i));
    }
}

/// A class of all gaps is no larger than the class of the spacings.
pub proof fn lemma_class_gaps(s: Seq<nat>, cells: nat, key: spec_fn(nat) -> nat, j: nat)
    ensures
        tally::select(circle::gaps(s), key, j).len() <= tally::select(circle::proper_spacings(s, cells), key, j).len(),
{
    if !(s.len() == 0 || s[0] == s.last()) {
        let w: nat = (cells - s.last() + s[0]) as nat;
        assert(circle::gaps(s).push(w) =~= circle::gaps(s) + seq![w]);
        tally::lemma_select_concat(circle::gaps(s), seq![w], key, j);
    }
}

/// A sorted interval and what came before it.
pub open spec fn follows<T: Cell>(interval: Seq<T>, prev: Option<T>) -> bool {
    &&& interval.len() > 0
    &&& cell::ascending(interval)
    &&& prev matches Some(x) ==> x.val() <= interval[0].val()
}

/// The spacing number `i` that an interval adds.
fn spacing_at<T: Cell>(interval: &[T], prev: Option<T>, i: usize) -> (r: T)
    requires
        follows(interval@, prev),
        i < added(val_of(prev), tally::vals(interval@)).len(),
    ensures
        r.val() == added(val_of(prev), tally::vals(interval@))[i as int],
{
    match prev {
        Some(x) => {
            if i == 0 {
                interval[0].minus(x)
            } else {
                proof {
                    assert(interval@[i - 1].val() <= interval@[i as int].val());
                }
                interval[i].minus(interval[i - 1])
            }
        },
        None => {
            let len: usize = interval.len();
            proof {
                assert(i + 1 < len);
                assert(interval@[i as int].val() <= interval@[i + 1].val());
            }
            interval[i + 1].minus(interval[i])
        },
    }
}

/// A mask of low bits, and a class that they select.
pub open spec fn selects<T: Cell>(mask: T, target: T, b: nat, j: nat) -> bool {
    &&& b <= T::bits()
    &&& mask.val() + 1 == pow2(b)
    &&& target.val() == j
}

/// Whether a spacing is in the class.
fn in_class<T: Cell>(x: T, mask: T, target: T) -> (r: bool)
    ensures
        forall|b: nat|
            b <= T::bits() && mask.val() + 1 == #[trigger] pow2(b) ==> r == (tally::low_key(b)(x.val())
                == target.val()),
{
    x.masked(mask).same(target)
}

/// Writes the spacings `lo..hi` that an interval adds, as far as they are in the class, to a buffer
/// from the position `from` on. Returns the position after the last one, or `None` where the buffer
/// is full.
fn write_class<T: Cell>(
    interval: &[T],
    prev: Option<T>,
    lo: usize,
    hi: usize,
    mask: T,
    target: T,
    buf: &mut [T],
    from: usize,
) -> (r: Option<usize>)
    requires
        follows(interval@, prev),
        lo <= hi <= added(val_of(prev), tally::vals(interval@)).len(),
        exists|b: nat| b <= T::bits() && mask.val() + 1 == #[trigger] pow2(b),
        from <= old(buf)@.len(),
    ensures
        final(buf)@.len() == old(buf)@.len(),
        forall|b: nat|
            b <= T::bits() && mask.val() + 1 == #[trigger] pow2(b) ==> ({
                let want: Seq<nat> = tally::select(
                    added(val_of(prev), tally::vals(interval@)).subrange(lo as int, hi as int),
                    tally::low_key(b),
                    target.val(),
                );
                &&& r is Some <==> from + want.len() <= old(buf)@.len()
                &&& r matches Some(n) ==> n == from + want.len() && tally::vals(final(buf)@.take(n as int))
                    == tally::vals(old(buf)@.take(from as int)) + want
            }),
        r matches Some(n) ==> final(buf)@.skip(n as int) == old(buf)@.skip(n as int),
{
    let ghost b: nat = choose|b: nat| b <= T::bits() && mask.val() + 1 == #[trigger] pow2(b);
    let ghost key: spec_fn(nat) -> nat = tally::low_key(b);
    let ghost j: nat = target.val();
    let ghost all: Seq<nat> = added(val_of(prev), tally::vals(interval@));
    let ghost before: Seq<nat> = tally::vals(buf@.take(from as int));
    let cap: usize = buf.len();
    let mut n: usize = from;
    let mut i: usize = lo;
    proof {
        assert(all.subrange(lo as int, lo as int) =~= Seq::<nat>::empty());
        assert(before + Seq::<nat>::empty() =~= before);
    }
    while i < hi
        invariant
            lo <= i <= hi <= all.len(),
            follows(interval@, prev),
            all == added(val_of(prev), tally::vals(interval@)),
            b <= T::bits(),
            mask.val() + 1 == pow2(b),
            key == tally::low_key(b),
            j == target.val(),
            cap == buf@.len(),
            cap == old(buf)@.len(),
            before == tally::vals(old(buf)@.take(from as int)),
            from <= n <= cap,
            n == from + tally::select(all.subrange(lo as int, i as int), key, j).len(),
            tally::vals(buf@.take(n as int)) == before + tally::select(all.subrange(lo as int, i as int), key, j),
            buf@.skip(n as int) == old(buf)@.skip(n as int),
        decreases hi - i,
    {
        let ghost so_far: Seq<nat> = tally::select(all.subrange(lo as int, i as int), key, j);
        let x: T = spacing_at(interval, prev, i);
        proof {
            assert(all.subrange(lo as int, i + 1).drop_last() =~= all.subrange(lo as int, i as int));
            assert(all.subrange(lo as int, i + 1).last() == x.val());
        }
        if in_class(x, mask, target) {
            if n == cap {
                proof {
                    assert(tally::select(all.subrange(lo as int, i + 1), key, j).len() == so_far.len() + 1);
                    assert(all.subrange(lo as int, hi as int) =~= all.subrange(lo as int, i + 1) + all.subrange(
                        i + 1,
                        hi as int,
                    ));
                    tally::lemma_select_concat(
                        all.subrange(lo as int, i + 1),
                        all.subrange(i + 1, hi as int),
                        key,
                        j,
                    );
                    lemma_same_exponent(b);
                }
                return None;
            }
            let ghost now: Seq<T> = buf@;
            buf[n] = x;
            proof {
                assert(tally::vals(buf@.take(n + 1)) =~= tally::vals(now.take(n as int)).push(x.val()));
                assert((before + so_far).push(x.val()) =~= before + so_far.push(x.val()));
                assert(buf@.skip(n + 1) =~= now.skip(n as int).skip(1));
                assert(old(buf)@.skip(n + 1) =~= old(buf)@.skip(n as int).skip(1));
            }
            n += 1;
        }
        i += 1;
    }
    proof {
        lemma_same_exponent(b);
    }
    Some(n)
}

/// Powers of two with different exponents differ.
proof fn lemma_same_exponent(b: nat)
    ensures
        forall|c: nat| #[trigger] pow2(c) == pow2(b) ==> c == b,
{
    assert forall|c: nat| #[trigger] pow2(c) == pow2(b) implies c == b by {
        if c < b {
            lemma_pow2_strictly_increases(c, b);
        } else if b < c {
            lemma_pow2_strictly_increases(b, c);
        }
    }
}

/// Counts the spacings `lo..hi` that an interval adds, as far as they are in the class.
fn count_class<T: Cell>(interval: &[T], prev: Option<T>, lo: usize, hi: usize, mask: T, target: T) -> (r: usize)
    requires
        follows(interval@, prev),
        lo <= hi <= added(val_of(prev), tally::vals(interval@)).len(),
    ensures
        r <= hi - lo,
        forall|b: nat|
            b <= T::bits() && mask.val() + 1 == #[trigger] pow2(b) ==> r == tally::select(
                added(val_of(prev), tally::vals(interval@)).subrange(lo as int, hi as int),
                tally::low_key(b),
                target.val(),
            ).len(),
{
    let ghost all: Seq<nat> = added(val_of(prev), tally::vals(interval@));
    let ghost j: nat = target.val();
    let mut n: usize = 0;
    let mut i: usize = lo;
    proof {
        assert(all.subrange(lo as int, lo as int) =~= Seq::<nat>::empty());
    }
    while i < hi
        invariant
            lo <= i <= hi <= all.len(),
            follows(interval@, prev),
            all == added(val_of(prev), tally::vals(interval@)),
            j == target.val(),
            n <= i - lo,
            forall|b: nat|
                b <= T::bits() && mask.val() + 1 == #[trigger] pow2(b) ==> n == tally::select(
                    all.subrange(lo as int, i as int),
                    tally::low_key(b),
                    j,
                ).len(),
        decreases hi - i,
    {
        let x: T = spacing_at(interval, prev, i);
        proof {
            assert(all.subrange(lo as int, i + 1).drop_last() =~= all.subrange(lo as int, i as int));
            assert(all.subrange(lo as int, i + 1).last() == x.val());
        }
        if in_class(x, mask, target) {
            n += 1;
        }
        i += 1;
    }
    n
}

/// What is known of the spacings while the value intervals are visited in order.
pub struct Sweep<T> {
    /// The greatest point so far, if any.
    prev_max: Option<T>,
    /// The least point so far, if any.
    global_min: Option<T>,
    /// The number of spacings collected so far.
    class_len: usize,
}

impl<T: Cell> Sweep<T> {
    /// The sorted points so far are `a`, and the class buffer holds their gaps of class `j`.
    pub closed spec fn at(&self, a: Seq<nat>, buf: Seq<T>, b: nat, j: nat) -> bool {
        &&& val_of(self.prev_max) == last_of(a)
        &&& a.len() > 0 ==> val_of(self.global_min) == Some(a[0])
        &&& a.len() == 0 ==> self.global_min is None
        &&& self.class_len <= buf.len()
        &&& tally::vals(buf.take(self.class_len as int)) == tally::select(circle::gaps(a), tally::low_key(b), j)
    }

    /// No interval was visited yet.
    pub(crate) fn new() -> (r: Self)
        ensures
            forall|buf: Seq<T>, b: nat, j: nat| #[trigger] r.at(Seq::empty(), buf, b, j),
    {
        let r: Self = Sweep { prev_max: None, global_min: None, class_len: 0 };
        proof {
            assert forall|buf: Seq<T>, b: nat, j: nat| #[trigger] r.at(Seq::empty(), buf, b, j) by {
                assert(tally::vals(buf.take(0)) =~= Seq::<nat>::empty());
            }
        }
        r
    }

    /// The class buffer holds the spacings so far.
    pub proof fn lemma_collected(&self, a: Seq<nat>, buf: Seq<T>, b: nat, j: nat)
        requires
            self.at(a, buf, b, j),
        ensures
            tally::select(circle::gaps(a), tally::low_key(b), j).len() <= buf.len(),
    {
        assert(tally::vals(buf.take(self.class_len as int)).len() == self.class_len);
    }

    /// Collects the spacings that a sorted interval adds to the class, on a number of threads if
    /// one is given. Fails where they do not fit.
    pub(crate) fn absorb(
        &mut self,
        interval: &[T],
        mask: T,
        target: T,
        buf: &mut [T],
        threads: Option<usize>,
        Ghost(a): Ghost<Seq<nat>>,
        Ghost(b): Ghost<nat>,
    ) -> (ok: bool)
        requires
            old(self).at(a, old(buf)@, b, target.val()),
            selects(mask, target, b, target.val()),
            interval@.len() > 0,
            cell::ascending(interval@),
            a.len() > 0 ==> a.last() <= interval@[0].val(),
            threads matches Some(n) ==> n > 0,
        ensures
            final(buf)@.len() == old(buf)@.len(),
            ok <==> tally::select(circle::gaps(a + tally::vals(interval@)), tally::low_key(b), target.val()).len()
                <= old(buf)@.len(),
            ok ==> final(self).at(a + tally::vals(interval@), final(buf)@, b, target.val()),
            ok && threads is None ==> ({
                let n: int = tally::select(
                    circle::gaps(a + tally::vals(interval@)),
                    tally::low_key(b),
                    target.val(),
                ).len() as int;
                final(buf)@.skip(n) == old(buf)@.skip(n)
            }),
    {
        let ghost s: Seq<nat> = tally::vals(interval@);
        let ghost key: spec_fn(nat) -> nat = tally::low_key(b);
        let prev: Option<T> = self.prev_max;
        let from: usize = self.class_len;
        proof {
            lemma_added(a, s);
            tally::lemma_select_concat(circle::gaps(a), added(last_of(a), s), key, target.val());
            let all: Seq<nat> = added(val_of(prev), s);
            assert(all.subrange(0, all.len() as int) =~= all);
            assert(tally::vals(buf@.take(from as int)).len() == from);
            assert(pow2(b) == mask.val() + 1);
        }
        let len: usize = interval.len();
        let span: usize = match prev {
            Some(_) => len,
            None => len - 1,
        };
        let written: Option<usize> = match threads {
            None => write_class(interval, prev, 0, span, mask, target, buf, from),
            Some(n) => write_class_parallel(interval, prev, span, mask, target, buf, from, n),
        };
        match written {
            None => false,
            Some(n) => {
                if self.global_min.is_none() {
                    self.global_min = Some(interval[0]);
                }
                self.prev_max = Some(interval[len - 1]);
                self.class_len = n;
                proof {
                    assert((a + s).last() == s.last());
                    assert((a + s)[0] == if a.len() > 0 {
                        a[0]
                    } else {
                        s[0]
                    });
                }
                true
            },
        }
    }

    /// Adds the spacing round the circle, once all intervals were visited, and returns the number of
    /// spacings of the class. Returns `None` where they do not fit.
    pub(crate) fn close(
        &self,
        cells: Cells,
        mask: T,
        target: T,
        buf: &mut [T],
        Ghost(a): Ghost<Seq<nat>>,
        Ghost(b): Ghost<nat>,
    ) -> (r: Option<usize>)
        requires
            self.at(a, old(buf)@, b, target.val()),
            selects(mask, target, b, target.val()),
            tally::ascending(a),
            birthday::on_circle(a, cells@, T::bits()),
        ensures
            final(buf)@.len() == old(buf)@.len(),
            ({
                let want: Seq<nat> = tally::select(
                    circle::proper_spacings(a, cells@),
                    tally::low_key(b),
                    target.val(),
                );
                &&& r is Some <==> want.len() <= old(buf)@.len()
                &&& r matches Some(n) ==> {
                    &&& n == want.len()
                    &&& tally::vals(final(buf)@.take(n as int)) == want
                    &&& final(buf)@.skip(n as int) == old(buf)@.skip(n as int)
                }
            }),
    {
        let ghost key: spec_fn(nat) -> nat = tally::low_key(b);
        let n: usize = self.class_len;
        proof {
            assert(tally::vals(buf@.take(n as int)).len() == n);
        }
        match (self.global_min, self.prev_max) {
            (Some(min), Some(max)) => {
                if min.same(max) {
                    Some(n)
                } else {
                    proof {
                        assert(a[0] <= a[a.len() - 1]);
                        assert(a[a.len() - 1] < cells@);
                    }
                    let wrap: T = wrap_around(cells, min, max);
                    proof {
                        assert(circle::gaps(a).push(wrap.val()).drop_last() =~= circle::gaps(a));
                        assert(pow2(b) == mask.val() + 1);
                    }
                    if in_class(wrap, mask, target) {
                        if n == buf.len() {
                            None
                        } else {
                            let ghost now: Seq<T> = buf@;
                            buf[n] = wrap;
                            proof {
                                assert(tally::vals(buf@.take(n + 1)) =~= tally::vals(now.take(n as int)).push(
                                    wrap.val(),
                                ));
                            }
                            Some(n + 1)
                        }
                    } else {
                        Some(n)
                    }
                }
            },
            _ => Some(n),
        }
    }
}

/// The class of a sequence, piece by piece.
proof fn lemma_class_pieces(all: Seq<nat>, key: spec_fn(nat) -> nat, j: nat, n: int, k: int)
    requires
        0 < n,
        0 <= k <= n,
    ensures
        par::concat(class_pieces(all, key, j, n).take(k)) == tally::select(
            all.take(orbit::share_start(all.len() as int, n, k)),
            key,
            j,
        ),
    decreases k,
{
    let pieces: Seq<Seq<nat>> = class_pieces(all, key, j, n);
    let total: int = all.len() as int;
    if k == 0 {
        orbit::lemma_shares(total, n, 0);
        assert(pieces.take(0) =~= Seq::<Seq<nat>>::empty());
        assert(all.take(0) =~= Seq::<nat>::empty());
    } else {
        lemma_class_pieces(all, key, j, n, k - 1);
        orbit::lemma_shares(total, n, k - 1);
        orbit::lemma_shares(total, n, k);
        let lo: int = orbit::share_start(total, n, k - 1);
        let hi: int = orbit::share_start(total, n, k);
        assert(pieces.take(k).drop_last() =~= pieces.take(k - 1));
        assert(pieces.take(k).last() == pieces[k - 1]);
        assert(all.take(hi) =~= all.take(lo) + all.subrange(lo, hi));
        tally::lemma_select_concat(all.take(lo), all.subrange(lo, hi), key, j);
    }
}

/// The class of each of `n` pieces of a sequence.
spec fn class_pieces(all: Seq<nat>, key: spec_fn(nat) -> nat, j: nat, n: int) -> Seq<Seq<nat>> {
    Seq::new(
        n as nat,
        |c: int|
            tally::select(
                all.subrange(
                    orbit::share_start(all.len() as int, n, c),
                    orbit::share_start(all.len() as int, n, c) + orbit::share_len(all.len() as int, n, c),
                ),
                key,
                j,
            ),
    )
}

/// The number of matches in a piece.
spec fn piece_counted<T: Cell>(all: Seq<nat>, mask: T, target: T, n: int, c: int, count: usize) -> bool {
    forall|b: nat|
        b <= T::bits() && mask.val() + 1 == #[trigger] pow2(b) ==> count == class_pieces(
            all,
            tally::low_key(b),
            target.val(),
            n,
        )[c].len()
}

/// The matches of a piece are written.
spec fn piece_written<T: Cell>(all: Seq<nat>, mask: T, target: T, n: int, c: int, dst: Seq<T>) -> bool {
    forall|b: nat|
        b <= T::bits() && mask.val() + 1 == #[trigger] pow2(b) ==> tally::vals(dst) == class_pieces(
            all,
            tally::low_key(b),
            target.val(),
            n,
        )[c]
}

/// [`write_class`] for all the spacings that an interval adds, on `n` threads: matching spacings are
/// counted per piece, and then each piece's matches are written to a disjoint slot of the buffer.
fn write_class_parallel<T: Cell>(
    interval: &[T],
    prev: Option<T>,
    span: usize,
    mask: T,
    target: T,
    buf: &mut [T],
    from: usize,
    n: usize,
) -> (r: Option<usize>)
    requires
        follows(interval@, prev),
        span == added(val_of(prev), tally::vals(interval@)).len(),
        exists|b: nat| b <= T::bits() && mask.val() + 1 == #[trigger] pow2(b),
        from <= old(buf)@.len(),
        n > 0,
    ensures
        final(buf)@.len() == old(buf)@.len(),
        forall|b: nat|
            b <= T::bits() && mask.val() + 1 == #[trigger] pow2(b) ==> ({
                let want: Seq<nat> = tally::select(
                    added(val_of(prev), tally::vals(interval@)).subrange(0, span as int),
                    tally::low_key(b),
                    target.val(),
                );
                &&& r is Some <==> from + want.len() <= old(buf)@.len()
                &&& r matches Some(n) ==> n == from + want.len() && tally::vals(final(buf)@.take(n as int))
                    == tally::vals(old(buf)@.take(from as int)) + want
            }),
{
    let ghost b: nat = choose|b: nat| b <= T::bits() && mask.val() + 1 == #[trigger] pow2(b);
    let ghost all: Seq<nat> = added(val_of(prev), tally::vals(interval@));
    let ghost pieces: Seq<Seq<nat>> = class_pieces(all, tally::low_key(b), target.val(), n as int);
    let ghost before: Seq<T> = buf@;
    let lens: Vec<usize> = share_lens(span, n);
    let starts: Vec<usize> = share_starts(span, n);
    let lens_ref: &Vec<usize> = &lens;
    let starts_ref: &Vec<usize> = &starts;
    proof {
        lemma_same_exponent(b);
        assert(all.subrange(0, span as int) =~= all);
        lemma_class_pieces(all, tally::low_key(b), target.val(), n as int, n as int);
        assert(pieces.take(n as int) =~= pieces);
        orbit::lemma_shares(span as int, n as int, n as int);
        assert(all.take(span as int) =~= all);
    }
    let count = |c: usize| -> (r: usize)
        requires
            n > c,
            follows(interval@, prev),
            lens_ref@.len() == n,
            starts_ref@.len() == n,
            span == added(val_of(prev), tally::vals(interval@)).len(),
            lens_ref@[c as int] == orbit::share_len(span as int, n as int, c as int),
            starts_ref@[c as int] == orbit::share_start(span as int, n as int, c as int),
        ensures
            piece_counted(added(val_of(prev), tally::vals(interval@)), mask, target, n as int, c as int, r),
            lens_ref@[c as int] >= r,
        {
            proof {
                orbit::lemma_shares(span as int, n as int, c as int);
            }
            count_class(interval, prev, starts_ref[c], starts_ref[c] + lens_ref[c], mask, target)
        };
    let counts: Vec<usize> = par_map(n, count);
    // The matches of all pieces; there are no more of them than spacings.
    let mut matched: usize = 0;
    let mut k: usize = 0;
    proof {
        orbit::lemma_shares(span as int, n as int, 0);
        assert forall|c: int| 0 <= c < n implies #[trigger] counts@[c] == pieces[c].len() && counts@[c] <= lens@[c] by {
            let cc: usize = c as usize;
            assert(counts@[cc as int] == counts@[c]);
            assert(piece_counted(all, mask, target, n as int, c, counts@[c]));
        }
    }
    while k < n
        invariant
            k <= n,
            n > 0,
            counts@.len() == n,
            lens@.len() == n,
            forall|c: int| 0 <= c < n ==> #[trigger] lens@[c] == orbit::share_len(span as int, n as int, c),
            forall|c: int| 0 <= c < n ==> #[trigger] counts@[c] <= lens@[c],
            matched == par::offset(counts@, k as int),
            matched <= orbit::share_start(span as int, n as int, k as int) <= span,
        decreases n - k,
    {
        proof {
            orbit::lemma_shares(span as int, n as int, k as int);
            orbit::lemma_shares(span as int, n as int, k + 1);
            assert(counts@[k as int] <= lens@[k as int]);
        }
        matched += counts[k];
        k += 1;
    }
    proof {
        assert forall|c: int| 0 <= c < n implies #[trigger] pieces[c].len() == counts@[c] by {
            assert(counts@[c] == pieces[c].len());
        }
        par::lemma_concat_len(pieces, counts@);
    }
    let cap: usize = buf.len();
    if matched > cap - from {
        return None;
    }
    let (head, slots) = buf.split_at_mut(from);
    let ghost first: Seq<T> = head@;
    let ghost room: Seq<T> = slots@;
    let dsts: Vec<&mut [T]> = split_regions(slots, counts.as_slice(), n);
    let ghost rs = dsts@;
    let counts_ref: &Vec<usize> = &counts;
    let write = |c: usize, dst: &mut [T]| -> (r: ())
        requires
            n > c,
            follows(interval@, prev),
            lens_ref@.len() == n,
            starts_ref@.len() == n,
            counts_ref@.len() == n,
            exists|b: nat| b <= T::bits() && mask.val() + 1 == #[trigger] pow2(b),
            span == added(val_of(prev), tally::vals(interval@)).len(),
            lens_ref@[c as int] == orbit::share_len(span as int, n as int, c as int),
            starts_ref@[c as int] == orbit::share_start(span as int, n as int, c as int),
            piece_counted(
                added(val_of(prev), tally::vals(interval@)),
                mask,
                target,
                n as int,
                c as int,
                counts_ref@[c as int],
            ),
            old(dst)@.len() == counts_ref@[c as int],
        ensures
            piece_written(
                added(val_of(prev), tally::vals(interval@)),
                mask,
                target,
                n as int,
                c as int,
                final(dst)@,
            ),
            final(dst)@.len() == old(dst)@.len(),
        {
            proof {
                orbit::lemma_shares(span as int, n as int, c as int);
            }
            let ghost empty: Seq<T> = dst@.take(0);
            let _ = write_class(interval, prev, starts_ref[c], starts_ref[c] + lens_ref[c], mask, target, dst, 0);
            proof {
                assert(dst@.take(dst@.len() as int) =~= dst@);
                assert(tally::vals(empty) =~= Seq::<nat>::empty());
                assert forall|b: nat| b <= T::bits() && mask.val() + 1 == #[trigger] pow2(b) implies tally::vals(
                    dst@,
                ) == class_pieces(
                    added(val_of(prev), tally::vals(interval@)),
                    tally::low_key(b),
                    target.val(),
                    n as int,
                )[c as int] by {
                    let piece: Seq<nat> = class_pieces(
                        added(val_of(prev), tally::vals(interval@)),
                        tally::low_key(b),
                        target.val(),
                        n as int,
                    )[c as int];
                    assert(tally::vals(empty) + piece =~= piece);
                }
            }
        };
    proof {
        assert forall|c: int| #![trigger rs[c]] 0 <= c < n implies rs[c]@.len() == counts@[c] by {
            par::lemma_offset_monotone(counts@, 0, c);
            par::lemma_offset_monotone(counts@, c + 1, n as int);
        }
    }
    let done: Vec<()> = par_parts(dsts, write);
    proof {
        let ends: Seq<Seq<T>> = Seq::new(n as nat, |c: int| final(rs[c])@);
        assert forall|c: int| 0 <= c < n implies tally::vals(#[trigger] ends[c]) == pieces[c] by {
            let cc: usize = c as usize;
            assert(done@[cc as int] == done@[c]);
            assert(rs[c]@.len() == counts@[c]);
            assert(piece_written(all, mask, target, n as int, c, ends[c]));
        }
        fill::lemma_vals_concat(ends, pieces);
        assert forall|c: int| 0 <= c < n implies #[trigger] ends[c].len() == counts@[c] by {
            assert(tally::vals(ends[c]).len() == ends[c].len());
            assert(counts@[c] == pieces[c].len());
        }
        par::lemma_concat_len(ends, counts@);
        assert(buf@ =~= first + (par::concat(ends) + room.skip(matched as int)));
        assert(buf@.take(from + matched) =~= first + par::concat(ends));
        assert(first =~= before.take(from as int));
        assert(tally::vals(first + par::concat(ends)) =~= tally::vals(first) + tally::vals(par::concat(ends)));
    }
    Some(from + matched)
}

/// A class is what is left of the spacings when those with other low bits are filtered out.
pub proof fn lemma_class_filter(p: Seq<nat>, cells: nat, shift: nat, b: nat, j: nat, k: nat)
    ensures
        class(p, cells, b, j) == circle::proper_spacings(tally::sorted(p), cells).filter(
            |x: nat| x % pow2(b) == j,
        ),
        class_upto(p, shift, b, j, k) == circle::gaps(
            tally::sorted(p.filter(|x: nat| x < k * pow2(shift))),
        ).filter(|x: nat| x % pow2(b) == j),
{
    let key: spec_fn(nat) -> nat = tally::low_key(b);
    let all: Seq<nat> = circle::proper_spacings(tally::sorted(p), cells);
    let some: Seq<nat> = circle::gaps(tally::sorted(circle::below(p, shift, k)));
    tally::lemma_select_filter(all, key, j);
    tally::lemma_select_filter(some, key, j);
    circle::lemma_below_filter(p, shift, k);
    lemma_same_filter(all, |x: nat| key(x) == j, |x: nat| x % pow2(b) == j);
    lemma_same_filter(some, |x: nat| key(x) == j, |x: nat| x % pow2(b) == j);
}

/// Tests that agree filter the same.
pub proof fn lemma_same_filter(s: Seq<nat>, f: spec_fn(nat) -> bool, g: spec_fn(nat) -> bool)
    requires
        forall|x: nat| #[trigger] f(x) == g(x),
    ensures
        s.filter(f) == s.filter(g),
    decreases s.len(),
{
    reveal(Seq::filter);
    if s.len() > 0 {
        lemma_same_filter(s.drop_last(), f, g);
        assert(f(s.last()) == g(s.last()));
    }
}

/// What one more value interval reports: its number, that of the class, and how many there are; then
/// that it holds no points, or how many it holds.
pub proof fn lemma_interval_reports(
    p: Seq<nat>,
    key: spec_fn(nat) -> nat,
    of: nat,
    class: nat,
    filtering: bool,
    k: nat,
)
    ensures
        interval_events(p, key, of, class, filtering, 0).len() == 0,
        ({
            let begun: Seq<Event> = interval_events(p, key, of, class, filtering, k).push(
                Event::Interval { class: class as u64, interval: (k + 1) as u64, of: of as u64 },
            );
            let points: nat = Set::new(|i: int| 0 <= i < p.len() && key(p[i]) == k).len();
            let done: Event = Event::IntervalDone { points: points as usize };
            interval_events(p, key, of, class, filtering, k + 1) == if points == 0 {
                begun.push(Event::IntervalEmpty)
            } else if filtering {
                begun.push(Event::Sorting).push(Event::Filtering).push(done)
            } else {
                begun.push(Event::Sorting).push(done)
            }
        }),
{
    collision::lemma_key_places(p, key, k);
    let begun: Seq<Event> = interval_events(p, key, of, class, filtering, k).push(
        Event::Interval { class: class as u64, interval: (k + 1) as u64, of: of as u64 },
    );
    let all: Seq<Event> = interval_events(p, key, of, class, filtering, k + 1);
    let n: nat = tally::select(p, key, k).len();
    let done: Event = Event::IntervalDone { points: n as usize };
    if n == 0 {
        assert(all =~= begun.push(Event::IntervalEmpty));
    } else if filtering {
        assert(all =~= begun.push(Event::Sorting).push(Event::Filtering).push(done));
    } else {
        assert(all =~= begun.push(Event::Sorting).push(done));
    }
}

/// What one more class reports: its value intervals, all of them, and then its number, how many classes
/// there are, its spacings and those of them that came before, and the collisions of all classes so far.
pub proof fn lemma_class_reports(
    p: Seq<nat>,
    cells: nat,
    key: spec_fn(nat) -> nat,
    b: nat,
    filtering: bool,
    lo: nat,
    hi: nat,
)
    requires
        lo <= hi,
    ensures
        class_events(p, cells, key, b, filtering, lo, lo).len() == 0,
        ({
            let q: Seq<nat> = circle::proper_spacings(tally::sorted(p), cells).filter(|x: nat| x % pow2(b) == hi);
            class_events(p, cells, key, b, filtering, lo, hi + 1) == class_events(
                p,
                cells,
                key,
                b,
                filtering,
                lo,
                hi,
            ) + interval_events(p, key, pow2(b), hi + 1, filtering, pow2(b)) + seq![
                Event::ClassDone {
                    class: (hi + 1) as u64,
                    of: pow2(b) as u64,
                    spacings: q.len() as usize,
                    collisions: Set::new(|i: int| 0 <= i < q.len() && q.take(i).contains(q[i])).len() as usize,
                    all_collisions: circle::birthday_in(p, cells, b, lo, hi + 1) as usize,
                },
            ]
        }),
{
    lemma_class_filter(p, cells, 0, b, hi, 0);
    let q: Seq<nat> = circle::proper_spacings(tally::sorted(p), cells).filter(|x: nat| x % pow2(b) == hi);
    tally::lemma_collisions_repeats(q);
}

/// When the value interval `k` is the first that does not fit while the class `j` is collected, the
/// reports of the class end with it: where it is generated, if its points do not fit, and else where its
/// spacings are collected. When all of them fit, they are all there is.
pub proof fn lemma_sweep_stopped(
    p: Seq<nat>,
    shift: nat,
    b: nat,
    j: nat,
    filtering: bool,
    fits: spec_fn(nat) -> bool,
    spacings: nat,
    k: nat,
)
    requires
        k <= pow2(b),
        forall|i: nat| i < k ==> #[trigger] fits(i) && class_upto(p, shift, b, j, i + 1).len() <= spacings,
        k < pow2(b) ==> !(fits(k) && class_upto(p, shift, b, j, k + 1).len() <= spacings),
    ensures
        ({
            let before: Seq<Event> = interval_events(p, tally::top_key(shift), pow2(b), j + 1, filtering, k);
            let begun: Seq<Event> = before.push(
                Event::Interval { class: (j + 1) as u64, interval: (k + 1) as u64, of: pow2(b) as u64 },
            );
            sweep_stopped(p, shift, b, j, filtering, fits, spacings) == if k == pow2(b) {
                before
            } else if !fits(k) {
                begun
            } else if filtering {
                begun.push(Event::Sorting).push(Event::Filtering)
            } else {
                begun.push(Event::Sorting)
            }
        }),
{
    let steps: spec_fn(nat) -> bool = interval_fits(p, shift, b, j, fits, spacings);
    assert forall|i: nat| 0 <= i < k implies #[trigger] steps(i) by {
        assert(fits(i));
    }
    common::lemma_first_misfit(steps, 0, pow2(b), k);
    let begun: Seq<Event> = interval_events(p, tally::top_key(shift), pow2(b), j + 1, filtering, k).push(
        Event::Interval { class: (j + 1) as u64, interval: (k + 1) as u64, of: pow2(b) as u64 },
    );
    let r: Seq<Event> = sweep_stopped(p, shift, b, j, filtering, fits, spacings);
    if k < pow2(b) {
        if !fits(k) {
            assert(r =~= begun);
        } else if filtering {
            assert(r =~= begun.push(Event::Sorting).push(Event::Filtering));
        } else {
            assert(r =~= begun.push(Event::Sorting));
        }
    }
}

/// When the class `j` is the first that does not fit, the reports are those of the classes before it and
/// then its own, as far as it comes.
pub proof fn lemma_classes_stopped(
    p: Seq<nat>,
    cells: nat,
    shift: nat,
    b: nat,
    filtering: bool,
    lo: nat,
    hi: nat,
    fits: spec_fn(nat) -> bool,
    spacings: nat,
    j: nat,
)
    requires
        lo <= j < hi,
        j > lo ==> (forall|k: nat| k < pow2(b) ==> #[trigger] fits(k)),
        forall|i: nat| lo <= i < j ==> #[trigger] class(p, cells, b, i).len() <= spacings,
        !((forall|k: nat| k < pow2(b) ==> #[trigger] fits(k)) && class(p, cells, b, j).len() <= spacings),
    ensures
        classes_stopped(p, cells, shift, b, filtering, lo, hi, fits, spacings) == class_events(
            p,
            cells,
            tally::top_key(shift),
            b,
            filtering,
            lo,
            j,
        ) + sweep_stopped(p, shift, b, j, filtering, fits, spacings),
{
    let each: spec_fn(nat) -> bool = class_fits(p, cells, b, fits, spacings);
    assert forall|i: nat| lo <= i < j implies #[trigger] each(i) by {
        assert(class(p, cells, b, i).len() <= spacings);
    }
    common::lemma_first_misfit(each, lo, hi, j);
}

/// After the classes the spacings of the last one are in front, sorted, and what the classes before it
/// left is behind them.
pub proof fn lemma_classes_left(before: Seq<nat>, p: Seq<nat>, cells: nat, b: nat, lo: nat, hi: nat)
    requires
        lo < hi,
        forall|j: nat| lo <= j < hi ==> #[trigger] class(p, cells, b, j).len() <= before.len(),
    ensures
        classes_left(before, p, cells, b, lo, lo) == before,
        classes_left(before, p, cells, b, lo, hi).len() == before.len(),
        classes_left(before, p, cells, b, lo, hi).take(class(p, cells, b, (hi - 1) as nat).len() as int)
            == tally::sorted(class(p, cells, b, (hi - 1) as nat)),
        classes_left(before, p, cells, b, lo, hi).skip(class(p, cells, b, (hi - 1) as nat).len() as int)
            == classes_left(before, p, cells, b, lo, (hi - 1) as nat).skip(
            class(p, cells, b, (hi - 1) as nat).len() as int,
        ),
    decreases hi,
{
    let m: nat = (hi - 1) as nat;
    let q: Seq<nat> = class(p, cells, b, m);
    tally::lemma_sorted(q);
    if lo < m {
        lemma_classes_left(before, p, cells, b, lo, m);
    }
    let left: Seq<nat> = classes_left(before, p, cells, b, lo, m);
    assert(left.len() == before.len());
    let all: Seq<nat> = classes_left(before, p, cells, b, lo, hi);
    assert(all.take(q.len() as int) =~= tally::sorted(q));
    assert(all.skip(q.len() as int) =~= left.skip(q.len() as int));
}

} // verus!
