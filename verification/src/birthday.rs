//! The birthday-spacings test.
use vstd::arithmetic::div_mod::*;
use vstd::arithmetic::power2::*;
use vstd::prelude::*;
use vstd::slice::*;

use crate::cell;
use crate::cell::Cell;
use crate::circle;
use crate::classes;
use crate::classes::Sweep;
use crate::collision;
use crate::common;
use crate::common::{
    chunk_lens, chunk_size, count_prefix, pass_count, scan_samples, sort_prefix, sort_prefix_st, Bin, Cells, GridParams,
};
use crate::fill;
use crate::fill::{gen_pass_tradeoff, gen_plain};
use crate::par;
use crate::par::{par_parts, split_regions};
use crate::prng;
use crate::prng::Generator;
use crate::progress::{Event, Progress};
use crate::sampling;
use crate::sampling::Geometry;
use crate::tally;

pub use crate::parallel_birthday::run_birthday_parallel;

verus! {

/// Sorted points with each one, but for the first, replaced by its distance from the one before.
spec fn differences(s: Seq<nat>) -> Seq<nat> {
    Seq::new(
        s.len(),
        |i: int|
            if i == 0 {
                s[0]
            } else {
                (s[i] - s[i - 1]) as nat
            },
    )
}

/// Replaces each element of a chunk, from the back, by its difference with its predecessor; the
/// predecessor of the first one, if any, is given.
fn chunk_differences<T: Cell>(c: &mut [T], before: Option<T>)
    requires
        old(c)@.len() > 0,
        cell::ascending(old(c)@),
        before matches Some(x) ==> x.val() <= old(c)@[0].val(),
    ensures
        final(c)@.len() == old(c)@.len(),
        final(c)@[0].val() == old(c)@[0].val() - (match before {
            Some(x) => x.val() as int,
            None => 0,
        }),
        forall|i: int|
            0 < i < old(c)@.len() ==> #[trigger] final(c)@[i].val() == old(c)@[i].val() - old(c)@[i - 1].val(),
{
    let ghost o: Seq<T> = c@;
    let n: usize = c.len();
    let mut i: usize = n - 1;
    while i > 0
        invariant
            i < n,
            n == o.len(),
            c@.len() == n,
            cell::ascending(o),
            forall|k: int| 0 <= k <= i ==> c@[k] == o[k],
            forall|k: int| i < k < n ==> #[trigger] c@[k].val() == o[k].val() - o[k - 1].val(),
        decreases i,
    {
        proof {
            assert(o[i - 1].val() <= o[i as int].val());
        }
        let x: T = c[i].minus(c[i - 1]);
        c[i] = x;
        i -= 1;
    }
    match before {
        Some(x) => {
            let y: T = c[0].minus(x);
            c[0] = y;
        },
        None => {},
    }
}

/// Concatenated pieces of a sequence.
proof fn lemma_concat_pieces(s: Seq<nat>, pieces: Seq<Seq<nat>>, lens: Seq<usize>, k: int)
    requires
        pieces.len() == lens.len(),
        0 <= k <= lens.len(),
        par::offset(lens, lens.len() as int) <= s.len(),
        forall|i: int|
            0 <= i < lens.len() ==> #[trigger] pieces[i] == s.subrange(
                par::offset(lens, i),
                par::offset(lens, i) + lens[i],
            ),
    ensures
        par::concat(pieces.take(k)) == s.take(par::offset(lens, k)),
    decreases k,
{
    if k == 0 {
        assert(pieces.take(0) =~= Seq::<Seq<nat>>::empty());
        assert(s.take(0) =~= Seq::<nat>::empty());
    } else {
        lemma_concat_pieces(s, pieces, lens, k - 1);
        par::lemma_offset_monotone(lens, k - 1, k);
        par::lemma_offset_monotone(lens, k, lens.len() as int);
        assert(pieces.take(k).drop_last() =~= pieces.take(k - 1));
        assert(pieces.take(k).last() == pieces[k - 1]);
        assert(s.take(par::offset(lens, k)) =~= s.take(par::offset(lens, k - 1)) + pieces[k - 1]);
    }
}

/// Parallel in-place replacement of each element of a sorted slice, but for the first, by its
/// difference with its predecessor.
fn take_differences<T: Cell>(v: &mut [T])
    requires
        cell::ascending(old(v)@),
    ensures
        final(v)@.len() == old(v)@.len(),
        tally::vals(final(v)@) == differences(tally::vals(old(v)@)),
{
    let ghost o: Seq<T> = v@;
    let ghost s: Seq<nat> = tally::vals(o);
    let len: usize = v.len();
    let size: usize = chunk_size(len);
    let lens: Vec<usize> = chunk_lens(len, size);
    let n: usize = lens.len();
    // The last element of every chunk, to patch the first one of the next.
    let mut tails: Vec<T> = Vec::new();
    let mut end: usize = 0;
    let mut i: usize = 0;
    while i < n
        invariant
            i <= n,
            n == lens@.len(),
            v@ == o,
            len == o.len(),
            par::offset(lens@, n as int) == len,
            end == par::offset(lens@, i as int),
            forall|k: int| 0 <= k < n ==> #[trigger] lens@[k] > 0,
            tails@.len() == i,
            forall|k: int| 0 <= k < i ==> #[trigger] tails@[k] == o[par::offset(lens@, k + 1) - 1],
        decreases n - i,
    {
        proof {
            par::lemma_offset_monotone(lens@, i + 1, n as int);
            par::lemma_offset_monotone(lens@, 0, i as int);
            assert(lens@[i as int] > 0);
        }
        end += lens[i];
        tails.push(v[end - 1]);
        i += 1;
    }
    let tails_ref: &Vec<T> = &tails;
    let parts: Vec<&mut [T]> = split_regions(v, lens.as_slice(), n);
    let ghost rs = parts@;
    proof {
        assert forall|k: int| #![trigger rs[k]] 0 <= k < n implies chunk_ready(tails@, k, rs[k]@) && rs[k]@
            == o.subrange(par::offset(lens@, k), par::offset(lens@, k) + lens@[k]) && rs[k]@.len() == lens@[k] by {
            lemma_chunk_ready(o, lens@, tails@, k);
            par::lemma_offset_monotone(lens@, 0, k);
            par::lemma_offset_monotone(lens@, k + 1, n as int);
        }
    }
    let work = |i: usize, c: &mut [T]| -> (r: ())
        requires
            chunk_ready(tails_ref@, i as int, old(c)@),
        ensures
            chunk_done(tails_ref@, i as int, old(c)@, final(c)@),
        {
            let before: Option<T> = if i > 0 {
                Some(tails_ref[i - 1])
            } else {
                None
            };
            chunk_differences(c, before);
        };
    let done: Vec<()> = par_parts(parts, work);
    proof {
        assert forall|k: int| 0 <= k < n implies chunk_done(tails@, k, rs[k]@, #[trigger] final(rs[k])@) by {
            assert(done@[k as usize as int] == done@[k]);
            assert(rs[k]@.len() == lens@[k]);
        }
        let ends: Seq<Seq<T>> = Seq::new(n as nat, |k: int| final(rs[k])@);
        let want: Seq<Seq<nat>> = Seq::new(
            n as nat,
            |k: int| differences(s).subrange(par::offset(lens@, k), par::offset(lens@, k) + lens@[k]),
        );
        assert forall|k: int| 0 <= k < n implies tally::vals(#[trigger] ends[k]) == want[k] by {
            assert(chunk_done(tails@, k, rs[k]@, final(rs[k])@));
            lemma_chunk_differences(o, lens@, tails@, k, ends[k]);
        }
        fill::lemma_vals_concat(ends, want);
        lemma_concat_pieces(differences(s), want, lens@, n as int);
        assert(want.take(n as int) =~= want);
        assert(differences(s).take(len as int) =~= differences(s));
        assert(v@ =~= par::concat(ends));
    }
}

/// A chunk can be worked on: it is sorted, and its predecessor is at most its first element.
spec fn chunk_ready<T: Cell>(tails: Seq<T>, i: int, c: Seq<T>) -> bool {
    &&& 0 <= i <= tails.len()
    &&& c.len() > 0
    &&& cell::ascending(c)
    &&& i > 0 ==> tails[i - 1].val() <= c[0].val()
}

/// The elements of a chunk are replaced by their differences with their predecessors.
spec fn chunk_done<T: Cell>(tails: Seq<T>, i: int, c: Seq<T>, r: Seq<T>) -> bool {
    &&& r.len() == c.len()
    &&& r[0].val() == c[0].val() - if i > 0 {
        tails[i - 1].val() as int
    } else {
        0
    }
    &&& forall|k: int| 0 < k < c.len() ==> #[trigger] r[k].val() == c[k].val() - c[k - 1].val()
}

/// The chunks of a sorted slice can be worked on.
proof fn lemma_chunk_ready<T: Cell>(o: Seq<T>, lens: Seq<usize>, tails: Seq<T>, k: int)
    requires
        cell::ascending(o),
        tails.len() == lens.len(),
        0 <= k < lens.len(),
        par::offset(lens, lens.len() as int) == o.len(),
        forall|i: int| 0 <= i < lens.len() ==> #[trigger] lens[i] > 0,
        forall|i: int| 0 <= i < lens.len() ==> #[trigger] tails[i] == o[par::offset(lens, i + 1) - 1],
    ensures
        chunk_ready(tails, k, o.subrange(par::offset(lens, k), par::offset(lens, k) + lens[k])),
{
    par::lemma_offset_monotone(lens, 0, k);
    par::lemma_offset_monotone(lens, k + 1, lens.len() as int);
    let lo: int = par::offset(lens, k);
    let c: Seq<T> = o.subrange(lo, lo + lens[k]);
    assert(lens[k] > 0);
    assert forall|i: int, j: int| 0 <= i <= j < c.len() implies #[trigger] c[i].val() <= #[trigger] c[j].val() by {
        assert(o[lo + i].val() <= o[lo + j].val());
    }
    if k > 0 {
        assert(lens[k - 1] > 0);
        par::lemma_offset_monotone(lens, 0, k - 1);
        assert(tails[k - 1] == o[lo - 1]);
        assert(o[lo - 1].val() <= o[lo].val());
    }
}

/// What a finished chunk holds.
proof fn lemma_chunk_differences<T: Cell>(o: Seq<T>, lens: Seq<usize>, tails: Seq<T>, k: int, r: Seq<T>)
    requires
        tails.len() == lens.len(),
        0 <= k < lens.len(),
        par::offset(lens, lens.len() as int) == o.len(),
        forall|i: int| 0 <= i < lens.len() ==> #[trigger] lens[i] > 0,
        forall|i: int| 0 <= i < lens.len() ==> #[trigger] tails[i] == o[par::offset(lens, i + 1) - 1],
        chunk_done(tails, k, o.subrange(par::offset(lens, k), par::offset(lens, k) + lens[k]), r),
    ensures
        tally::vals(r) == differences(tally::vals(o)).subrange(par::offset(lens, k), par::offset(lens, k) + lens[k]),
{
    par::lemma_offset_monotone(lens, 0, k);
    par::lemma_offset_monotone(lens, k + 1, lens.len() as int);
    let lo: int = par::offset(lens, k);
    let c: Seq<T> = o.subrange(lo, lo + lens[k]);
    let d: Seq<nat> = differences(tally::vals(o)).subrange(lo, lo + lens[k]);
    assert(lens[k] > 0);
    assert forall|i: int| 0 <= i < r.len() implies tally::vals(r)[i] == d[i] by {
        if i > 0 {
            assert(r[i].val() == c[i].val() - c[i - 1].val());
        } else if k > 0 {
            assert(lens[k - 1] > 0);
            par::lemma_offset_monotone(lens, 0, k - 1);
            assert(tails[k - 1] == o[lo - 1]);
        }
    }
    assert(tally::vals(r) =~= d);
}

/// Points fit on the circle: there are enough cells for all of them, and no more than the storage
/// can tell apart.
pub open spec fn on_circle(s: Seq<nat>, cells: nat, bits: nat) -> bool {
    &&& 1 <= cells <= pow2(bits)
    &&& forall|i: int| 0 <= i < s.len() ==> #[trigger] s[i] < cells
}

/// In-place computation of the spacings of a sorted point set: each element is replaced by its
/// difference with its predecessor, and the first element receives the circular wrap-around
/// `cells - max + min`.
///
/// The wrap-around lies in `1..=cells` and reaches `cells` exactly when all points coincide, which
/// may not be representable. It is therefore evaluated through the index of the last cell, and in
/// the degenerate case replaced by a nonzero stand-in: all other spacings are then zero, so the
/// collision count is unaffected.
pub fn compute_spacings<T: Cell>(v: &mut [T], cells: Cells)
    requires
        cell::ascending(old(v)@),
        old(v)@.len() > 0 ==> on_circle(tally::vals(old(v)@), cells@, T::bits()),
    ensures
        final(v)@.len() == old(v)@.len(),
        tally::vals(final(v)@) == circle::stored_spacings(tally::vals(old(v)@), cells@),
{
    let ghost o: Seq<T> = v@;
    let ghost s: Seq<nat> = tally::vals(o);
    let len: usize = v.len();
    if len == 0 {
        proof {
            assert(tally::vals(v@) =~= circle::stored_spacings(s, cells@));
        }
        return;
    }
    let global_min: T = v[0];
    let global_max: T = v[len - 1];
    take_differences(v);
    let first: T = if global_min.same(global_max) {
        proof {
            lemma_one_fits::<T>();
        }
        T::from_u64(1)
    } else {
        proof {
            assert(o[0].val() <= o[len - 1].val());
            assert(s[len - 1] < cells@);
        }
        wrap_around(cells, global_min, global_max)
    };
    let ghost d: Seq<T> = v@;
    v[0] = first;
    proof {
        let w: Seq<nat> = circle::stored_spacings(s, cells@);
        let f: Seq<nat> = tally::vals(v@);
        assert(f.len() == w.len());
        assert forall|i: int| 0 <= i < f.len() implies f[i] == w[i] by {
            if i > 0 {
                assert(v@[i] == d[i]);
                assert(tally::vals(d)[i] == differences(s)[i]);
            }
        }
        assert(f =~= w);
    }
}

/// One is an index.
proof fn lemma_one_fits<T: Cell>()
    ensures
        1nat % pow2(T::bits()) == 1,
{
    T::lemma_bits();
    lemma_pow2_strictly_increases(0, T::bits());
    lemma2_to64();
    lemma_small_mod(1, pow2(T::bits()));
}

/// The way from the greatest point round the circle to the least one, when they differ.
pub(crate) fn wrap_around<T: Cell>(cells: Cells, min: T, max: T) -> (r: T)
    requires
        min.val() < max.val() < cells@,
        cells@ <= pow2(T::bits()),
    ensures
        r.val() == cells@ - max.val() + min.val(),
{
    let last: u128 = cells.last();
    proof {
        lemma_small_mod(last as nat, pow2(T::bits()));
        lemma_one_fits::<T>();
    }
    T::from_u128(last).minus(max).plus(min).plus(T::from_u64(1))
}

/// The cells of a grid make a circle that holds its points.
pub open spec fn grid_circle(params: &GridParams, decimate: bool, bits: nat) -> bool {
    pow2(params.index_bits(decimate)) <= params.cells@ <= pow2(bits)
}

/// The points of a scan lie on the circle.
pub proof fn lemma_points_on_circle<G: Generator>(params: &GridParams, decimate: bool, bits: nat, s: G::State, n: nat)
    requires
        params.drawable(0, decimate, false, bits) || params.drawable(0, decimate, true, bits),
        grid_circle(params, decimate, bits),
    ensures
        on_circle(sampling::points::<G>(params.geometry(decimate, bits), s, n), params.cells@, bits),
        on_circle(
            tally::sorted(sampling::points::<G>(params.geometry(decimate, bits), s, n)),
            params.cells@,
            bits,
        ),
{
    let g: Geometry = params.geometry(decimate, bits);
    let p: Seq<nat> = sampling::points::<G>(g, s, n);
    sampling::lemma_points_bound::<G>(g, s, n);
    lemma_pow2_pos(params.index_bits(decimate));
    lemma_sorted_on_circle(p, params.cells@, bits);
}

/// Sorting leaves the points on the circle.
proof fn lemma_sorted_on_circle(p: Seq<nat>, cells: nat, bits: nat)
    requires
        on_circle(p, cells, bits),
    ensures
        on_circle(tally::sorted(p), cells, bits),
{
    broadcast use vstd::seq_lib::group_to_multiset_ensures;

    let q: Seq<nat> = tally::sorted(p);
    tally::lemma_sorted(p);
    assert forall|i: int| 0 <= i < q.len() implies #[trigger] q[i] < cells by {
        assert(q.contains(q[i]));
        assert(q.to_multiset().count(q[i]) > 0);
        assert(p.contains(q[i]));
        let j: int = choose|j: int| 0 <= j < p.len() && p[j] == q[i];
        assert(p[j] < cells);
    }
}

/// Runs a birthday-spacings test.
///
/// With decimation, this scans `points` · 2*ᵗᵈ* candidate tuples and keeps the accepted (dense)
/// indices. Without decimation it generates exactly `points` points.
///
/// Returns the spacing-collision count and the number of points actually kept, or the buffer that
/// overflowed. The spacings are left sorted.
pub fn run_birthday<T: Cell, const DIM: usize, const DECIMATE: bool, const FULL: bool, G: Generator, P: Progress>(
    prng: &mut G,
    params: &GridParams,
    buf: &mut [T],
    points: usize,
    progress: &mut P,
) -> (r: Result<(usize, usize), Bin>)
    requires
        params.drawable(DIM, DECIMATE, FULL, T::bits()),
        grid_circle(params, DECIMATE, T::bits()),
        DECIMATE ==> collision::scannable(points, params.t, params.d),
        !DECIMATE ==> points <= old(buf)@.len(),
    ensures
        ({
            let g: Geometry = params.geometry(DECIMATE, T::bits());
            let n: nat = if DECIMATE {
                collision::scan_len(points, params.t, params.d)
            } else {
                points as nat
            };
            let p: Seq<nat> = sampling::points::<G>(g, old(prng).state(), n);
            let cells: nat = params.cells@;
            &&& r is Ok <==> p.len() <= old(buf)@.len()
            &&& !DECIMATE ==> r is Ok
            &&& r matches Ok(x) ==> {
                &&& x.0 == circle::birthday(p, cells)
                &&& x.1 == p.len()
                &&& tally::vals(final(buf)@.take(p.len() as int)) == tally::sorted(
                    circle::stored_spacings(tally::sorted(p), cells),
                )
                &&& final(buf)@.skip(p.len() as int) == old(buf)@.skip(p.len() as int)
                &&& final(prng).state() == sampling::advance::<G>(g, old(prng).state(), n)
                &&& final(progress).log() == old(progress).log() + seq![
                    Event::Generating,
                    Event::Sorting,
                    Event::Spacing,
                    Event::SortingSpacings,
                    Event::Counting,
                    Event::Done { points: x.1 },
                ]
            }
            &&& r matches Err(bin) ==> bin == Bin::DecimatedBirthday && final(progress).log() == old(
                progress,
            ).log() + seq![Event::Generating]
        }),
        final(buf)@.len() == old(buf)@.len(),
{
    let ghost g: Geometry = params.geometry(DECIMATE, T::bits());
    let ghost s0: G::State = prng.state();
    let ghost log0: Seq<Event> = progress.log();
    progress.report(Event::Generating);
    let scan: usize = if DECIMATE {
        match scan_samples(points, params.t, params.d) {
            Some(n) => n,
            None => 0,
        }
    } else {
        points
    };
    let ghost p: Seq<nat> = sampling::points::<G>(g, s0, scan as nat);
    proof {
        if !DECIMATE {
            sampling::lemma_points_undecimated::<G>(g, s0, scan as nat);
        }
        lemma_points_on_circle::<G>(params, DECIMATE, T::bits(), s0, scan as nat);
    }
    match gen_plain::<T, DIM, DECIMATE, FULL, G>(prng, params, buf, scan) {
        None => {
            proof {
                assert(progress.log() =~= log0 + seq![Event::Generating]);
            }
            Err(Bin::DecimatedBirthday)
        },
        Some(len) => {
            progress.report(Event::Sorting);
            sort_prefix(buf, len);
            progress.report(Event::Spacing);
            let ghost sorted: Seq<T> = buf@.take(len as int);
            let ghost s: Seq<nat> = tally::vals(sorted);
            spacings_prefix(buf, len, params.cells);
            progress.report(Event::SortingSpacings);
            sort_prefix(buf, len);
            progress.report(Event::Counting);
            let c: usize = count_prefix(buf, len);
            progress.report(Event::Done { points: len });
            proof {
                let w: Seq<nat> = circle::stored_spacings(s, params.cells@);
                tally::lemma_sorted(p);
                circle::lemma_stored(s, params.cells@);
                tally::lemma_sorted(w);
                tally::lemma_collisions_permuted(w, tally::sorted(w));
                assert(progress.log() =~= log0 + seq![
                    Event::Generating,
                    Event::Sorting,
                    Event::Spacing,
                    Event::SortingSpacings,
                    Event::Counting,
                    Event::Done { points: len },
                ]);
            }
            Ok((c, len))
        },
    }
}

/// Computes the spacings of the first `len` elements, which are sorted, in place.
fn spacings_prefix<T: Cell>(buf: &mut [T], len: usize, cells: Cells)
    requires
        len <= old(buf)@.len(),
        cell::ascending(old(buf)@.take(len as int)),
        on_circle(tally::vals(old(buf)@.take(len as int)), cells@, T::bits()),
    ensures
        final(buf)@.len() == old(buf)@.len(),
        tally::vals(final(buf)@.take(len as int)) == circle::stored_spacings(
            tally::vals(old(buf)@.take(len as int)),
            cells@,
        ),
        final(buf)@.skip(len as int) == old(buf)@.skip(len as int),
{
    let ghost before: Seq<T> = buf@;
    let (head, tail) = buf.split_at_mut(len);
    let ghost rest: Seq<T> = tail@;
    proof {
        assert(head@ =~= before.take(len as int));
    }
    compute_spacings(head, cells);
    let ghost after: Seq<T> = head@;
    proof {
        assert(buf@ =~= after + rest);
        assert(buf@.take(len as int) =~= after);
        assert(buf@.skip(len as int) =~= before.skip(len as int));
    }
}

/// The interval of a point is one of the 2^b intervals.
pub proof fn lemma_interval_bound(p: Seq<nat>, width: nat, b: nat)
    requires
        b <= width,
        forall|i: int| 0 <= i < p.len() ==> #[trigger] p[i] < pow2(width),
    ensures
        forall|i: int| 0 <= i < p.len() ==> #[trigger] p[i] / pow2((width - b) as nat) < pow2(b),
        forall|i: int| 0 <= i < p.len() ==> tally::top_key((width - b) as nat)(#[trigger] p[i]) < pow2(b),
{
    let shift: nat = (width - b) as nat;
    lemma_pow2_adds(shift, b);
    lemma_pow2_pos(shift);
    assert forall|i: int| 0 <= i < p.len() implies #[trigger] p[i] / pow2(shift) < pow2(b) by {
        let q: nat = p[i] / pow2(shift);
        lemma_fundamental_div_mod(p[i] as int, pow2(shift) as int);
        lemma_mod_bound(p[i] as int, pow2(shift) as int);
        assert(q < pow2(b)) by (nonlinear_arith)
            requires
                pow2(shift) * q <= p[i],
                p[i] < pow2(shift) * pow2(b),
                pow2(shift) > 0,
        ;
    }
    assert forall|i: int| 0 <= i < p.len() implies tally::top_key(shift)(#[trigger] p[i]) < pow2(b) by {
        assert(p[i] / pow2(shift) < pow2(b));
    }
}

/// The key and the mask of a spacing class.
pub(crate) fn class_selector<T: Cell>(b: usize, j: u64) -> (r: (T, T))
    requires
        b <= T::bits(),
        (j as nat) < pow2(b as nat),
    ensures
        classes::selects(r.0, r.1, b as nat, j as nat),
{
    proof {
        lemma_pow2_pos(b as nat);
        if b < T::bits() {
            lemma_pow2_strictly_increases(b as nat, T::bits());
        }
        lemma_small_mod(j as nat, pow2(T::bits()));
    }
    (T::low_bits_mask(b), T::from_u64(j))
}

/// One spacing class: the value intervals are walked in increasing order, and the spacings of the
/// class are collected. Returns their number, that of the points, and the orbit position reached.
fn sweep_class<T: Cell, const DIM: usize, const DECIMATE: bool, const FULL: bool, G: Generator, P: Progress>(
    snapshot: G,
    params: &GridParams,
    class_buf: &mut [T],
    scratch: &mut [T],
    scan: usize,
    b: usize,
    j: u64,
    progress: &mut P,
) -> (r: Result<(usize, usize, G), Bin>)
    requires
        params.drawable(DIM, DECIMATE, FULL, T::bits()),
        params.fits(DECIMATE, T::bits()),
        grid_circle(params, DECIMATE, T::bits()),
        b < 64,
        b <= params.index_bits(DECIMATE),
        params.index_bits(DECIMATE) - b < T::bits(),
        (j as nat) < pow2(b as nat),
    ensures
        ({
            let g: Geometry = params.geometry(DECIMATE, T::bits());
            let p: Seq<nat> = sampling::points::<G>(g, snapshot.state(), scan as nat);
            let key: spec_fn(nat) -> nat = tally::top_key((params.index_bits(DECIMATE) - b) as nat);
            let class: Seq<nat> = classes::class(p, params.cells@, b as nat, j as nat);
            let intervals_fit: bool = forall|k: nat|
                k < pow2(b as nat) ==> #[trigger] tally::select(p, key, k).len() <= old(scratch)@.len();
            &&& r is Ok <==> intervals_fit && class.len() <= old(class_buf)@.len()
            &&& r matches Ok(x) ==> {
                &&& x.0 == class.len()
                &&& x.1 == p.len()
                &&& x.2.state() == sampling::advance::<G>(g, snapshot.state(), scan as nat)
                &&& tally::vals(final(class_buf)@.take(class.len() as int)) == class
                &&& final(class_buf)@.skip(class.len() as int) == old(class_buf)@.skip(class.len() as int)
                &&& final(progress).log() == old(progress).log() + classes::interval_events(
                    p,
                    key,
                    pow2(b as nat),
                    j as nat + 1,
                    false,
                    pow2(b as nat),
                )
            }
            &&& r matches Err(bin) ==> {
                let shift: nat = (params.index_bits(DECIMATE) - b) as nat;
                &&& bin == if classes::interval_overflows(
                    p,
                    shift,
                    b as nat,
                    j as nat,
                    old(class_buf)@.len(),
                    old(scratch)@.len(),
                ) {
                    Bin::BirthdayInterval
                } else {
                    Bin::BirthdayClass
                }
                &&& final(progress).log() == old(progress).log() + classes::sweep_stopped(
                    p,
                    shift,
                    b as nat,
                    j as nat,
                    false,
                    collision::pass_room(p, key, old(scratch)@.len()),
                    old(class_buf)@.len(),
                )
            }
        }),
        final(class_buf)@.len() == old(class_buf)@.len(),
        final(scratch)@.len() == old(scratch)@.len(),
{
    let ghost g: Geometry = params.geometry(DECIMATE, T::bits());
    let ghost s0: G::State = snapshot.state();
    let ghost p: Seq<nat> = sampling::points::<G>(g, s0, scan as nat);
    let ghost shift: nat = (params.index_bits(DECIMATE) - b) as nat;
    let ghost key: spec_fn(nat) -> nat = tally::top_key(shift);
    let ghost low: spec_fn(nat) -> nat = tally::low_key(b as nat);
    let ghost log0: Seq<Event> = progress.log();
    let ghost n: nat = pow2(b as nat);
    let ghost cells: nat = params.cells@;
    let num_passes: u64 = pass_count(b);
    let ghost fits: spec_fn(nat) -> bool = collision::pass_room(p, key, scratch@.len());
    let ghost steps: spec_fn(nat) -> bool = classes::interval_fits(
        p,
        shift,
        b as nat,
        j as nat,
        fits,
        class_buf@.len(),
    );
    let (mask, target): (T, T) = class_selector(b, j);
    let mut sweep: Sweep<T> = Sweep::new();
    let mut end_state: G = snapshot;
    let mut total: usize = 0;
    let mut k: u64 = 0;
    proof {
        lemma_points_on_circle::<G>(params, DECIMATE, T::bits(), s0, scan as nat);
        sampling::lemma_points_bound::<G>(g, s0, scan as nat);
        lemma_interval_bound(p, params.index_bits(DECIMATE), b as nat);
        tally::lemma_partition(p, key, n);
        circle::lemma_below_none(p, shift);
        circle::lemma_below_all(p, shift, n);
        classes::lemma_class_gaps(tally::sorted(p), cells, low, j as nat);
        assert(sweep.at(tally::sorted(circle::below(p, shift, 0)), class_buf@, b as nat, j as nat));
        assert(progress.log() =~= log0 + classes::interval_events(p, key, n, j as nat + 1, false, 0));
    }
    while k < num_passes
        invariant
            k <= num_passes,
            num_passes == n,
            n == pow2(b as nat),
            j < n,
            params.drawable(DIM, DECIMATE, FULL, T::bits()),
            params.fits(DECIMATE, T::bits()),
            b < 64,
            b <= params.index_bits(DECIMATE),
            params.index_bits(DECIMATE) - b < T::bits(),
            g == params.geometry(DECIMATE, T::bits()),
            s0 == snapshot.state(),
            p == sampling::points::<G>(g, s0, scan as nat),
            p.len() <= scan,
            shift == params.index_bits(DECIMATE) - b,
            key == tally::top_key(shift),
            low == tally::low_key(b as nat),
            cells == params.cells@,
            log0 == old(progress).log(),
            circle::below(p, shift, n) == p,
            tally::selected_in(p, key, 0, n) == p.len(),
            classes::selects(mask, target, b as nat, j as nat),
            tally::select(circle::gaps(tally::sorted(p)), low, j as nat).len() <= classes::class(
                p,
                cells,
                b as nat,
                j as nat,
            ).len(),
            scratch@.len() == old(scratch)@.len(),
            class_buf@.len() == old(class_buf)@.len(),
            k > 0 ==> end_state.state() == sampling::advance::<G>(g, s0, scan as nat),
            total == tally::selected_in(p, key, 0, k as nat),
            sweep.at(tally::sorted(circle::below(p, shift, k as nat)), class_buf@, b as nat, j as nat),
            class_buf@.skip(classes::class_upto(p, shift, b as nat, j as nat, k as nat).len() as int)
                == old(class_buf)@.skip(classes::class_upto(p, shift, b as nat, j as nat, k as nat).len() as int),
            progress.log() == log0 + classes::interval_events(p, key, n, j as nat + 1, false, k as nat),
            forall|i: nat| i < k ==> #[trigger] tally::select(p, key, i).len() <= scratch@.len(),
            fits == collision::pass_room(p, key, scratch@.len()),
            forall|i: nat| i < k ==> #[trigger] fits(i),
            steps == classes::interval_fits(p, shift, b as nat, j as nat, fits, class_buf@.len()),
        decreases num_passes - k,
    {
        let ghost q: Seq<nat> = tally::select(p, key, k as nat);
        let ghost a: Seq<nat> = tally::sorted(circle::below(p, shift, k as nat));
        proof {
            sweep.lemma_collected(a, class_buf@, b as nat, j as nat);
            classes::lemma_intervals_fit(p, shift, b as nat, j as nat, fits, class_buf@.len(), k as nat);
            tally::lemma_in_monotone(p, key, 0, (k + 1) as nat, n);
            circle::lemma_below_step(p, shift, k as nat);
            tally::lemma_sorted(q);
        }
        progress.report(Event::Interval { class: j + 1, interval: k + 1, of: num_passes });
        match gen_pass_tradeoff::<T, DIM, DECIMATE, FULL, G>(snapshot, params, scratch, scan, k, b) {
            None => {
                proof {
                    assert(classes::class_upto(p, shift, b as nat, j as nat, k as nat).len() <= class_buf@.len());
                    assert(!fits(k as nat));
                    common::lemma_first_misfit(steps, 0, n, k as nat);
                    assert(progress.log() =~= log0 + classes::sweep_stopped(
                        p,
                        shift,
                        b as nat,
                        j as nat,
                        false,
                        fits,
                        class_buf@.len(),
                    ));
                }
                return Err(Bin::BirthdayInterval);
            },
            Some((len, local)) => {
                end_state = local;
                total += len;
                if len == 0 {
                    progress.report(Event::IntervalEmpty);
                    proof {
                        assert(a + tally::sorted(q) =~= a);
                    }
                } else {
                    progress.report(Event::Sorting);
                    sort_prefix_st(scratch, len);
                    let interval: &[T] = slice_subrange(scratch, 0, len);
                    proof {
                        assert(scratch@.subrange(0, len as int) =~= scratch@.take(len as int));
                        lemma_interval_follows(p, shift, k as nat);
                    }
                    let ghost had: Seq<T> = class_buf@;
                    if !sweep.absorb(interval, mask, target, class_buf, None, Ghost(a), Ghost(b as nat)) {
                        proof {
                            classes::lemma_class_grows(p, shift, (k + 1) as nat, n, low, j as nat);
                            assert forall|m: nat| k < m < n implies #[trigger] classes::class_upto(
                                p,
                                shift,
                                b as nat,
                                j as nat,
                                m,
                            ).len() > class_buf@.len() by {
                                classes::lemma_class_grows(p, shift, (k + 1) as nat, m, low, j as nat);
                            }
                            assert(fits(k as nat));
                            common::lemma_first_misfit(steps, 0, n, k as nat);
                            assert(progress.log() =~= log0 + classes::sweep_stopped(
                                p,
                                shift,
                                b as nat,
                                j as nat,
                                false,
                                fits,
                                class_buf@.len(),
                            ));
                        }
                        return Err(Bin::BirthdayClass);
                    }
                    proof {
                        let m: int = classes::class_upto(p, shift, b as nat, j as nat, k as nat).len() as int;
                        let n: int = classes::class_upto(p, shift, b as nat, j as nat, (k + 1) as nat).len() as int;
                        classes::lemma_class_grows(p, shift, k as nat, (k + 1) as nat, low, j as nat);
                        assert(had.skip(n) =~= had.skip(m).skip(n - m));
                        assert(old(class_buf)@.skip(n) =~= old(class_buf)@.skip(m).skip(n - m));
                    }
                    progress.report(Event::IntervalDone { points: len });
                }
                proof {
                    assert(progress.log() =~= log0 + classes::interval_events(
                        p,
                        key,
                        n,
                        j as nat + 1,
                        false,
                        (k + 1) as nat,
                    ));
                    assert(fits(k as nat));
                }
            },
        }
        k += 1;
    }
    proof {
        sweep.lemma_collected(tally::sorted(p), class_buf@, b as nat, j as nat);
        classes::lemma_intervals_fit(p, shift, b as nat, j as nat, fits, class_buf@.len(), n);
        common::lemma_first_misfit(steps, 0, n, n);
        tally::lemma_sorted(p);
        lemma_points_on_circle::<G>(params, DECIMATE, T::bits(), s0, scan as nat);
    }
    let ghost had: Seq<T> = class_buf@;
    let swept: Option<usize> = sweep.close(params.cells, mask, target, class_buf, Ghost(tally::sorted(p)), Ghost(b as nat));
    proof {
        if swept is Some {
            let m: int = classes::class_upto(p, shift, b as nat, j as nat, n).len() as int;
            let c: int = classes::class(p, cells, b as nat, j as nat).len() as int;
            assert(had.skip(c) =~= had.skip(m).skip(c - m));
            assert(old(class_buf)@.skip(c) =~= old(class_buf)@.skip(m).skip(c - m));
        }
    }
    match swept {
        None => Err(Bin::BirthdayClass),
        Some(class_len) => Ok((class_len, total, end_state)),
    }
}

/// The points of an interval are not less than those of the intervals before it.
pub proof fn lemma_interval_follows(p: Seq<nat>, shift: nat, k: nat)
    requires
        tally::select(p, tally::top_key(shift), k).len() > 0,
    ensures
        ({
            let a: Seq<nat> = tally::sorted(circle::below(p, shift, k));
            let s: Seq<nat> = tally::sorted(tally::select(p, tally::top_key(shift), k));
            s.len() > 0 && (a.len() > 0 ==> a.last() <= s[0])
        }),
{
    let a: Seq<nat> = tally::sorted(circle::below(p, shift, k));
    let s: Seq<nat> = tally::sorted(tally::select(p, tally::top_key(shift), k));
    circle::lemma_below_step(p, shift, k);
    tally::lemma_sorted(circle::below(p, shift, k + 1));
    tally::lemma_sorted(tally::select(p, tally::top_key(shift), k));
    if a.len() > 0 {
        let c: Seq<nat> = a + s;
        assert(c[a.len() - 1] <= c[a.len() as int]);
    }
}

/// Runs a birthday-spacings test using a space/time tradeoff, with two nested levels (each with
/// 2*ᵇ* passes):
///
/// - **Inner (distance) level:** the combined index is split into 2*ᵇ* contiguous value intervals by
///   its top *b* bits, walked in increasing order. Within an interval the points are generated and
///   sorted; the previous interval's maximum is carried as the border predecessor, and the global
///   minimum's wrap-around is applied once. These are exactly the spacings of the global sorted
///   sequence.
/// - **Outer (counting) level:** spacings are classified by their *low* *b* bits. Only the current
///   class's spacings are kept, sorted, and counted; equal spacings share all bits hence the same
///   class, so the per-class counts sum to the exact total.
///
/// A single class can be run alone. `scratch` holds the points of an interval, and `class_buf` the
/// spacings of a class. Returns the spacing-collision count and the number of points actually
/// kept, or the buffer that overflowed.
pub fn run_birthday_tradeoff<
    T: Cell,
    const DIM: usize,
    const DECIMATE: bool,
    const FULL: bool,
    G: Generator,
    P: Progress,
>(
    prng: &mut G,
    params: &GridParams,
    class_buf: &mut [T],
    scratch: &mut [T],
    points: usize,
    b: usize,
    pass: Option<u64>,
    progress: &mut P,
) -> (r: Result<(usize, usize), Bin>)
    requires
        params.drawable(DIM, DECIMATE, FULL, T::bits()),
        params.fits(DECIMATE, T::bits()),
        grid_circle(params, DECIMATE, T::bits()),
        collision::scannable(points, params.t, params.d),
        b < 64,
        b <= params.index_bits(DECIMATE),
        params.index_bits(DECIMATE) - b < T::bits(),
        common::pass_ok(b as nat, pass),
    ensures
        ({
            let g: Geometry = params.geometry(DECIMATE, T::bits());
            let scan: nat = collision::scan_len(points, params.t, params.d);
            let p: Seq<nat> = sampling::points::<G>(g, old(prng).state(), scan);
            let cells: nat = params.cells@;
            let key: spec_fn(nat) -> nat = tally::top_key((params.index_bits(DECIMATE) - b) as nat);
            let lo: nat = common::pass_lo(pass);
            let hi: nat = common::pass_hi(b as nat, pass);
            let intervals_fit: bool = forall|k: nat|
                k < pow2(b as nat) ==> #[trigger] tally::select(p, key, k).len() <= old(scratch)@.len();
            let classes_fit: bool = forall|j: nat|
                lo <= j < hi ==> #[trigger] classes::class(p, cells, b as nat, j).len() <= old(class_buf)@.len();
            &&& r is Ok <==> intervals_fit && classes_fit
            &&& r matches Ok(x) ==> {
                &&& x.0 == circle::birthday_in(p, cells, b as nat, lo, hi)
                &&& x.1 == p.len()
                &&& final(prng).state() == sampling::advance::<G>(g, old(prng).state(), scan)
                &&& final(progress).log() == old(progress).log() + seq![
                    Event::Classes { classes: pow2(b as nat) as u64 },
                ] + classes::class_events(p, cells, key, b as nat, false, lo, hi) + seq![Event::Done { points: x.1 }]
                &&& tally::vals(final(class_buf)@) == classes::classes_left(
                    tally::vals(old(class_buf)@),
                    p,
                    cells,
                    b as nat,
                    lo,
                    hi,
                )
            }
            &&& r matches Err(bin) ==> {
                let shift: nat = (params.index_bits(DECIMATE) - b) as nat;
                &&& bin == if classes::interval_overflows(
                    p,
                    shift,
                    b as nat,
                    lo,
                    old(class_buf)@.len(),
                    old(scratch)@.len(),
                ) {
                    Bin::BirthdayInterval
                } else {
                    Bin::BirthdayClass
                }
                &&& final(progress).log() == old(progress).log() + seq![
                    Event::Classes { classes: pow2(b as nat) as u64 },
                ] + classes::classes_stopped(
                    p,
                    cells,
                    shift,
                    b as nat,
                    false,
                    lo,
                    hi,
                    collision::pass_room(p, key, old(scratch)@.len()),
                    old(class_buf)@.len(),
                )
            }
        }),
        final(class_buf)@.len() == old(class_buf)@.len(),
        final(scratch)@.len() == old(scratch)@.len(),
{
    let ghost g: Geometry = params.geometry(DECIMATE, T::bits());
    let ghost s0: G::State = prng.state();
    let ghost n: nat = pow2(b as nat);
    let ghost cells: nat = params.cells@;
    let num_passes: u64 = pass_count(b);
    let scan: usize = match scan_samples(points, params.t, params.d) {
        Some(n) => n,
        None => 0,
    };
    let ghost p: Seq<nat> = sampling::points::<G>(g, s0, scan as nat);
    let ghost key: spec_fn(nat) -> nat = tally::top_key((params.index_bits(DECIMATE) - b) as nat);
    let ghost low: spec_fn(nat) -> nat = tally::low_key(b as nat);
    let ghost all: Seq<nat> = circle::spacings(tally::sorted(p), cells);
    let lo: u64 = match pass {
        Some(k) => k,
        None => 0,
    };
    let hi: u64 = match pass {
        Some(k) => k + 1,
        None => num_passes,
    };
    let snapshot: G = *prng;
    let mut end_state: G = snapshot;
    let mut total_coll: usize = 0;
    let mut total_points: usize = 0;
    progress.report(Event::Classes { classes: num_passes });
    let ghost log1: Seq<Event> = progress.log();
    let ghost fits: spec_fn(nat) -> bool = collision::pass_room(p, key, scratch@.len());
    let mut j: u64 = lo;
    proof {
        sampling::lemma_points_bound::<G>(g, s0, scan as nat);
        lemma_points_on_circle::<G>(params, DECIMATE, T::bits(), s0, scan as nat);
        tally::lemma_sorted(p);
        assert(progress.log() =~= log1 + classes::class_events(p, cells, key, b as nat, false, lo as nat, lo as nat));
        assert(log1 =~= old(progress).log() + seq![Event::Classes { classes: pow2(b as nat) as u64 }]);
    }
    while j < hi
        invariant
            lo <= j <= hi,
            lo < hi <= num_passes,
            num_passes == n,
            n == pow2(b as nat),
            params.drawable(DIM, DECIMATE, FULL, T::bits()),
            params.fits(DECIMATE, T::bits()),
            grid_circle(params, DECIMATE, T::bits()),
            b < 64,
            b <= params.index_bits(DECIMATE),
            params.index_bits(DECIMATE) - b < T::bits(),
            g == params.geometry(DECIMATE, T::bits()),
            snapshot.state() == s0,
            s0 == old(prng).state(),
            scan == collision::scan_len(points, params.t, params.d),
            p == sampling::points::<G>(g, s0, scan as nat),
            p.len() <= scan,
            cells == params.cells@,
            key == tally::top_key((params.index_bits(DECIMATE) - b) as nat),
            low == tally::low_key(b as nat),
            all == circle::spacings(tally::sorted(p), cells),
            tally::sorted(p).len() == p.len(),
            tally::ascending(tally::sorted(p)),
            on_circle(tally::sorted(p), cells, T::bits()),
            lo == common::pass_lo(pass),
            hi == common::pass_hi(b as nat, pass),
            class_buf@.len() == old(class_buf)@.len(),
            scratch@.len() == old(scratch)@.len(),
            j > lo ==> end_state.state() == sampling::advance::<G>(g, s0, scan as nat),
            j > lo ==> total_points == p.len(),
            j > lo ==> (forall|k: nat| k < n ==> #[trigger] tally::select(p, key, k).len() <= scratch@.len()),
            fits == collision::pass_room(p, key, scratch@.len()),
            j > lo ==> (forall|k: nat| k < n ==> #[trigger] fits(k)),
            log1 == old(progress).log() + seq![Event::Classes { classes: pow2(b as nat) as u64 }],
            forall|i: nat|
                lo <= i < j ==> #[trigger] classes::class(p, cells, b as nat, i).len() <= class_buf@.len(),
            total_coll == tally::collisions_in(all, low, lo as nat, j as nat),
            tally::vals(class_buf@) == classes::classes_left(
                tally::vals(old(class_buf)@),
                p,
                cells,
                b as nat,
                lo as nat,
                j as nat,
            ),
            progress.log() == log1 + classes::class_events(p, cells, key, b as nat, false, lo as nat, j as nat),
        decreases hi - j,
    {
        let ghost class: Seq<nat> = classes::class(p, cells, b as nat, j as nat);
        let ghost before: Seq<T> = class_buf@;
        match sweep_class::<T, DIM, DECIMATE, FULL, G, P>(
            snapshot,
            params,
            class_buf,
            scratch,
            scan,
            b,
            j,
            progress,
        ) {
            Err(bin) => {
                proof {
                    let spacings: nat = class_buf@.len();
                    let each: spec_fn(nat) -> bool = classes::class_fits(p, cells, b as nat, fits, spacings);
                    assert forall|i: nat| lo <= i < j implies #[trigger] each(i) by {
                        assert(classes::class(p, cells, b as nat, i).len() <= spacings);
                    }
                    if forall|k: nat| k < n ==> #[trigger] fits(k) {
                        assert forall|k: nat| k < n implies #[trigger] tally::select(p, key, k).len() <= scratch@.len() by {
                            assert(fits(k));
                        }
                    }
                    assert(!each(j as nat));
                    common::lemma_first_misfit(each, lo as nat, hi as nat, j as nat);
                    assert(progress.log() =~= log1 + classes::classes_stopped(
                        p,
                        cells,
                        (params.index_bits(DECIMATE) - b) as nat,
                        b as nat,
                        false,
                        lo as nat,
                        hi as nat,
                        fits,
                        spacings,
                    ));
                }
                return Err(bin);
            },
            Ok((class_len, kept, local)) => {
                end_state = local;
                total_points = kept;
                sort_prefix_st(class_buf, class_len);
                let c: usize = count_prefix(class_buf, class_len);
                proof {
                    tally::lemma_sorted(class);
                    tally::lemma_collisions_permuted(class, tally::sorted(class));
                    circle::lemma_proper(tally::sorted(p), cells, low, j as nat);
                    tally::lemma_in_bound(all, low, lo as nat, (j + 1) as nat);
                    common::lemma_overlaid(before, class_buf@, class_len as int);
                }
                total_coll += c;
                progress.report(
                    Event::ClassDone {
                        class: j + 1,
                        of: num_passes,
                        spacings: class_len,
                        collisions: c,
                        all_collisions: total_coll,
                    },
                );
                proof {
                    assert(progress.log() =~= log1 + classes::class_events(
                        p,
                        cells,
                        key,
                        b as nat,
                        false,
                        lo as nat,
                        (j + 1) as nat,
                    ));
                }
            },
        }
        j += 1;
    }
    *prng = end_state;
    progress.report(Event::Done { points: total_points });
    proof {
        assert(progress.log() =~= old(progress).log() + seq![
            Event::Classes { classes: pow2(b as nat) as u64 },
        ] + classes::class_events(p, cells, key, b as nat, false, lo as nat, hi as nat) + seq![
            Event::Done { points: total_points },
        ]);
    }
    Ok((total_coll, total_points))
}

} // verus!
