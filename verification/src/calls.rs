//! Laws of calls: what a call of an operation returns and leaves behind, and how calls relate, as far as
//! their contracts tell. Mutable arguments are given as sequences of one reference each.
use vstd::arithmetic::power2::*;
use vstd::prelude::*;
use vstd::seq_lib::*;

use crate::birthday::{compute_spacings, run_birthday, run_birthday_tradeoff};
use crate::cell;
use crate::cell::{cell_index, decimate_once, Cell};
use crate::circle;
use crate::cli;
use crate::cli::{compute_points, parse_u64, ArgError, Args, NumberError};
use crate::collision;
use crate::collision::{run_collision, run_collision_decimate, run_collision_tradeoff};
use crate::common;
use crate::common::{count_adjacent_equals, merge_into, scan_samples, sort_and_count, Cells, GridParams};
use crate::fill;
use crate::fill::{gen_pass_dispatch, gen_pass_tradeoff, gen_plain, gen_unit_contiguous};
use crate::orbit;
use crate::orbit::{ranges, share_lens, share_starts};
use crate::parallel::run_test_parallel;
use crate::parallel_birthday::run_birthday_parallel;
use crate::par;
use crate::prng;
use crate::prng::Generator;
use crate::progress::{Event, Progress};
use crate::runs;
use crate::runs::{run_test, Totals};
use crate::sampling;
use crate::sampling::Geometry;
use crate::stages;
use crate::stages::{num_checkpoints, stage_target};
use crate::tally;

verus! {

/// A seeded generator draws the words of its recurrence, one after the other.
pub proof fn lemma_seeded_draws<G: Generator>(seed: u64, g: G, p: Seq<&mut G>, v: u64, w: u64)
    requires
        p.len() == 2,
        call_ensures(G::new, (seed,), g),
        *p[0] == g,
        call_ensures(G::next_u64, (p[0],), v),
        *p[1] == *final(p[0]),
        call_ensures(G::next_u64, (p[1],), w),
    ensures
        v == G::output(G::seeded(seed)),
        w == G::output(G::step(G::seeded(seed))),
        final(p[1]).state() == G::step(G::step(G::seeded(seed))),
{
}

/// Skipping `n` draws leads where `n` draws lead: the next word is the one that they would have come to,
/// skipping none stays in place, and two skips are one of both. A generator that cannot skip says so, and
/// stays where it is.
pub proof fn lemma_skips<G: Generator>(
    p: Seq<&mut G>,
    m: u64,
    n: u64,
    a: Result<(), ()>,
    b: Result<(), ()>,
    w: u64,
)
    requires
        p.len() == 3,
        call_ensures(G::try_skip, (p[0], m), a),
        *p[1] == *final(p[0]),
        call_ensures(G::try_skip, (p[1], n), b),
        *p[2] == *final(p[1]),
        call_ensures(G::next_u64, (p[2],), w),
    ensures
        G::jumps() ==> a is Ok && b is Ok,
        G::jumps() ==> final(p[1]).state() == prng::orbit::<G>(p[0].state(), m as nat + n as nat),
        G::jumps() ==> w == prng::word::<G>(p[0].state(), m as nat + n as nat),
        G::jumps() && m == 0 ==> final(p[0]).state() == p[0].state(),
        G::jumps() && m == 1 ==> final(p[0]).state() == G::step(p[0].state()),
        !G::jumps() ==> a is Err && b is Err && final(p[1]).state() == p[0].state(),
        !G::jumps() ==> w == G::output(p[0].state()),
{
    prng::lemma_orbit_words::<G>(p[0].state(), m as nat, n as nat);
}

/// A decimating attempt keeps a tuple just when each of the `d` low bits of the element of each of its `t`
/// words is zero, for all words and all of these bits. It draws all `t` words in any case.
pub proof fn lemma_decimate_once_keeps<T: Cell, const DIM: usize, const FULL: bool, G: Generator>(
    p: Seq<&mut G>,
    t_rt: usize,
    u: usize,
    s: usize,
    d: usize,
    r: Option<T>,
)
    requires
        p.len() == 1,
        u + s <= 64,
        d <= u,
        call_ensures(decimate_once::<T, DIM, FULL, G>, (p[0], t_rt, u, s, d), r),
    ensures
        r is Some <==> (forall|i: nat, k: nat|
            i < (if DIM == 0 {
                t_rt
            } else {
                DIM
            }) && k < d ==> (#[trigger] prng::word::<G>(p[0].state(), i) as nat / #[trigger] pow2(
                (64 - u - s) as nat + k,
            )) % 2 == 0),
        final(p[0]).state() == prng::orbit::<G>(
            p[0].state(),
            (if DIM == 0 {
                t_rt
            } else {
                DIM
            }) as nat,
        ),
{
    cell::lemma_drawn_kept::<G>(DIM, t_rt, u, s, d, T::bits(), p[0].state());
}

/// The index of a kept tuple: bit `k` of its block of `u` - `d` bits number `i`, from the left, is bit
/// 64 - `u` - `s` + `d` + `k` of the word number `i`.
pub proof fn lemma_decimate_once_bits<T: Cell, const DIM: usize, const FULL: bool, G: Generator>(
    p: Seq<&mut G>,
    t_rt: usize,
    t: nat,
    u: usize,
    s: usize,
    d: usize,
    x: T,
    i: nat,
    k: nat,
)
    requires
        p.len() == 1,
        t == if DIM == 0 {
            t_rt
        } else {
            DIM
        },
        u + s <= 64,
        d <= u,
        i < t,
        k < u - d,
        (u - d) as nat * t <= T::bits(),
        call_ensures(decimate_once::<T, DIM, FULL, G>, (p[0], t_rt, u, s, d), Some(x)),
    ensures
        (x.val() / pow2((u - d) as nat * ((t - 1 - i) as nat) + k)) % 2 == (prng::word::<G>(p[0].state(), i) as nat
            / pow2((64 - u - s + d) as nat + k)) % 2,
        x.val() < pow2((u - d) as nat * t),
{
    cell::lemma_drawn_bits::<G>(DIM, t_rt, u, s, d, T::bits(), p[0].state(), i, k);
}

/// The index drawn without decimation: bit `k` of its block of `u` bits number `i`, from the left, is bit
/// 64 - `u` - `s` + `k` of the word number `i`, so that all `u` upper bits of each shifted word are there.
pub proof fn lemma_cell_index_bits<T: Cell, const DIM: usize, const FULL: bool, G: Generator>(
    p: Seq<&mut G>,
    t_rt: usize,
    t: nat,
    u: usize,
    s: usize,
    x: T,
    i: nat,
    k: nat,
)
    requires
        p.len() == 1,
        t == if DIM == 0 {
            t_rt
        } else {
            DIM
        },
        u + s <= 64,
        i < t,
        k < u,
        u as nat * t <= T::bits(),
        call_ensures(cell_index::<T, DIM, FULL, G>, (p[0], t_rt, u, s), x),
    ensures
        (x.val() / pow2(u as nat * ((t - 1 - i) as nat) + k)) % 2 == (prng::word::<G>(p[0].state(), i) as nat / pow2(
            (64 - u - s) as nat + k,
        )) % 2,
        x.val() < pow2(u as nat * t),
        final(p[0]).state() == prng::orbit::<G>(p[0].state(), t),
{
    cell::lemma_drawn_bits::<G>(DIM, t_rt, u, s, 0, T::bits(), p[0].state(), i, k);
}

/// A decimating attempt on no bits is a plain draw.
pub proof fn lemma_no_decimation<T: Cell, const DIM: usize, const FULL: bool, G: Generator>(
    p: Seq<&mut G>,
    t_rt: usize,
    u: usize,
    s: usize,
    x: T,
    r: Option<T>,
)
    requires
        p.len() == 2,
        p[0].state() == p[1].state(),
        call_ensures(cell_index::<T, DIM, FULL, G>, (p[0], t_rt, u, s), x),
        call_ensures(decimate_once::<T, DIM, FULL, G>, (p[1], t_rt, u, s, 0), r),
    ensures
        r == Some(x),
        final(p[0]).state() == final(p[1]).state(),
{
    let g: Geometry = cell::geometry(cell::dimension(DIM, t_rt), u, s, 0, T::bits());
    sampling::lemma_undecimated::<G>(g, p[0].state());
    x.lemma_val_injective(r->0);
}

/// A grid draws what drawing with its parameters gives.
pub proof fn lemma_grid_draws<T: Cell, const DIM: usize, const FULL: bool, G: Generator>(
    params: &GridParams,
    p: Seq<&mut G>,
    x: T,
    y: T,
    r: Option<T>,
    q: Option<T>,
)
    requires
        p.len() == 4,
        p[0].state() == p[1].state(),
        p[0].state() == p[2].state(),
        p[0].state() == p[3].state(),
        call_ensures(GridParams::draw::<T, DIM, FULL, G>, (params, p[0]), x),
        call_ensures(cell_index::<T, DIM, FULL, G>, (p[1], params.t, params.u, params.s), y),
        call_ensures(GridParams::draw_decimate_once::<T, DIM, FULL, G>, (params, p[2]), r),
        call_ensures(decimate_once::<T, DIM, FULL, G>, (p[3], params.t, params.u, params.s, params.d), q),
    ensures
        x == y,
        r == q,
        final(p[0]).state() == final(p[1]).state(),
        final(p[2]).state() == final(p[3]).state(),
{
    x.lemma_val_injective(y);
    if r is Some {
        r->0.lemma_val_injective(q->0);
    }
}

/// A plain pass writes the kept samples of the scan to the front of the buffer, in their order, if there is
/// room for them, and leaves the rest of it as it was. Returns the numbers of the samples that are kept.
pub proof fn lemma_gen_plain<T: Cell, const DIM: usize, const DECIMATE: bool, const FULL: bool, G: Generator>(
    p: Seq<&mut G>,
    params: &GridParams,
    buf: Seq<&mut [T]>,
    scan: usize,
    r: Option<usize>,
) -> (at: Seq<nat>)
    requires
        p.len() == 1,
        buf.len() == 1,
        call_ensures(gen_plain::<T, DIM, DECIMATE, FULL, G>, (p[0], params, buf[0], scan), r),
    ensures
        ({
            let d: usize = if DECIMATE {
                params.d
            } else {
                0
            };
            let g: Geometry = cell::geometry(params.t, params.u, params.s, d, T::bits());
            let s: G::State = p[0].state();
            &&& forall|i: int| 0 <= i < at.len() ==> #[trigger] at[i] < scan
            &&& forall|i: int, j: int| 0 <= i < j < at.len() ==> #[trigger] at[i] < #[trigger] at[j]
            &&& forall|j: nat|
                j < scan && sampling::sample::<G>(g, #[trigger] prng::orbit::<G>(s, j * params.t as nat)) is Some
                    ==> at.contains(j)
            &&& r is Some <==> at.len() <= buf[0]@.len()
            &&& r is Some ==> {
                &&& r->0 == at.len()
                &&& forall|i: int|
                    0 <= i < at.len() ==> sampling::sample::<G>(
                        g,
                        prng::orbit::<G>(s, #[trigger] at[i] * params.t as nat),
                    ) == Some(final(buf[0])@[i].val())
                &&& forall|i: int| at.len() <= i < buf[0]@.len() ==> #[trigger] final(buf[0])@[i] == buf[0]@[i]
                &&& final(p[0]).state() == prng::orbit::<G>(s, scan as nat * params.t as nat)
            }
            &&& final(buf[0])@.len() == buf[0]@.len()
        }),
{
    common::lemma_grid_geometry(params, DECIMATE, T::bits());
    let g: Geometry = params.geometry(DECIMATE, T::bits());
    let at: Seq<nat> = sampling::lemma_points_are_samples::<G>(g, p[0].state(), scan as nat);
    let want: Seq<nat> = sampling::points::<G>(g, p[0].state(), scan as nat);
    fill::lemma_filled(buf[0]@, final(buf[0])@, want, r);
    sampling::lemma_advance::<G>(g, p[0].state(), scan as nat);
    if r is Some {
        assert forall|i: int| 0 <= i < at.len() implies sampling::sample::<G>(
            g,
            prng::orbit::<G>(p[0].state(), #[trigger] at[i] * params.t as nat),
        ) == Some(final(buf[0])@[i].val()) by {
            assert(final(buf[0])@[i].val() == want[i]);
        }
    }
    at
}

/// A tradeoff pass writes, of what a plain pass writes, the points in its own value interval, and leads to
/// the same place: those from `pass` times 2^(w - b) on, as many as one interval has cells, where an index
/// has w bits.
pub proof fn lemma_gen_pass<T: Cell, const DIM: usize, const DECIMATE: bool, const FULL: bool, G: Generator>(
    p: Seq<&mut G>,
    snapshot: G,
    params: &GridParams,
    buf: Seq<&mut [T]>,
    scan: usize,
    pass: u64,
    b: usize,
    w: nat,
    n: usize,
    r: Option<(usize, G)>,
)
    requires
        p.len() == 1,
        buf.len() == 2,
        *p[0] == snapshot,
        w == (params.u - if DECIMATE {
            params.d
        } else {
            0
        }) * params.t,
        DECIMATE ==> params.d <= params.u,
        b <= w,
        call_ensures(gen_plain::<T, DIM, DECIMATE, FULL, G>, (p[0], params, buf[0], scan), Some(n)),
        call_ensures(
            gen_pass_dispatch::<T, G>,
            (snapshot, params, buf[1], scan, pass, b, DECIMATE, FULL),
            r,
        ),
    ensures
        ({
            let all: Seq<nat> = tally::vals(final(buf[0])@.take(n as int));
            let want: Seq<nat> = if b == 0 {
                all
            } else {
                all.filter(|x: nat| pass as nat * pow2((w - b) as nat) <= x < (pass as nat + 1) * pow2((w - b) as nat))
            };
            &&& r is Some <==> want.len() <= buf[1]@.len()
            &&& r is Some ==> {
                &&& ({
                    let (len, next): (usize, G) = r->0;
                    len == want.len() && next.state() == final(p[0]).state()
                })
                &&& tally::vals(final(buf[1])@.take(want.len() as int)) == want
            }
        }),
{
    let g: Geometry = params.geometry(DECIMATE, T::bits());
    let all: Seq<nat> = sampling::points::<G>(g, snapshot.state(), scan as nat);
    fill::lemma_unit_filter(all, w, b as nat, pass as nat);
}

/// A pass with the numbers known when compiled writes what the one that dispatches on them does.
pub proof fn lemma_gen_pass_tradeoff<T: Cell, const DIM: usize, const DECIMATE: bool, const FULL: bool, G: Generator>(
    snapshot: G,
    params: &GridParams,
    buf: Seq<&mut [T]>,
    scan: usize,
    pass: u64,
    b: usize,
    x: Option<(usize, G)>,
    y: Option<(usize, G)>,
)
    requires
        buf.len() == 2,
        buf[0]@ == buf[1]@,
        b > 0,
        call_ensures(gen_pass_tradeoff::<T, DIM, DECIMATE, FULL, G>, (snapshot, params, buf[0], scan, pass, b), x),
        call_ensures(gen_pass_dispatch::<T, G>, (snapshot, params, buf[1], scan, pass, b, DECIMATE, FULL), y),
    ensures
        x is Some <==> y is Some,
        x matches Some(a) ==> {
            let (m, g): (usize, G) = a;
            let (n, h): (usize, G) = y->0;
            &&& m == n
            &&& g.state() == h.state()
            &&& tally::vals(final(buf[0])@.take(m as int)) == tally::vals(final(buf[1])@.take(m as int))
            &&& final(buf[0])@.skip(m as int) == final(buf[1])@.skip(m as int)
        },
{
}

/// Several generators write the points of their own stretches, each as a pass of its own does, one behind
/// the other.
pub proof fn lemma_gen_unit<T: Cell, G: Generator>(
    buf: Seq<&mut [T]>,
    caps: &[usize],
    snapshots: &[G],
    params: &GridParams,
    lens: &[usize],
    pass: u64,
    b: usize,
    decimating: bool,
    full: bool,
    total: usize,
    w: nat,
)
    requires
        buf.len() == 1,
        lens@.len() == snapshots@.len(),
        caps@.len() == snapshots@.len(),
        w == (params.u - if decimating {
            params.d
        } else {
            0
        }) * params.t,
        decimating ==> params.d <= params.u,
        b <= w,
        call_ensures(
            gen_unit_contiguous::<T, G>,
            (buf[0], caps, snapshots, params, lens, pass, b, decimating, full),
            Some(total),
        ),
    ensures
        ({
            let d: usize = if decimating {
                params.d
            } else {
                0
            };
            let g: Geometry = cell::geometry(params.t, params.u, params.s, d, T::bits());
            let size: nat = pow2((w - b) as nat);
            let parts: Seq<Seq<nat>> = Seq::new(
                snapshots@.len(),
                |i: int|
                    {
                        let p: Seq<nat> = sampling::points::<G>(g, snapshots@[i].state(), lens@[i] as nat);
                        if b == 0 {
                            p
                        } else {
                            p.filter(|x: nat| pass as nat * size <= x < (pass as nat + 1) * size)
                        }
                    },
            );
            &&& tally::vals(final(buf[0])@.take(total as int)) == parts.flatten()
            &&& forall|i: int| 0 <= i < parts.len() ==> (#[trigger] parts[i]).len() <= caps@[i]
        }),
{
    let g: Geometry = params.geometry(decimating, T::bits());
    let size: nat = pow2((w - b) as nat);
    let all: Seq<Seq<nat>> = fill::unit_parts(g, snapshots@, lens@, w, b as nat, pass as nat);
    let parts: Seq<Seq<nat>> = Seq::new(
        snapshots@.len(),
        |i: int|
            {
                let p: Seq<nat> = sampling::points::<G>(g, snapshots@[i].state(), lens@[i] as nat);
                if b == 0 {
                    p
                } else {
                    p.filter(|x: nat| pass as nat * size <= x < (pass as nat + 1) * size)
                }
            },
    );
    assert forall|i: int| 0 <= i < snapshots@.len() implies #[trigger] parts[i] == all[i] by {
        let p: Seq<nat> = sampling::points::<G>(g, snapshots@[i].state(), lens@[i] as nat);
        fill::lemma_unit_parts(g, snapshots@, lens@, w, b as nat, pass as nat, i);
        fill::lemma_unit_filter(p, w, b as nat, pass as nat);
    }
    assert(parts =~= all);
    par::lemma_concat_flat(all);
}

/// Counting equal neighbours counts them.
pub proof fn lemma_count_adjacent<T: Cell>(v: &[T], r: usize)
    requires
        call_ensures(count_adjacent_equals::<T>, (v,), r),
    ensures
        r == Set::new(|i: int| 0 < i < v@.len() && v@[i - 1].val() == v@[i].val()).len(),
{
    let p: Seq<nat> = tally::vals(v@);
    tally::lemma_adjacent_places(p);
    assert(Set::new(|i: int| 0 < i < p.len() && p[i - 1] == p[i]) =~= Set::new(
        |i: int| 0 < i < v@.len() && v@[i - 1].val() == v@[i].val(),
    ));
}

/// Sorting the front of a buffer puts its indices in order, keeps each as often as it was there, and does
/// not touch the rest; and the count that comes with it is the number of them that came before.
pub proof fn lemma_sort_and_count<T: Cell, P: Progress>(
    buf: Seq<&mut [T]>,
    len: usize,
    progress: Seq<&mut P>,
    r: usize,
)
    requires
        buf.len() == 1,
        progress.len() == 1,
        len <= buf[0]@.len(),
        call_ensures(sort_and_count::<T, P>, (buf[0], len, progress[0]), r),
    ensures
        ({
            let before: Seq<nat> = tally::vals(buf[0]@.take(len as int));
            let after: Seq<nat> = tally::vals(final(buf[0])@.take(len as int));
            &&& after.to_multiset() == before.to_multiset()
            &&& forall|i: int| 0 < i < len ==> after[i - 1] <= #[trigger] after[i]
            &&& r == Set::new(|i: int| 0 <= i < before.len() && before.take(i).contains(before[i])).len()
            &&& final(buf[0])@.skip(len as int) == buf[0]@.skip(len as int)
            &&& final(progress[0]).log() == progress[0].log().push(Event::Sorting).push(Event::Counting)
        }),
{
    let before: Seq<nat> = tally::vals(buf[0]@.take(len as int));
    tally::lemma_sorted(before);
    tally::lemma_collisions_repeats(before);
    assert(progress[0].log() + seq![Event::Sorting, Event::Counting] =~= progress[0].log().push(Event::Sorting).push(
        Event::Counting,
    ));
}

/// Merging gives the elements of both parts, in order.
pub proof fn lemma_merge<T: Cell>(buf: Seq<&mut [T]>, prefix_len: usize, src: &[T])
    requires
        buf.len() == 1,
        prefix_len + src@.len() <= buf[0]@.len(),
        call_ensures(merge_into::<T>, (buf[0], prefix_len, src), ()),
    ensures
        ({
            let n: int = prefix_len + src@.len();
            let after: Seq<nat> = tally::vals(final(buf[0])@.take(n));
            &&& after.to_multiset() == tally::vals(buf[0]@.take(prefix_len as int)).to_multiset().add(
                tally::vals(src@).to_multiset(),
            )
            &&& forall|i: int| 0 < i < n ==> after[i - 1] <= #[trigger] after[i]
            &&& final(buf[0])@.skip(n) == buf[0]@.skip(n)
        }),
{
    let a: Seq<nat> = tally::vals(buf[0]@.take(prefix_len as int));
    let b: Seq<nat> = tally::vals(src@);
    tally::lemma_sorted(a + b);
    lemma_multiset_commutative(a, b);
    let after: Seq<nat> = tally::vals(final(buf[0])@.take(prefix_len + src@.len()));
    assert forall|i: int| 0 < i < prefix_len + src@.len() implies after[i - 1] <= #[trigger] after[i] by {
        assert(tally::ascending(after));
    }
}

/// The spacings of sorted points: each leads from the point before to its own, and the first one from the
/// last point round the circle; but when all points are the same, it is not the length of the circle but a
/// one.
pub proof fn lemma_compute_spacings<T: Cell>(v: Seq<&mut [T]>, cells: Cells)
    requires
        v.len() == 1,
        v[0]@.len() > 0,
        cell::ascending(v[0]@),
        v[0]@.last().val() < cells@,
        call_ensures(compute_spacings::<T>, (v[0], cells), ()),
    ensures
        final(v[0])@.len() == v[0]@.len(),
        forall|i: int| 0 < i < v[0]@.len() ==> v[0]@[i - 1].val() + #[trigger] final(v[0])@[i].val() == v[0]@[i].val(),
        v[0]@[0].val() != v[0]@.last().val() ==> v[0]@.last().val() + final(v[0])@[0].val() == cells@ + v[0]@[0].val(),
        v[0]@[0].val() == v[0]@.last().val() ==> final(v[0])@[0].val() == 1,
{
    let s: Seq<nat> = tally::vals(v[0]@);
    let f: Seq<nat> = tally::vals(final(v[0])@);
    assert forall|i: int, j: int| 0 <= i <= j < s.len() implies s[i] <= s[j] by {
        assert(v[0]@[i].val() <= v[0]@[j].val());
    }
    circle::lemma_spacings_lead_on(s, cells@);
    assert forall|i: int| 0 < i < s.len() implies v[0]@[i - 1].val() + #[trigger] final(v[0])@[i].val()
        == v[0]@[i].val() by {
        assert(f[i] == final(v[0])@[i].val());
        assert(s[i - 1] + circle::spacings(s, cells@)[i] == s[i]);
        if s[0] == s.last() {
            assert(s[i - 1] + circle::gaps(s)[i - 1] == s[i - 1 + 1]);
            assert(f[i] == (seq![1nat] + circle::gaps(s))[i]);
        }
    }
    assert(f[0] == final(v[0])@[0].val());
}

/// The plain collision test counts the points that came before, among as many points as the buffer holds,
/// drawn one after the other without decimation; it leaves them sorted, and the generator behind them.
pub proof fn lemma_run_collision<T: Cell, const DIM: usize, const FULL: bool, G: Generator, P: Progress>(
    prng: Seq<&mut G>,
    params: &GridParams,
    buf: Seq<&mut [T]>,
    progress: Seq<&mut P>,
    r: (usize, usize),
)
    requires
        prng.len() == 1,
        buf.len() == 1,
        progress.len() == 1,
        call_ensures(run_collision::<T, DIM, FULL, G, P>, (prng[0], params, buf[0], progress[0]), r),
    ensures
        ({
            let g: Geometry = cell::geometry(params.t, params.u, params.s, 0, T::bits());
            let n: nat = buf[0]@.len();
            let p: Seq<nat> = sampling::points::<G>(g, prng[0].state(), n);
            &&& r.0 == Set::new(|i: int| 0 <= i < p.len() && p.take(i).contains(p[i])).len()
            &&& r.1 == n
            &&& p.len() == n
            &&& tally::vals(final(buf[0])@).to_multiset() == p.to_multiset()
            &&& tally::ascending(tally::vals(final(buf[0])@))
            &&& final(prng[0]).state() == prng::orbit::<G>(prng[0].state(), n * params.t as nat)
            &&& final(progress[0]).log() == progress[0].log() + seq![
                Event::Generating,
                Event::Sorting,
                Event::Counting,
                Event::Done { points: n as usize },
            ]
        }),
{
    common::lemma_grid_geometry(params, false, T::bits());
    let g: Geometry = params.geometry(false, T::bits());
    let p: Seq<nat> = sampling::points::<G>(g, prng[0].state(), buf[0]@.len());
    tally::lemma_collisions_repeats(p);
    tally::lemma_sorted(p);
    sampling::lemma_points_undecimated::<G>(g, prng[0].state(), buf[0]@.len());
    sampling::lemma_advance::<G>(g, prng[0].state(), buf[0]@.len());
}

/// A tradeoff counts the points that came before, in all value intervals, or in the single one that is run;
/// all intervals together count what a plain test does.
pub proof fn lemma_run_collision_tradeoff<T: Cell, const DIM: usize, const DECIMATE: bool, G: Generator, P: Progress>(
    prng: Seq<&mut G>,
    params: &GridParams,
    buf: Seq<&mut [T]>,
    points: usize,
    b: usize,
    pass: Option<u64>,
    progress: Seq<&mut P>,
    w: nat,
    x: (usize, usize),
)
    requires
        prng.len() == 1,
        buf.len() == 1,
        progress.len() == 1,
        w == (params.u - if DECIMATE {
            params.d
        } else {
            0
        }) * params.t,
        DECIMATE ==> params.d <= params.u,
        b <= w,
        call_ensures(
            run_collision_tradeoff::<T, DIM, DECIMATE, G, P>,
            (prng[0], params, buf[0], points, b, pass, progress[0]),
            Ok((x.0, x.1)),
        ),
    ensures
        ({
            let d: usize = if DECIMATE {
                params.d
            } else {
                0
            };
            let g: Geometry = cell::geometry(params.t, params.u, params.s, d, T::bits());
            let n: nat = points as nat * pow2((params.t * params.d) as nat);
            let p: Seq<nat> = sampling::points::<G>(g, prng[0].state(), n);
            let size: nat = pow2((w - b) as nat);
            &&& pass is None ==> x.0 == Set::new(|i: int| 0 <= i < p.len() && p.take(i).contains(p[i])).len() && x.1
                == p.len()
            &&& pass matches Some(k) ==> x.0 == Set::new(
                |i: int|
                    0 <= i < p.len() && k as nat * size <= p[i] < (k as nat + 1) * size && p.take(i).contains(p[i]),
            ).len()
            &&& pass matches Some(k) ==> x.1 == Set::new(
                |i: int| 0 <= i < p.len() && k as nat * size <= p[i] < (k as nat + 1) * size,
            ).len()
            &&& final(prng[0]).state() == prng::orbit::<G>(prng[0].state(), n * params.t as nat)
        }),
{
    common::lemma_grid_geometry(params, DECIMATE, T::bits());
    let g: Geometry = params.geometry(DECIMATE, T::bits());
    let n: nat = collision::scan_len(points, params.t, params.d);
    let p: Seq<nat> = sampling::points::<G>(g, prng[0].state(), n);
    let shift: nat = (w - b) as nat;
    let key: spec_fn(nat) -> nat = tally::top_key(shift);
    let size: nat = pow2(shift);
    sampling::lemma_points_bound::<G>(g, prng[0].state(), n);
    sampling::lemma_advance::<G>(g, prng[0].state(), n);
    lemma_pow2_adds(shift, b as nat);
    match pass {
        None => {
            assert forall|i: int| 0 <= i < p.len() implies key(#[trigger] p[i]) < pow2(b as nat) by {
                assert(p[i] < pow2(w));
                lemma_interval_in_range(p[i], shift, b as nat);
            }
            tally::lemma_partition(p, key, pow2(b as nat));
            tally::lemma_collisions_repeats(p);
        },
        Some(k) => {
            let m: nat = k as nat;
            tally::lemma_in_places(p, key, m, m + 1);
            assert forall|i: int| 0 <= i < p.len() implies (m <= key(#[trigger] p[i]) < m + 1 <==> m * size <= p[i] < (m
                + 1) * size) by {
                tally::lemma_top_key(shift, p[i], m);
            }
            assert(Set::new(|i: int| 0 <= i < p.len() && m <= key(p[i]) < m + 1) =~= Set::new(
                |i: int| 0 <= i < p.len() && m * size <= p[i] < (m + 1) * size,
            ));
            assert(Set::new(|i: int| 0 <= i < p.len() && m <= key(p[i]) < m + 1 && p.take(i).contains(p[i]))
                =~= Set::new(
                |i: int| 0 <= i < p.len() && m * size <= p[i] < (m + 1) * size && p.take(i).contains(p[i]),
            ));
        },
    }
}

/// A number of some bits is in one of the intervals.
proof fn lemma_interval_in_range(x: nat, shift: nat, b: nat)
    requires
        x < pow2(shift + b),
    ensures
        tally::top_key(shift)(x) < pow2(b),
{
    lemma_pow2_adds(shift, b);
    lemma_pow2_pos(shift);
    let k: nat = tally::top_key(shift)(x);
    tally::lemma_top_key(shift, x, k);
    assert(k < pow2(b)) by (nonlinear_arith)
        requires
            k * pow2(shift) <= x,
            x < pow2(shift) * pow2(b),
            pow2(shift) > 0,
    ;
}

/// The decimated collision test counts the kept points that came before. With checkpoints, the report of
/// each one carries the number of points kept up to it, and the number of those that came before: the
/// `k`-th of `n` is reached after `k`/`n` of the samples, rounded down.
pub proof fn lemma_run_collision_decimate<T: Cell, const DIM: usize, const FULL: bool, G: Generator, P: Progress>(
    prng: Seq<&mut G>,
    params: &GridParams,
    buf: Seq<&mut [T]>,
    points: usize,
    checkpoints: bool,
    aux: Seq<&mut [T]>,
    progress: Seq<&mut P>,
    x: (usize, usize),
    n: nat,
    k: nat,
)
    requires
        prng.len() == 1,
        buf.len() == 1,
        aux.len() == 1,
        progress.len() == 1,
        points > 0,
        n == stages::checkpoints(
            (params.t * params.d) as nat,
            points as nat * pow2((params.t * params.d) as nat),
        ),
        1 <= k <= n,
        call_ensures(
            run_collision_decimate::<T, DIM, FULL, G, P>,
            (prng[0], params, buf[0], points, checkpoints, aux[0], progress[0]),
            Ok((x.0, x.1)),
        ),
    ensures
        ({
            let g: Geometry = cell::geometry(params.t, params.u, params.s, params.d, T::bits());
            let scan: nat = points as nat * pow2((params.t * params.d) as nat);
            let s: G::State = prng[0].state();
            let p: Seq<nat> = sampling::points::<G>(g, s, scan);
            let q: Seq<nat> = sampling::points::<G>(g, s, scan * k / n);
            let log: Seq<Event> = final(progress[0]).log();
            let old_len: int = progress[0].log().len() as int;
            &&& x.0 == Set::new(|i: int| 0 <= i < p.len() && p.take(i).contains(p[i])).len()
            &&& x.1 == p.len()
            &&& log.take(old_len) == progress[0].log()
            &&& checkpoints ==> log.len() == old_len + 5 * n
            &&& checkpoints ==> log[old_len + 5 * (k - 1)] == (Event::Checkpoint {
                checkpoint: k as usize,
                checkpoints: n as usize,
            })
            &&& checkpoints ==> log[old_len + 5 * (k - 1) + 4] == (Event::CheckpointDone {
                points: q.len() as usize,
                collisions: Set::new(|i: int| 0 <= i < q.len() && q.take(i).contains(q[i])).len() as usize,
            })
            &&& !checkpoints ==> log == progress[0].log() + seq![
                Event::Scanning { samples: scan as usize, bits: params.d },
                Event::Sorting,
                Event::Counting,
                Event::Done { points: p.len() as usize },
            ]
            &&& n <= scan
            &&& n * n <= pow2((params.t * params.d) as nat)
            &&& n < scan ==> pow2((params.t * params.d) as nat) < (n + 1) * (n + 1)
            &&& final(prng[0]).state() == prng::orbit::<G>(s, scan * params.t as nat)
        }),
{
    common::lemma_grid_geometry(params, true, T::bits());
    let g: Geometry = params.geometry(true, T::bits());
    let e: nat = (params.t * params.d) as nat;
    let scan: nat = collision::scan_len(points, params.t, params.d);
    let s: G::State = prng[0].state();
    let upto: spec_fn(nat) -> Seq<nat> = collision::points_upto::<G>(g, s, scan, n);
    let log: Seq<Event> = final(progress[0]).log();
    let before: Seq<Event> = progress[0].log();
    lemma_pow2_pos(e);
    assert(scan > 0) by (nonlinear_arith)
        requires
            scan == points as nat * pow2(e),
            points > 0,
            pow2(e) > 0,
    ;
    stages::lemma_checkpoints(e, scan);
    tally::lemma_collisions_repeats(sampling::points::<G>(g, s, scan));
    sampling::lemma_advance::<G>(g, s, scan);
    assert(log.take(before.len() as int) =~= before);
    if checkpoints {
        let j: nat = (k - 1) as nat;
        stages::lemma_checkpoint_reports(upto, n, n, j);
        assert(upto(j + 1) == sampling::points::<G>(g, s, scan * k / n));
        let events: Seq<Event> = stages::checkpoint_events(upto, n, n);
        assert(log[before.len() + 5 * (k - 1)] == events[5 * j as int]);
        assert(log[before.len() + 5 * (k - 1) + 4] == events[5 * j as int + 4]);
    }
}

/// The birthday-spacings test counts the spacings that came before: whatever `q` is, if it holds the points
/// in order, and whatever `d` is, if it holds the distances between them round the circle. Unless all points
/// are the same, the spacings are left in the buffer, in order.
pub proof fn lemma_run_birthday<
    T: Cell,
    const DIM: usize,
    const DECIMATE: bool,
    const FULL: bool,
    G: Generator,
    P: Progress,
>(
    prng: Seq<&mut G>,
    params: &GridParams,
    buf: Seq<&mut [T]>,
    points: usize,
    progress: Seq<&mut P>,
    x: (usize, usize),
    p: Seq<nat>,
    q: Seq<nat>,
    d: Seq<nat>,
)
    requires
        prng.len() == 1,
        buf.len() == 1,
        progress.len() == 1,
        call_ensures(
            run_birthday::<T, DIM, DECIMATE, FULL, G, P>,
            (prng[0], params, buf[0], points, progress[0]),
            Ok((x.0, x.1)),
        ),
        DECIMATE ==> p == sampling::points::<G>(
            cell::geometry(params.t, params.u, params.s, params.d, T::bits()),
            prng[0].state(),
            points as nat * pow2((params.t * params.d) as nat),
        ),
        !DECIMATE ==> p == sampling::points::<G>(
            cell::geometry(params.t, params.u, params.s, 0, T::bits()),
            prng[0].state(),
            points as nat,
        ),
        q.to_multiset() == p.to_multiset(),
        forall|i: int| 0 < i < q.len() ==> q[i - 1] <= #[trigger] q[i],
        q.len() > 0 ==> q.last() < params.cells@,
        d.len() == q.len(),
        q.len() > 0 ==> q.last() + d[0] == params.cells@ + q[0],
        forall|i: int| 0 < i < q.len() ==> q[i - 1] + #[trigger] d[i] == q[i],
    ensures
        x.0 == Set::new(|i: int| 0 <= i < d.len() && d.take(i).contains(d[i])).len(),
        x.1 == p.len(),
        q.len() > 0 && q[0] != q.last() ==> tally::vals(final(buf[0])@.take(p.len() as int)).to_multiset()
            == d.to_multiset(),
        tally::ascending(tally::vals(final(buf[0])@.take(p.len() as int))),
        final(buf[0])@.skip(p.len() as int) == buf[0]@.skip(p.len() as int),
        final(prng[0]).state() == prng::orbit::<G>(
            prng[0].state(),
            if DECIMATE {
                points as nat * pow2((params.t * params.d) as nat) * params.t as nat
            } else {
                points as nat * params.t as nat
            },
        ),
{
    common::lemma_grid_geometry(params, DECIMATE, T::bits());
    let g: Geometry = params.geometry(DECIMATE, T::bits());
    let n: nat = if DECIMATE {
        points as nat * pow2((params.t * params.d) as nat)
    } else {
        points as nat
    };
    sampling::lemma_advance::<G>(g, prng[0].state(), n);
    circle::lemma_birthday_repeats(p, q, d, params.cells@, 0, 0, 1);
    circle::lemma_spacings_of(p, q, d, params.cells@);
    tally::lemma_sorted(circle::stored_spacings(tally::sorted(p), params.cells@));
}

/// The birthday-spacings test with a tradeoff counts the spacings that came before, in all classes modulo
/// 2^`b`, or in the single one that is run; and examines all points.
pub proof fn lemma_run_birthday_tradeoff<
    T: Cell,
    const DIM: usize,
    const DECIMATE: bool,
    const FULL: bool,
    G: Generator,
    P: Progress,
>(
    prng: Seq<&mut G>,
    params: &GridParams,
    bufs: Seq<&mut [T]>,
    points: usize,
    b: usize,
    pass: Option<u64>,
    progress: Seq<&mut P>,
    x: (usize, usize),
    p: Seq<nat>,
    q: Seq<nat>,
    d: Seq<nat>,
)
    requires
        prng.len() == 1,
        bufs.len() == 2,
        progress.len() == 1,
        call_ensures(
            run_birthday_tradeoff::<T, DIM, DECIMATE, FULL, G, P>,
            (prng[0], params, bufs[0], bufs[1], points, b, pass, progress[0]),
            Ok((x.0, x.1)),
        ),
        p == sampling::points::<G>(
            cell::geometry(
                params.t,
                params.u,
                params.s,
                if DECIMATE {
                    params.d
                } else {
                    0
                },
                T::bits(),
            ),
            prng[0].state(),
            points as nat * pow2((params.t * params.d) as nat),
        ),
        q.to_multiset() == p.to_multiset(),
        forall|i: int| 0 < i < q.len() ==> q[i - 1] <= #[trigger] q[i],
        q.len() > 0 ==> q.last() < params.cells@,
        d.len() == q.len(),
        q.len() > 0 ==> q.last() + d[0] == params.cells@ + q[0],
        forall|i: int| 0 < i < q.len() ==> q[i - 1] + #[trigger] d[i] == q[i],
    ensures
        pass is None ==> x.0 == Set::new(|i: int| 0 <= i < d.len() && d.take(i).contains(d[i])).len(),
        pass matches Some(k) ==> x.0 == Set::new(
            |i: int| 0 <= i < d.len() && d[i] % pow2(b as nat) == k as nat && d.take(i).contains(d[i]),
        ).len(),
        x.1 == p.len(),
        final(prng[0]).state() == prng::orbit::<G>(
            prng[0].state(),
            points as nat * pow2((params.t * params.d) as nat) * params.t as nat,
        ),
{
    common::lemma_grid_geometry(params, DECIMATE, T::bits());
    let g: Geometry = params.geometry(DECIMATE, T::bits());
    let n: nat = points as nat * pow2((params.t * params.d) as nat);
    sampling::lemma_advance::<G>(g, prng[0].state(), n);
    lemma_pow2_pos(b as nat);
    match pass {
        None => {
            circle::lemma_birthday_repeats(p, q, d, params.cells@, b as nat, 0, pow2(b as nat));
            circle::lemma_birthday_classes(p, params.cells@, b as nat);
        },
        Some(k) => {
            circle::lemma_birthday_repeats(p, q, d, params.cells@, b as nat, k as nat, k as nat + 1);
            assert(Set::new(|i: int| 0 <= i < d.len() && d[i] % pow2(b as nat) == k as nat && d.take(i).contains(d[i]))
                =~= Set::new(
                |i: int|
                    0 <= i < d.len() && k as nat <= d[i] % pow2(b as nat) < k as nat + 1 && d.take(i).contains(d[i]),
            ));
        },
    }
}

/// A whole collision test: repetition by repetition, it counts the points that came before among those of
/// its own stretch of samples, and adds the counts up; and it notes how many points each repetition has.
pub proof fn lemma_run_test_collisions<T: Cell, G: Generator, P: Progress>(
    args: &Args,
    points: usize,
    cells: Cells,
    bufs: Seq<&mut [T]>,
    progress: Seq<&mut P>,
    x: Totals,
    d: usize,
    n: nat,
)
    requires
        bufs.len() == 2,
        progress.len() == 1,
        args.valid(),
        !args.birthday_spacings,
        args.pass is None,
        d == match args.decimation_bits {
            Some(d) => d,
            None => 0,
        },
        n == points as nat * pow2((args.t * d) as nat),
        (args.u - d) * args.t <= T::bits(),
        call_ensures(run_test::<T, G, P>, (args, points, cells, bufs[0], bufs[1], progress[0]), Ok(x)),
    ensures
        x.collisions == Seq::new(
            args.reps as nat,
            |r: int|
                {
                    let p: Seq<nat> = sampling::points::<G>(
                        cell::geometry(args.t, args.u, args.s, d, T::bits()),
                        prng::orbit::<G>(G::seeded(args.seed), (r as nat * n) * args.t as nat),
                        n,
                    );
                    Set::new(|i: int| 0 <= i < p.len() && p.take(i).contains(p[i])).len()
                },
        ).fold_left(0nat, |a: nat, c: nat| a + c),
        x.kept@.len() == args.reps,
        forall|r: nat|
            r < args.reps ==> #[trigger] x.kept@[r as int] == sampling::points::<G>(
                cell::geometry(args.t, args.u, args.s, d, T::bits()),
                prng::orbit::<G>(G::seeded(args.seed), (r * n) * args.t as nat),
                n,
            ).len(),
{
    lemma_collision_totals::<G>(args, points, cells, T::bits(), x, d, n);
}

/// What is counted and noted over all repetitions.
proof fn lemma_collision_totals<G: Generator>(
    args: &Args,
    points: usize,
    cells: Cells,
    bits: nat,
    x: Totals,
    d: usize,
    n: nat,
)
    requires
        args.valid(),
        !args.birthday_spacings,
        args.pass is None,
        d == runs::decimation(args),
        n == points as nat * pow2((args.t * d) as nat),
        (args.u - d) * args.t <= bits,
        runs::found::<G>(args, points, cells@, bits, args.reps as nat, x.collisions, x.kept@),
    ensures
        x.collisions == Seq::new(
            args.reps as nat,
            |r: int|
                {
                    let p: Seq<nat> = sampling::points::<G>(
                        cell::geometry(args.t, args.u, args.s, d, bits),
                        prng::orbit::<G>(G::seeded(args.seed), (r as nat * n) * args.t as nat),
                        n,
                    );
                    Set::new(|i: int| 0 <= i < p.len() && p.take(i).contains(p[i])).len()
                },
        ).fold_left(0nat, |a: nat, c: nat| a + c),
        x.kept@.len() == args.reps,
        forall|r: nat|
            r < args.reps ==> #[trigger] x.kept@[r as int] == sampling::points::<G>(
                cell::geometry(args.t, args.u, args.s, d, bits),
                prng::orbit::<G>(G::seeded(args.seed), (r * n) * args.t as nat),
                n,
            ).len(),
{
    let g: Geometry = cell::geometry(args.t, args.u, args.s, d, bits);
    let reps: nat = args.reps as nat;
    runs::lemma_shape(args, points, cells, bits);
    runs::lemma_total_sum::<G>(args, points, cells@, bits, reps);
    assert forall|r: nat| r < reps implies ({
        let s: G::State = #[trigger] runs::rep_start::<G>(args, points, bits, r);
        let p: Seq<nat> = sampling::points::<G>(g, s, n);
        &&& s == prng::orbit::<G>(G::seeded(args.seed), (r * n) * args.t as nat)
        &&& p == runs::rep_points::<G>(args, points, bits, s)
        &&& runs::count(args, cells@, p) == Set::new(|i: int| 0 <= i < p.len() && p.take(i).contains(p[i])).len()
        &&& runs::examined(args, p) == p.len()
    }) by {
        let s: G::State = runs::rep_start::<G>(args, points, bits, r);
        let p: Seq<nat> = sampling::points::<G>(g, s, n);
        let at: Seq<nat> = runs::lemma_rep_points::<G>(args, points, bits, r);
        sampling::lemma_points_bound::<G>(g, s, n);
        runs::lemma_collision_count(args, cells@, p);
    }
    assert(Seq::new(
        reps,
        |r: int|
            runs::count(
                args,
                cells@,
                runs::rep_points::<G>(args, points, bits, runs::rep_start::<G>(args, points, bits, r as nat)),
            ),
    ) =~= Seq::new(
        reps,
        |r: int|
            {
                let p: Seq<nat> = sampling::points::<G>(
                    g,
                    prng::orbit::<G>(G::seeded(args.seed), (r as nat * n) * args.t as nat),
                    n,
                );
                Set::new(|i: int| 0 <= i < p.len() && p.take(i).contains(p[i])).len()
            },
    ));
    assert forall|r: nat| r < reps implies #[trigger] x.kept@[r as int] == sampling::points::<G>(
        g,
        prng::orbit::<G>(G::seeded(args.seed), (r * n) * args.t as nat),
        n,
    ).len() by {
        let s: G::State = runs::rep_start::<G>(args, points, bits, r);
        assert(x.kept@[r as int] == runs::all_examined::<G>(args, points, bits, reps)[r as int]);
    }
}

/// Threads do not change what a collision test finds.
pub proof fn lemma_parallel_agrees<T: Cell, G: Generator, P: Progress>(
    args: &Args,
    points: usize,
    cells: Cells,
    num_cpus: usize,
    caps: &[usize],
    bufs: Seq<&mut [T]>,
    progress: Seq<&mut P>,
    x: Totals,
    y: Totals,
)
    requires
        bufs.len() == 4,
        progress.len() == 2,
        call_ensures(run_test::<T, G, P>, (args, points, cells, bufs[0], bufs[1], progress[0]), Ok(x)),
        call_ensures(
            run_test_parallel::<T, G, P>,
            (args, points, cells, num_cpus, bufs[2], caps, bufs[3], progress[1]),
            Ok(y),
        ),
    ensures
        x.collisions == y.collisions,
        x.kept@ == y.kept@,
{
    runs::lemma_found_determined::<G>(args, points, cells@, T::bits(), args.reps as nat, x, y);
}

/// Threads do not change what a birthday-spacings test finds.
pub proof fn lemma_parallel_birthday_agrees<T: Cell, G: Generator, P: Progress>(
    args: &Args,
    points: usize,
    cells: Cells,
    num_cpus: usize,
    caps: &[usize],
    bufs: Seq<&mut [T]>,
    progress: Seq<&mut P>,
    x: Totals,
    y: Totals,
)
    requires
        bufs.len() == 4,
        progress.len() == 2,
        call_ensures(run_test::<T, G, P>, (args, points, cells, bufs[0], bufs[1], progress[0]), Ok(x)),
        call_ensures(
            run_birthday_parallel::<T, G, P>,
            (args, points, cells, num_cpus, bufs[2], caps, bufs[3], progress[1]),
            Ok(y),
        ),
    ensures
        x.collisions == y.collisions,
        x.kept@ == y.kept@,
{
    runs::lemma_found_determined::<G>(args, points, cells@, T::bits(), args.reps as nat, x, y);
}

/// The parallel collision test, too, counts and notes what each repetition has.
pub proof fn lemma_run_test_parallel<T: Cell, G: Generator, P: Progress>(
    args: &Args,
    points: usize,
    cells: Cells,
    num_cpus: usize,
    caps: &[usize],
    bufs: Seq<&mut [T]>,
    progress: Seq<&mut P>,
    x: Totals,
    d: usize,
    n: nat,
)
    requires
        bufs.len() == 2,
        progress.len() == 1,
        args.valid(),
        !args.birthday_spacings,
        args.pass is None,
        d == match args.decimation_bits {
            Some(d) => d,
            None => 0,
        },
        n == points as nat * pow2((args.t * d) as nat),
        (args.u - d) * args.t <= T::bits(),
        call_ensures(
            run_test_parallel::<T, G, P>,
            (args, points, cells, num_cpus, bufs[0], caps, bufs[1], progress[0]),
            Ok(x),
        ),
    ensures
        x.collisions == Seq::new(
            args.reps as nat,
            |r: int|
                {
                    let p: Seq<nat> = sampling::points::<G>(
                        cell::geometry(args.t, args.u, args.s, d, T::bits()),
                        prng::orbit::<G>(G::seeded(args.seed), (r as nat * n) * args.t as nat),
                        n,
                    );
                    Set::new(|i: int| 0 <= i < p.len() && p.take(i).contains(p[i])).len()
                },
        ).fold_left(0nat, |a: nat, c: nat| a + c),
        x.kept@.len() == args.reps,
        forall|r: nat|
            r < args.reps ==> #[trigger] x.kept@[r as int] == sampling::points::<G>(
                cell::geometry(args.t, args.u, args.s, d, T::bits()),
                prng::orbit::<G>(G::seeded(args.seed), (r * n) * args.t as nat),
                n,
            ).len(),
{
    lemma_collision_totals::<G>(args, points, cells, T::bits(), x, d, n);
}

/// The number of points: 2^b times the memory asked for, if that is given, and else the most that is a
/// multiple of 2^b and does not exceed what there is room for. Less than 10000 of them are refused, and
/// more than there are cells, or memory for spacings.
pub proof fn lemma_compute_points(
    args: &Args,
    cells: Cells,
    max_points: usize,
    passes: nat,
    n: nat,
    r: Result<usize, ArgError>,
)
    requires
        passes == match args.tradeoff_bits {
            Some(b) => pow2(b as nat),
            None => 1,
        },
        args.m matches Some(m) ==> n == m * passes,
        args.m is None ==> n % passes == 0,
        args.m is None && args.birthday_spacings ==> n <= max_points < n + passes,
        args.m is None && !args.birthday_spacings ==> n <= cells@ && n <= usize::MAX && (n + passes > cells@ || n
            + passes > usize::MAX),
        call_ensures(compute_points, (args, &cells, max_points), r),
    ensures
        r == if n > usize::MAX {
            Err(ArgError::PointsOverflow)
        } else if args.birthday_spacings && n > max_points {
            Err(ArgError::PointsOutOfRange)
        } else if !args.birthday_spacings && n > cells@ {
            Err(
                ArgError::MorePointsThanCells {
                    points: n as usize,
                    effective: args.decimation_bits is Some,
                    cells: cells@ as usize,
                },
            )
        } else if n < 10000 {
            Err(ArgError::TooFewPoints { points: n as usize })
        } else {
            Ok(n as usize)
        },
{
    cli::lemma_points_asked(args, cells@, max_points);
    if args.m is None {
        if let Some(b) = args.tradeoff_bits {
            lemma_pow2_pos(b as nat);
        }
        lemma_same_multiple(n, cli::asked_points(args, cells@, max_points), passes);
    }
}

/// Two multiples are the same if they are less than one multiple apart.
proof fn lemma_same_multiple(a: nat, b: nat, m: nat)
    requires
        m > 0,
        a % m == 0,
        b % m == 0,
        a < b + m,
        b < a + m,
    ensures
        a == b,
{
    let (x, y): (int, int) = (a as int / m as int, b as int / m as int);
    vstd::arithmetic::div_mod::lemma_fundamental_div_mod(a as int, m as int);
    vstd::arithmetic::div_mod::lemma_fundamental_div_mod(b as int, m as int);
    let k: int = m as int;
    assert(x == y) by (nonlinear_arith)
        requires
            k > 0,
            k * x < k * y + k,
            k * y < k * x + k,
    ;
}

/// Arguments are accepted just when each of them is in its range.
pub proof fn lemma_validate(args: &Args, r: Result<(), ArgError>)
    requires
        call_ensures(Args::validate, (args,), r),
    ensures
        r is Ok <==> {
            let d: usize = match args.decimation_bits {
                Some(d) => d,
                None => 0,
            };
            &&& 1 <= args.t <= 128
            &&& 1 <= args.u
            &&& args.u + args.s <= 64
            &&& args.decimation_bits is Some ==> args.m is Some && 1 <= d < args.u
            &&& args.tradeoff_bits matches Some(b) ==> 1 <= b <= 63 && b <= (args.u - d) * args.t
            &&& args.checkpoints ==> !args.birthday_spacings
            &&& args.pass matches Some(k) ==> args.tradeoff_bits is Some && (k as nat) < pow2(
                args.tradeoff_bits->0 as nat,
            )
        },
{
    cli::lemma_valid_arguments(*args);
    let (t, u, d): (int, int, int) = (
        args.t as int,
        args.u as int,
        match args.decimation_bits {
            Some(d) => d as int,
            None => 0,
        },
    );
    assert(t * (u - d) == (u - d) * t) by (nonlinear_arith);
}

/// Shares of a total are as even as can be, larger ones first, and each starts where the one before ends.
pub proof fn lemma_shares(total: usize, n: usize, lens: Vec<usize>, starts: Vec<usize>)
    requires
        n > 0,
        call_ensures(share_lens, (total, n), lens),
        call_ensures(share_starts, (total, n), starts),
    ensures
        lens@.len() == n,
        starts@.len() == n,
        starts@[0] == 0,
        starts@[n - 1] + lens@[n - 1] == total,
        forall|i: int| 0 < i < n ==> starts@[i - 1] + lens@[i - 1] == #[trigger] starts@[i],
        forall|i: int, j: int|
            0 <= i <= j < n ==> #[trigger] lens@[j] <= #[trigger] lens@[i] && lens@[i] <= lens@[j] + 1,
{
    orbit::lemma_shares_even(total as int, n as int, 0, n - 1);
    orbit::lemma_shares_even(total as int, n as int, n - 1, n - 1);
    assert forall|i: int| 0 < i < n implies starts@[i - 1] + lens@[i - 1] == #[trigger] starts@[i] by {
        orbit::lemma_shares_even(total as int, n as int, i - 1, i);
    }
    assert forall|i: int, j: int| 0 <= i <= j < n implies #[trigger] lens@[j] <= #[trigger] lens@[i] && lens@[i]
        <= lens@[j] + 1 by {
        orbit::lemma_shares_even(total as int, n as int, i, j);
    }
}

/// As many ranges are scanned as there are processors, but no more than there are samples, and at least
/// one.
pub proof fn lemma_ranges(num_cpus: usize, total: usize, r: usize)
    requires
        call_ensures(ranges, (num_cpus, total), r),
    ensures
        r == if num_cpus == 0 || total == 0 {
            1
        } else if num_cpus <= total {
            num_cpus
        } else {
            total
        },
{
    orbit::lemma_fan_out(num_cpus, total);
}

/// As many checkpoints as the square root of 2^`td`, rounded down, but no more than there are samples; they
/// are reached at even distances, the last one at the end.
pub proof fn lemma_checkpoint_places(td: usize, scan: usize, k: usize, n: usize, end: usize)
    requires
        scan > 0,
        k <= n,
        call_ensures(num_checkpoints, (td, scan), n),
        call_ensures(stage_target, (scan, n, k), end),
    ensures
        1 <= n <= scan,
        n * n <= pow2(td as nat),
        n < scan ==> pow2(td as nat) < (n + 1) * (n + 1),
        n * end <= scan * k < n * (end + 1),
        k == n ==> end == scan,
{
    stages::lemma_checkpoints(td as nat, scan as nat);
    stages::lemma_stage_end(scan as nat, n as nat, k as nat);
    if k == n {
        let (m, e, s): (int, int, int) = (n as int, end as int, scan as int);
        assert(e == s) by (nonlinear_arith)
            requires
                m > 0,
                m * e <= s * m,
                s * m < m * (e + 1),
        ;
    }
}

/// For points to come out, 2^(`t` `d`) times as many samples are scanned.
pub proof fn lemma_scan_samples(points: usize, t: usize, d: usize, r: Option<usize>)
    requires
        call_ensures(scan_samples, (points, t, d), r),
    ensures
        r matches Some(n) ==> n == points * pow2((t * d) as nat),
        t * d < usize::BITS && points * pow2((t * d) as nat) <= usize::MAX ==> r is Some,
{
}

/// Digits in blanks are read as the number that they stand for, if that is less than 2^64, and are else
/// refused as too large.
pub proof fn lemma_parse_u64(
    value: &str,
    front: Seq<char>,
    s: Seq<char>,
    back: Seq<char>,
    r: Result<u64, NumberError>,
)
    requires
        value@ == front + s + back,
        forall|i: int| 0 <= i < front.len() ==> #[trigger] front[i] == ' ',
        forall|i: int| 0 <= i < back.len() ==> #[trigger] back[i] == ' ',
        s.len() > 0,
        forall|i: int| 0 <= i < s.len() ==> '0' <= #[trigger] s[i] <= '9',
        call_ensures(parse_u64, (value,), r),
    ensures
        ({
            let n: nat = s.fold_left(0nat, |x: nat, c: char| (x * 10 + (c as nat - '0' as nat)) as nat);
            r == if n <= u64::MAX {
                Ok(n as u64)
            } else {
                Err::<u64, NumberError>(NumberError::Overflow)
            }
        }),
{
    cli::lemma_decimal_read(front, s, back);
}

} // verus!
