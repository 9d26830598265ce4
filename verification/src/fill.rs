//! Generation of the points of one work unit: a whole scan, or one value interval of it.
use vstd::arithmetic::power2::*;
use vstd::prelude::*;

use crate::cell::Cell;
use crate::classes;
use crate::common;
use crate::common::{compact_blocks, GridParams};
use crate::par;
use crate::par::{par_parts, split_regions};
use crate::prng;
use crate::prng::Generator;
use crate::sampling;
use crate::sampling::Geometry;
use crate::tally;

verus! {

/// The points of a work unit: those in the value interval `pass` out of 2^b, or all of them when
/// `b` is zero. Indices have `width` bits.
pub open spec fn unit(p: Seq<nat>, width: nat, b: nat, pass: nat) -> Seq<nat> {
    if b == 0 {
        p
    } else {
        tally::select(p, tally::top_key((width - b) as nat), pass)
    }
}

/// The value interval `pass` is one out of 2^b, and `b` is at most the number of bits of an index.
pub open spec fn unit_exists(width: nat, b: usize, pass: u64) -> bool {
    b > 0 ==> b < 64 && b <= width && (pass as nat) < pow2(b as nat)
}

/// What a buffer holds after points were generated into it: all of them, if they fit, and behind
/// them what it held before.
pub open spec fn filled<T: Cell>(before: Seq<T>, after: Seq<T>, want: Seq<nat>, r: Option<usize>) -> bool {
    &&& after.len() == before.len()
    &&& r is Some <==> want.len() <= before.len()
    &&& r matches Some(len) ==> {
        &&& len == want.len()
        &&& tally::vals(after.take(len as int)) == want
        &&& after.skip(len as int) == before.skip(len as int)
    }
}

/// What is picked of some points: one value interval, or everything.
spec fn picked(p: Seq<nat>, select: bool, shift: nat, k: nat) -> Seq<nat> {
    if select {
        tally::select(p, tally::top_key(shift), k)
    } else {
        p
    }
}

/// A longer scan picks no less.
proof fn lemma_picked_grows<G: Generator>(
    g: Geometry,
    s: G::State,
    m: nat,
    n: nat,
    select: bool,
    shift: nat,
    k: nat,
)
    requires
        m <= n,
    ensures
        picked(sampling::points::<G>(g, s, m), select, shift, k).len() <= picked(
            sampling::points::<G>(g, s, n),
            select,
            shift,
            k,
        ).len(),
{
    sampling::lemma_points_split::<G>(g, s, m, (n - m) as nat);
    tally::lemma_select_concat(
        sampling::points::<G>(g, s, m),
        sampling::points::<G>(g, sampling::advance::<G>(g, s, m), (n - m) as nat),
        tally::top_key(shift),
        k,
    );
}

/// Scans a number of samples, and writes those that are kept, and picked, to a buffer. Gives up
/// where the buffer is full.
fn scan<
    T: Cell,
    const DIM: usize,
    const DECIMATE: bool,
    const FULL: bool,
    const SELECT: bool,
    G: Generator,
>(prng: &mut G, params: &GridParams, buf: &mut [T], scan_len: usize, shift: usize, target: T) -> (r: Option<usize>)
    requires
        params.drawable(DIM, DECIMATE, FULL, T::bits()),
        SELECT ==> shift < T::bits(),
    ensures
        filled(
            old(buf)@,
            final(buf)@,
            picked(
                sampling::points::<G>(
                    params.geometry(DECIMATE, T::bits()),
                    old(prng).state(),
                    scan_len as nat,
                ),
                SELECT,
                shift as nat,
                target.val(),
            ),
            r,
        ),
        r is Some ==> final(prng).state() == sampling::advance::<G>(
            params.geometry(DECIMATE, T::bits()),
            old(prng).state(),
            scan_len as nat,
        ),
{
    let ghost g: Geometry = params.geometry(DECIMATE, T::bits());
    let ghost s0: G::State = prng.state();
    let ghost before: Seq<T> = buf@;
    let ghost k: nat = target.val();
    let cap: usize = buf.len();
    let mut len: usize = 0;
    let mut i: usize = 0;
    proof {
        assert(sampling::points::<G>(g, s0, 0) =~= Seq::<nat>::empty());
        assert(tally::vals(buf@.take(0)) =~= Seq::<nat>::empty());
        assert(picked(Seq::<nat>::empty(), SELECT, shift as nat, k) =~= Seq::<nat>::empty());
    }
    while i < scan_len
        invariant
            i <= scan_len,
            params.drawable(DIM, DECIMATE, FULL, T::bits()),
            SELECT ==> shift < T::bits(),
            g == params.geometry(DECIMATE, T::bits()),
            k == target.val(),
            s0 == old(prng).state(),
            before == old(buf)@,
            cap == buf@.len(),
            buf@.len() == before.len(),
            len <= cap,
            prng.state() == sampling::advance::<G>(g, s0, i as nat),
            tally::vals(buf@.take(len as int)) == picked(
                sampling::points::<G>(g, s0, i as nat),
                SELECT,
                shift as nat,
                k,
            ),
            buf@.skip(len as int) == before.skip(len as int),
        decreases scan_len - i,
    {
        let ghost p: Seq<nat> = sampling::points::<G>(g, s0, i as nat);
        proof {
            sampling::lemma_points_step::<G>(g, s0, i as nat);
        }
        match params.take_sample::<T, DIM, DECIMATE, FULL, G>(prng) {
            Some(x) => {
                proof {
                    assert(p.push(x.val()).drop_last() =~= p);
                }
                if !SELECT || x.shr(shift).same(target) {
                    if len == cap {
                        proof {
                            lemma_picked_grows::<G>(
                                g,
                                s0,
                                (i + 1) as nat,
                                scan_len as nat,
                                SELECT,
                                shift as nat,
                                k,
                            );
                            assert(tally::vals(buf@.take(len as int)).len() == len);
                        }
                        return None;
                    }
                    let ghost now: Seq<T> = buf@;
                    buf[len] = x;
                    proof {
                        assert(tally::vals(buf@.take(len + 1)) =~= tally::vals(now.take(len as int)).push(x.val()));
                        assert(buf@.skip(len + 1) =~= now.skip(len as int).skip(1));
                        assert(before.skip(len + 1) =~= before.skip(len as int).skip(1));
                    }
                    len += 1;
                }
            },
            None => {},
        }
        i += 1;
    }
    proof {
        assert(tally::vals(buf@.take(len as int)).len() == len);
    }
    Some(len)
}

/// Generates (no sort) one plain pass: scans `scan_len` samples, and writes those that decimation
/// keeps to `buf`. Returns their number, or `None` where they do not fit.
pub fn gen_plain<T: Cell, const DIM: usize, const DECIMATE: bool, const FULL: bool, G: Generator>(
    prng: &mut G,
    params: &GridParams,
    buf: &mut [T],
    scan_len: usize,
) -> (r: Option<usize>)
    requires
        params.drawable(DIM, DECIMATE, FULL, T::bits()),
    ensures
        filled(
            old(buf)@,
            final(buf)@,
            sampling::points::<G>(params.geometry(DECIMATE, T::bits()), old(prng).state(), scan_len as nat),
            r,
        ),
        r is Some ==> final(prng).state() == sampling::advance::<G>(
            params.geometry(DECIMATE, T::bits()),
            old(prng).state(),
            scan_len as nat,
        ),
{
    scan::<T, DIM, DECIMATE, FULL, false, G>(prng, params, buf, scan_len, 0, T::zero())
}

/// One tradeoff pass (generate only, no sort): replays `snapshot` for `stream_len` samples and
/// keeps only the points in the value interval `pass`, that is, those whose top *b* bits of the
/// combined index equal `pass`. Returns the number kept and the orbit position reached, or `None`
/// where they do not fit.
pub fn gen_pass_tradeoff<T: Cell, const DIM: usize, const DECIMATE: bool, const FULL: bool, G: Generator>(
    snapshot: G,
    params: &GridParams,
    buf: &mut [T],
    stream_len: usize,
    pass: u64,
    b: usize,
) -> (r: Option<(usize, G)>)
    requires
        params.drawable(DIM, DECIMATE, FULL, T::bits()),
        params.fits(DECIMATE, T::bits()),
        b < 64,
        b <= params.index_bits(DECIMATE),
        params.index_bits(DECIMATE) - b < T::bits(),
        (pass as nat) < pow2(b as nat),
    ensures
        filled(
            old(buf)@,
            final(buf)@,
            tally::select(
                sampling::points::<G>(params.geometry(DECIMATE, T::bits()), snapshot.state(), stream_len as nat),
                tally::top_key((params.index_bits(DECIMATE) - b) as nat),
                pass as nat,
            ),
            match r {
                Some(x) => Some(x.0),
                None => None,
            },
        ),
        r matches Some(x) ==> x.1.state() == sampling::advance::<G>(
            params.geometry(DECIMATE, T::bits()),
            snapshot.state(),
            stream_len as nat,
        ),
{
    let elem_width: usize = if DECIMATE {
        params.u - params.d
    } else {
        params.u
    };
    proof {
        T::lemma_bits();
        assert(params.t * elem_width == elem_width * params.t) by (nonlinear_arith);
        lemma_pow2_monotone(b as nat, T::bits());
        vstd::arithmetic::div_mod::lemma_small_mod(pass as nat, pow2(T::bits()));
    }
    let key_shift: usize = params.t * elem_width - b;
    let mut local: G = snapshot;
    let target: T = T::from_u64(pass);
    match scan::<T, DIM, DECIMATE, FULL, true, G>(&mut local, params, buf, stream_len, key_shift, target) {
        Some(len) => Some((len, local)),
        None => None,
    }
}

/// A larger exponent gives no smaller power.
proof fn lemma_pow2_monotone(a: nat, b: nat)
    requires
        a <= b,
    ensures
        pow2(a) <= pow2(b),
{
    if a < b {
        lemma_pow2_strictly_increases(a, b);
    }
}

/// [`gen_pass_dispatch`] for one dimension.
fn gen_pass<T: Cell, const DIM: usize, G: Generator>(
    snapshot: G,
    params: &GridParams,
    buf: &mut [T],
    stream_len: usize,
    pass: u64,
    tradeoff_b: usize,
    decimating: bool,
    full: bool,
) -> (r: Option<(usize, G)>)
    requires
        params.drawable(DIM, decimating, full, T::bits()),
        params.fits(decimating, T::bits()),
        unit_exists(params.index_bits(decimating), tradeoff_b, pass),
    ensures
        filled(
            old(buf)@,
            final(buf)@,
            unit(
                sampling::points::<G>(params.geometry(decimating, T::bits()), snapshot.state(), stream_len as nat),
                params.index_bits(decimating),
                tradeoff_b as nat,
                pass as nat,
            ),
            match r {
                Some(x) => Some(x.0),
                None => None,
            },
        ),
        r matches Some(x) ==> x.1.state() == sampling::advance::<G>(
            params.geometry(decimating, T::bits()),
            snapshot.state(),
            stream_len as nat,
        ),
{
    if tradeoff_b > 0 {
        match (decimating, full) {
            (true, true) => gen_pass_tradeoff::<T, DIM, true, true, G>(
                snapshot,
                params,
                buf,
                stream_len,
                pass,
                tradeoff_b,
            ),
            (true, false) => gen_pass_tradeoff::<T, DIM, true, false, G>(
                snapshot,
                params,
                buf,
                stream_len,
                pass,
                tradeoff_b,
            ),
            (false, true) => gen_pass_tradeoff::<T, DIM, false, true, G>(
                snapshot,
                params,
                buf,
                stream_len,
                pass,
                tradeoff_b,
            ),
            (false, false) => gen_pass_tradeoff::<T, DIM, false, false, G>(
                snapshot,
                params,
                buf,
                stream_len,
                pass,
                tradeoff_b,
            ),
        }
    } else {
        let mut prng: G = snapshot;
        let used: Option<usize> = match (decimating, full) {
            (true, true) => gen_plain::<T, DIM, true, true, G>(&mut prng, params, buf, stream_len),
            (true, false) => gen_plain::<T, DIM, true, false, G>(&mut prng, params, buf, stream_len),
            (false, true) => gen_plain::<T, DIM, false, true, G>(&mut prng, params, buf, stream_len),
            (false, false) => gen_plain::<T, DIM, false, false, G>(&mut prng, params, buf, stream_len),
        };
        match used {
            Some(len) => Some((len, prng)),
            None => None,
        }
    }
}

/// Generates (no sort) one work unit of one thread, with the loop specialized to the mode and, for
/// small ones, to the dimension. Returns the number of points written to `buf` and the orbit
/// position reached after `stream_len` samples, or `None` where the points do not fit.
///
/// `snapshot` is the thread's orbit start; in tradeoff mode it is replayed for every pass.
pub fn gen_pass_dispatch<T: Cell, G: Generator>(
    snapshot: G,
    params: &GridParams,
    buf: &mut [T],
    stream_len: usize,
    pass: u64,
    tradeoff_b: usize,
    decimating: bool,
    full: bool,
) -> (r: Option<(usize, G)>)
    requires
        params.drawable(0, decimating, full, T::bits()),
        params.fits(decimating, T::bits()),
        unit_exists(params.index_bits(decimating), tradeoff_b, pass),
    ensures
        filled(
            old(buf)@,
            final(buf)@,
            unit(
                sampling::points::<G>(params.geometry(decimating, T::bits()), snapshot.state(), stream_len as nat),
                params.index_bits(decimating),
                tradeoff_b as nat,
                pass as nat,
            ),
            match r {
                Some(x) => Some(x.0),
                None => None,
            },
        ),
        r matches Some(x) ==> x.1.state() == sampling::advance::<G>(
            params.geometry(decimating, T::bits()),
            snapshot.state(),
            stream_len as nat,
        ),
{
    match params.t {
        1 => gen_pass::<T, 1, G>(snapshot, params, buf, stream_len, pass, tradeoff_b, decimating, full),
        2 => gen_pass::<T, 2, G>(snapshot, params, buf, stream_len, pass, tradeoff_b, decimating, full),
        3 => gen_pass::<T, 3, G>(snapshot, params, buf, stream_len, pass, tradeoff_b, decimating, full),
        4 => gen_pass::<T, 4, G>(snapshot, params, buf, stream_len, pass, tradeoff_b, decimating, full),
        5 => gen_pass::<T, 5, G>(snapshot, params, buf, stream_len, pass, tradeoff_b, decimating, full),
        6 => gen_pass::<T, 6, G>(snapshot, params, buf, stream_len, pass, tradeoff_b, decimating, full),
        7 => gen_pass::<T, 7, G>(snapshot, params, buf, stream_len, pass, tradeoff_b, decimating, full),
        8 => gen_pass::<T, 8, G>(snapshot, params, buf, stream_len, pass, tradeoff_b, decimating, full),
        _ => gen_pass::<T, 0, G>(snapshot, params, buf, stream_len, pass, tradeoff_b, decimating, full),
    }
}

/// The points that each of several threads generates of a work unit.
pub open spec fn unit_parts<G: Generator>(
    g: Geometry,
    snapshots: Seq<G>,
    lens: Seq<usize>,
    width: nat,
    b: nat,
    pass: nat,
) -> Seq<Seq<nat>> {
    Seq::new(
        snapshots.len(),
        |i: int| unit(sampling::points::<G>(g, snapshots[i].state(), lens[i] as nat), width, b, pass),
    )
}

/// The indices of a concatenation of cells.
pub proof fn lemma_vals_concat<T: Cell>(parts: Seq<Seq<T>>, want: Seq<Seq<nat>>)
    requires
        parts.len() == want.len(),
        forall|i: int| 0 <= i < parts.len() ==> tally::vals(#[trigger] parts[i]) == want[i],
    ensures
        tally::vals(par::concat(parts)) == par::concat(want),
    decreases parts.len(),
{
    if parts.len() == 0 {
        assert(tally::vals(par::concat(parts)) =~= par::concat(want));
    } else {
        let n: int = parts.len() - 1;
        assert forall|i: int| 0 <= i < n implies tally::vals(#[trigger] parts.drop_last()[i]) == want.drop_last()[i] by {
            assert(tally::vals(parts[i]) == want[i]);
        }
        lemma_vals_concat(parts.drop_last(), want.drop_last());
        assert(tally::vals(parts[n]) == want[n]);
        assert(tally::vals(par::concat(parts)) =~= tally::vals(par::concat(parts.drop_last())) + tally::vals(
            parts[n],
        ));
    }
}

/// Generates one work unit's points into a single contiguous buffer.
///
/// Threads fill disjoint `caps`-sized regions of `buf` from their orbit `snapshots`, scanning
/// `lens` samples each (via [`gen_pass_dispatch`]); the gaps left by under-filled regions are then
/// closed in place by [`compact_blocks`]. Returns the number of points; they are unsorted, those of
/// one thread after those of the other. Returns `None` where the points of some thread do not fit
/// its region.
pub fn gen_unit_contiguous<T: Cell, G: Generator>(
    buf: &mut [T],
    caps: &[usize],
    snapshots: &[G],
    params: &GridParams,
    lens: &[usize],
    pass: u64,
    tradeoff_b: usize,
    decimating: bool,
    full: bool,
) -> (r: Option<usize>)
    requires
        caps@.len() == snapshots@.len(),
        lens@.len() == snapshots@.len(),
        par::offset(caps@, caps@.len() as int) <= old(buf)@.len(),
        params.drawable(0, decimating, full, T::bits()),
        params.fits(decimating, T::bits()),
        unit_exists(params.index_bits(decimating), tradeoff_b, pass),
    ensures
        final(buf)@.len() == old(buf)@.len(),
        final(buf)@.skip(par::offset(caps@, caps@.len() as int)) == old(buf)@.skip(
            par::offset(caps@, caps@.len() as int),
        ),
        r is Some <==> (forall|i: int|
            0 <= i < caps@.len() ==> #[trigger] unit_parts(
                params.geometry(decimating, T::bits()),
                snapshots@,
                lens@,
                params.index_bits(decimating),
                tradeoff_b as nat,
                pass as nat,
            )[i].len() <= caps@[i]),
        r matches Some(total) ==> total <= old(buf)@.len() && tally::vals(final(buf)@.take(total as int)) == par::concat(
            unit_parts(
                params.geometry(decimating, T::bits()),
                snapshots@,
                lens@,
                params.index_bits(decimating),
                tradeoff_b as nat,
                pass as nat,
            ),
        ),
{
    let ghost want: Seq<Seq<nat>> = unit_parts(
        params.geometry(decimating, T::bits()),
        snapshots@,
        lens@,
        params.index_bits(decimating),
        tradeoff_b as nat,
        pass as nat,
    );
    let ghost before: Seq<T> = buf@;
    let n: usize = caps.len();
    let regions: Vec<&mut [T]> = split_regions(buf, caps, n);
    let ghost rs = regions@;
    proof {
        assert forall|i: int| #![trigger rs[i]] 0 <= i < n implies rs[i]@.len() == caps@[i] by {
            par::lemma_offset_monotone(caps@, 0, i);
            par::lemma_offset_monotone(caps@, i + 1, n as int);
        }
    }
    let fill = |i: usize, region: &mut [T]| -> (r: Option<usize>)
        requires
            snapshots@.len() > i,
            lens@.len() == snapshots@.len(),
            params.drawable(0, decimating, full, T::bits()),
            params.fits(decimating, T::bits()),
            unit_exists(params.index_bits(decimating), tradeoff_b, pass),
        ensures
            filled(
                old(region)@,
                final(region)@,
                unit_parts(
                    params.geometry(decimating, T::bits()),
                    snapshots@,
                    lens@,
                    params.index_bits(decimating),
                    tradeoff_b as nat,
                    pass as nat,
                )[i as int],
                r,
            ),
        {
            match gen_pass_dispatch::<T, G>(
                snapshots[i],
                params,
                region,
                lens[i],
                pass,
                tradeoff_b,
                decimating,
                full,
            ) {
                Some(x) => Some(x.0),
                None => None,
            }
        };
    let written: Vec<Option<usize>> = par_parts(regions, fill);
    proof {
        assert forall|i: int| 0 <= i < n implies filled(
            rs[i]@,
            final(rs[i])@,
            #[trigger] want[i],
            written@[i],
        ) by {
            assert(written@[i as usize as int] == written@[i]);
        }
    }
    let ghost after: Seq<T> = buf@;
    let ghost ends: Seq<Seq<T>> = Seq::new(n as nat, |i: int| final(rs[i])@);
    proof {
        assert forall|i: int| 0 <= i < n implies #[trigger] ends[i].len() == caps@[i] by {
            assert(filled(rs[i]@, final(rs[i])@, want[i], written@[i]));
        }
        par::lemma_concat_len(ends, caps@);
        assert(after =~= par::concat(ends) + before.skip(par::offset(caps@, n as int)));
        assert(after.skip(par::offset(caps@, n as int)) =~= before.skip(par::offset(caps@, n as int)));
    }
    let mut used: Vec<usize> = Vec::new();
    let mut i: usize = 0;
    while i < n
        invariant
            i <= n,
            n == caps@.len(),
            n == want.len(),
            written@.len() == n,
            used@.len() == i,
            ends.len() == n,
            buf@ == after,
            after.len() == old(buf)@.len(),
            after.skip(par::offset(caps@, n as int)) == old(buf)@.skip(par::offset(caps@, n as int)),
            want == unit_parts(
                params.geometry(decimating, T::bits()),
                snapshots@,
                lens@,
                params.index_bits(decimating),
                tradeoff_b as nat,
                pass as nat,
            ),
            forall|k: int| 0 <= k < n ==> (written@[k] is Some <==> #[trigger] want[k].len() <= caps@[k]),
            forall|k: int|
                0 <= k < n ==> (written@[k] matches Some(len) ==> len == want[k].len() && tally::vals(
                    (#[trigger] ends[k]).take(len as int),
                ) == want[k]),
            forall|k: int| 0 <= k < i ==> written@[k] == Some(#[trigger] used@[k]),
            forall|k: int| 0 <= k < i ==> #[trigger] used@[k] <= caps@[k],
        decreases n - i,
    {
        match written[i] {
            None => {
                assert(!(want[i as int].len() <= caps@[i as int]));
                return None;
            },
            Some(len) => {
                assert(want[i as int].len() <= caps@[i as int]);
                assert(ends[i as int].len() >= 0);
                used.push(len);
            },
        }
        i += 1;
    }
    let total: usize = compact_blocks(buf, caps, used.as_slice());
    proof {
        let parts: Seq<Seq<T>> = common::kept_prefixes(after, caps@, used@);
        assert forall|k: int| 0 <= k < n implies tally::vals(#[trigger] parts[k]) == want[k] by {
            par::lemma_concat_part(ends, caps@, k);
            assert(written@[k] == Some(used@[k]));
            assert(tally::vals(ends[k].take(used@[k] as int)) == want[k]);
            assert(used@[k] <= caps@[k]);
            let lo: int = par::offset(caps@, k);
            assert(parts[k] =~= par::concat(ends).subrange(lo, lo + caps@[k]).take(used@[k] as int));
        }
        lemma_vals_concat(parts, want);
        assert forall|k: int| 0 <= k < n implies #[trigger] want[k].len() <= caps@[k] by {
            assert(written@[k] == Some(used@[k]));
        }
    }
    Some(total)
}

/// A work unit is what is left of the points when the other value intervals are filtered out: those of
/// 2^(`width` - `b`) cells each, numbered from zero on. Without a tradeoff it is all of them.
pub proof fn lemma_unit_filter(p: Seq<nat>, width: nat, b: nat, pass: nat)
    requires
        b <= width,
    ensures
        b == 0 ==> unit(p, width, b, pass) == p,
        b > 0 ==> unit(p, width, b, pass) == p.filter(
            |x: nat| pass * pow2((width - b) as nat) <= x < (pass + 1) * pow2((width - b) as nat),
        ),
{
    if b > 0 {
        let shift: nat = (width - b) as nat;
        let key: spec_fn(nat) -> nat = tally::top_key(shift);
        tally::lemma_select_filter(p, key, pass);
        assert forall|x: nat| #[trigger] key(x) == pass <==> pass * pow2(shift) <= x < (pass + 1) * pow2(shift) by {
            tally::lemma_top_key(shift, x, pass);
        }
        let f: spec_fn(nat) -> bool = |x: nat| key(x) == pass;
        let g: spec_fn(nat) -> bool = |x: nat| pass * pow2(shift) <= x < (pass + 1) * pow2(shift);
        assert forall|x: nat| #[trigger] f(x) == g(x) by {
            assert(key(x) == pass <==> pass * pow2(shift) <= x < (pass + 1) * pow2(shift));
        }
        classes::lemma_same_filter(p, f, g);
    }
}

/// Generation succeeds when there is room for all points, exactly enough room counting as enough. The
/// points are then in front, and the rest of the buffer is as it was.
pub proof fn lemma_filled<T: Cell>(before: Seq<T>, after: Seq<T>, want: Seq<nat>, r: Option<usize>)
    requires
        filled(before, after, want, r),
    ensures
        after.len() == before.len(),
        want.len() > before.len() ==> r is None,
        want.len() <= before.len() ==> {
            &&& r is Some
            &&& r->0 == want.len()
            &&& forall|i: int| 0 <= i < want.len() ==> (#[trigger] after[i]).val() == want[i]
            &&& forall|i: int| want.len() <= i < before.len() ==> #[trigger] after[i] == before[i]
        },
{
    if want.len() <= before.len() {
        let n: int = want.len() as int;
        assert forall|i: int| 0 <= i < n implies (#[trigger] after[i]).val() == want[i] by {
            assert(tally::vals(after.take(n))[i] == after.take(n)[i].val());
        }
        assert forall|i: int| n <= i < before.len() implies #[trigger] after[i] == before[i] by {
            assert(after.skip(n)[i - n] == before.skip(n)[i - n]);
        }
    }
}

/// The parts of a work unit: each generator gives the unit of its own stretch.
pub proof fn lemma_unit_parts<G: Generator>(
    g: Geometry,
    snapshots: Seq<G>,
    lens: Seq<usize>,
    width: nat,
    b: nat,
    pass: nat,
    i: int,
)
    requires
        0 <= i < snapshots.len(),
    ensures
        unit_parts(g, snapshots, lens, width, b, pass).len() == snapshots.len(),
        unit_parts(g, snapshots, lens, width, b, pass)[i] == unit(
            sampling::points::<G>(g, snapshots[i].state(), lens[i] as nat),
            width,
            b,
            pass,
        ),
{
}

} // verus!
