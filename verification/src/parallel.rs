//! Whole tests on several threads. The scan of a repetition is split into contiguous ranges of
//! samples, one per thread, so that the points are those of the sequential test.
use vstd::arithmetic::mul::*;
use vstd::arithmetic::power2::*;
use vstd::prelude::*;
use vstd::slice::*;

use crate::birthday;
use crate::cell;
use crate::cell::Cell;
use crate::cli::Args;
use crate::collision;
use crate::common;
use crate::common::{
    count_prefix, merge_into, pass_count, scan_samples, sort_and_count, sort_prefix, Bin, Cells, GridParams,
};
use crate::fill;
use crate::fill::gen_unit_contiguous;
use crate::orbit;
use crate::orbit::{ranges, share_lens, share_starts, OrbitPartition};
use crate::par;
use crate::prng;
use crate::prng::Generator;
use crate::progress::{Event, Progress};
use crate::runs;
use crate::runs::Totals;
use crate::sampling;
use crate::sampling::Geometry;
use crate::stages;
use crate::stages::{num_checkpoints, stage_target};
use crate::tally;

verus! {

/// The points of a work unit that thread `i` of `n` generates, when a scan of `total` samples from
/// a state is split among them.
pub open spec fn thread_points<G: Generator>(
    g: Geometry,
    s: G::State,
    total: nat,
    n: int,
    i: int,
    width: nat,
    b: nat,
    pass: nat,
) -> Seq<nat> {
    fill::unit(
        sampling::points::<G>(
            g,
            sampling::advance::<G>(g, s, orbit::share_start(total as int, n, i) as nat),
            orbit::share_len(total as int, n, i) as nat,
        ),
        width,
        b,
        pass,
    )
}

/// The regions of the threads hold the points that they generate.
pub open spec fn threads_fit<G: Generator>(
    g: Geometry,
    s: G::State,
    total: nat,
    n: int,
    caps: Seq<usize>,
    width: nat,
    b: nat,
    pass: nat,
) -> bool {
    forall|i: int|
        0 <= i < n ==> (#[trigger] thread_points::<G>(g, s, total, n, i, width, b, pass)).len() <= caps[i]
}

/// The generators stand at the ranges of a scan.
pub open spec fn at_ranges<G: Generator>(g: Geometry, s: G::State, total: nat, snapshots: Seq<G>) -> bool {
    forall|i: int|
        0 <= i < snapshots.len() ==> (#[trigger] snapshots[i]).state() == sampling::advance::<G>(
            g,
            s,
            orbit::share_start(total as int, snapshots.len() as int, i) as nat,
        )
}

/// The samples of a repetition before the last stretch that is split among the threads: with
/// checkpoints that is the last stage, otherwise it is the whole scan.
pub open spec fn before_last(args: &Args, points: usize) -> nat {
    let scan: nat = runs::rep_scan(args, points);
    let n: nat = stages::checkpoints((args.t * runs::decimation(args)) as nat, scan);
    if args.checkpoints {
        stages::stage_end(scan, n, (n - 1) as nat)
    } else {
        0
    }
}

/// The positions on the orbit at which the threads start in repetition `rep`, counting from zero, can
/// be counted: that of the last stretch in samples and, where the generator jumps to them, those of
/// its ranges in words. The other positions of the repetition come before them.
pub open spec fn rep_countable<G: Generator>(args: &Args, points: usize, cpus: usize, rep: int) -> bool {
    let base: int = rep * runs::rep_scan(args, points) + before_last(args, points);
    let len: usize = (runs::rep_scan(args, points) - before_last(args, points)) as usize;
    &&& base <= usize::MAX
    &&& G::jumps() ==> orbit::starts_reachable(base, len, orbit::fan_out(cpus, len), args.t)
}

/// A test can be run on threads: the positions on the orbit of its last repetition can be counted.
pub open spec fn countable<G: Generator>(args: &Args, points: usize, cpus: usize) -> bool {
    args.reps > 0 ==> rep_countable::<G>(args, points, cpus, args.reps - 1)
}

/// Earlier repetitions start at earlier positions.
proof fn lemma_rep_countable<G: Generator>(args: &Args, points: usize, cpus: usize, rep: int)
    requires
        countable::<G>(args, points, cpus),
        0 <= rep < args.reps,
    ensures
        rep_countable::<G>(args, points, cpus, rep),
{
    let scan: nat = runs::rep_scan(args, points);
    let last: int = args.reps - 1;
    assert(rep * scan <= last * scan) by (nonlinear_arith)
        requires
            rep <= last,
    ;
    if G::jumps() {
        let len: usize = (scan - before_last(args, points)) as usize;
        orbit::lemma_starts_earlier(
            rep * scan + before_last(args, points),
            last * scan + before_last(args, points),
            len,
            orbit::fan_out(cpus, len),
            args.t,
        );
    }
}

/// Whether the positions on the orbit can be counted, when a test is run on some threads.
pub fn can_count<G: Generator>(args: &Args, points: usize, num_cpus: usize) -> (r: bool)
    requires
        points > 0,
        collision::scannable(points, args.t, runs::decimation(args)),
    ensures
        r == countable::<G>(args, points, orbit::fan_out(num_cpus, runs::rep_scan(args, points) as usize)),
{
    let d: usize = args.decimation_bits();
    let scan: usize = match scan_samples(points, args.t, d) {
        Some(n) => n,
        None => 0,
    };
    proof {
        lemma_scan_positive(args, points);
        assert(args.t * d >= 0) by (nonlinear_arith);
    }
    if args.reps == 0 {
        return true;
    }
    let before: usize = if args.checkpoints {
        let n: usize = num_checkpoints(args.t * d, scan);
        stage_target(scan, n, n - 1)
    } else {
        0
    };
    let len: usize = scan - before;
    let n: usize = ranges(ranges(num_cpus, scan), len);
    let base: usize = match (args.reps - 1).checked_mul(scan) {
        Some(start) => match start.checked_add(before) {
            Some(base) => base,
            None => {
                return false;
            },
        },
        None => {
            return false;
        },
    };
    let mut probe: G = G::new(args.seed);
    proof {
        G::lemma_seeded_valid(args.seed);
        orbit::lemma_last_start(base as int, len, n, args.t);
        orbit::lemma_shares(len as int, n as int, 0);
    }
    if probe.try_skip(0).is_err() {
        return true;
    }
    match base.checked_add(len - len / n) {
        Some(last) => (last as u64).checked_mul(args.t as u64).is_some(),
        None => false,
    }
}

/// A unit without a tradeoff is everything.
pub proof fn lemma_unit_select(p: Seq<nat>, width: nat, b: nat, k: nat)
    requires
        b <= width,
        k < pow2(b),
        forall|i: int| 0 <= i < p.len() ==> #[trigger] p[i] < pow2(width),
    ensures
        fill::unit(p, width, b, k) == tally::select(p, tally::top_key((width - b) as nat), k),
{
    if b == 0 {
        lemma2_to64();
        birthday::lemma_interval_bound(p, width, 0);
        let key: spec_fn(nat) -> nat = tally::top_key(width);
        assert forall|i: int| 0 <= i < p.len() implies key(#[trigger] p[i]) == 0 by {
            assert(tally::top_key((width - b) as nat)(p[i]) < 1);
        }
        tally::lemma_select_all(p, key, 0);
    }
}

/// Generates a work unit on threads: the points are those of the sequential scan, in the same order.
pub(crate) fn generate_unit<T: Cell, G: Generator>(
    buf: &mut [T],
    caps: &[usize],
    snapshots: &[G],
    params: &GridParams,
    lens: &[usize],
    pass: u64,
    b: usize,
    decimating: bool,
    full: bool,
    Ghost(s): Ghost<G::State>,
    Ghost(total): Ghost<nat>,
) -> (r: Option<usize>)
    requires
        0 < snapshots@.len() == caps@.len(),
        lens@.len() == snapshots@.len(),
        par::offset(caps@, caps@.len() as int) <= old(buf)@.len(),
        params.drawable(0, decimating, full, T::bits()),
        params.fits(decimating, T::bits()),
        fill::unit_exists(params.index_bits(decimating), b, pass),
        at_ranges::<G>(params.geometry(decimating, T::bits()), s, total, snapshots@),
        forall|i: int|
            0 <= i < lens@.len() ==> #[trigger] lens@[i] == orbit::share_len(
                total as int,
                snapshots@.len() as int,
                i,
            ),
    ensures
        final(buf)@.len() == old(buf)@.len(),
        r is Some <==> threads_fit::<G>(
            params.geometry(decimating, T::bits()),
            s,
            total,
            snapshots@.len() as int,
            caps@,
            params.index_bits(decimating),
            b as nat,
            pass as nat,
        ),
        r matches Some(len) ==> len <= old(buf)@.len() && tally::vals(final(buf)@.take(len as int)) == fill::unit(
            sampling::points::<G>(params.geometry(decimating, T::bits()), s, total),
            params.index_bits(decimating),
            b as nat,
            pass as nat,
        ),
{
    let ghost g: Geometry = params.geometry(decimating, T::bits());
    let ghost width: nat = params.index_bits(decimating);
    let ghost parts: Seq<Seq<nat>> = fill::unit_parts(g, snapshots@, lens@, width, b as nat, pass as nat);
    let ghost n: int = snapshots@.len() as int;
    proof {
        orbit::lemma_parallel_unit::<G>(g, s, snapshots@, lens@, total, width, b as nat, pass as nat);
        assert forall|i: int| 0 <= i < n implies #[trigger] parts[i] == thread_points::<G>(
            g,
            s,
            total,
            n,
            i,
            width,
            b as nat,
            pass as nat,
        ) by {
            assert(lens@[i] == orbit::share_len(total as int, n, i));
            assert(snapshots@[i].state() == sampling::advance::<G>(
                g,
                s,
                orbit::share_start(total as int, n, i) as nat,
            ));
        }
    }
    let r: Option<usize> = gen_unit_contiguous::<T, G>(
        buf,
        caps,
        snapshots,
        params,
        lens,
        pass,
        b,
        decimating,
        full,
    );
    proof {
        if r is Some {
            assert forall|i: int| 0 <= i < n implies (#[trigger] thread_points::<G>(
                g,
                s,
                total,
                n,
                i,
                width,
                b as nat,
                pass as nat,
            )).len() <= caps@[i] by {
                assert(parts[i].len() <= caps@[i]);
            }
        } else {
            let i: int = choose|i: int| 0 <= i < n && !(#[trigger] parts[i].len() <= caps@[i]);
            assert(!(thread_points::<G>(g, s, total, n, i, width, b as nat, pass as nat).len() <= caps@[i]));
        }
    }
    r
}

/// The regions of the threads hold what they generate in the passes of a repetition.
pub open spec fn passes_fit<G: Generator>(
    args: &Args,
    points: usize,
    bits: nat,
    s: G::State,
    n: int,
    caps: Seq<usize>,
    lo: nat,
    hi: nat,
) -> bool {
    forall|k: nat|
        lo <= k < hi ==> #[trigger] threads_fit::<G>(
            runs::shape(args, bits),
            s,
            runs::rep_scan(args, points),
            n,
            caps,
            runs::width(args),
            runs::tradeoff(args),
            k,
        )
}

/// Whether the regions of the threads hold what they generate in a pass of a repetition.
pub open spec fn pass_room<G: Generator>(
    args: &Args,
    points: usize,
    bits: nat,
    s: G::State,
    n: int,
    caps: Seq<usize>,
) -> spec_fn(nat) -> bool {
    |k: nat|
        threads_fit::<G>(
            runs::shape(args, bits),
            s,
            runs::rep_scan(args, points),
            n,
            caps,
            runs::width(args),
            runs::tradeoff(args),
            k,
        )
}

/// The region of a thread that can overflow.
pub open spec fn region_bin(args: &Args) -> Bin {
    if runs::tradeoff(args) > 0 {
        Bin::TradeoffBin
    } else {
        Bin::ParallelChunk
    }
}

/// The passes of a repetition of the collision test. Returns the collisions and the points.
fn parallel_passes<T: Cell, G: Generator, P: Progress>(
    args: &Args,
    params: &GridParams,
    points: usize,
    snapshots: &[G],
    lens: &[usize],
    buf: &mut [T],
    caps: &[usize],
    progress: &mut P,
    Ghost(s): Ghost<G::State>,
) -> (r: Result<(usize, usize), Bin>)
    requires
        *params == runs::grid(args, params.cells),
        runs::runnable(args, points, params.cells@, T::bits()),
        !args.birthday_spacings,
        0 < snapshots@.len() == caps@.len(),
        lens@.len() == snapshots@.len(),
        par::offset(caps@, caps@.len() as int) <= old(buf)@.len(),
        at_ranges::<G>(runs::shape(args, T::bits()), s, runs::rep_scan(args, points), snapshots@),
        forall|i: int|
            0 <= i < lens@.len() ==> #[trigger] lens@[i] == orbit::share_len(
                runs::rep_scan(args, points) as int,
                snapshots@.len() as int,
                i,
            ),
    ensures
        final(buf)@.len() == old(buf)@.len(),
        ({
            let p: Seq<nat> = runs::rep_points::<G>(args, points, T::bits(), s);
            &&& r is Ok <==> passes_fit::<G>(
                args,
                points,
                T::bits(),
                s,
                snapshots@.len() as int,
                caps@,
                runs::lo(args),
                runs::hi(args),
            )
            &&& r matches Err(bin) ==> bin == region_bin(args) && final(progress).log() == old(progress).log()
                + collision::passes_stopped(
                p,
                runs::interval_key(args),
                pow2(runs::tradeoff(args)),
                runs::lo(args),
                runs::hi(args),
                pass_room::<G>(args, points, T::bits(), s, snapshots@.len() as int, caps@),
            )
            &&& r matches Ok(x) ==> {
                &&& x.0 == runs::count(args, params.cells@, p)
                &&& x.1 == runs::examined(args, p)
                &&& final(progress).log() == old(progress).log() + collision::pass_events(
                    p,
                    runs::interval_key(args),
                    pow2(runs::tradeoff(args)),
                    runs::lo(args),
                    runs::hi(args),
                )
            }
        }),
{
    let ghost total: nat = runs::rep_scan(args, points);
    let ghost g: Geometry = runs::shape(args, T::bits());
    let ghost p: Seq<nat> = runs::rep_points::<G>(args, points, T::bits(), s);
    let ghost key: spec_fn(nat) -> nat = runs::interval_key(args);
    let ghost log0: Seq<Event> = progress.log();
    let ghost n: int = snapshots@.len() as int;
    let b: usize = args.tradeoff_bits();
    let decimating: bool = params.d > 0;
    let full: bool = args.u == 64 && args.s == 0;
    proof {
        runs::lemma_grid(args, points, params.cells, T::bits());
        sampling::lemma_points_bound::<G>(g, s, total);
    }
    let num_passes: u64 = pass_count(b);
    let lo: u64 = match args.pass {
        Some(k) => k,
        None => 0,
    };
    let hi: u64 = match args.pass {
        Some(k) => k + 1,
        None => num_passes,
    };
    let mut coll: usize = 0;
    let mut all: usize = 0;
    let mut k: u64 = lo;
    proof {
        assert(progress.log() =~= log0 + collision::pass_events(p, key, num_passes as nat, lo as nat, lo as nat));
    }
    while k < hi
        invariant
            lo <= k <= hi,
            lo == runs::lo(args),
            hi == runs::hi(args),
            hi <= num_passes,
            num_passes == pow2(b as nat),
            b == runs::tradeoff(args),
            b < 64,
            b <= runs::width(args),
            decimating == (params.d > 0),
            *params == runs::grid(args, params.cells),
            params.drawable(0, decimating, full, T::bits()),
            params.fits(decimating, T::bits()),
            params.geometry(decimating, T::bits()) == g,
            params.index_bits(decimating) == runs::width(args),
            n == snapshots@.len(),
            0 < snapshots@.len() == caps@.len(),
            lens@.len() == snapshots@.len(),
            par::offset(caps@, caps@.len() as int) <= buf@.len(),
            buf@.len() == old(buf)@.len(),
            total == runs::rep_scan(args, points),
            total <= usize::MAX,
            g == runs::shape(args, T::bits()),
            at_ranges::<G>(g, s, total, snapshots@),
            forall|i: int|
                0 <= i < lens@.len() ==> #[trigger] lens@[i] == orbit::share_len(
                    total as int,
                    snapshots@.len() as int,
                    i,
                ),
            p == sampling::points::<G>(g, s, total),
            p == runs::rep_points::<G>(args, points, T::bits(), s),
            p.len() <= total,
            forall|i: int| 0 <= i < p.len() ==> #[trigger] p[i] < pow2(runs::width(args)),
            key == runs::interval_key(args),
            log0 == old(progress).log(),
            coll == tally::collisions_in(p, key, lo as nat, k as nat),
            all == tally::selected_in(p, key, lo as nat, k as nat),
            progress.log() == log0 + collision::pass_events(p, key, num_passes as nat, lo as nat, k as nat),
            passes_fit::<G>(args, points, T::bits(), s, n, caps@, lo as nat, k as nat),
        decreases hi - k,
    {
        progress.report(Event::Pass { pass: k + 1, passes: num_passes });
        proof {
            lemma_unit_select(p, runs::width(args), b as nat, k as nat);
        }
        match generate_unit::<T, G>(
            buf,
            caps,
            snapshots,
            params,
            lens,
            k,
            b,
            decimating,
            full,
            Ghost(s),
            Ghost(total),
        ) {
            None => {
                proof {
                    let fits: spec_fn(nat) -> bool = pass_room::<G>(args, points, T::bits(), s, n, caps@);
                    assert(!fits(k as nat));
                    common::lemma_first_misfit(fits, lo as nat, hi as nat, k as nat);
                    assert(progress.log() =~= log0 + collision::passes_stopped(
                        p,
                        key,
                        num_passes as nat,
                        lo as nat,
                        hi as nat,
                        fits,
                    ));
                }
                if b > 0 {
                    return Err(Bin::TradeoffBin);
                } else {
                    return Err(Bin::ParallelChunk);
                }
            },
            Some(len) => {
                proof {
                    assert(tally::vals(buf@.take(len as int)).len() == len);
                }
                let c: usize = sort_and_count(buf, len, progress);
                proof {
                    tally::lemma_in_bound(p, key, lo as nat, (k + 1) as nat);
                }
                coll += c;
                all += len;
                progress.report(
                    Event::PassDone { points: len, collisions: c, all_points: all, all_collisions: coll },
                );
                proof {
                    assert(progress.log() =~= log0 + collision::pass_events(
                        p,
                        key,
                        num_passes as nat,
                        lo as nat,
                        (k + 1) as nat,
                    ));
                }
            },
        }
        k += 1;
    }
    Ok((coll, all))
}

/// The samples of the stage between the checkpoints `k` and `k + 1` of `n`.
pub open spec fn stage_len(scan: nat, n: nat, k: nat) -> nat {
    (stages::stage_end(scan, n, k + 1) - stages::stage_end(scan, n, k)) as nat
}

/// The regions of the threads hold what they generate in the stages of a repetition.
pub open spec fn stages_fit<G: Generator>(
    args: &Args,
    points: usize,
    bits: nat,
    s: G::State,
    cpus: usize,
    caps: Seq<usize>,
    upto: nat,
) -> bool {
    let scan: nat = runs::rep_scan(args, points);
    let n: nat = stages::checkpoints((args.t * runs::decimation(args)) as nat, scan);
    forall|k: nat|
        k < upto ==> #[trigger] stage_fits::<G>(args, points, bits, s, cpus, caps, n, k)
}

/// The regions of the threads hold what they generate in a stage.
pub open spec fn stage_fits<G: Generator>(
    args: &Args,
    points: usize,
    bits: nat,
    s: G::State,
    cpus: usize,
    caps: Seq<usize>,
    n: nat,
    k: nat,
) -> bool {
    let scan: nat = runs::rep_scan(args, points);
    let g: Geometry = runs::shape(args, bits);
    threads_fit::<G>(
        g,
        sampling::advance::<G>(g, s, stages::stage_end(scan, n, k)),
        stage_len(scan, n, k),
        orbit::fan_out(cpus, stage_len(scan, n, k) as usize) as int,
        caps,
        runs::width(args),
        0,
        0,
    )
}

/// Whether the regions of the threads hold what they generate in a stage of a repetition, of `n`.
pub open spec fn stage_room<G: Generator>(
    args: &Args,
    points: usize,
    bits: nat,
    s: G::State,
    cpus: usize,
    caps: Seq<usize>,
    n: nat,
) -> spec_fn(nat) -> bool {
    |k: nat| stage_fits::<G>(args, points, bits, s, cpus, caps, n, k)
}

/// A stage overflows the regions of the threads before the points of all stages so far overflow
/// their buffer, which holds `acc`.
pub open spec fn stage_overflows<G: Generator>(
    args: &Args,
    points: usize,
    bits: nat,
    s: G::State,
    cpus: usize,
    caps: Seq<usize>,
    acc: nat,
) -> bool {
    let scan: nat = runs::rep_scan(args, points);
    let n: nat = stages::checkpoints((args.t * runs::decimation(args)) as nat, scan);
    exists|k: nat|
        k < n && !#[trigger] stage_fits::<G>(args, points, bits, s, cpus, caps, n, k) && collision::points_upto::<G>(
            runs::shape(args, bits),
            s,
            scan,
            n,
        )(k).len() <= acc
}

/// Snapshots taken at the ranges of a stretch of the orbit.
proof fn lemma_at_ranges<G: Generator>(
    g: Geometry,
    seeded: G::State,
    base: nat,
    total: nat,
    boundaries: Seq<usize>,
    snapshots: Seq<G>,
)
    requires
        snapshots.len() == boundaries.len(),
        snapshots.len() > 0,
        forall|i: int|
            0 <= i < boundaries.len() ==> #[trigger] boundaries[i] == orbit::share_start(
                total as int,
                boundaries.len() as int,
                i,
            ),
        forall|i: int|
            0 <= i < snapshots.len() ==> (#[trigger] snapshots[i]).state() == prng::orbit::<G>(
                seeded,
                ((base + boundaries[i]) * g.t) as nat,
            ),
    ensures
        at_ranges::<G>(g, sampling::advance::<G>(g, seeded, base), total, snapshots),
{
    let n: int = snapshots.len() as int;
    assert forall|i: int| 0 <= i < n implies (#[trigger] snapshots[i]).state() == sampling::advance::<G>(
        g,
        sampling::advance::<G>(g, seeded, base),
        orbit::share_start(total as int, n, i) as nat,
    ) by {
        orbit::lemma_shares(total as int, n, i);
        assert(boundaries[i] == orbit::share_start(total as int, n, i));
        sampling::lemma_advance_compose::<G>(g, seeded, base, boundaries[i] as nat);
    }
}

/// A repetition of the collision test with checkpoints: the stages run one after the other, each of
/// them on threads, and are merged into the sorted accumulator.
#[verifier::rlimit(40)]
fn parallel_checkpoints<T: Cell, G: Generator, P: Progress>(
    args: &Args,
    params: &GridParams,
    points: usize,
    scan: usize,
    rep: usize,
    partition: &mut OrbitPartition<G>,
    buf: &mut [T],
    caps: &[usize],
    acc: &mut [T],
    progress: &mut P,
) -> (r: Result<(usize, usize), Bin>)
    requires
        *params == runs::grid(args, params.cells),
        runs::runnable(args, points, params.cells@, T::bits()),
        args.checkpoints,
        !args.birthday_spacings,
        scan == runs::rep_scan(args, points),
        old(partition).inv(),
        old(partition).cpus() == caps@.len(),
        old(partition).total() == scan,
        old(partition).dimension() == args.t,
        old(partition).seed() == args.seed,
        !G::jumps() ==> old(partition).position() == rep * scan,
        rep_countable::<G>(args, points, caps@.len() as usize, rep as int),
        par::offset(caps@, caps@.len() as int) <= old(buf)@.len(),
    ensures
        final(buf)@.len() == old(buf)@.len(),
        final(acc)@.len() == old(acc)@.len(),
        ({
            let s: G::State = runs::rep_start::<G>(args, points, T::bits(), rep as nat);
            let p: Seq<nat> = runs::rep_points::<G>(args, points, T::bits(), s);
            let n: nat = stages::checkpoints((args.t * runs::decimation(args)) as nat, scan as nat);
            let all_fit: bool = stages_fit::<G>(
                args,
                points,
                T::bits(),
                s,
                old(partition).cpus(),
                caps@,
                n,
            );
            &&& r is Ok <==> all_fit && p.len() <= old(acc)@.len()
            &&& r matches Err(bin) ==> {
                &&& bin == if stage_overflows::<G>(
                    args,
                    points,
                    T::bits(),
                    s,
                    old(partition).cpus(),
                    caps@,
                    old(acc)@.len(),
                ) {
                    Bin::ParallelChunk
                } else {
                    Bin::ParallelCheckpointTotal
                }
                &&& final(progress).log() == old(progress).log() + stages::checkpoints_stopped(
                    collision::points_upto::<G>(runs::shape(args, T::bits()), s, scan as nat, n),
                    n,
                    stage_room::<G>(args, points, T::bits(), s, old(partition).cpus(), caps@, n),
                    old(acc)@.len(),
                )
            }
            &&& r matches Ok(x) ==> {
                &&& x.0 == tally::collisions(p)
                &&& x.1 == p.len()
                &&& final(progress).log() == old(progress).log() + stages::checkpoint_events(
                    collision::points_upto::<G>(runs::shape(args, T::bits()), s, scan as nat, n),
                    n,
                    n,
                )
                &&& final(partition).inv()
                &&& final(partition).cpus() == old(partition).cpus()
                &&& final(partition).total() == old(partition).total()
                &&& final(partition).dimension() == old(partition).dimension()
                &&& final(partition).seed() == old(partition).seed()
                &&& !G::jumps() ==> final(partition).position() == (rep + 1) * scan
            }
        }),
{
    let ghost g: Geometry = runs::shape(args, T::bits());
    let ghost s0: G::State = runs::rep_start::<G>(args, points, T::bits(), rep as nat);
    let ghost seeded: G::State = G::seeded(args.seed);
    let ghost log0: Seq<Event> = progress.log();
    let ghost cpus: usize = partition.cpus();
    let full: bool = args.u == 64 && args.s == 0;
    proof {
        runs::lemma_grid(args, points, params.cells, T::bits());
        lemma_pow2_pos((params.t * params.d) as nat);
        assert(scan > 0) by (nonlinear_arith)
            requires
                scan == points as nat * pow2((params.t * params.d) as nat),
                points > 0,
                pow2((params.t * params.d) as nat) > 0,
        ;
        assert(params.t * params.d >= 0) by (nonlinear_arith);
        assert((rep + 1) * scan == rep * scan + scan) by (nonlinear_arith);
        assert(rep * scan >= 0) by (nonlinear_arith);
    }
    let n: usize = num_checkpoints(params.t * params.d, scan);
    let ghost before: nat = stages::stage_end(scan as nat, n as nat, (n - 1) as nat);
    let ghost final_len: usize = (scan - before) as usize;
    let base0: usize = rep * scan;
    let ghost upto: spec_fn(nat) -> Seq<nat> = collision::points_upto::<G>(g, s0, scan as nat, n as nat);
    let ghost p: Seq<nat> = sampling::points::<G>(g, s0, scan as nat);
    let threads: usize = partition.num_cpus();
    let cap: usize = acc.len();
    let ghost fits: spec_fn(nat) -> bool = stage_room::<G>(args, points, T::bits(), s0, cpus, caps@, n as nat);
    let ghost steps: spec_fn(nat) -> bool = stages::checkpoint_fits(upto, fits, cap as nat);
    let mut len: usize = 0;
    let mut scanned: usize = 0;
    let mut c: usize = 0;
    let mut k: usize = 0;
    proof {
        stages::lemma_stages(scan as nat, n as nat, 0);
        assert(upto(0) =~= Seq::<nat>::empty());
        tally::lemma_sorted(Seq::<nat>::empty());
        assert(tally::vals(acc@.take(0)) =~= tally::sorted(upto(0)));
        assert(progress.log() =~= log0 + stages::checkpoint_events(upto, n as nat, 0));
    }
    while k < n
        invariant
            k <= n,
            0 < n <= scan,
            n == stages::checkpoints((args.t * runs::decimation(args)) as nat, scan as nat),
            scan == runs::rep_scan(args, points),
            base0 == rep * scan,
            before == stages::stage_end(scan as nat, n as nat, (n - 1) as nat),
            base0 + before <= usize::MAX,
            final_len == (scan - before) as usize,
            G::jumps() ==> orbit::starts_reachable(
                base0 + before,
                final_len,
                orbit::fan_out(cpus, final_len),
                args.t,
            ),
            params.drawable(0, true, full, T::bits()),
            params.fits(true, T::bits()),
            params.geometry(true, T::bits()) == g,
            params.index_bits(true) == runs::width(args),
            g == runs::shape(args, T::bits()),
            g.t == args.t,
            s0 == runs::rep_start::<G>(args, points, T::bits(), rep as nat),
            s0 == sampling::advance::<G>(g, seeded, base0 as nat),
            seeded == G::seeded(args.seed),
            log0 == old(progress).log(),
            upto == collision::points_upto::<G>(g, s0, scan as nat, n as nat),
            p == sampling::points::<G>(g, s0, scan as nat),
            cap == acc@.len(),
            acc@.len() == old(acc)@.len(),
            buf@.len() == old(buf)@.len(),
            par::offset(caps@, caps@.len() as int) <= buf@.len(),
            caps@.len() == cpus,
            threads == cpus,
            cpus > 0,
            partition.inv(),
            partition.cpus() == cpus,
            partition.total() == scan,
            partition.dimension() == args.t,
            partition.seed() == args.seed,
            cpus == old(partition).cpus(),
            !G::jumps() ==> partition.position() == base0 + scanned,
            scanned == stages::stage_end(scan as nat, n as nat, k as nat),
            scanned <= scan,
            len == upto(k as nat).len(),
            len <= cap,
            tally::vals(acc@.take(len as int)) == tally::sorted(upto(k as nat)),
            cell::ascending(acc@.take(len as int)),
            k > 0 ==> c == tally::collisions(upto(k as nat)),
            progress.log() == log0 + stages::checkpoint_events(upto, n as nat, k as nat),
            stages_fit::<G>(args, points, T::bits(), s0, cpus, caps@, k as nat),
            fits == stage_room::<G>(args, points, T::bits(), s0, cpus, caps@, n as nat),
            steps == stages::checkpoint_fits(upto, fits, cap as nat),
            forall|j: nat| j < k ==> #[trigger] steps(j),
        decreases n - k,
    {
        let ghost q: Seq<nat> = collision::stage_points::<G>(g, s0, scan as nat, n as nat, k as nat);
        let ghost st: G::State = sampling::advance::<G>(g, s0, scanned as nat);
        proof {
            stages::lemma_stages(scan as nat, n as nat, k as nat);
            collision::lemma_stage_points::<G>(g, s0, scan as nat, n as nat, k as nat);
        }
        progress.report(Event::Checkpoint { checkpoint: k + 1, checkpoints: n });
        let target_scanned: usize = stage_target(scan, n, k + 1);
        let stage: usize = target_scanned - scanned;
        let stage_cpus: usize = ranges(threads, stage);
        let boundaries: Vec<usize> = share_starts(stage, stage_cpus);
        let lens: Vec<usize> = share_lens(stage, stage_cpus);
        proof {
            stages::lemma_stages_ordered(scan as nat, n as nat, k as nat, (n - 1) as nat);
            orbit::lemma_starts_ok(boundaries@, stage, stage_cpus);
            assert(stage_len(scan as nat, n as nat, k as nat) == stage);
            if G::jumps() {
                lemma_stage_reachable(base0 as int, scan, n as nat, k as nat, cpus, args.t, boundaries@);
            }
        }
        let base: usize = base0 + scanned;
        let ghost log1: Seq<Event> = progress.log();
        let snapshots: Vec<G> = partition.snapshots(base, stage, boundaries.as_slice(), false, progress);
        let stage_caps: &[usize] = slice_subrange(caps, 0, stage_cpus);
        proof {
            assert(log1 + orbit::prescan_events::<G>(false) =~= log1);
            lemma_at_ranges::<G>(g, seeded, base as nat, stage as nat, boundaries@, snapshots@);
            sampling::lemma_advance_compose::<G>(g, seeded, base0 as nat, scanned as nat);
            par::lemma_offset_prefix(stage_caps@, caps@, stage_cpus as int);
            par::lemma_offset_monotone(caps@, stage_cpus as int, caps@.len() as int);
            lemma_stage_caps::<G>(
                g,
                st,
                stage as nat,
                stage_cpus as int,
                stage_caps@,
                caps@,
                runs::width(args),
            );
        }
        match generate_unit::<T, G>(
            buf,
            stage_caps,
            snapshots.as_slice(),
            params,
            lens.as_slice(),
            0,
            0,
            true,
            full,
            Ghost(st),
            Ghost(stage as nat),
        ) {
            None => {
                proof {
                    assert(!stage_fits::<G>(args, points, T::bits(), s0, cpus, caps@, n as nat, k as nat));
                    assert(!fits(k as nat));
                    common::lemma_first_misfit(steps, 0, n as nat, k as nat);
                    assert(progress.log() =~= log0 + stages::checkpoints_stopped(upto, n as nat, fits, cap as nat));
                }
                return Err(Bin::ParallelChunk);
            },
            Some(got) => {
                proof {
                    assert(tally::vals(buf@.take(got as int)).len() == got);
                    assert(stage_fits::<G>(args, points, T::bits(), s0, cpus, caps@, n as nat, k as nat));
                }
                progress.report(Event::Sorting);
                sort_prefix(buf, got);
                progress.report(Event::Merging);
                if got > cap - len {
                    proof {
                        assert forall|m: nat| k < m < n implies #[trigger] upto(m).len() > cap by {
                            collision::lemma_upto_grows::<G>(g, s0, scan as nat, n as nat, (k + 1) as nat, m);
                        }
                        assert(fits(k as nat));
                        common::lemma_first_misfit(steps, 0, n as nat, k as nat);
                        assert(progress.log() =~= log0 + stages::checkpoints_stopped(
                            upto,
                            n as nat,
                            fits,
                            cap as nat,
                        ));
                    }
                    return Err(Bin::ParallelCheckpointTotal);
                }
                let fresh: &[T] = slice_subrange(buf, 0, got);
                proof {
                    assert(buf@.subrange(0, got as int) =~= buf@.take(got as int));
                    stages::lemma_merge_sorted(upto(k as nat), q);
                }
                merge_into(acc, len, fresh);
                len += got;
                scanned = target_scanned;
                progress.report(Event::Counting);
                c = count_prefix(acc, len);
                proof {
                    let all: Seq<nat> = upto((k + 1) as nat);
                    tally::lemma_sorted(all);
                    tally::lemma_collisions_permuted(all, tally::sorted(all));
                }
                progress.report(Event::CheckpointDone { points: len, collisions: c });
                proof {
                    assert(progress.log() =~= log0 + stages::checkpoint_events(upto, n as nat, (k + 1) as nat));
                    assert(fits(k as nat));
                    assert(steps(k as nat));
                }
            },
        }
        k += 1;
    }
    Ok((c, len))
}

/// Only the regions that are used matter.
proof fn lemma_stage_caps<G: Generator>(
    g: Geometry,
    s: G::State,
    total: nat,
    n: int,
    a: Seq<usize>,
    b: Seq<usize>,
    width: nat,
)
    requires
        a.len() == n,
        n <= b.len(),
        forall|i: int| 0 <= i < n ==> a[i] == b[i],
    ensures
        threads_fit::<G>(g, s, total, n, a, width, 0, 0) == threads_fit::<G>(g, s, total, n, b, width, 0, 0),
{
    if threads_fit::<G>(g, s, total, n, a, width, 0, 0) {
        assert forall|i: int| 0 <= i < n implies (#[trigger] thread_points::<G>(g, s, total, n, i, width, 0, 0)).len()
            <= b[i] by {
            assert(a[i] == b[i]);
        }
    }
    if threads_fit::<G>(g, s, total, n, b, width, 0, 0) {
        assert forall|i: int| 0 <= i < n implies (#[trigger] thread_points::<G>(g, s, total, n, i, width, 0, 0)).len()
            <= a[i] by {
            assert(a[i] == b[i]);
        }
    }
}

/// The buffers of a parallel repetition of the collision test hold what it puts into them.
pub open spec fn collision_fits<G: Generator>(
    args: &Args,
    points: usize,
    bits: nat,
    s: G::State,
    cpus: usize,
    caps: Seq<usize>,
    acc: nat,
) -> bool {
    if args.checkpoints {
        &&& stages_fit::<G>(
            args,
            points,
            bits,
            s,
            cpus,
            caps,
            stages::checkpoints((args.t * runs::decimation(args)) as nat, runs::rep_scan(args, points)),
        )
        &&& runs::rep_points::<G>(args, points, bits, s).len() <= acc
    } else {
        passes_fit::<G>(args, points, bits, s, cpus as int, caps, runs::lo(args), runs::hi(args))
    }
}

/// The buffer that overflows in a parallel repetition of the collision test.
pub open spec fn collision_bin<G: Generator>(
    args: &Args,
    points: usize,
    bits: nat,
    s: G::State,
    cpus: usize,
    caps: Seq<usize>,
    acc: nat,
) -> Bin {
    if args.checkpoints && !stage_overflows::<G>(args, points, bits, s, cpus, caps, acc) {
        Bin::ParallelCheckpointTotal
    } else {
        region_bin(args)
    }
}

/// What a parallel repetition of the collision test reports.
pub open spec fn collision_events<G: Generator>(args: &Args, points: usize, bits: nat, s: G::State) -> Seq<Event> {
    let p: Seq<nat> = runs::rep_points::<G>(args, points, bits, s);
    let scan: nat = runs::rep_scan(args, points);
    let n: nat = stages::checkpoints((args.t * runs::decimation(args)) as nat, scan);
    if args.checkpoints {
        stages::checkpoint_events(collision::points_upto::<G>(runs::shape(args, bits), s, scan, n), n, n)
    } else {
        orbit::prescan_events::<G>(true) + collision::pass_events(
            p,
            runs::interval_key(args),
            pow2(runs::tradeoff(args)),
            runs::lo(args),
            runs::hi(args),
        )
    }
}

/// What a parallel repetition of the collision test has reported when a buffer overflows.
pub open spec fn collision_stopped<G: Generator>(
    args: &Args,
    points: usize,
    bits: nat,
    s: G::State,
    cpus: usize,
    caps: Seq<usize>,
    acc: nat,
) -> Seq<Event> {
    let p: Seq<nat> = runs::rep_points::<G>(args, points, bits, s);
    let scan: nat = runs::rep_scan(args, points);
    let n: nat = stages::checkpoints((args.t * runs::decimation(args)) as nat, scan);
    if args.checkpoints {
        stages::checkpoints_stopped(
            collision::points_upto::<G>(runs::shape(args, bits), s, scan, n),
            n,
            stage_room::<G>(args, points, bits, s, cpus, caps, n),
            acc,
        )
    } else {
        orbit::prescan_events::<G>(true) + collision::passes_stopped(
            p,
            runs::interval_key(args),
            pow2(runs::tradeoff(args)),
            runs::lo(args),
            runs::hi(args),
            pass_room::<G>(args, points, bits, s, cpus as int, caps),
        )
    }
}

/// What the first `reps` parallel repetitions report, given what each of them reports while it runs.
pub open spec fn parallel_events<G: Generator>(
    args: &Args,
    points: usize,
    cells: nat,
    bits: nat,
    during: spec_fn(G::State) -> Seq<Event>,
    reps: nat,
) -> Seq<Event>
    decreases reps,
{
    if reps == 0 {
        Seq::empty()
    } else {
        let s: G::State = runs::rep_start::<G>(args, points, bits, (reps - 1) as nat);
        let p: Seq<nat> = runs::rep_points::<G>(args, points, bits, s);
        parallel_events::<G>(args, points, cells, bits, during, (reps - 1) as nat) + during(s) + seq![
            Event::Repetition {
                points: runs::examined(args, p) as usize,
                collisions: runs::count(args, cells, p) as usize,
                total: runs::total::<G>(args, points, cells, bits, reps) as u128,
            },
        ]
    }
}

/// What a parallel repetition of the collision test reports, by the state in which it starts.
pub open spec fn during_collision<G: Generator>(args: &Args, points: usize, bits: nat) -> spec_fn(G::State) -> Seq<
    Event,
> {
    |s: G::State| collision_events::<G>(args, points, bits, s)
}

/// The starts of a stage can be reached, when those of the last stage can.
proof fn lemma_stage_reachable(base: int, scan: usize, n: nat, k: nat, cpus: usize, t: usize, boundaries: Seq<usize>)
    requires
        0 <= base,
        0 < n <= scan,
        k < n,
        ({
            let before: nat = stages::stage_end(scan as nat, n, (n - 1) as nat);
            let len: usize = (scan - before) as usize;
            orbit::starts_reachable(base + before, len, orbit::fan_out(cpus, len), t)
        }),
        ({
            let stage: usize = stage_len(scan as nat, n, k) as usize;
            let ranges: usize = orbit::fan_out(cpus, stage);
            &&& boundaries.len() == ranges
            &&& orbit::boundaries_ok(boundaries, stage)
            &&& forall|i: int|
                0 <= i < ranges ==> #[trigger] boundaries[i] == orbit::share_start(stage as int, ranges as int, i)
        }),
    ensures
        orbit::reachable(base + stages::stage_end(scan as nat, n, k), boundaries, t),
{
    let before: nat = stages::stage_end(scan as nat, n, (n - 1) as nat);
    let len: usize = (scan - before) as usize;
    let start: int = base + stages::stage_end(scan as nat, n, k);
    stages::lemma_stages(scan as nat, n, k);
    stages::lemma_stages(scan as nat, n, (n - 1) as nat);
    if k + 1 == n {
        assert forall|i: int| 0 <= i < boundaries.len() implies start + #[trigger] boundaries[i] <= usize::MAX && (start
            + boundaries[i]) * t <= u64::MAX by {
            assert(boundaries[i] == orbit::share_start(len as int, orbit::fan_out(cpus, len) as int, i));
        }
    } else {
        stages::lemma_stages_ordered(scan as nat, n, k + 1, (n - 1) as nat);
        let stage: usize = stage_len(scan as nat, n, k) as usize;
        let ranges: int = orbit::fan_out(cpus, len) as int;
        orbit::lemma_shares(len as int, ranges, 0);
        assert(base + before + orbit::share_start(len as int, ranges, 0) <= usize::MAX);
        assert((start + stage) * t <= (base + before) * t) by (nonlinear_arith)
            requires
                start + stage <= base + before,
                t >= 0,
        ;
        orbit::lemma_window_reachable(start, stage, boundaries, t);
    }
}

/// The snapshots of a repetition stand at the ranges of its scan.
pub(crate) fn snapshots_of_rep<G: Generator, P: Progress>(
    args: &Args,
    points: usize,
    scan: usize,
    rep: usize,
    partition: &mut OrbitPartition<G>,
    progress: &mut P,
    Ghost(bits): Ghost<nat>,
) -> (r: Vec<G>)
    requires
        countable::<G>(args, points, old(partition).cpus()),
        !args.checkpoints,
        scan == runs::rep_scan(args, points),
        scan > 0,
        rep < args.reps,
        old(partition).inv(),
        old(partition).total() == scan,
        old(partition).dimension() == args.t,
        old(partition).seed() == args.seed,
        !G::jumps() ==> old(partition).position() == rep * scan,
    ensures
        r@.len() == old(partition).cpus(),
        at_ranges::<G>(
            runs::shape(args, bits),
            runs::rep_start::<G>(args, points, bits, rep as nat),
            scan as nat,
            r@,
        ),
        final(partition).inv(),
        final(partition).cpus() == old(partition).cpus(),
        final(partition).total() == old(partition).total(),
        final(partition).dimension() == old(partition).dimension(),
        final(partition).seed() == old(partition).seed(),
        !G::jumps() ==> final(partition).position() == (rep + 1) * scan,
        final(progress).log() == old(progress).log() + orbit::prescan_events::<G>(true),
{
    let ghost g: Geometry = runs::shape(args, bits);
    let ghost seeded: G::State = G::seeded(args.seed);
    let n: usize = partition.num_cpus();
    proof {
        lemma_rep_countable::<G>(args, points, n, rep as int);
        lemma_mul_nonnegative(rep as int, scan as int);
    }
    let r: Vec<G> = partition.rep_snapshots(rep + 1, progress);
    proof {
        assert forall|i: int| 0 <= i < r@.len() implies (#[trigger] r@[i]).state() == sampling::advance::<G>(
            g,
            runs::rep_start::<G>(args, points, bits, rep as nat),
            orbit::share_start(scan as int, n as int, i) as nat,
        ) by {
            orbit::lemma_shares(scan as int, n as int, i);
            sampling::lemma_advance_compose::<G>(
                g,
                seeded,
                (rep * scan) as nat,
                orbit::share_start(scan as int, n as int, i) as nat,
            );
        }
    }
    r
}

/// Parallel version of the collision test.
///
/// The sequential orbit segment of a pass is split into contiguous sample ranges; each thread owns
/// one range and fills a disjoint region of the shared pass buffer `buf`, of the size that `caps`
/// gives. A thread reaches the start of its range by jump-ahead or, for non-jumpable generators,
/// through a sequential pre-scan; repetitions continue the orbit rather than reseeding. The result
/// is identical to that of the sequential test.
///
/// With checkpoints the stages run one after the other, and `acc` holds the points so far.
///
/// Returns the total collision count and the points that each repetition kept, or the buffer that
/// overflowed.
pub fn run_test_parallel<T: Cell, G: Generator, P: Progress>(
    args: &Args,
    points: usize,
    cells: Cells,
    num_cpus: usize,
    buf: &mut [T],
    caps: &[usize],
    acc: &mut [T],
    progress: &mut P,
) -> (r: Result<Totals, Bin>)
    requires
        runs::runnable(args, points, cells@, T::bits()),
        !args.birthday_spacings,
        countable::<G>(args, points, caps@.len() as usize),
        caps@.len() == orbit::fan_out(num_cpus, runs::rep_scan(args, points) as usize),
        par::offset(caps@, caps@.len() as int) <= old(buf)@.len(),
    ensures
        final(buf)@.len() == old(buf)@.len(),
        final(acc)@.len() == old(acc)@.len(),
        r is Ok <==> (forall|rep: nat|
            rep < args.reps ==> collision_fits::<G>(
                args,
                points,
                T::bits(),
                #[trigger] runs::rep_start::<G>(args, points, T::bits(), rep),
                caps@.len() as usize,
                caps@,
                old(acc)@.len(),
            )),
        r matches Err(bin) ==> exists|rep: nat|
            {
                let s: G::State = #[trigger] runs::rep_start::<G>(args, points, T::bits(), rep);
                let n: usize = caps@.len() as usize;
                &&& rep < args.reps
                &&& !collision_fits::<G>(args, points, T::bits(), s, n, caps@, old(acc)@.len())
                &&& bin == collision_bin::<G>(args, points, T::bits(), s, n, caps@, old(acc)@.len())
                &&& final(progress).log() == old(progress).log() + parallel_events::<G>(
                    args,
                    points,
                    cells@,
                    T::bits(),
                    during_collision::<G>(args, points, T::bits()),
                    rep,
                ) + collision_stopped::<G>(args, points, T::bits(), s, n, caps@, old(acc)@.len())
                &&& forall|i: nat|
                    i < rep ==> collision_fits::<G>(
                        args,
                        points,
                        T::bits(),
                        #[trigger] runs::rep_start::<G>(args, points, T::bits(), i),
                        n,
                        caps@,
                        old(acc)@.len(),
                    )
            },
        r matches Ok(x) ==> runs::found::<G>(
            args,
            points,
            cells@,
            T::bits(),
            args.reps as nat,
            x.collisions,
            x.kept@,
        ) && final(progress).log() == old(progress).log() + parallel_events::<G>(
            args,
            points,
            cells@,
            T::bits(),
            during_collision::<G>(args, points, T::bits()),
            args.reps as nat,
        ),
{
    let ghost log0: Seq<Event> = progress.log();
    let ghost during: spec_fn(G::State) -> Seq<Event> = during_collision::<G>(args, points, T::bits());
    let params: GridParams = GridParams { u: args.u, t: args.t, s: args.s, d: args.decimation_bits(), cells };
    let scan: usize = match scan_samples(points, params.t, params.d) {
        Some(n) => n,
        None => 0,
    };
    proof {
        lemma_scan_positive(args, points);
    }
    let mut partition: OrbitPartition<G> = OrbitPartition::new(args.seed, num_cpus, scan, args.t);
    let n: usize = partition.num_cpus();
    let lens: Vec<usize> = share_lens(scan, n);
    let mut tot: u128 = 0;
    let mut kept: Vec<usize> = Vec::new();
    let mut rep: usize = 0;
    proof {
        assert(0 * scan == 0) by (nonlinear_arith);
        assert(progress.log() =~= log0 + parallel_events::<G>(args, points, cells@, T::bits(), during, 0));
    }
    while rep < args.reps
        invariant
            rep <= args.reps,
            params == runs::grid(args, cells),
            runs::runnable(args, points, cells@, T::bits()),
            !args.birthday_spacings,
            countable::<G>(args, points, n),
            scan == runs::rep_scan(args, points),
            scan > 0,
            n == caps@.len(),
            n > 0,
            par::offset(caps@, caps@.len() as int) <= buf@.len(),
            lens@.len() == n,
            forall|i: int| 0 <= i < n ==> #[trigger] lens@[i] == orbit::share_len(scan as int, n as int, i),
            partition.inv(),
            partition.cpus() == n,
            partition.total() == scan,
            partition.dimension() == args.t,
            partition.seed() == args.seed,
            !G::jumps() ==> partition.position() == rep * scan,
            log0 == old(progress).log(),
            during == during_collision::<G>(args, points, T::bits()),
            buf@.len() == old(buf)@.len(),
            acc@.len() == old(acc)@.len(),
            tot == runs::total::<G>(args, points, cells@, T::bits(), rep as nat),
            tot <= rep * usize::MAX,
            kept@.len() == rep,
            forall|i: int|
                0 <= i < rep ==> #[trigger] kept@[i] == runs::examined(
                    args,
                    runs::rep_points::<G>(
                        args,
                        points,
                        T::bits(),
                        runs::rep_start::<G>(args, points, T::bits(), i as nat),
                    ),
                ),
            forall|i: nat|
                i < rep ==> collision_fits::<G>(
                    args,
                    points,
                    T::bits(),
                    #[trigger] runs::rep_start::<G>(args, points, T::bits(), i),
                    n,
                    caps@,
                    acc@.len(),
                ),
            progress.log() == log0 + parallel_events::<G>(
                args,
                points,
                cells@,
                T::bits(),
                during,
                rep as nat,
            ),
        decreases args.reps - rep,
    {
        let ghost s: G::State = runs::rep_start::<G>(args, points, T::bits(), rep as nat);
        let ghost p: Seq<nat> = runs::rep_points::<G>(args, points, T::bits(), s);
        let ghost log1: Seq<Event> = progress.log();
        proof {
            lemma_rep_countable::<G>(args, points, n, rep as int);
        }
        let result: Result<(usize, usize), Bin> = if args.checkpoints {
            proof {
                sampling::lemma_points_bound::<G>(runs::shape(args, T::bits()), s, scan as nat);
                runs::lemma_plain_count(args, cells@, p);
            }
            parallel_checkpoints::<T, G, P>(
                args,
                &params,
                points,
                scan,
                rep,
                &mut partition,
                buf,
                caps,
                acc,
                progress,
            )
        } else {
            let snapshots: Vec<G> = snapshots_of_rep::<G, P>(
                args,
                points,
                scan,
                rep,
                &mut partition,
                progress,
                Ghost(T::bits()),
            );
            parallel_passes::<T, G, P>(
                args,
                &params,
                points,
                snapshots.as_slice(),
                lens.as_slice(),
                buf,
                caps,
                progress,
                Ghost(s),
            )
        };
        match result {
            Err(bin) => {
                proof {
                    assert(progress.log() =~= log1 + collision_stopped::<G>(
                        args,
                        points,
                        T::bits(),
                        s,
                        n,
                        caps@,
                        acc@.len(),
                    ));
                }
                return Err(bin);
            },
            Ok((c, used)) => {
                proof {
                    assert(progress.log() =~= log1 + during(s));
                    lemma_total_bound(rep);
                }
                tot += c as u128;
                kept.push(used);
                progress.report(Event::Repetition { points: used, collisions: c, total: tot });
                proof {
                    assert(progress.log() =~= log0 + parallel_events::<G>(
                        args,
                        points,
                        cells@,
                        T::bits(),
                        during,
                        (rep + 1) as nat,
                    ));
                }
            },
        }
        rep += 1;
    }
    Ok(Totals { collisions: tot, kept })
}

/// A scan of some points has some samples.
pub proof fn lemma_scan_positive(args: &Args, points: usize)
    requires
        points > 0,
    ensures
        runs::rep_scan(args, points) > 0,
{
    let e: nat = (args.t * runs::decimation(args)) as nat;
    lemma_pow2_pos(e);
    assert(points as nat * pow2(e) > 0) by (nonlinear_arith)
        requires
            points > 0,
            pow2(e) > 0,
    ;
}

/// The counts of all repetitions fit in 128 bits.
pub proof fn lemma_total_bound(rep: usize)
    requires
        rep < usize::MAX,
    ensures
        (rep + 1) * usize::MAX == rep * usize::MAX + usize::MAX,
        (rep + 1) * usize::MAX <= 0xffff_ffff_ffff_ffff * 0xffff_ffff_ffff_ffff,
{
    assert((rep + 1) * usize::MAX == rep * usize::MAX + usize::MAX) by (nonlinear_arith);
    assert((rep + 1) * usize::MAX <= 0xffff_ffff_ffff_ffff * 0xffff_ffff_ffff_ffff) by (nonlinear_arith)
        requires
            0 <= rep + 1 <= 0xffff_ffff_ffff_ffff,
            usize::MAX <= 0xffff_ffff_ffff_ffff,
    ;
}

/// The regions of the threads hold a work unit when each of them holds what its thread keeps of its own
/// range of samples, exactly enough room counting as enough. Room for all samples of the ranges is enough.
pub proof fn lemma_threads_fit<G: Generator>(
    g: Geometry,
    s: G::State,
    total: nat,
    n: int,
    caps: Seq<usize>,
    width: nat,
    b: nat,
    pass: nat,
)
    requires
        n > 0,
    ensures
        threads_fit::<G>(g, s, total, n, caps, width, b, pass) <==> (forall|i: int|
            0 <= i < n ==> fill::unit(
                sampling::points::<G>(
                    g,
                    prng::orbit::<G>(s, (#[trigger] orbit::share_start(total as int, n, i)) as nat * g.t),
                    orbit::share_len(total as int, n, i) as nat,
                ),
                width,
                b,
                pass,
            ).len() <= caps[i]),
        g.d <= g.u && (forall|i: int| 0 <= i < n ==> #[trigger] caps[i] >= orbit::share_len(total as int, n, i))
            ==> threads_fit::<G>(g, s, total, n, caps, width, b, pass),
{
    let each: spec_fn(int) -> nat = |i: int|
        fill::unit(
            sampling::points::<G>(
                g,
                prng::orbit::<G>(s, orbit::share_start(total as int, n, i) as nat * g.t),
                orbit::share_len(total as int, n, i) as nat,
            ),
            width,
            b,
            pass,
        ).len();
    assert forall|i: int| thread_points::<G>(g, s, total, n, i, width, b, pass).len() == #[trigger] each(i) by {}
    if threads_fit::<G>(g, s, total, n, caps, width, b, pass) {
        assert forall|i: int| 0 <= i < n implies fill::unit(
            sampling::points::<G>(
                g,
                prng::orbit::<G>(s, (#[trigger] orbit::share_start(total as int, n, i)) as nat * g.t),
                orbit::share_len(total as int, n, i) as nat,
            ),
            width,
            b,
            pass,
        ).len() <= caps[i] by {
            assert(thread_points::<G>(g, s, total, n, i, width, b, pass).len() <= caps[i]);
        }
    }
    if forall|i: int|
        0 <= i < n ==> fill::unit(
            sampling::points::<G>(
                g,
                prng::orbit::<G>(s, (#[trigger] orbit::share_start(total as int, n, i)) as nat * g.t),
                orbit::share_len(total as int, n, i) as nat,
            ),
            width,
            b,
            pass,
        ).len() <= caps[i] {
        assert forall|i: int| 0 <= i < n implies (#[trigger] thread_points::<G>(
            g,
            s,
            total,
            n,
            i,
            width,
            b,
            pass,
        )).len() <= caps[i] by {
            let start: int = orbit::share_start(total as int, n, i);
        }
    }
    if g.d <= g.u && (forall|i: int| 0 <= i < n ==> #[trigger] caps[i] >= orbit::share_len(total as int, n, i)) {
        assert forall|i: int| 0 <= i < n implies (#[trigger] thread_points::<G>(
            g,
            s,
            total,
            n,
            i,
            width,
            b,
            pass,
        )).len() <= caps[i] by {
            let st: G::State = sampling::advance::<G>(g, s, orbit::share_start(total as int, n, i) as nat);
            let len: nat = orbit::share_len(total as int, n, i) as nat;
            orbit::lemma_shares_even(total as int, n, i, i);
            orbit::lemma_shares(total as int, n, i);
            sampling::lemma_points_bound::<G>(g, st, len);
            tally::lemma_select_len(
                sampling::points::<G>(g, st, len),
                tally::top_key((width - b) as nat),
                pass,
            );
            assert(caps[i] >= orbit::share_len(total as int, n, i));
        }
    }
}

/// A parallel repetition of the collision test fits when the regions hold each pass that is run, or each
/// checkpoint stage and the accumulator all points; else it names what overflowed.
pub proof fn lemma_collision_fits<G: Generator>(
    args: &Args,
    points: usize,
    bits: nat,
    s: G::State,
    cpus: usize,
    caps: Seq<usize>,
    acc: nat,
)
    ensures
        ({
            let g: Geometry = runs::shape(args, bits);
            let scan: nat = runs::rep_scan(args, points);
            let n: nat = stages::checkpoints((args.t * runs::decimation(args)) as nat, scan);
            let bin: Bin = collision_bin::<G>(args, points, bits, s, cpus, caps, acc);
            &&& !args.checkpoints ==> (collision_fits::<G>(args, points, bits, s, cpus, caps, acc) <==> (forall|k: nat|
                runs::lo(args) <= k < runs::hi(args) ==> #[trigger] threads_fit::<G>(
                    g,
                    s,
                    scan,
                    cpus as int,
                    caps,
                    runs::width(args),
                    runs::tradeoff(args),
                    k,
                )))
            &&& args.checkpoints ==> (collision_fits::<G>(args, points, bits, s, cpus, caps, acc) <==> (forall|k: nat|
                k < n ==> #[trigger] stage_room::<G>(args, points, bits, s, cpus, caps, n)(k)) && sampling::points::<G>(
                g,
                s,
                scan,
            ).len() <= acc)
            &&& !args.checkpoints && runs::tradeoff(args) > 0 ==> bin == Bin::TradeoffBin
            &&& !args.checkpoints && runs::tradeoff(args) == 0 ==> bin == Bin::ParallelChunk
            &&& args.checkpoints && runs::tradeoff(args) == 0 ==> bin == Bin::ParallelChunk || bin
                == Bin::ParallelCheckpointTotal
            &&& args.checkpoints && runs::tradeoff(args) == 0 ==> (bin == Bin::ParallelChunk <==> (exists|k: nat|
                k < n && !#[trigger] stage_room::<G>(args, points, bits, s, cpus, caps, n)(k) && sampling::points::<G>(
                    g,
                    s,
                    scan * k / n,
                ).len() <= acc))
        }),
{
    let g: Geometry = runs::shape(args, bits);
    let scan: nat = runs::rep_scan(args, points);
    let n: nat = stages::checkpoints((args.t * runs::decimation(args)) as nat, scan);
    let room: spec_fn(nat) -> bool = stage_room::<G>(args, points, bits, s, cpus, caps, n);
    if args.checkpoints {
        if stages_fit::<G>(args, points, bits, s, cpus, caps, n) {
            assert forall|k: nat| k < n implies #[trigger] room(k) by {
                assert(stage_fits::<G>(args, points, bits, s, cpus, caps, n, k));
            }
        }
        if forall|k: nat| k < n ==> #[trigger] room(k) {
            assert forall|k: nat| k < n implies #[trigger] stage_fits::<G>(
                args,
                points,
                bits,
                s,
                cpus,
                caps,
                n,
                k,
            ) by {
                assert(room(k));
            }
        }
        if stage_overflows::<G>(args, points, bits, s, cpus, caps, acc) {
            let k: nat = choose|k: nat|
                k < n && !#[trigger] stage_fits::<G>(args, points, bits, s, cpus, caps, n, k)
                    && collision::points_upto::<G>(g, s, scan, n)(k).len() <= acc;
            assert(!room(k));
        }
        if exists|k: nat|
            k < n && !#[trigger] room(k) && sampling::points::<G>(g, s, scan * k / n).len() <= acc {
            let k: nat = choose|k: nat|
                k < n && !#[trigger] room(k) && sampling::points::<G>(g, s, scan * k / n).len() <= acc;
            assert(!stage_fits::<G>(args, points, bits, s, cpus, caps, n, k));
        }
    }
}

/// A checkpoint stage fits in the regions when each of them holds what its thread keeps of its own range
/// of the samples between the two checkpoints.
pub proof fn lemma_stage_fits<G: Generator>(
    args: &Args,
    points: usize,
    bits: nat,
    s: G::State,
    cpus: usize,
    caps: Seq<usize>,
    n: nat,
    k: nat,
)
    requires
        k < n,
        n <= runs::rep_scan(args, points) <= usize::MAX,
    ensures
        ({
            let scan: nat = runs::rep_scan(args, points);
            let g: Geometry = runs::shape(args, bits);
            let len: int = scan * (k + 1) / n - scan * k / n;
            let m: int = if cpus < len {
                cpus as int
            } else {
                len
            };
            stage_room::<G>(args, points, bits, s, cpus, caps, n)(k) == threads_fit::<G>(
                g,
                prng::orbit::<G>(s, (scan * k / n) * g.t),
                len as nat,
                if m == 0 {
                    1
                } else {
                    m
                },
                caps,
                runs::width(args),
                0,
                0,
            )
        }),
{
    stages::lemma_stages(runs::rep_scan(args, points), n, k);
}

/// What a parallel repetition of the collision test reports: the pre-scan, if the generator needs one, and
/// then its passes; or, with checkpoints, the stages.
pub proof fn lemma_collision_reports<G: Generator>(
    args: &Args,
    points: usize,
    bits: nat,
    s: G::State,
    cpus: usize,
    caps: Seq<usize>,
    acc: nat,
)
    ensures
        ({
            let p: Seq<nat> = runs::rep_points::<G>(args, points, bits, s);
            let b: nat = runs::tradeoff(args);
            let key: spec_fn(nat) -> nat = tally::top_key((runs::width(args) - b) as nat);
            let g: Geometry = runs::shape(args, bits);
            let scan: nat = runs::rep_scan(args, points);
            let n: nat = stages::checkpoints((args.t * runs::decimation(args)) as nat, scan);
            let upto: spec_fn(nat) -> Seq<nat> = collision::points_upto::<G>(g, s, scan, n);
            let (lo, hi): (nat, nat) = (runs::lo(args), runs::hi(args));
            let during: Seq<Event> = during_collision::<G>(args, points, bits)(s);
            let stopped: Seq<Event> = collision_stopped::<G>(args, points, bits, s, cpus, caps, acc);
            &&& args.checkpoints ==> during == stages::checkpoint_events(upto, n, n)
            &&& args.checkpoints ==> stopped == stages::checkpoints_stopped(
                upto,
                n,
                stage_room::<G>(args, points, bits, s, cpus, caps, n),
                acc,
            )
            &&& !args.checkpoints && G::jumps() ==> during == collision::pass_events(p, key, pow2(b), lo, hi)
            &&& !args.checkpoints && G::jumps() ==> stopped == collision::passes_stopped(
                p,
                key,
                pow2(b),
                lo,
                hi,
                pass_room::<G>(args, points, bits, s, cpus as int, caps),
            )
            &&& !args.checkpoints && !G::jumps() ==> during == seq![Event::Prescan, Event::PrescanDone]
                + collision::pass_events(p, key, pow2(b), lo, hi)
            &&& !args.checkpoints && !G::jumps() ==> stopped == seq![Event::Prescan, Event::PrescanDone]
                + collision::passes_stopped(
                p,
                key,
                pow2(b),
                lo,
                hi,
                pass_room::<G>(args, points, bits, s, cpus as int, caps),
            )
        }),
        forall|k: nat|
            #[trigger] pass_room::<G>(args, points, bits, s, cpus as int, caps)(k) == threads_fit::<G>(
                runs::shape(args, bits),
                s,
                runs::rep_scan(args, points),
                cpus as int,
                caps,
                runs::width(args),
                runs::tradeoff(args),
                k,
            ),
{
    let p: Seq<nat> = runs::rep_points::<G>(args, points, bits, s);
    let b: nat = runs::tradeoff(args);
    let key: spec_fn(nat) -> nat = tally::top_key((runs::width(args) - b) as nat);
    let (lo, hi): (nat, nat) = (runs::lo(args), runs::hi(args));
    if !args.checkpoints && G::jumps() {
        assert(during_collision::<G>(args, points, bits)(s) =~= collision::pass_events(p, key, pow2(b), lo, hi));
        assert(collision_stopped::<G>(args, points, bits, s, cpus, caps, acc) =~= collision::passes_stopped(
            p,
            key,
            pow2(b),
            lo,
            hi,
            pass_room::<G>(args, points, bits, s, cpus as int, caps),
        ));
    }
}

/// What one more parallel repetition reports: what it does, and then the points that it examined, its
/// collisions, and those of all repetitions so far.
pub proof fn lemma_parallel_reports<G: Generator>(
    args: &Args,
    points: usize,
    cells: nat,
    bits: nat,
    during: spec_fn(G::State) -> Seq<Event>,
    rep: nat,
)
    ensures
        parallel_events::<G>(args, points, cells, bits, during, 0).len() == 0,
        ({
            let s: G::State = runs::rep_start::<G>(args, points, bits, rep);
            let p: Seq<nat> = runs::rep_points::<G>(args, points, bits, s);
            parallel_events::<G>(args, points, cells, bits, during, rep + 1) == (parallel_events::<G>(
                args,
                points,
                cells,
                bits,
                during,
                rep,
            ) + during(s)).push(
                Event::Repetition {
                    points: runs::examined(args, p) as usize,
                    collisions: runs::count(args, cells, p) as usize,
                    total: (runs::total::<G>(args, points, cells, bits, rep) + runs::count(args, cells, p)) as u128,
                },
            )
        }),
{
    let s: G::State = runs::rep_start::<G>(args, points, bits, rep);
    let p: Seq<nat> = runs::rep_points::<G>(args, points, bits, s);
    assert(parallel_events::<G>(args, points, cells, bits, during, rep + 1) =~= (parallel_events::<G>(
        args,
        points,
        cells,
        bits,
        during,
        rep,
    ) + during(s)).push(
        Event::Repetition {
            points: runs::examined(args, p) as usize,
            collisions: runs::count(args, cells, p) as usize,
            total: (runs::total::<G>(args, points, cells, bits, rep) + runs::count(args, cells, p)) as u128,
        },
    ));
}

/// A test can be run on threads when the last position at which one of them starts can be counted: in
/// samples, and in words where the generator jumps. That is the last range of the last repetition, or of
/// its last checkpoint stage.
pub proof fn lemma_last_position<G: Generator>(args: &Args, points: usize, cpus: usize)
    requires
        points > 0,
        collision::scannable(points, args.t, runs::decimation(args)),
    ensures
        ({
            let scan: int = runs::rep_scan(args, points) as int;
            let n: int = stages::checkpoints((args.t * runs::decimation(args)) as nat, scan as nat) as int;
            let before: int = if args.checkpoints {
                scan * (n - 1) / n
            } else {
                0
            };
            let base: int = (args.reps - 1) * scan + before;
            let ranges: int = if cpus < 1 {
                1
            } else if cpus < scan - before {
                cpus as int
            } else {
                scan - before
            };
            let last: int = base + (scan - before) - (scan - before) / ranges;
            countable::<G>(args, points, cpus) <==> args.reps == 0 || base <= usize::MAX && (G::jumps() ==> last
                <= usize::MAX && last * args.t <= u64::MAX)
        }),
{
    let scan: nat = runs::rep_scan(args, points);
    let n: nat = stages::checkpoints((args.t * runs::decimation(args)) as nat, scan);
    lemma_scan_positive(args, points);
    stages::lemma_checkpoints((args.t * runs::decimation(args)) as nat, scan);
    stages::lemma_stages(scan, n, (n - 1) as nat);
    let before: nat = before_last(args, points);
    let len: usize = (scan - before) as usize;
    let base: int = (args.reps - 1) * scan + before;
    assert(len > 0);
    orbit::lemma_last_start(base, len, orbit::fan_out(cpus, len), args.t);
}

} // verus!
