//! The collision test.
use vstd::arithmetic::power2::*;
use vstd::prelude::*;
use vstd::slice::*;

use crate::cell;
use crate::cell::Cell;
use crate::common;
use crate::common::{count_prefix, merge_into, pass_count, scan_samples, sort_and_count, sort_prefix, Bin, GridParams};
use crate::fill::{gen_pass_tradeoff, gen_plain};
use crate::prng;
use crate::prng::Generator;
use crate::progress::{Event, Progress};
use crate::sampling;
use crate::sampling::Geometry;
use crate::stages;
use crate::stages::{num_checkpoints, stage_target};
use crate::tally;

pub use crate::parallel::run_test_parallel;

verus! {

/// The samples of a scan, `points` · 2*ᵗᵈ*.
pub open spec fn scan_len(points: usize, t: usize, d: usize) -> nat {
    points as nat * pow2((t * d) as nat)
}

/// The samples of a scan can be counted.
pub open spec fn scannable(points: usize, t: usize, d: usize) -> bool {
    &&& t * d < usize::BITS
    &&& scan_len(points, t, d) <= usize::MAX
}

/// What the passes `lo..hi` over some points report.
pub open spec fn pass_events(p: Seq<nat>, key: spec_fn(nat) -> nat, passes: nat, lo: nat, hi: nat) -> Seq<Event>
    decreases hi,
{
    if hi <= lo {
        Seq::empty()
    } else {
        pass_events(p, key, passes, lo, (hi - 1) as nat) + seq![
            Event::Pass { pass: hi as u64, passes: passes as u64 },
            Event::Sorting,
            Event::Counting,
            Event::PassDone {
                points: tally::select(p, key, (hi - 1) as nat).len() as usize,
                collisions: tally::collisions(tally::select(p, key, (hi - 1) as nat)) as usize,
                all_points: tally::selected_in(p, key, lo, hi) as usize,
                all_collisions: tally::collisions_in(p, key, lo, hi) as usize,
            },
        ]
    }
}

/// Whether the points of a pass fit in a buffer that holds `cap`.
pub open spec fn pass_room(p: Seq<nat>, key: spec_fn(nat) -> nat, cap: nat) -> spec_fn(nat) -> bool {
    |k: nat| tally::select(p, key, k).len() <= cap
}

/// What the passes `lo..hi` have reported when one of them does not fit.
pub open spec fn passes_stopped(
    p: Seq<nat>,
    key: spec_fn(nat) -> nat,
    passes: nat,
    lo: nat,
    hi: nat,
    fits: spec_fn(nat) -> bool,
) -> Seq<Event> {
    let k: nat = common::first_misfit(fits, lo, hi);
    pass_events(p, key, passes, lo, k) + seq![Event::Pass { pass: (k + 1) as u64, passes: passes as u64 }]
}

/// What the passes `lo..hi` leave in a buffer: each of them writes its sorted points to the front.
pub open spec fn passes_left(before: Seq<nat>, p: Seq<nat>, key: spec_fn(nat) -> nat, lo: nat, hi: nat) -> Seq<nat>
    decreases hi,
{
    if hi <= lo {
        before
    } else {
        common::overlaid(
            passes_left(before, p, key, lo, (hi - 1) as nat),
            tally::sorted(tally::select(p, key, (hi - 1) as nat)),
        )
    }
}

/// Runs a collision test: as many points as `buf` holds.
///
/// Returns the collision count and the number of points examined. The points are left sorted.
///
/// See [`run_collision_tradeoff`] and [`run_collision_decimate`] for alternatives that are slower,
/// but more powerful, using the same amount of memory.
pub fn run_collision<T: Cell, const DIM: usize, const FULL: bool, G: Generator, P: Progress>(
    prng: &mut G,
    params: &GridParams,
    buf: &mut [T],
    progress: &mut P,
) -> (r: (usize, usize))
    requires
        params.drawable(DIM, false, FULL, T::bits()),
    ensures
        r.0 == tally::collisions(
            sampling::points::<G>(params.geometry(false, T::bits()), old(prng).state(), old(buf)@.len()),
        ),
        r.1 == old(buf)@.len(),
        final(buf)@.len() == old(buf)@.len(),
        tally::vals(final(buf)@) == tally::sorted(
            sampling::points::<G>(params.geometry(false, T::bits()), old(prng).state(), old(buf)@.len()),
        ),
        final(prng).state() == sampling::advance::<G>(
            params.geometry(false, T::bits()),
            old(prng).state(),
            old(buf)@.len(),
        ),
        final(progress).log() == old(progress).log() + seq![
            Event::Generating,
            Event::Sorting,
            Event::Counting,
            Event::Done { points: r.1 },
        ],
{
    let ghost log0: Seq<Event> = progress.log();
    let n: usize = buf.len();
    proof {
        sampling::lemma_points_undecimated::<G>(params.geometry(false, T::bits()), prng.state(), n as nat);
    }
    progress.report(Event::Generating);
    let _ = gen_plain::<T, DIM, false, FULL, G>(prng, params, buf, n);
    let c: usize = sort_and_count(buf, n, progress);
    progress.report(Event::Done { points: n });
    proof {
        assert(buf@.take(n as int) =~= buf@);
        assert(progress.log() =~= log0 + seq![
            Event::Generating,
            Event::Sorting,
            Event::Counting,
            Event::Done { points: n },
        ]);
    }
    (c, n)
}

/// Runs a collision test using a space/time tradeoff on the top bits.
///
/// The combined cell index is partitioned into 2*ᵇ* contiguous value intervals by its top *b* bits;
/// pass *k* keeps the points falling in interval *k*. Equal points land in the same interval, so
/// the passes are disjoint and their collision counts sum to the exact total while only
/// ~`points` / 2*ᵇ* points are resident at once. Decimation acts independently on the low *d* bits
/// of each element.
///
/// A single pass can be run alone. Returns the collision count and the number of points actually
/// kept across all passes, or the buffer that overflowed.
pub fn run_collision_tradeoff<T: Cell, const DIM: usize, const DECIMATE: bool, G: Generator, P: Progress>(
    prng: &mut G,
    params: &GridParams,
    buf: &mut [T],
    points: usize,
    b: usize,
    pass: Option<u64>,
    progress: &mut P,
) -> (r: Result<(usize, usize), Bin>)
    requires
        params.drawable(DIM, DECIMATE, false, T::bits()),
        params.fits(DECIMATE, T::bits()),
        scannable(points, params.t, params.d),
        b < 64,
        b <= params.index_bits(DECIMATE),
        params.index_bits(DECIMATE) - b < T::bits(),
        common::pass_ok(b as nat, pass),
    ensures
        ({
            let g: Geometry = params.geometry(DECIMATE, T::bits());
            let n: nat = scan_len(points, params.t, params.d);
            let p: Seq<nat> = sampling::points::<G>(g, old(prng).state(), n);
            let key: spec_fn(nat) -> nat = tally::top_key((params.index_bits(DECIMATE) - b) as nat);
            let lo: nat = common::pass_lo(pass);
            let hi: nat = common::pass_hi(b as nat, pass);
            &&& r is Ok <==> (forall|k: nat|
                lo <= k < hi ==> #[trigger] tally::select(p, key, k).len() <= old(buf)@.len())
            &&& r matches Ok(x) ==> {
                &&& x.0 == tally::collisions_in(p, key, lo, hi)
                &&& x.1 == tally::selected_in(p, key, lo, hi)
                &&& final(prng).state() == sampling::advance::<G>(g, old(prng).state(), n)
                &&& final(progress).log() == old(progress).log() + pass_events(p, key, pow2(b as nat), lo, hi)
                &&& tally::vals(final(buf)@) == passes_left(tally::vals(old(buf)@), p, key, lo, hi)
                &&& tally::vals(final(buf)@.take(tally::select(p, key, (hi - 1) as nat).len() as int))
                    == tally::sorted(tally::select(p, key, (hi - 1) as nat))
            }
            &&& r matches Err(bin) ==> bin == Bin::CollisionPass && final(progress).log() == old(progress).log()
                + passes_stopped(p, key, pow2(b as nat), lo, hi, pass_room(p, key, old(buf)@.len()))
        }),
        final(buf)@.len() == old(buf)@.len(),
{
    let ghost g: Geometry = params.geometry(DECIMATE, T::bits());
    let ghost s0: G::State = prng.state();
    let ghost cap: nat = buf@.len();
    let num_passes: u64 = pass_count(b);
    let scan: usize = match scan_samples(points, params.t, params.d) {
        Some(n) => n,
        None => 0,
    };
    let ghost p: Seq<nat> = sampling::points::<G>(g, s0, scan as nat);
    let ghost key: spec_fn(nat) -> nat = tally::top_key((params.index_bits(DECIMATE) - b) as nat);
    let ghost log0: Seq<Event> = progress.log();
    let lo: u64 = match pass {
        Some(k) => k,
        None => 0,
    };
    let hi: u64 = match pass {
        Some(k) => k + 1,
        None => num_passes,
    };
    let snapshot: G = *prng;
    let mut end_state: G = snapshot;
    let mut total_coll: usize = 0;
    let mut total_len: usize = 0;
    let mut k: u64 = lo;
    proof {
        sampling::lemma_points_bound::<G>(g, s0, scan as nat);
        assert(progress.log() =~= log0 + pass_events(p, key, pow2(b as nat), lo as nat, lo as nat));
    }
    while k < hi
        invariant
            lo <= k <= hi,
            lo < hi <= num_passes,
            num_passes == pow2(b as nat),
            params.drawable(DIM, DECIMATE, false, T::bits()),
            params.fits(DECIMATE, T::bits()),
            b < 64,
            b <= params.index_bits(DECIMATE),
            params.index_bits(DECIMATE) - b < T::bits(),
            g == params.geometry(DECIMATE, T::bits()),
            snapshot.state() == s0,
            scan == scan_len(points, params.t, params.d),
            p == sampling::points::<G>(g, s0, scan as nat),
            p.len() <= scan,
            key == tally::top_key((params.index_bits(DECIMATE) - b) as nat),
            s0 == old(prng).state(),
            cap == old(buf)@.len(),
            buf@.len() == cap,
            log0 == old(progress).log(),
            lo == common::pass_lo(pass),
            hi == common::pass_hi(b as nat, pass),
            k > lo ==> end_state.state() == sampling::advance::<G>(g, s0, scan as nat),
            total_coll == tally::collisions_in(p, key, lo as nat, k as nat),
            total_len == tally::selected_in(p, key, lo as nat, k as nat),
            progress.log() == log0 + pass_events(p, key, num_passes as nat, lo as nat, k as nat),
            forall|j: nat| lo <= j < k ==> #[trigger] tally::select(p, key, j).len() <= cap,
            tally::vals(buf@) == passes_left(tally::vals(old(buf)@), p, key, lo as nat, k as nat),
            k > lo ==> tally::vals(buf@.take(tally::select(p, key, (k - 1) as nat).len() as int)) == tally::sorted(
                tally::select(p, key, (k - 1) as nat),
            ),
        decreases hi - k,
    {
        let ghost q: Seq<nat> = tally::select(p, key, k as nat);
        let ghost before: Seq<T> = buf@;
        progress.report(Event::Pass { pass: k + 1, passes: num_passes });
        match gen_pass_tradeoff::<T, DIM, DECIMATE, false, G>(snapshot, params, buf, scan, k, b) {
            None => {
                proof {
                    let fits: spec_fn(nat) -> bool = pass_room(p, key, cap);
                    assert forall|j: nat| lo <= j < k implies #[trigger] fits(j) by {
                        assert(tally::select(p, key, j).len() <= cap);
                    }
                    common::lemma_first_misfit(fits, lo as nat, hi as nat, k as nat);
                    assert(progress.log() =~= log0 + passes_stopped(
                        p,
                        key,
                        num_passes as nat,
                        lo as nat,
                        hi as nat,
                        fits,
                    ));
                }
                return Err(Bin::CollisionPass);
            },
            Some((len, local)) => {
                let c: usize = sort_and_count(buf, len, progress);
                proof {
                    tally::lemma_in_bound(p, key, lo as nat, (k + 1) as nat);
                    common::lemma_overlaid(before, buf@, len as int);
                }
                total_coll += c;
                total_len += len;
                progress.report(
                    Event::PassDone {
                        points: len,
                        collisions: c,
                        all_points: total_len,
                        all_collisions: total_coll,
                    },
                );
                end_state = local;
                proof {
                    assert(progress.log() =~= log0 + pass_events(
                        p,
                        key,
                        num_passes as nat,
                        lo as nat,
                        (k + 1) as nat,
                    ));
                }
            },
        }
        k += 1;
    }
    *prng = end_state;
    Ok((total_coll, total_len))
}

/// The points up to checkpoint `k` of `n`.
pub open spec fn points_upto<G: Generator>(g: Geometry, s: G::State, scan: nat, n: nat) -> spec_fn(nat) -> Seq<nat> {
    |k: nat| sampling::points::<G>(g, s, stages::stage_end(scan, n, k))
}

/// The points of the stage between the checkpoints `k` and `k + 1` of `n`.
pub open spec fn stage_points<G: Generator>(g: Geometry, s: G::State, scan: nat, n: nat, k: nat) -> Seq<nat> {
    sampling::points::<G>(
        g,
        sampling::advance::<G>(g, s, stages::stage_end(scan, n, k)),
        (stages::stage_end(scan, n, k + 1) - stages::stage_end(scan, n, k)) as nat,
    )
}

/// The stages of a scan give its points, one after the other.
pub proof fn lemma_stage_points<G: Generator>(g: Geometry, s: G::State, scan: nat, n: nat, k: nat)
    requires
        k < n,
    ensures
        points_upto::<G>(g, s, scan, n)(k + 1) == points_upto::<G>(g, s, scan, n)(k) + stage_points::<G>(g, s, scan, n, k),
        sampling::advance::<G>(g, s, stages::stage_end(scan, n, k + 1)) == sampling::advance::<G>(
            g,
            sampling::advance::<G>(g, s, stages::stage_end(scan, n, k)),
            (stages::stage_end(scan, n, k + 1) - stages::stage_end(scan, n, k)) as nat,
        ),
        points_upto::<G>(g, s, scan, n)(k + 1).len() <= sampling::points::<G>(g, s, scan).len(),
{
    stages::lemma_stages(scan, n, k);
    let lo: nat = stages::stage_end(scan, n, k);
    let hi: nat = stages::stage_end(scan, n, k + 1);
    sampling::lemma_points_split::<G>(g, s, lo, (hi - lo) as nat);
    sampling::lemma_advance_compose::<G>(g, s, lo, (hi - lo) as nat);
    sampling::lemma_points_split::<G>(g, s, hi, (scan - hi) as nat);
}

/// Whether the points of a stage fit in a buffer that holds `aux`.
pub open spec fn stage_room<G: Generator>(g: Geometry, s: G::State, scan: nat, n: nat, aux: nat) -> spec_fn(
    nat,
) -> bool {
    |k: nat| stage_points::<G>(g, s, scan, n, k).len() <= aux
}

/// Later checkpoints have no fewer points.
pub proof fn lemma_upto_grows<G: Generator>(g: Geometry, s: G::State, scan: nat, n: nat, k: nat, m: nat)
    requires
        k <= m <= n,
    ensures
        points_upto::<G>(g, s, scan, n)(k).len() <= points_upto::<G>(g, s, scan, n)(m).len(),
    decreases m - k,
{
    if k < m {
        lemma_upto_grows::<G>(g, s, scan, n, k + 1, m);
        lemma_stage_points::<G>(g, s, scan, n, k);
    }
}

/// A stage overflows its buffer, which holds `aux` points, before the points of all stages so far
/// overflow theirs, which holds `buf`.
pub open spec fn stage_overflows<G: Generator>(g: Geometry, s: G::State, scan: nat, n: nat, buf: nat, aux: nat) -> bool {
    exists|k: nat|
        k < n && (#[trigger] stage_points::<G>(g, s, scan, n, k)).len() > aux && points_upto::<G>(g, s, scan, n)(
            k,
        ).len() <= buf
}

/// Runs a collision test by decimating the samples, keeping only those tuples in which every
/// coordinate has its lower *d* bits equal to zero.
///
/// A fixed budget of `points` · 2*ᵗᵈ* samples is scanned. When `checkpoints` is true, the run is
/// split into ⌊√2*ᵗᵈ*⌋ equally spaced stages, and the cumulative count is reported after each. Each
/// new stage is sorted in the auxiliary buffer `aux` and merged into the sorted prefix in `buf`, so
/// the per-checkpoint cost is linear in the accumulated size.
///
/// Returns the collision count and the number of points actually kept, or the buffer that
/// overflowed.
pub fn run_collision_decimate<T: Cell, const DIM: usize, const FULL: bool, G: Generator, P: Progress>(
    prng: &mut G,
    params: &GridParams,
    buf: &mut [T],
    points: usize,
    checkpoints: bool,
    aux: &mut [T],
    progress: &mut P,
) -> (r: Result<(usize, usize), Bin>)
    requires
        params.drawable(DIM, true, FULL, T::bits()),
        scannable(points, params.t, params.d),
        checkpoints ==> points > 0,
    ensures
        ({
            let g: Geometry = params.geometry(true, T::bits());
            let scan: nat = scan_len(points, params.t, params.d);
            let n: nat = stages::checkpoints((params.t * params.d) as nat, scan);
            let s: G::State = old(prng).state();
            let p: Seq<nat> = sampling::points::<G>(g, s, scan);
            let stage_fits: bool = forall|k: nat|
                k < n ==> #[trigger] stage_points::<G>(g, s, scan, n, k).len() <= old(aux)@.len();
            &&& r is Ok <==> p.len() <= old(buf)@.len() && (checkpoints ==> stage_fits)
            &&& r matches Ok(x) ==> {
                &&& x.0 == tally::collisions(p)
                &&& x.1 == p.len()
                &&& tally::vals(final(buf)@.take(p.len() as int)) == tally::sorted(p)
                &&& final(buf)@.skip(p.len() as int) == old(buf)@.skip(p.len() as int)
                &&& final(prng).state() == sampling::advance::<G>(g, s, scan)
                &&& final(progress).log() == old(progress).log() + (if checkpoints {
                    stages::checkpoint_events(points_upto::<G>(g, s, scan, n), n, n)
                } else {
                    seq![
                        Event::Scanning { samples: scan as usize, bits: params.d },
                        Event::Sorting,
                        Event::Counting,
                        Event::Done { points: p.len() as usize },
                    ]
                })
            }
            &&& r matches Err(bin) ==> {
                &&& bin == if !checkpoints {
                    Bin::DecimatedCollision
                } else if stage_overflows::<G>(g, s, scan, n, old(buf)@.len(), old(aux)@.len()) {
                    Bin::CheckpointStage
                } else {
                    Bin::CheckpointTotal
                }
                &&& final(progress).log() == old(progress).log() + (if checkpoints {
                    stages::checkpoints_stopped(
                        points_upto::<G>(g, s, scan, n),
                        n,
                        stage_room::<G>(g, s, scan, n, old(aux)@.len()),
                        old(buf)@.len(),
                    )
                } else {
                    seq![Event::Scanning { samples: scan as usize, bits: params.d }]
                })
            }
        }),
        final(buf)@.len() == old(buf)@.len(),
        final(aux)@.len() == old(aux)@.len(),
{
    let scan: usize = match scan_samples(points, params.t, params.d) {
        Some(n) => n,
        None => 0,
    };
    if checkpoints {
        run_checkpoints::<T, DIM, FULL, G, P>(prng, params, buf, points, scan, aux, progress)
    } else {
        let ghost log0: Seq<Event> = progress.log();
        progress.report(Event::Scanning { samples: scan, bits: params.d });
        match gen_plain::<T, DIM, true, FULL, G>(prng, params, buf, scan) {
            None => {
                proof {
                    assert(progress.log() =~= log0 + seq![Event::Scanning { samples: scan, bits: params.d }]);
                }
                Err(Bin::DecimatedCollision)
            },
            Some(len) => {
                let c: usize = sort_and_count(buf, len, progress);
                progress.report(Event::Done { points: len });
                proof {
                    assert(progress.log() =~= log0 + seq![
                        Event::Scanning { samples: scan, bits: params.d },
                        Event::Sorting,
                        Event::Counting,
                        Event::Done { points: len },
                    ]);
                }
                Ok((c, len))
            },
        }
    }
}

/// [`run_collision_decimate`] with checkpoints.
#[verifier::rlimit(60)]
fn run_checkpoints<T: Cell, const DIM: usize, const FULL: bool, G: Generator, P: Progress>(
    prng: &mut G,
    params: &GridParams,
    buf: &mut [T],
    points: usize,
    scan: usize,
    aux: &mut [T],
    progress: &mut P,
) -> (r: Result<(usize, usize), Bin>)
    requires
        params.drawable(DIM, true, FULL, T::bits()),
        scannable(points, params.t, params.d),
        scan == scan_len(points, params.t, params.d),
        points > 0,
    ensures
        ({
            let g: Geometry = params.geometry(true, T::bits());
            let n: nat = stages::checkpoints((params.t * params.d) as nat, scan as nat);
            let s: G::State = old(prng).state();
            let p: Seq<nat> = sampling::points::<G>(g, s, scan as nat);
            let stage_fits: bool = forall|k: nat|
                k < n ==> #[trigger] stage_points::<G>(g, s, scan as nat, n, k).len() <= old(aux)@.len();
            &&& r is Ok <==> p.len() <= old(buf)@.len() && stage_fits
            &&& r matches Ok(x) ==> {
                &&& x.0 == tally::collisions(p)
                &&& x.1 == p.len()
                &&& tally::vals(final(buf)@.take(p.len() as int)) == tally::sorted(p)
                &&& final(buf)@.skip(p.len() as int) == old(buf)@.skip(p.len() as int)
                &&& final(prng).state() == sampling::advance::<G>(g, s, scan as nat)
                &&& final(progress).log() == old(progress).log() + stages::checkpoint_events(
                    points_upto::<G>(g, s, scan as nat, n),
                    n,
                    n,
                )
            }
            &&& r matches Err(bin) ==> {
                &&& bin == if stage_overflows::<G>(g, s, scan as nat, n, old(buf)@.len(), old(aux)@.len()) {
                    Bin::CheckpointStage
                } else {
                    Bin::CheckpointTotal
                }
                &&& final(progress).log() == old(progress).log() + stages::checkpoints_stopped(
                    points_upto::<G>(g, s, scan as nat, n),
                    n,
                    stage_room::<G>(g, s, scan as nat, n, old(aux)@.len()),
                    old(buf)@.len(),
                )
            }
        }),
        final(buf)@.len() == old(buf)@.len(),
        final(aux)@.len() == old(aux)@.len(),
{
    let ghost g: Geometry = params.geometry(true, T::bits());
    let ghost s0: G::State = prng.state();
    let ghost log0: Seq<Event> = progress.log();
    proof {
        lemma_pow2_pos((params.t * params.d) as nat);
        assert(scan > 0) by (nonlinear_arith)
            requires
                scan == points as nat * pow2((params.t * params.d) as nat),
                points > 0,
                pow2((params.t * params.d) as nat) > 0,
        ;
        lemma_usize_bits();
        assert(params.t * params.d >= 0) by (nonlinear_arith);
    }
    let n: usize = num_checkpoints(params.t * params.d, scan);
    let ghost upto: spec_fn(nat) -> Seq<nat> = points_upto::<G>(g, s0, scan as nat, n as nat);
    let ghost p: Seq<nat> = sampling::points::<G>(g, s0, scan as nat);
    let cap: usize = buf.len();
    let ghost fits: spec_fn(nat) -> bool = stage_room::<G>(g, s0, scan as nat, n as nat, aux@.len());
    let ghost steps: spec_fn(nat) -> bool = stages::checkpoint_fits(upto, fits, cap as nat);
    let mut len: usize = 0;
    let mut scanned: usize = 0;
    let mut c: usize = 0;
    let mut k: usize = 0;
    proof {
        stages::lemma_stages(scan as nat, n as nat, 0);
        assert(upto(0) =~= Seq::<nat>::empty());
        assert(sampling::advance::<G>(g, s0, 0) == s0) by {
            assert(0 * g.t == 0) by (nonlinear_arith);
        }
        tally::lemma_sorted(Seq::<nat>::empty());
        assert(tally::vals(buf@.take(0)) =~= tally::sorted(upto(0)));
        assert(progress.log() =~= log0 + stages::checkpoint_events(upto, n as nat, 0));
    }
    while k < n
        invariant
            k <= n,
            0 < n <= scan,
            n == stages::checkpoints((params.t * params.d) as nat, scan as nat),
            params.drawable(DIM, true, FULL, T::bits()),
            g == params.geometry(true, T::bits()),
            s0 == old(prng).state(),
            log0 == old(progress).log(),
            upto == points_upto::<G>(g, s0, scan as nat, n as nat),
            p == sampling::points::<G>(g, s0, scan as nat),
            cap == buf@.len(),
            buf@.len() == old(buf)@.len(),
            aux@.len() == old(aux)@.len(),
            scanned == stages::stage_end(scan as nat, n as nat, k as nat),
            prng.state() == sampling::advance::<G>(g, s0, scanned as nat),
            len == upto(k as nat).len(),
            len <= cap,
            tally::vals(buf@.take(len as int)) == tally::sorted(upto(k as nat)),
            cell::ascending(buf@.take(len as int)),
            buf@.skip(len as int) == old(buf)@.skip(len as int),
            k > 0 ==> c == tally::collisions(upto(k as nat)),
            progress.log() == log0 + stages::checkpoint_events(upto, n as nat, k as nat),
            forall|j: nat| j < k ==> #[trigger] stage_points::<G>(g, s0, scan as nat, n as nat, j).len() <= aux@.len(),
            fits == stage_room::<G>(g, s0, scan as nat, n as nat, aux@.len()),
            steps == stages::checkpoint_fits(upto, fits, cap as nat),
            forall|j: nat| j < k ==> #[trigger] steps(j),
        decreases n - k,
    {
        let ghost q: Seq<nat> = stage_points::<G>(g, s0, scan as nat, n as nat, k as nat);
        proof {
            stages::lemma_stages(scan as nat, n as nat, k as nat);
            lemma_stage_points::<G>(g, s0, scan as nat, n as nat, k as nat);
        }
        let target_scanned: usize = stage_target(scan, n, k + 1);
        let stage: usize = target_scanned - scanned;
        progress.report(Event::Checkpoint { checkpoint: k + 1, checkpoints: n });
        match gen_plain::<T, DIM, true, FULL, G>(prng, params, aux, stage) {
            None => {
                proof {
                    assert(!fits(k as nat));
                    common::lemma_first_misfit(steps, 0, n as nat, k as nat);
                    assert(progress.log() =~= log0 + stages::checkpoints_stopped(upto, n as nat, fits, cap as nat));
                }
                return Err(Bin::CheckpointStage);
            },
            Some(got) => {
                scanned = target_scanned;
                progress.report(Event::Sorting);
                sort_prefix(aux, got);
                progress.report(Event::Merging);
                if got > cap - len {
                    proof {
                        assert forall|m: nat| k < m < n implies #[trigger] upto(m).len() > cap by {
                            lemma_upto_grows::<G>(g, s0, scan as nat, n as nat, (k + 1) as nat, m);
                        }
                        assert(fits(k as nat));
                        common::lemma_first_misfit(steps, 0, n as nat, k as nat);
                        assert(progress.log() =~= log0 + stages::checkpoints_stopped(
                            upto,
                            n as nat,
                            fits,
                            cap as nat,
                        ));
                    }
                    return Err(Bin::CheckpointTotal);
                }
                let fresh: &[T] = slice_subrange(aux, 0, got);
                let ghost before: Seq<T> = buf@;
                proof {
                    assert(aux@.subrange(0, got as int) =~= aux@.take(got as int));
                    stages::lemma_merge_sorted(upto(k as nat), q);
                }
                merge_into(buf, len, fresh);
                proof {
                    assert(before.skip(len + got) =~= before.skip(len as int).skip(got as int));
                    assert(old(buf)@.skip(len + got) =~= old(buf)@.skip(len as int).skip(got as int));
                }
                len += got;
                progress.report(Event::Counting);
                c = count_prefix(buf, len);
                proof {
                    let all: Seq<nat> = upto((k + 1) as nat);
                    tally::lemma_sorted(all);
                    tally::lemma_collisions_permuted(all, tally::sorted(all));
                }
                progress.report(Event::CheckpointDone { points: len, collisions: c });
                proof {
                    assert(progress.log() =~= log0 + stages::checkpoint_events(upto, n as nat, (k + 1) as nat));
                    assert(fits(k as nat));
                    assert(steps(k as nat));
                }
            },
        }
        k += 1;
    }
    Ok((c, len))
}

/// A machine word has at most 64 bits.
proof fn lemma_usize_bits()
    ensures
        usize::BITS <= 64,
{
}

/// The samples of a scan: without decimation as many as points, and 2*ᵗ* times as many for each bit
/// decimated per dimension.
pub proof fn lemma_scan_len(points: usize, t: usize, d: usize)
    ensures
        scan_len(points, t, 0) == points,
        d < usize::MAX ==> scan_len(points, t, (d + 1) as usize) == pow2(t as nat) * scan_len(points, t, d),
        scannable(points, t, d) <==> t * d < usize::BITS && scan_len(points, t, d) <= usize::MAX,
{
    lemma2_to64();
    let none: usize = 0;
    assert(t * none == 0) by (nonlinear_arith)
        requires
            none == 0,
    ;
    assert(points as nat * pow2(0) == points);
    if d < usize::MAX {
        let e: nat = (t * d) as nat;
        assert(t * d >= 0) by (nonlinear_arith);
        assert(t * (d + 1) == t * d + t) by (nonlinear_arith);
        lemma_pow2_adds(t as nat, e);
        assert(points as nat * (pow2(t as nat) * pow2(e)) == pow2(t as nat) * (points as nat * pow2(e)))
            by (nonlinear_arith);
    }
}

/// What each pass reports: its number and how many there are, and then the points with its key and the
/// collisions among them, and the same of all passes so far. It reports nothing else but that it sorts
/// and counts.
pub proof fn lemma_pass_reports(p: Seq<nat>, key: spec_fn(nat) -> nat, passes: nat, lo: nat, hi: nat, k: nat)
    requires
        lo <= k < hi,
    ensures
        pass_events(p, key, passes, lo, hi).len() == 4 * (hi - lo),
        pass_events(p, key, passes, lo, hi)[4 * (k - lo)] == (Event::Pass {
            pass: (k + 1) as u64,
            passes: passes as u64,
        }),
        pass_events(p, key, passes, lo, hi)[4 * (k - lo) + 1] == Event::Sorting,
        pass_events(p, key, passes, lo, hi)[4 * (k - lo) + 2] == Event::Counting,
        pass_events(p, key, passes, lo, hi)[4 * (k - lo) + 3] == (Event::PassDone {
            points: Set::new(|i: int| 0 <= i < p.len() && key(p[i]) == k).len() as usize,
            collisions: Set::new(
                |i: int| 0 <= i < p.len() && key(p[i]) == k && p.take(i).contains(p[i]),
            ).len() as usize,
            all_points: Set::new(|i: int| 0 <= i < p.len() && lo <= key(p[i]) <= k).len() as usize,
            all_collisions: Set::new(
                |i: int| 0 <= i < p.len() && lo <= key(p[i]) <= k && p.take(i).contains(p[i]),
            ).len() as usize,
        }),
    decreases hi,
{
    let m: nat = (hi - 1) as nat;
    let before: Seq<Event> = pass_events(p, key, passes, lo, m);
    if k < m {
        lemma_pass_reports(p, key, passes, lo, m, k);
    } else {
        if lo < m {
            lemma_pass_reports(p, key, passes, lo, m, lo);
        } else {
            assert(before =~= Seq::<Event>::empty());
        }
        lemma_key_places(p, key, k);
        tally::lemma_in_places(p, key, lo, hi);
        assert(Set::new(|i: int| 0 <= i < p.len() && lo <= key(p[i]) < hi) =~= Set::new(
            |i: int| 0 <= i < p.len() && lo <= key(p[i]) <= k,
        ));
        assert(Set::new(|i: int| 0 <= i < p.len() && lo <= key(p[i]) < hi && p.take(i).contains(p[i])) =~= Set::new(
            |i: int| 0 <= i < p.len() && lo <= key(p[i]) <= k && p.take(i).contains(p[i]),
        ));
    }
}

/// The elements with one key, and their collisions, by the places at which they stand.
pub proof fn lemma_key_places(p: Seq<nat>, key: spec_fn(nat) -> nat, k: nat)
    ensures
        tally::select(p, key, k).len() == Set::new(|i: int| 0 <= i < p.len() && key(p[i]) == k).len(),
        tally::collisions(tally::select(p, key, k)) == Set::new(
            |i: int| 0 <= i < p.len() && key(p[i]) == k && p.take(i).contains(p[i]),
        ).len(),
{
    tally::lemma_in_places(p, key, k, k + 1);
    assert(tally::selected_in(p, key, k, k) == 0);
    assert(tally::collisions_in(p, key, k, k) == 0);
    assert(Set::new(|i: int| 0 <= i < p.len() && k <= key(p[i]) < k + 1) =~= Set::new(
        |i: int| 0 <= i < p.len() && key(p[i]) == k,
    ));
    assert(Set::new(|i: int| 0 <= i < p.len() && k <= key(p[i]) < k + 1 && p.take(i).contains(p[i])) =~= Set::new(
        |i: int| 0 <= i < p.len() && key(p[i]) == k && p.take(i).contains(p[i]),
    ));
}

/// A pass fits when the points with its key are no more than its buffer holds, and just then.
pub proof fn lemma_pass_room(p: Seq<nat>, key: spec_fn(nat) -> nat, cap: nat, k: nat)
    ensures
        pass_room(p, key, cap)(k) <==> Set::new(|i: int| 0 <= i < p.len() && key(p[i]) == k).len() <= cap,
{
    lemma_key_places(p, key, k);
}

/// When pass `k` is the first that does not fit, the reports end where it begins.
pub proof fn lemma_passes_stopped(
    p: Seq<nat>,
    key: spec_fn(nat) -> nat,
    passes: nat,
    lo: nat,
    hi: nat,
    fits: spec_fn(nat) -> bool,
    k: nat,
)
    requires
        lo <= k < hi,
        forall|j: nat| lo <= j < k ==> #[trigger] fits(j),
        !fits(k),
    ensures
        passes_stopped(p, key, passes, lo, hi, fits) == pass_events(p, key, passes, lo, k).push(
            Event::Pass { pass: (k + 1) as u64, passes: passes as u64 },
        ),
{
    common::lemma_first_misfit(fits, lo, hi, k);
    assert(passes_stopped(p, key, passes, lo, hi, fits) =~= pass_events(p, key, passes, lo, k).push(
        Event::Pass { pass: (k + 1) as u64, passes: passes as u64 },
    ));
}

/// The points up to a checkpoint are those of the samples scanned up to it, and a stage adds those of the
/// samples between two checkpoints.
pub proof fn lemma_points_upto<G: Generator>(g: Geometry, s: G::State, scan: nat, n: nat, k: nat)
    requires
        k < n,
    ensures
        points_upto::<G>(g, s, scan, n)(k) == sampling::points::<G>(g, s, scan * k / n),
        points_upto::<G>(g, s, scan, n)(n) == sampling::points::<G>(g, s, scan),
        sampling::points::<G>(g, s, scan * (k + 1) / n) == sampling::points::<G>(g, s, scan * k / n)
            + stage_points::<G>(g, s, scan, n, k),
        stage_room::<G>(g, s, scan, n, stage_points::<G>(g, s, scan, n, k).len())(k),
        stage_points::<G>(g, s, scan, n, k).len() > 0 ==> !stage_room::<G>(
            g,
            s,
            scan,
            n,
            (stage_points::<G>(g, s, scan, n, k).len() - 1) as nat,
        )(k),
{
    stages::lemma_stages(scan, n, k);
    lemma_stage_points::<G>(g, s, scan, n, k);
}

/// After the passes the points of the last one are in front, sorted, and what the passes before it left
/// is behind them.
pub proof fn lemma_passes_left(before: Seq<nat>, p: Seq<nat>, key: spec_fn(nat) -> nat, lo: nat, hi: nat)
    requires
        lo < hi,
        forall|k: nat| lo <= k < hi ==> #[trigger] tally::select(p, key, k).len() <= before.len(),
    ensures
        passes_left(before, p, key, lo, lo) == before,
        passes_left(before, p, key, lo, hi).len() == before.len(),
        passes_left(before, p, key, lo, hi).take(tally::select(p, key, (hi - 1) as nat).len() as int) == tally::sorted(
            tally::select(p, key, (hi - 1) as nat),
        ),
        passes_left(before, p, key, lo, hi).skip(tally::select(p, key, (hi - 1) as nat).len() as int)
            == passes_left(before, p, key, lo, (hi - 1) as nat).skip(
            tally::select(p, key, (hi - 1) as nat).len() as int,
        ),
    decreases hi,
{
    let m: nat = (hi - 1) as nat;
    let q: Seq<nat> = tally::select(p, key, m);
    tally::lemma_sorted(q);
    if lo < m {
        lemma_passes_left(before, p, key, lo, m);
    }
    let left: Seq<nat> = passes_left(before, p, key, lo, m);
    assert(left.len() == before.len());
    let all: Seq<nat> = passes_left(before, p, key, lo, hi);
    assert(all.take(q.len() as int) =~= tally::sorted(q));
    assert(all.skip(q.len() as int) =~= left.skip(q.len() as int));
}

} // verus!
