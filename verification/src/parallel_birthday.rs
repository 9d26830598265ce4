//! The birthday-spacings test on several threads.
use vstd::arithmetic::power2::*;
use vstd::prelude::*;
use vstd::slice::*;

use crate::birthday;
use crate::birthday::class_selector;
use crate::cell::Cell;
use crate::circle;
use crate::classes;
use crate::classes::Sweep;
use crate::cli::Args;
use crate::common;
use crate::common::{count_prefix, pass_count, scan_samples, sort_prefix, Bin, Cells, GridParams};
use crate::orbit;
use crate::orbit::{share_lens, OrbitPartition};
use crate::par;
use crate::parallel;
use crate::parallel::{generate_unit, snapshots_of_rep};
use crate::prng::Generator;
use crate::progress::{Event, Progress};
use crate::runs;
use crate::runs::Totals;
use crate::sampling;
use crate::sampling::Geometry;
use crate::tally;

verus! {

/// A value interval overflows the regions of the threads before the spacings of the class `j`
/// overflow their buffer, which holds `spacings`.
pub open spec fn interval_overflows<G: Generator>(
    args: &Args,
    points: usize,
    bits: nat,
    s: G::State,
    cpus: int,
    caps: Seq<usize>,
    j: nat,
    spacings: nat,
) -> bool {
    exists|k: nat|
        k < pow2(runs::tradeoff(args)) && !#[trigger] parallel::threads_fit::<G>(
            runs::shape(args, bits),
            s,
            runs::rep_scan(args, points),
            cpus,
            caps,
            runs::width(args),
            runs::tradeoff(args),
            k,
        ) && classes::class_upto(
            runs::rep_points::<G>(args, points, bits, s),
            (runs::width(args) - runs::tradeoff(args)) as nat,
            runs::tradeoff(args),
            j,
            k,
        ).len() <= spacings
}

/// One spacing class: the value intervals are generated on threads, in increasing order, and the
/// spacings of the class are collected. Returns their number, and that of the points.
#[verifier::rlimit(40)]
fn sweep_class_parallel<T: Cell, G: Generator, P: Progress>(
    args: &Args,
    params: &GridParams,
    points: usize,
    snapshots: &[G],
    lens: &[usize],
    buf: &mut [T],
    caps: &[usize],
    class_buf: &mut [T],
    j: u64,
    progress: &mut P,
    Ghost(s): Ghost<G::State>,
) -> (r: Result<(usize, usize), Bin>)
    requires
        *params == runs::grid(args, params.cells),
        runs::runnable(args, points, params.cells@, T::bits()),
        args.birthday_spacings,
        0 < snapshots@.len() == caps@.len(),
        lens@.len() == snapshots@.len(),
        par::offset(caps@, caps@.len() as int) <= old(buf)@.len(),
        parallel::at_ranges::<G>(runs::shape(args, T::bits()), s, runs::rep_scan(args, points), snapshots@),
        forall|i: int|
            0 <= i < lens@.len() ==> #[trigger] lens@[i] == orbit::share_len(
                runs::rep_scan(args, points) as int,
                snapshots@.len() as int,
                i,
            ),
        (j as nat) < pow2(runs::tradeoff(args)),
    ensures
        final(buf)@.len() == old(buf)@.len(),
        final(class_buf)@.len() == old(class_buf)@.len(),
        ({
            let p: Seq<nat> = runs::rep_points::<G>(args, points, T::bits(), s);
            let b: nat = runs::tradeoff(args);
            let class: Seq<nat> = classes::class(p, params.cells@, b, j as nat);
            let regions_fit: bool = parallel::passes_fit::<G>(
                args,
                points,
                T::bits(),
                s,
                snapshots@.len() as int,
                caps@,
                0,
                pow2(b),
            );
            &&& r is Ok <==> regions_fit && class.len() <= old(class_buf)@.len()
            &&& r matches Err(bin) ==> {
                &&& bin == if interval_overflows::<G>(
                    args,
                    points,
                    T::bits(),
                    s,
                    snapshots@.len() as int,
                    caps@,
                    j as nat,
                    old(class_buf)@.len(),
                ) {
                    parallel::region_bin(args)
                } else {
                    Bin::BirthdayClass
                }
                &&& final(progress).log() == old(progress).log() + classes::sweep_stopped(
                    p,
                    (runs::width(args) - b) as nat,
                    b,
                    j as nat,
                    true,
                    parallel::pass_room::<G>(args, points, T::bits(), s, snapshots@.len() as int, caps@),
                    old(class_buf)@.len(),
                )
            }
            &&& r matches Ok(x) ==> {
                &&& x.0 == class.len()
                &&& x.1 == p.len()
                &&& tally::vals(final(class_buf)@.take(class.len() as int)) == class
                &&& final(progress).log() == old(progress).log() + classes::interval_events(
                    p,
                    runs::interval_key(args),
                    pow2(b),
                    j as nat + 1,
                    true,
                    pow2(b),
                )
            }
        }),
{
    let ghost total: nat = runs::rep_scan(args, points);
    let ghost g: Geometry = runs::shape(args, T::bits());
    let ghost p: Seq<nat> = runs::rep_points::<G>(args, points, T::bits(), s);
    let ghost shift: nat = (runs::width(args) - runs::tradeoff(args)) as nat;
    let ghost key: spec_fn(nat) -> nat = runs::interval_key(args);
    let ghost cells: nat = params.cells@;
    let ghost log0: Seq<Event> = progress.log();
    let ghost m: int = snapshots@.len() as int;
    let b: usize = args.tradeoff_bits();
    let ghost n: nat = pow2(b as nat);
    let ghost low: spec_fn(nat) -> nat = tally::low_key(b as nat);
    let decimating: bool = params.d > 0;
    let full: bool = args.u == 64 && args.s == 0;
    let threads: usize = snapshots.len();
    proof {
        runs::lemma_grid(args, points, params.cells, T::bits());
        sampling::lemma_points_bound::<G>(g, s, total);
        birthday::lemma_points_on_circle::<G>(params, decimating, T::bits(), s, total);
        birthday::lemma_interval_bound(p, runs::width(args), b as nat);
        tally::lemma_partition(p, key, n);
        circle::lemma_below_none(p, shift);
        circle::lemma_below_all(p, shift, n);
        classes::lemma_class_gaps(tally::sorted(p), cells, low, j as nat);
    }
    let ghost fits: spec_fn(nat) -> bool = parallel::pass_room::<G>(args, points, T::bits(), s, m, caps@);
    let ghost steps: spec_fn(nat) -> bool = classes::interval_fits(
        p,
        shift,
        b as nat,
        j as nat,
        fits,
        class_buf@.len(),
    );
    let num_passes: u64 = pass_count(b);
    let (mask, target): (T, T) = class_selector(b, j);
    let mut sweep: Sweep<T> = Sweep::new();
    let mut all: usize = 0;
    let mut k: u64 = 0;
    proof {
        assert(sweep.at(tally::sorted(circle::below(p, shift, 0)), class_buf@, b as nat, j as nat));
        assert(progress.log() =~= log0 + classes::interval_events(p, key, n, j as nat + 1, true, 0));
    }
    while k < num_passes
        invariant
            k <= num_passes,
            num_passes == n,
            n == pow2(b as nat),
            b == runs::tradeoff(args),
            b < 64,
            b <= runs::width(args),
            j < n,
            decimating == (params.d > 0),
            *params == runs::grid(args, params.cells),
            params.drawable(0, decimating, full, T::bits()),
            params.fits(decimating, T::bits()),
            params.geometry(decimating, T::bits()) == g,
            params.index_bits(decimating) == runs::width(args),
            m == snapshots@.len(),
            threads == m,
            0 < snapshots@.len() == caps@.len(),
            lens@.len() == snapshots@.len(),
            par::offset(caps@, caps@.len() as int) <= buf@.len(),
            buf@.len() == old(buf)@.len(),
            class_buf@.len() == old(class_buf)@.len(),
            total == runs::rep_scan(args, points),
            total <= usize::MAX,
            g == runs::shape(args, T::bits()),
            parallel::at_ranges::<G>(g, s, total, snapshots@),
            forall|i: int|
                0 <= i < lens@.len() ==> #[trigger] lens@[i] == orbit::share_len(
                    total as int,
                    snapshots@.len() as int,
                    i,
                ),
            p == sampling::points::<G>(g, s, total),
            p == runs::rep_points::<G>(args, points, T::bits(), s),
            p.len() <= total,
            forall|i: int| 0 <= i < p.len() ==> #[trigger] p[i] < pow2(runs::width(args)),
            shift == runs::width(args) - b,
            key == runs::interval_key(args),
            key == tally::top_key(shift),
            low == tally::low_key(b as nat),
            cells == params.cells@,
            log0 == old(progress).log(),
            circle::below(p, shift, n) == p,
            tally::selected_in(p, key, 0, n) == p.len(),
            classes::selects(mask, target, b as nat, j as nat),
            tally::select(circle::gaps(tally::sorted(p)), low, j as nat).len() <= classes::class(
                p,
                cells,
                b as nat,
                j as nat,
            ).len(),
            all == tally::selected_in(p, key, 0, k as nat),
            sweep.at(tally::sorted(circle::below(p, shift, k as nat)), class_buf@, b as nat, j as nat),
            progress.log() == log0 + classes::interval_events(p, key, n, j as nat + 1, true, k as nat),
            parallel::passes_fit::<G>(args, points, T::bits(), s, m, caps@, 0, k as nat),
            fits == parallel::pass_room::<G>(args, points, T::bits(), s, m, caps@),
            forall|i: nat| i < k ==> #[trigger] fits(i),
            steps == classes::interval_fits(p, shift, b as nat, j as nat, fits, class_buf@.len()),
        decreases num_passes - k,
    {
        let ghost q: Seq<nat> = tally::select(p, key, k as nat);
        let ghost a: Seq<nat> = tally::sorted(circle::below(p, shift, k as nat));
        proof {
            sweep.lemma_collected(a, class_buf@, b as nat, j as nat);
            classes::lemma_intervals_fit(p, shift, b as nat, j as nat, fits, class_buf@.len(), k as nat);
            tally::lemma_in_monotone(p, key, 0, (k + 1) as nat, n);
            circle::lemma_below_step(p, shift, k as nat);
            tally::lemma_sorted(q);
            parallel::lemma_unit_select(p, runs::width(args), b as nat, k as nat);
        }
        progress.report(Event::Interval { class: j + 1, interval: k + 1, of: num_passes });
        match generate_unit::<T, G>(
            buf,
            caps,
            snapshots,
            params,
            lens,
            k,
            b,
            decimating,
            full,
            Ghost(s),
            Ghost(total),
        ) {
            None => {
                proof {
                    assert(classes::class_upto(p, shift, b as nat, j as nat, k as nat).len() <= class_buf@.len());
                    assert(!fits(k as nat));
                    common::lemma_first_misfit(steps, 0, n, k as nat);
                    assert(progress.log() =~= log0 + classes::sweep_stopped(
                        p,
                        shift,
                        b as nat,
                        j as nat,
                        true,
                        fits,
                        class_buf@.len(),
                    ));
                }
                if b > 0 {
                    return Err(Bin::TradeoffBin);
                } else {
                    return Err(Bin::ParallelChunk);
                }
            },
            Some(len) => {
                proof {
                    assert(tally::vals(buf@.take(len as int)).len() == len);
                    assert(fits(k as nat));
                }
                all += len;
                if len == 0 {
                    progress.report(Event::IntervalEmpty);
                    proof {
                        assert(a + tally::sorted(q) =~= a);
                    }
                } else {
                    progress.report(Event::Sorting);
                    sort_prefix(buf, len);
                    progress.report(Event::Filtering);
                    let interval: &[T] = slice_subrange(buf, 0, len);
                    proof {
                        assert(buf@.subrange(0, len as int) =~= buf@.take(len as int));
                        birthday::lemma_interval_follows(p, shift, k as nat);
                    }
                    if !sweep.absorb(interval, mask, target, class_buf, Some(threads), Ghost(a), Ghost(b as nat)) {
                        proof {
                            classes::lemma_class_grows(p, shift, (k + 1) as nat, n, low, j as nat);
                            assert forall|i: nat| k < i < n implies #[trigger] classes::class_upto(
                                p,
                                shift,
                                b as nat,
                                j as nat,
                                i,
                            ).len() > class_buf@.len() by {
                                classes::lemma_class_grows(p, shift, (k + 1) as nat, i, low, j as nat);
                            }
                            common::lemma_first_misfit(steps, 0, n, k as nat);
                            assert(progress.log() =~= log0 + classes::sweep_stopped(
                                p,
                                shift,
                                b as nat,
                                j as nat,
                                true,
                                fits,
                                class_buf@.len(),
                            ));
                        }
                        return Err(Bin::BirthdayClass);
                    }
                    progress.report(Event::IntervalDone { points: len });
                }
                proof {
                    assert(progress.log() =~= log0 + classes::interval_events(
                        p,
                        key,
                        n,
                        j as nat + 1,
                        true,
                        (k + 1) as nat,
                    ));
                }
            },
        }
        k += 1;
    }
    proof {
        sweep.lemma_collected(tally::sorted(p), class_buf@, b as nat, j as nat);
        classes::lemma_intervals_fit(p, shift, b as nat, j as nat, fits, class_buf@.len(), n);
        common::lemma_first_misfit(steps, 0, n, n);
        tally::lemma_sorted(p);
        birthday::lemma_points_on_circle::<G>(params, decimating, T::bits(), s, total);
    }
    match sweep.close(params.cells, mask, target, class_buf, Ghost(tally::sorted(p)), Ghost(b as nat)) {
        None => Err(Bin::BirthdayClass),
        Some(class_len) => Ok((class_len, all)),
    }
}

/// The buffers of a parallel repetition of the birthday-spacings test hold what it puts into them.
pub open spec fn birthday_fits<G: Generator>(
    args: &Args,
    points: usize,
    cells: nat,
    bits: nat,
    s: G::State,
    cpus: int,
    caps: Seq<usize>,
    class_cap: nat,
) -> bool {
    let p: Seq<nat> = runs::rep_points::<G>(args, points, bits, s);
    let b: nat = runs::tradeoff(args);
    &&& parallel::passes_fit::<G>(args, points, bits, s, cpus, caps, 0, pow2(b))
    &&& forall|j: nat|
        runs::lo(args) <= j < runs::hi(args) ==> #[trigger] classes::class(p, cells, b, j).len() <= class_cap
}

/// The buffer that overflows in a parallel repetition of the birthday-spacings test.
pub open spec fn birthday_bin<G: Generator>(
    args: &Args,
    points: usize,
    bits: nat,
    s: G::State,
    cpus: int,
    caps: Seq<usize>,
    class_cap: nat,
) -> Bin {
    if interval_overflows::<G>(args, points, bits, s, cpus, caps, runs::lo(args), class_cap) {
        parallel::region_bin(args)
    } else {
        Bin::BirthdayClass
    }
}

/// What a parallel repetition of the birthday-spacings test reports.
pub open spec fn birthday_events<G: Generator>(
    args: &Args,
    points: usize,
    cells: nat,
    bits: nat,
    s: G::State,
) -> Seq<Event> {
    let p: Seq<nat> = runs::rep_points::<G>(args, points, bits, s);
    let b: nat = runs::tradeoff(args);
    orbit::prescan_events::<G>(true) + seq![Event::Classes { classes: pow2(b) as u64 }] + classes::class_events(
        p,
        cells,
        runs::interval_key(args),
        b,
        true,
        runs::lo(args),
        runs::hi(args),
    )
}

/// What a parallel repetition of the birthday-spacings test has reported when a buffer overflows.
pub open spec fn birthday_stopped<G: Generator>(
    args: &Args,
    points: usize,
    cells: nat,
    bits: nat,
    s: G::State,
    cpus: int,
    caps: Seq<usize>,
    class_cap: nat,
) -> Seq<Event> {
    let b: nat = runs::tradeoff(args);
    orbit::prescan_events::<G>(true) + seq![Event::Classes { classes: pow2(b) as u64 }] + classes::classes_stopped(
        runs::rep_points::<G>(args, points, bits, s),
        cells,
        (runs::width(args) - b) as nat,
        b,
        true,
        runs::lo(args),
        runs::hi(args),
        parallel::pass_room::<G>(args, points, bits, s, cpus, caps),
        class_cap,
    )
}

/// What a parallel repetition of the birthday-spacings test reports, by the state in which it starts.
pub open spec fn during_birthday<G: Generator>(
    args: &Args,
    points: usize,
    cells: nat,
    bits: nat,
) -> spec_fn(G::State) -> Seq<Event> {
    |s: G::State| birthday_events::<G>(args, points, cells, bits, s)
}

/// The first `n` passes fit, by either way to say so.
proof fn lemma_pass_room<G: Generator>(
    args: &Args,
    points: usize,
    bits: nat,
    s: G::State,
    cpus: int,
    caps: Seq<usize>,
    n: nat,
)
    ensures
        parallel::passes_fit::<G>(args, points, bits, s, cpus, caps, 0, n) <==> (forall|k: nat|
            k < n ==> #[trigger] parallel::pass_room::<G>(args, points, bits, s, cpus, caps)(k)),
{
    let fits: spec_fn(nat) -> bool = parallel::pass_room::<G>(args, points, bits, s, cpus, caps);
    if forall|k: nat| k < n ==> #[trigger] fits(k) {
        assert forall|k: nat| 0 <= k < n implies #[trigger] parallel::threads_fit::<G>(
            runs::shape(args, bits),
            s,
            runs::rep_scan(args, points),
            cpus,
            caps,
            runs::width(args),
            runs::tradeoff(args),
            k,
        ) by {
            assert(fits(k));
        }
    }
}

/// The spacing classes of a repetition. Returns the collisions and the points.
#[verifier::rlimit(40)]
fn parallel_classes<T: Cell, G: Generator, P: Progress>(
    args: &Args,
    params: &GridParams,
    points: usize,
    snapshots: &[G],
    lens: &[usize],
    buf: &mut [T],
    caps: &[usize],
    class_buf: &mut [T],
    progress: &mut P,
    Ghost(s): Ghost<G::State>,
) -> (r: Result<(usize, usize), Bin>)
    requires
        *params == runs::grid(args, params.cells),
        runs::runnable(args, points, params.cells@, T::bits()),
        args.birthday_spacings,
        0 < snapshots@.len() == caps@.len(),
        lens@.len() == snapshots@.len(),
        par::offset(caps@, caps@.len() as int) <= old(buf)@.len(),
        parallel::at_ranges::<G>(runs::shape(args, T::bits()), s, runs::rep_scan(args, points), snapshots@),
        forall|i: int|
            0 <= i < lens@.len() ==> #[trigger] lens@[i] == orbit::share_len(
                runs::rep_scan(args, points) as int,
                snapshots@.len() as int,
                i,
            ),
    ensures
        final(buf)@.len() == old(buf)@.len(),
        final(class_buf)@.len() == old(class_buf)@.len(),
        ({
            let p: Seq<nat> = runs::rep_points::<G>(args, points, T::bits(), s);
            let b: nat = runs::tradeoff(args);
            &&& r is Ok <==> birthday_fits::<G>(
                args,
                points,
                params.cells@,
                T::bits(),
                s,
                snapshots@.len() as int,
                caps@,
                old(class_buf)@.len(),
            )
            &&& r matches Err(bin) ==> {
                &&& bin == birthday_bin::<G>(
                    args,
                    points,
                    T::bits(),
                    s,
                    snapshots@.len() as int,
                    caps@,
                    old(class_buf)@.len(),
                )
                &&& final(progress).log() == old(progress).log() + seq![Event::Classes { classes: pow2(b) as u64 }]
                    + classes::classes_stopped(
                    p,
                    params.cells@,
                    (runs::width(args) - b) as nat,
                    b,
                    true,
                    runs::lo(args),
                    runs::hi(args),
                    parallel::pass_room::<G>(args, points, T::bits(), s, snapshots@.len() as int, caps@),
                    old(class_buf)@.len(),
                )
            }
            &&& r matches Ok(x) ==> {
                &&& x.0 == runs::count(args, params.cells@, p)
                &&& x.1 == p.len()
                &&& final(progress).log() == old(progress).log() + seq![Event::Classes { classes: pow2(b) as u64 }]
                    + classes::class_events(
                    p,
                    params.cells@,
                    runs::interval_key(args),
                    b,
                    true,
                    runs::lo(args),
                    runs::hi(args),
                )
            }
        }),
{
    let ghost total: nat = runs::rep_scan(args, points);
    let ghost g: Geometry = runs::shape(args, T::bits());
    let ghost p: Seq<nat> = runs::rep_points::<G>(args, points, T::bits(), s);
    let ghost key: spec_fn(nat) -> nat = runs::interval_key(args);
    let ghost cells: nat = params.cells@;
    let ghost m: int = snapshots@.len() as int;
    let b: usize = args.tradeoff_bits();
    let ghost low: spec_fn(nat) -> nat = tally::low_key(b as nat);
    let ghost spaced: Seq<nat> = circle::spacings(tally::sorted(p), cells);
    proof {
        runs::lemma_grid(args, points, params.cells, T::bits());
        sampling::lemma_points_bound::<G>(g, s, total);
        birthday::lemma_points_on_circle::<G>(params, params.d > 0, T::bits(), s, total);
        tally::lemma_sorted(p);
    }
    let num_passes: u64 = pass_count(b);
    let lo: u64 = match args.pass {
        Some(k) => k,
        None => 0,
    };
    let hi: u64 = match args.pass {
        Some(k) => k + 1,
        None => num_passes,
    };
    progress.report(Event::Classes { classes: num_passes });
    let ghost log1: Seq<Event> = progress.log();
    let ghost fits: spec_fn(nat) -> bool = parallel::pass_room::<G>(args, points, T::bits(), s, m, caps@);
    let mut coll: usize = 0;
    let mut all: usize = 0;
    let mut j: u64 = lo;
    proof {
        assert(progress.log() =~= log1 + classes::class_events(p, cells, key, b as nat, true, lo as nat, lo as nat));
        assert(log1 =~= old(progress).log() + seq![Event::Classes { classes: pow2(b as nat) as u64 }]);
    }
    while j < hi
        invariant
            lo <= j <= hi,
            lo < hi <= num_passes,
            lo == runs::lo(args),
            hi == runs::hi(args),
            num_passes == pow2(b as nat),
            b == runs::tradeoff(args),
            *params == runs::grid(args, params.cells),
            runs::runnable(args, points, params.cells@, T::bits()),
            args.birthday_spacings,
            m == snapshots@.len(),
            0 < snapshots@.len() == caps@.len(),
            lens@.len() == snapshots@.len(),
            par::offset(caps@, caps@.len() as int) <= buf@.len(),
            buf@.len() == old(buf)@.len(),
            class_buf@.len() == old(class_buf)@.len(),
            total == runs::rep_scan(args, points),
            total <= usize::MAX,
            parallel::at_ranges::<G>(runs::shape(args, T::bits()), s, total, snapshots@),
            forall|i: int|
                0 <= i < lens@.len() ==> #[trigger] lens@[i] == orbit::share_len(
                    total as int,
                    snapshots@.len() as int,
                    i,
                ),
            p == runs::rep_points::<G>(args, points, T::bits(), s),
            p.len() <= total,
            cells == params.cells@,
            key == runs::interval_key(args),
            low == tally::low_key(b as nat),
            spaced == circle::spacings(tally::sorted(p), cells),
            tally::sorted(p).len() == p.len(),
            tally::ascending(tally::sorted(p)),
            birthday::on_circle(tally::sorted(p), cells, T::bits()),
            j > lo ==> all == p.len(),
            j > lo ==> parallel::passes_fit::<G>(
                args,
                points,
                T::bits(),
                s,
                m,
                caps@,
                0,
                num_passes as nat,
            ),
            forall|i: nat|
                lo <= i < j ==> #[trigger] classes::class(p, cells, b as nat, i).len() <= class_buf@.len(),
            coll == tally::collisions_in(spaced, low, lo as nat, j as nat),
            fits == parallel::pass_room::<G>(args, points, T::bits(), s, m, caps@),
            j > lo ==> (forall|k: nat| k < num_passes ==> #[trigger] fits(k)),
            log1 == old(progress).log() + seq![Event::Classes { classes: pow2(b as nat) as u64 }],
            progress.log() == log1 + classes::class_events(p, cells, key, b as nat, true, lo as nat, j as nat),
        decreases hi - j,
    {
        let ghost class: Seq<nat> = classes::class(p, cells, b as nat, j as nat);
        match sweep_class_parallel::<T, G, P>(
            args,
            params,
            points,
            snapshots,
            lens,
            buf,
            caps,
            class_buf,
            j,
            progress,
            Ghost(s),
        ) {
            Err(bin) => {
                proof {
                    let spacings: nat = class_buf@.len();
                    let each: spec_fn(nat) -> bool = classes::class_fits(p, cells, b as nat, fits, spacings);
                    assert forall|i: nat| lo <= i < j implies #[trigger] each(i) by {
                        assert(classes::class(p, cells, b as nat, i).len() <= spacings);
                    }
                    lemma_pass_room::<G>(args, points, T::bits(), s, m, caps@, num_passes as nat);
                    assert(!each(j as nat));
                    common::lemma_first_misfit(each, lo as nat, hi as nat, j as nat);
                    assert(progress.log() =~= log1 + classes::classes_stopped(
                        p,
                        cells,
                        (runs::width(args) - b) as nat,
                        b as nat,
                        true,
                        lo as nat,
                        hi as nat,
                        fits,
                        spacings,
                    ));
                }
                return Err(bin);
            },
            Ok((class_len, kept)) => {
                proof {
                    lemma_pass_room::<G>(args, points, T::bits(), s, m, caps@, num_passes as nat);
                }
                all = kept;
                sort_prefix(class_buf, class_len);
                let c: usize = count_prefix(class_buf, class_len);
                proof {
                    tally::lemma_sorted(class);
                    tally::lemma_collisions_permuted(class, tally::sorted(class));
                    circle::lemma_proper(tally::sorted(p), cells, low, j as nat);
                    tally::lemma_in_bound(spaced, low, lo as nat, (j + 1) as nat);
                }
                coll += c;
                progress.report(
                    Event::ClassDone {
                        class: j + 1,
                        of: num_passes,
                        spacings: class_len,
                        collisions: c,
                        all_collisions: coll,
                    },
                );
                proof {
                    assert(progress.log() =~= log1 + classes::class_events(
                        p,
                        cells,
                        key,
                        b as nat,
                        true,
                        lo as nat,
                        (j + 1) as nat,
                    ));
                }
            },
        }
        j += 1;
    }
    Ok((coll, all))
}

/// Runs a birthday-spacings test using the same two nested levels as the sequential tradeoff (each
/// with 2*ᵇ* passes), split across threads via the orbit partition of the parallel collision test.
/// Without a tradeoff this is a plain parallel birthday-spacings test (one interval, one class).
///
/// The points of an interval are generated into `buf`, each thread filling a disjoint region of the
/// size that `caps` gives; `class_buf` holds the spacings of a class. The result is identical to
/// that of the sequential test for every number of threads and repetitions.
///
/// Returns the total collision count and the points that each repetition kept, or the buffer that
/// overflowed.
pub fn run_birthday_parallel<T: Cell, G: Generator, P: Progress>(
    args: &Args,
    points: usize,
    cells: Cells,
    num_cpus: usize,
    buf: &mut [T],
    caps: &[usize],
    class_buf: &mut [T],
    progress: &mut P,
) -> (r: Result<Totals, Bin>)
    requires
        runs::runnable(args, points, cells@, T::bits()),
        args.birthday_spacings,
        parallel::countable::<G>(args, points, caps@.len() as usize),
        caps@.len() == orbit::fan_out(num_cpus, runs::rep_scan(args, points) as usize),
        par::offset(caps@, caps@.len() as int) <= old(buf)@.len(),
    ensures
        final(buf)@.len() == old(buf)@.len(),
        final(class_buf)@.len() == old(class_buf)@.len(),
        r is Ok <==> (forall|rep: nat|
            rep < args.reps ==> birthday_fits::<G>(
                args,
                points,
                cells@,
                T::bits(),
                #[trigger] runs::rep_start::<G>(args, points, T::bits(), rep),
                caps@.len() as int,
                caps@,
                old(class_buf)@.len(),
            )),
        r matches Err(bin) ==> exists|rep: nat|
            {
                let s: G::State = #[trigger] runs::rep_start::<G>(args, points, T::bits(), rep);
                let n: int = caps@.len() as int;
                &&& rep < args.reps
                &&& !birthday_fits::<G>(args, points, cells@, T::bits(), s, n, caps@, old(class_buf)@.len())
                &&& bin == birthday_bin::<G>(args, points, T::bits(), s, n, caps@, old(class_buf)@.len())
                &&& final(progress).log() == old(progress).log() + parallel::parallel_events::<G>(
                    args,
                    points,
                    cells@,
                    T::bits(),
                    during_birthday::<G>(args, points, cells@, T::bits()),
                    rep,
                ) + birthday_stopped::<G>(args, points, cells@, T::bits(), s, n, caps@, old(class_buf)@.len())
                &&& forall|i: nat|
                    i < rep ==> birthday_fits::<G>(
                        args,
                        points,
                        cells@,
                        T::bits(),
                        #[trigger] runs::rep_start::<G>(args, points, T::bits(), i),
                        n,
                        caps@,
                        old(class_buf)@.len(),
                    )
            },
        r matches Ok(x) ==> runs::found::<G>(
            args,
            points,
            cells@,
            T::bits(),
            args.reps as nat,
            x.collisions,
            x.kept@,
        ) && final(progress).log() == old(progress).log() + parallel::parallel_events::<G>(
            args,
            points,
            cells@,
            T::bits(),
            during_birthday::<G>(args, points, cells@, T::bits()),
            args.reps as nat,
        ),
{
    let ghost log0: Seq<Event> = progress.log();
    let ghost during: spec_fn(G::State) -> Seq<Event> = during_birthday::<G>(args, points, cells@, T::bits());
    let params: GridParams = GridParams { u: args.u, t: args.t, s: args.s, d: args.decimation_bits(), cells };
    let scan: usize = match scan_samples(points, params.t, params.d) {
        Some(n) => n,
        None => 0,
    };
    proof {
        parallel::lemma_scan_positive(args, points);
    }
    let mut partition: OrbitPartition<G> = OrbitPartition::new(args.seed, num_cpus, scan, args.t);
    let n: usize = partition.num_cpus();
    let lens: Vec<usize> = share_lens(scan, n);
    let mut tot: u128 = 0;
    let mut kept: Vec<usize> = Vec::new();
    let mut rep: usize = 0;
    proof {
        assert(0 * scan == 0) by (nonlinear_arith);
        assert(progress.log() =~= log0 + parallel::parallel_events::<G>(
            args,
            points,
            cells@,
            T::bits(),
            during,
            0,
        ));
    }
    while rep < args.reps
        invariant
            rep <= args.reps,
            params == runs::grid(args, cells),
            runs::runnable(args, points, cells@, T::bits()),
            args.birthday_spacings,
            parallel::countable::<G>(args, points, n),
            scan == runs::rep_scan(args, points),
            scan > 0,
            n == caps@.len(),
            n > 0,
            par::offset(caps@, caps@.len() as int) <= buf@.len(),
            lens@.len() == n,
            forall|i: int| 0 <= i < n ==> #[trigger] lens@[i] == orbit::share_len(scan as int, n as int, i),
            partition.inv(),
            partition.cpus() == n,
            partition.total() == scan,
            partition.dimension() == args.t,
            partition.seed() == args.seed,
            !G::jumps() ==> partition.position() == rep * scan,
            log0 == old(progress).log(),
            during == during_birthday::<G>(args, points, cells@, T::bits()),
            buf@.len() == old(buf)@.len(),
            class_buf@.len() == old(class_buf)@.len(),
            tot == runs::total::<G>(args, points, cells@, T::bits(), rep as nat),
            tot <= rep * usize::MAX,
            kept@.len() == rep,
            forall|i: int|
                0 <= i < rep ==> #[trigger] kept@[i] == runs::examined(
                    args,
                    runs::rep_points::<G>(
                        args,
                        points,
                        T::bits(),
                        runs::rep_start::<G>(args, points, T::bits(), i as nat),
                    ),
                ),
            forall|i: nat|
                i < rep ==> birthday_fits::<G>(
                    args,
                    points,
                    cells@,
                    T::bits(),
                    #[trigger] runs::rep_start::<G>(args, points, T::bits(), i),
                    n as int,
                    caps@,
                    class_buf@.len(),
                ),
            progress.log() == log0 + parallel::parallel_events::<G>(
                args,
                points,
                cells@,
                T::bits(),
                during,
                rep as nat,
            ),
        decreases args.reps - rep,
    {
        let ghost s: G::State = runs::rep_start::<G>(args, points, T::bits(), rep as nat);
        let ghost log1: Seq<Event> = progress.log();
        let snapshots: Vec<G> = snapshots_of_rep::<G, P>(
            args,
            points,
            scan,
            rep,
            &mut partition,
            progress,
            Ghost(T::bits()),
        );
        match parallel_classes::<T, G, P>(
            args,
            &params,
            points,
            snapshots.as_slice(),
            lens.as_slice(),
            buf,
            caps,
            class_buf,
            progress,
            Ghost(s),
        ) {
            Err(bin) => {
                proof {
                    assert(progress.log() =~= log1 + birthday_stopped::<G>(
                        args,
                        points,
                        cells@,
                        T::bits(),
                        s,
                        n as int,
                        caps@,
                        class_buf@.len(),
                    ));
                }
                return Err(bin);
            },
            Ok((c, used)) => {
                proof {
                    assert(progress.log() =~= log1 + during(s));
                    parallel::lemma_total_bound(rep);
                }
                tot += c as u128;
                kept.push(used);
                progress.report(Event::Repetition { points: used, collisions: c, total: tot });
                proof {
                    assert(progress.log() =~= log0 + parallel::parallel_events::<G>(
                        args,
                        points,
                        cells@,
                        T::bits(),
                        during,
                        (rep + 1) as nat,
                    ));
                }
            },
        }
        rep += 1;
    }
    Ok(Totals { collisions: tot, kept })
}

/// A parallel repetition of the birthday-spacings test fits when the regions hold every value interval, and
/// the other buffer the spacings of each class that is run; else it names what overflowed.
pub proof fn lemma_birthday_fits<G: Generator>(
    args: &Args,
    points: usize,
    cells: nat,
    bits: nat,
    s: G::State,
    cpus: int,
    caps: Seq<usize>,
    class_cap: nat,
)
    ensures
        ({
            let p: Seq<nat> = runs::rep_points::<G>(args, points, bits, s);
            let b: nat = runs::tradeoff(args);
            let shift: nat = (runs::width(args) - b) as nat;
            let bin: Bin = birthday_bin::<G>(args, points, bits, s, cpus, caps, class_cap);
            let region: Bin = if b > 0 {
                Bin::TradeoffBin
            } else {
                Bin::ParallelChunk
            };
            &&& birthday_fits::<G>(args, points, cells, bits, s, cpus, caps, class_cap) <==> (forall|k: nat|
                k < pow2(b) ==> #[trigger] parallel::pass_room::<G>(args, points, bits, s, cpus, caps)(k)) && (
            forall|j: nat|
                runs::lo(args) <= j < runs::hi(args) ==> #[trigger] classes::class(p, cells, b, j).len() <= class_cap)
            &&& bin == region || bin == Bin::BirthdayClass
            &&& bin == region <==> (exists|k: nat|
                k < pow2(b) && !#[trigger] parallel::pass_room::<G>(args, points, bits, s, cpus, caps)(k)
                    && classes::class_upto(p, shift, b, runs::lo(args), k).len() <= class_cap)
        }),
{
    let p: Seq<nat> = runs::rep_points::<G>(args, points, bits, s);
    let b: nat = runs::tradeoff(args);
    let shift: nat = (runs::width(args) - b) as nat;
    let room: spec_fn(nat) -> bool = parallel::pass_room::<G>(args, points, bits, s, cpus, caps);
    let lo: nat = runs::lo(args);
    lemma_pass_room::<G>(args, points, bits, s, cpus, caps, pow2(b));
    let over: bool = interval_overflows::<G>(args, points, bits, s, cpus, caps, lo, class_cap);
    if over {
        let k: nat = choose|k: nat|
            k < pow2(b) && !#[trigger] parallel::threads_fit::<G>(
                runs::shape(args, bits),
                s,
                runs::rep_scan(args, points),
                cpus,
                caps,
                runs::width(args),
                b,
                k,
            ) && classes::class_upto(p, shift, b, lo, k).len() <= class_cap;
        assert(!room(k));
    }
    if exists|k: nat| k < pow2(b) && !#[trigger] room(k) && classes::class_upto(p, shift, b, lo, k).len() <= class_cap {
        let k: nat = choose|k: nat|
            k < pow2(b) && !#[trigger] room(k) && classes::class_upto(p, shift, b, lo, k).len() <= class_cap;
        assert(!parallel::threads_fit::<G>(
            runs::shape(args, bits),
            s,
            runs::rep_scan(args, points),
            cpus,
            caps,
            runs::width(args),
            b,
            k,
        ));
        assert(over);
    }
}

/// What a parallel repetition of the birthday-spacings test reports: the pre-scan, if the generator needs
/// one, how many classes there are, and then the classes that are run.
pub proof fn lemma_birthday_reports<G: Generator>(
    args: &Args,
    points: usize,
    cells: nat,
    bits: nat,
    s: G::State,
    cpus: int,
    caps: Seq<usize>,
    class_cap: nat,
)
    ensures
        ({
            let p: Seq<nat> = runs::rep_points::<G>(args, points, bits, s);
            let b: nat = runs::tradeoff(args);
            let shift: nat = (runs::width(args) - b) as nat;
            let head: Seq<Event> = if G::jumps() {
                seq![Event::Classes { classes: pow2(b) as u64 }]
            } else {
                seq![Event::Prescan, Event::PrescanDone, Event::Classes { classes: pow2(b) as u64 }]
            };
            &&& during_birthday::<G>(args, points, cells, bits)(s) == head + classes::class_events(
                p,
                cells,
                tally::top_key(shift),
                b,
                true,
                runs::lo(args),
                runs::hi(args),
            )
            &&& birthday_stopped::<G>(args, points, cells, bits, s, cpus, caps, class_cap) == head
                + classes::classes_stopped(
                p,
                cells,
                shift,
                b,
                true,
                runs::lo(args),
                runs::hi(args),
                parallel::pass_room::<G>(args, points, bits, s, cpus, caps),
                class_cap,
            )
        }),
{
    let b: nat = runs::tradeoff(args);
    let one: Seq<Event> = seq![Event::Classes { classes: pow2(b) as u64 }];
    if G::jumps() {
        assert(orbit::prescan_events::<G>(true) + one =~= one);
    } else {
        assert(orbit::prescan_events::<G>(true) + one =~= seq![
            Event::Prescan,
            Event::PrescanDone,
            Event::Classes { classes: pow2(b) as u64 },
        ]);
    }
}

} // verus!
