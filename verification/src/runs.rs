//! Whole tests: repetitions of the runners, on consecutive stretches of the orbit of a generator.
use vstd::arithmetic::div_mod::*;
use vstd::arithmetic::power2::*;
use vstd::prelude::*;

use crate::birthday;
use crate::birthday::{run_birthday, run_birthday_tradeoff};
use crate::bits;
use crate::cell;
use crate::cell::Cell;
use crate::circle;
use crate::classes;
use crate::cli;
use crate::cli::Args;
use crate::collision;
use crate::collision::{run_collision, run_collision_decimate, run_collision_tradeoff};
use crate::common;
use crate::common::{Bin, Cells, GridParams};
use crate::prng;
use crate::prng::Generator;
use crate::progress::{Event, Progress};
use crate::sampling;
use crate::sampling::Geometry;
use crate::stages;
use crate::tally;

verus! {

/// What a test found: the collisions of all repetitions, and the points that each of them kept.
#[derive(PartialEq, Eq, Debug)]
pub struct Totals {
    /// The collisions of all repetitions.
    pub collisions: u128,
    /// The points that each repetition kept.
    pub kept: Vec<usize>,
}

/// The bits decimated per dimension.
pub open spec fn decimation(args: &Args) -> usize {
    cli::or_zero(args.decimation_bits)
}

/// The bits of the tradeoff.
pub open spec fn tradeoff(args: &Args) -> nat {
    cli::or_zero(args.tradeoff_bits) as nat
}

/// The grid of a test.
pub open spec fn grid(args: &Args, cells: Cells) -> GridParams {
    GridParams { u: args.u, t: args.t, s: args.s, d: decimation(args), cells }
}

/// The bits of a cell index.
pub open spec fn width(args: &Args) -> nat {
    ((args.u - decimation(args)) as nat) * (args.t as nat)
}

/// The samples that a test takes.
pub open spec fn shape(args: &Args, bits: nat) -> Geometry {
    cell::geometry(args.t, args.u, args.s, decimation(args), bits)
}

/// The samples that a repetition scans.
pub open spec fn rep_scan(args: &Args, points: usize) -> nat {
    collision::scan_len(points, args.t, decimation(args))
}

/// A test can be run: the arguments are valid, the samples can be counted, and the indices fit in
/// the storage. For the birthday-spacings test there are no fewer cells than indices, and no more
/// than the storage can tell apart. Checkpoints go with decimation, and without a tradeoff.
pub open spec fn runnable(args: &Args, points: usize, cells: nat, bits: nat) -> bool {
    &&& args.valid()
    &&& points > 0
    &&& collision::scannable(points, args.t, decimation(args))
    &&& width(args) <= bits
    &&& args.birthday_spacings ==> pow2(width(args)) <= cells <= pow2(bits)
    &&& args.checkpoints ==> args.decimation_bits is Some && args.tradeoff_bits is None
}

/// The state in which repetition `rep`, counting from zero, starts: repetitions continue the orbit.
pub open spec fn rep_start<G: Generator>(args: &Args, points: usize, bits: nat, rep: nat) -> G::State {
    sampling::advance::<G>(shape(args, bits), G::seeded(args.seed), rep * rep_scan(args, points))
}

/// The points of a repetition that starts in a state.
pub open spec fn rep_points<G: Generator>(args: &Args, points: usize, bits: nat, s: G::State) -> Seq<nat> {
    sampling::points::<G>(shape(args, bits), s, rep_scan(args, points))
}

/// The value intervals of a test.
pub open spec fn interval_key(args: &Args) -> spec_fn(nat) -> nat {
    tally::top_key((width(args) - tradeoff(args)) as nat)
}

/// The first of the units to run.
pub open spec fn lo(args: &Args) -> nat {
    common::pass_lo(args.pass)
}

/// The end of the units to run.
pub open spec fn hi(args: &Args) -> nat {
    common::pass_hi(tradeoff(args), args.pass)
}

/// The count of a repetition on given points: the collisions in the value intervals, or of the
/// spacing classes, that are run.
pub open spec fn count(args: &Args, cells: nat, p: Seq<nat>) -> nat {
    if args.birthday_spacings {
        circle::birthday_in(p, cells, tradeoff(args), lo(args), hi(args))
    } else {
        tally::collisions_in(p, interval_key(args), lo(args), hi(args))
    }
}

/// The points that a repetition examines: those in the value intervals that are run. Each spacing
/// class takes all points.
pub open spec fn examined(args: &Args, p: Seq<nat>) -> nat {
    if args.birthday_spacings {
        p.len()
    } else {
        tally::selected_in(p, interval_key(args), lo(args), hi(args))
    }
}

/// The collisions of the first `reps` repetitions.
pub open spec fn total<G: Generator>(args: &Args, points: usize, cells: nat, bits: nat, reps: nat) -> nat
    decreases reps,
{
    if reps == 0 {
        0
    } else {
        total::<G>(args, points, cells, bits, (reps - 1) as nat) + count(
            args,
            cells,
            rep_points::<G>(args, points, bits, rep_start::<G>(args, points, bits, (reps - 1) as nat)),
        )
    }
}

/// The points that each of the first `reps` repetitions examines.
pub open spec fn all_examined<G: Generator>(args: &Args, points: usize, bits: nat, reps: nat) -> Seq<nat> {
    Seq::new(
        reps,
        |rep: int|
            examined(
                args,
                rep_points::<G>(args, points, bits, rep_start::<G>(args, points, bits, rep as nat)),
            ),
    )
}

/// What a test found is what its repetitions find.
pub open spec fn found<G: Generator>(
    args: &Args,
    points: usize,
    cells: nat,
    bits: nat,
    reps: nat,
    collisions: u128,
    kept: Seq<usize>,
) -> bool {
    &&& collisions == total::<G>(args, points, cells, bits, reps)
    &&& kept.len() == reps
    &&& forall|rep: int| 0 <= rep < reps ==> #[trigger] kept[rep] == all_examined::<G>(args, points, bits, reps)[rep]
}

/// With a single interval, or class, the count is that of the plain tests.
pub proof fn lemma_plain_count(args: &Args, cells: nat, p: Seq<nat>)
    requires
        args.valid(),
        tradeoff(args) == 0,
        forall|i: int| 0 <= i < p.len() ==> #[trigger] p[i] < pow2(width(args)),
    ensures
        count(args, cells, p) == if args.birthday_spacings {
            circle::birthday(p, cells)
        } else {
            tally::collisions(p)
        },
        examined(args, p) == p.len(),
{
    lemma2_to64();
    birthday::lemma_interval_bound(p, width(args), 0);
    tally::lemma_partition(p, interval_key(args), 1);
    circle::lemma_birthday_classes(p, cells, 0);
}

/// All units together give the count of the plain tests: the passes of a tradeoff sum to the single
/// run, whatever the tradeoff is.
pub proof fn lemma_tradeoff_count(args: &Args, cells: nat, p: Seq<nat>)
    requires
        args.valid(),
        args.pass is None,
        forall|i: int| 0 <= i < p.len() ==> #[trigger] p[i] < pow2(width(args)),
    ensures
        count(args, cells, p) == if args.birthday_spacings {
            circle::birthday(p, cells)
        } else {
            tally::collisions(p)
        },
        examined(args, p) == p.len(),
{
    let b: nat = tradeoff(args);
    lemma_index_bits(args);
    birthday::lemma_interval_bound(p, width(args), b);
    tally::lemma_partition(p, interval_key(args), pow2(b));
    circle::lemma_birthday_classes(p, cells, b);
}

/// The arguments, without the tradeoff.
pub open spec fn plain_args(args: &Args) -> Args {
    Args { tradeoff_bits: None, pass: None, ..*args }
}

/// A test with a tradeoff finds, over all repetitions, what the same test without it finds.
pub proof fn lemma_tradeoff_total<G: Generator>(args: &Args, points: usize, cells: nat, bits: nat, reps: nat)
    requires
        args.valid(),
        args.pass is None,
    ensures
        total::<G>(args, points, cells, bits, reps) == total::<G>(&plain_args(args), points, cells, bits, reps),
        all_examined::<G>(args, points, bits, reps) == all_examined::<G>(&plain_args(args), points, bits, reps),
    decreases reps,
{
    let plain: Args = plain_args(args);
    assert forall|rep: nat|
        {
            let p: Seq<nat> = rep_points::<G>(args, points, bits, #[trigger] rep_start::<G>(args, points, bits, rep));
            &&& p == rep_points::<G>(&plain, points, bits, rep_start::<G>(&plain, points, bits, rep))
            &&& count(args, cells, p) == count(&plain, cells, p)
            &&& examined(args, p) == examined(&plain, p)
        } by {
        let s: G::State = rep_start::<G>(args, points, bits, rep);
        sampling::lemma_points_bound::<G>(shape(args, bits), s, rep_scan(args, points));
        lemma_tradeoff_count(args, cells, rep_points::<G>(args, points, bits, s));
        lemma_plain_count(&plain, cells, rep_points::<G>(args, points, bits, s));
    }
    assert(all_examined::<G>(args, points, bits, reps) =~= all_examined::<G>(&plain, points, bits, reps));
    if reps > 0 {
        lemma_tradeoff_total::<G>(args, points, cells, bits, (reps - 1) as nat);
        assert(rep_start::<G>(args, points, bits, (reps - 1) as nat) == rep_start::<G>(
            &plain,
            points,
            bits,
            (reps - 1) as nat,
        ));
    }
}

/// The arguments, for the single unit `k`.
pub open spec fn unit_args(args: &Args, k: u64) -> Args {
    Args { pass: Some(k), ..*args }
}

/// The counts of the first `n` units, each run alone.
pub open spec fn unit_counts(args: &Args, cells: nat, p: Seq<nat>, n: nat) -> nat
    decreases n,
{
    if n == 0 {
        0
    } else {
        unit_counts(args, cells, p, (n - 1) as nat) + count(&unit_args(args, (n - 1) as u64), cells, p)
    }
}

/// The counts of the units of a tradeoff, each run alone, sum to the count of the whole test.
pub proof fn lemma_single_passes(args: &Args, cells: nat, p: Seq<nat>)
    requires
        args.valid(),
        args.pass is None,
        args.tradeoff_bits is Some,
    ensures
        unit_counts(args, cells, p, pow2(tradeoff(args))) == count(args, cells, p),
{
    bits::lemma_u64_one_shl(tradeoff(args) as u64);
    lemma_unit_counts(args, cells, p, pow2(tradeoff(args)));
}

/// The totals of the first `n` units, each run alone for all repetitions.
pub open spec fn unit_totals<G: Generator>(
    args: &Args,
    points: usize,
    cells: nat,
    bits: nat,
    reps: nat,
    n: nat,
) -> nat
    decreases n,
{
    if n == 0 {
        0
    } else {
        unit_totals::<G>(args, points, cells, bits, reps, (n - 1) as nat) + total::<G>(
            &unit_args(args, (n - 1) as u64),
            points,
            cells,
            bits,
            reps,
        )
    }
}

/// The units of a tradeoff can be run apart: the totals of tests of a single unit each sum to the
/// total of the whole test.
pub proof fn lemma_single_pass_totals<G: Generator>(args: &Args, points: usize, cells: nat, bits: nat, reps: nat)
    requires
        args.valid(),
        args.pass is None,
        args.tradeoff_bits is Some,
    ensures
        unit_totals::<G>(args, points, cells, bits, reps, pow2(tradeoff(args))) == total::<G>(
            args,
            points,
            cells,
            bits,
            reps,
        ),
    decreases reps,
{
    let n: nat = pow2(tradeoff(args));
    lemma_unit_totals::<G>(args, points, cells, bits, reps, n);
    if reps > 0 {
        let s: G::State = rep_start::<G>(args, points, bits, (reps - 1) as nat);
        lemma_single_pass_totals::<G>(args, points, cells, bits, (reps - 1) as nat);
        lemma_single_passes(args, cells, rep_points::<G>(args, points, bits, s));
    }
}

/// The totals of units grow by their counts in the last repetition.
proof fn lemma_unit_totals<G: Generator>(args: &Args, points: usize, cells: nat, bits: nat, reps: nat, n: nat)
    ensures
        unit_totals::<G>(args, points, cells, bits, reps, n) == if reps == 0 {
            0
        } else {
            unit_totals::<G>(args, points, cells, bits, (reps - 1) as nat, n) + unit_counts(
                args,
                cells,
                rep_points::<G>(args, points, bits, rep_start::<G>(args, points, bits, (reps - 1) as nat)),
                n,
            )
        },
    decreases n,
{
    if n > 0 {
        lemma_unit_totals::<G>(args, points, cells, bits, reps, (n - 1) as nat);
        if reps > 0 {
            let one: Args = unit_args(args, (n - 1) as u64);
            let s: G::State = rep_start::<G>(args, points, bits, (reps - 1) as nat);
            assert(s == rep_start::<G>(&one, points, bits, (reps - 1) as nat));
            assert(rep_points::<G>(args, points, bits, s) == rep_points::<G>(&one, points, bits, s));
        }
    }
}

/// The first `n` units, each run alone, count what they count together.
proof fn lemma_unit_counts(args: &Args, cells: nat, p: Seq<nat>, n: nat)
    requires
        n <= u64::MAX,
    ensures
        unit_counts(args, cells, p, n) == if args.birthday_spacings {
            circle::birthday_in(p, cells, tradeoff(args), 0, n)
        } else {
            tally::collisions_in(p, interval_key(args), 0, n)
        },
    decreases n,
{
    if n > 0 {
        let k: nat = (n - 1) as nat;
        lemma_unit_counts(args, cells, p, k);
        let one: Args = unit_args(args, k as u64);
        assert(interval_key(&one) == interval_key(args));
        if args.birthday_spacings {
            tally::lemma_in_split(
                circle::spacings(tally::sorted(p), cells),
                tally::low_key(tradeoff(args)),
                0,
                k,
                n,
            );
        } else {
            tally::lemma_in_split(p, interval_key(args), 0, k, n);
        }
    }
}

/// What a test finds does not depend on how it is run: two runs on the same arguments, sequential or
/// on any number of threads, find the same.
pub proof fn lemma_found_determined<G: Generator>(
    args: &Args,
    points: usize,
    cells: nat,
    bits: nat,
    reps: nat,
    a: Totals,
    b: Totals,
)
    requires
        found::<G>(args, points, cells, bits, reps, a.collisions, a.kept@),
        found::<G>(args, points, cells, bits, reps, b.collisions, b.kept@),
    ensures
        a.collisions == b.collisions,
        a.kept@ == b.kept@,
{
    assert forall|i: int| 0 <= i < reps implies a.kept@[i] == b.kept@[i] by {
        assert(a.kept@[i] == all_examined::<G>(args, points, bits, reps)[i]);
        assert(b.kept@[i] == all_examined::<G>(args, points, bits, reps)[i]);
    }
    assert(a.kept@ =~= b.kept@);
}

/// The points do not depend on the storage, as long as the indices fit.
pub proof fn lemma_storage<G: Generator>(args: &Args, points: usize, narrow: nat, wide: nat, s: G::State)
    requires
        args.valid(),
        width(args) <= narrow,
        width(args) <= wide,
    ensures
        rep_points::<G>(args, points, narrow, s) == rep_points::<G>(args, points, wide, s),
{
    let n: nat = rep_scan(args, points);
    let a: Geometry = shape(args, narrow);
    let b: Geometry = shape(args, wide);
    assert forall|j: int| 0 <= j < n implies sampling::samples::<G>(a, s, n)[j] == sampling::samples::<G>(b, s, n)[j] by {
        lemma_storage_sample::<G>(args, narrow, wide, sampling::advance::<G>(a, s, j as nat));
    }
    assert(sampling::samples::<G>(a, s, n) =~= sampling::samples::<G>(b, s, n));
}

/// What a test finds does not depend on the storage, as long as the indices fit.
pub proof fn lemma_storage_total<G: Generator>(
    args: &Args,
    points: usize,
    cells: nat,
    narrow: nat,
    wide: nat,
    reps: nat,
)
    requires
        args.valid(),
        width(args) <= narrow,
        width(args) <= wide,
    ensures
        total::<G>(args, points, cells, narrow, reps) == total::<G>(args, points, cells, wide, reps),
        all_examined::<G>(args, points, narrow, reps) == all_examined::<G>(args, points, wide, reps),
    decreases reps,
{
    assert forall|rep: nat|
        {
            let s: G::State = #[trigger] rep_start::<G>(args, points, narrow, rep);
            &&& s == rep_start::<G>(args, points, wide, rep)
            &&& rep_points::<G>(args, points, narrow, s) == rep_points::<G>(args, points, wide, s)
        } by {
        lemma_storage::<G>(args, points, narrow, wide, rep_start::<G>(args, points, narrow, rep));
    }
    assert(all_examined::<G>(args, points, narrow, reps) =~= all_examined::<G>(args, points, wide, reps)) by {
        assert forall|rep: int| 0 <= rep < reps implies all_examined::<G>(args, points, narrow, reps)[rep]
            == all_examined::<G>(args, points, wide, reps)[rep] by {
            let s: G::State = rep_start::<G>(args, points, narrow, rep as nat);
        }
    }
    if reps > 0 {
        lemma_storage_total::<G>(args, points, cells, narrow, wide, (reps - 1) as nat);
        let s: G::State = rep_start::<G>(args, points, narrow, (reps - 1) as nat);
    }
}

/// A sample does not depend on the storage.
proof fn lemma_storage_sample<G: Generator>(args: &Args, narrow: nat, wide: nat, s: G::State)
    requires
        args.valid(),
        width(args) <= narrow,
        width(args) <= wide,
    ensures
        sampling::sample::<G>(shape(args, narrow), s) == sampling::sample::<G>(shape(args, wide), s),
{
    let a: Geometry = shape(args, narrow);
    let b: Geometry = shape(args, wide);
    let t: nat = args.t as nat;
    lemma_storage_index::<G>(a, b, s, t);
    sampling::lemma_index_bound::<G>(a, s, t);
    let x: nat = sampling::index::<G>(a, s, t);
    lemma_fits_modulus(x, width(args), narrow);
    lemma_fits_modulus(x, width(args), wide);
    assert(sampling::accepted::<G>(a, s, t) == sampling::accepted::<G>(b, s, t)) by {
        assert forall|w: u64| sampling::element(a, w) == sampling::element(b, w) by {}
        if sampling::accepted::<G>(a, s, t) {
            assert forall|i: nat| i < t implies #[trigger] sampling::element(b, prng::word::<G>(s, i)) % pow2(b.d)
                == 0 by {
                assert(sampling::element(a, prng::word::<G>(s, i)) % pow2(a.d) == 0);
            }
        }
        if sampling::accepted::<G>(b, s, t) {
            assert forall|i: nat| i < t implies #[trigger] sampling::element(a, prng::word::<G>(s, i)) % pow2(a.d)
                == 0 by {
                assert(sampling::element(b, prng::word::<G>(s, i)) % pow2(b.d) == 0);
            }
        }
    }
}

/// An index does not depend on the storage.
proof fn lemma_storage_index<G: Generator>(a: Geometry, b: Geometry, s: G::State, j: nat)
    requires
        a.u == b.u,
        a.s == b.s,
        a.d == b.d,
    ensures
        sampling::index::<G>(a, s, j) == sampling::index::<G>(b, s, j),
    decreases j,
{
    if j > 0 {
        lemma_storage_index::<G>(a, b, s, (j - 1) as nat);
    }
}

/// An index that fits is stored as it is.
proof fn lemma_fits_modulus(x: nat, w: nat, bits: nat)
    requires
        x < pow2(w),
        w <= bits,
    ensures
        x % pow2(bits) == x,
{
    if w < bits {
        lemma_pow2_strictly_increases(w, bits);
    }
    lemma_small_mod(x, pow2(bits));
}

/// The tradeoff has no more bits than an index.
proof fn lemma_index_bits(args: &Args)
    requires
        args.valid(),
    ensures
        tradeoff(args) <= width(args),
        args.index_bits() == width(args),
        width(args) >= 1,
{
    let w: int = args.u - decimation(args);
    assert(args.t * w == w * args.t) by (nonlinear_arith);
    assert(w * args.t >= 1) by (nonlinear_arith)
        requires
            w >= 1,
            args.t >= 1,
    ;
}

/// The grid of a test that can be run.
pub proof fn lemma_grid(args: &Args, points: usize, cells: Cells, bits: nat)
    requires
        runnable(args, points, cells@, bits),
    ensures
        grid(args, cells).drawable(0, decimation(args) > 0, args.u == 64 && args.s == 0, bits),
        grid(args, cells).drawable(args.t, decimation(args) > 0, args.u == 64 && args.s == 0, bits),
        grid(args, cells).drawable(0, decimation(args) > 0, false, bits),
        grid(args, cells).drawable(args.t, decimation(args) > 0, false, bits),
        grid(args, cells).fits(decimation(args) > 0, bits),
        grid(args, cells).geometry(decimation(args) > 0, bits) == shape(args, bits),
        grid(args, cells).index_bits(decimation(args) > 0) == width(args),
        args.birthday_spacings ==> birthday::grid_circle(&grid(args, cells), decimation(args) > 0, bits),
        tradeoff(args) <= width(args),
        tradeoff(args) < 64,
        lo(args) < hi(args) <= pow2(tradeoff(args)),
{
    lemma_index_bits(args);
    let w: int = args.u - decimation(args);
    if args.t >= 2 {
        assert(w < w * args.t) by (nonlinear_arith)
            requires
                w >= 1,
                args.t >= 2,
        ;
    }
    lemma_pow2_pos(tradeoff(args));
    lemma_pow2_pos(width(args));
    if width(args) < bits {
        lemma_pow2_strictly_increases(width(args), bits);
    }
}

/// The buffers of a sequential repetition hold what it puts into them. `aux` holds the points of a
/// value interval of the birthday-spacings tradeoff, or those of a checkpoint stage.
pub open spec fn rep_fits<G: Generator>(
    args: &Args,
    points: usize,
    cells: nat,
    bits: nat,
    s: G::State,
    buf: nat,
    aux: nat,
) -> bool {
    let p: Seq<nat> = rep_points::<G>(args, points, bits, s);
    let scan: nat = rep_scan(args, points);
    let n: nat = stages::checkpoints((args.t * decimation(args)) as nat, scan);
    if tradeoff(args) > 0 {
        if args.birthday_spacings {
            &&& forall|k: nat| k < pow2(tradeoff(args)) ==> #[trigger] tally::select(p, interval_key(args), k).len() <= aux
            &&& forall|j: nat|
                lo(args) <= j < hi(args) ==> #[trigger] classes::class(p, cells, tradeoff(args), j).len() <= buf
        } else {
            forall|k: nat| lo(args) <= k < hi(args) ==> #[trigger] tally::select(p, interval_key(args), k).len() <= buf
        }
    } else {
        &&& p.len() <= buf
        &&& args.checkpoints ==> (forall|k: nat|
            k < n ==> #[trigger] collision::stage_points::<G>(shape(args, bits), s, scan, n, k).len() <= aux)
    }
}

/// The buffer that overflows in a sequential repetition.
pub open spec fn rep_bin<G: Generator>(args: &Args, points: usize, bits: nat, s: G::State, buf: nat, aux: nat) -> Bin {
    let p: Seq<nat> = rep_points::<G>(args, points, bits, s);
    let scan: nat = rep_scan(args, points);
    let n: nat = stages::checkpoints((args.t * decimation(args)) as nat, scan);
    let shift: nat = (width(args) - tradeoff(args)) as nat;
    if args.birthday_spacings {
        if tradeoff(args) == 0 {
            Bin::DecimatedBirthday
        } else if classes::interval_overflows(p, shift, tradeoff(args), lo(args), buf, aux) {
            Bin::BirthdayInterval
        } else {
            Bin::BirthdayClass
        }
    } else if tradeoff(args) > 0 {
        Bin::CollisionPass
    } else if !args.checkpoints {
        Bin::DecimatedCollision
    } else if collision::stage_overflows::<G>(shape(args, bits), s, scan, n, buf, aux) {
        Bin::CheckpointStage
    } else {
        Bin::CheckpointTotal
    }
}

/// What a sequential repetition reports.
pub open spec fn rep_events<G: Generator>(
    args: &Args,
    points: usize,
    cells: nat,
    bits: nat,
    s: G::State,
) -> Seq<Event> {
    let p: Seq<nat> = rep_points::<G>(args, points, bits, s);
    let scan: nat = rep_scan(args, points);
    let n: nat = stages::checkpoints((args.t * decimation(args)) as nat, scan);
    let b: nat = tradeoff(args);
    if args.birthday_spacings {
        if b > 0 {
            seq![Event::Classes { classes: pow2(b) as u64 }] + classes::class_events(
                p,
                cells,
                interval_key(args),
                b,
                false,
                lo(args),
                hi(args),
            ) + seq![Event::Done { points: p.len() as usize }]
        } else {
            seq![
                Event::Generating,
                Event::Sorting,
                Event::Spacing,
                Event::SortingSpacings,
                Event::Counting,
                Event::Done { points: p.len() as usize },
            ]
        }
    } else if b > 0 {
        collision::pass_events(p, interval_key(args), pow2(b), lo(args), hi(args))
    } else if decimation(args) > 0 {
        if args.checkpoints {
            stages::checkpoint_events(collision::points_upto::<G>(shape(args, bits), s, scan, n), n, n)
        } else {
            seq![
                Event::Scanning { samples: scan as usize, bits: decimation(args) },
                Event::Sorting,
                Event::Counting,
                Event::Done { points: p.len() as usize },
            ]
        }
    } else {
        seq![Event::Generating, Event::Sorting, Event::Counting, Event::Done { points: p.len() as usize }]
    }
}

/// What a sequential repetition has reported when a buffer overflows.
pub open spec fn rep_stopped<G: Generator>(
    args: &Args,
    points: usize,
    cells: nat,
    bits: nat,
    s: G::State,
    buf: nat,
    aux: nat,
) -> Seq<Event> {
    let p: Seq<nat> = rep_points::<G>(args, points, bits, s);
    let scan: nat = rep_scan(args, points);
    let n: nat = stages::checkpoints((args.t * decimation(args)) as nat, scan);
    let b: nat = tradeoff(args);
    let key: spec_fn(nat) -> nat = interval_key(args);
    if args.birthday_spacings {
        if b > 0 {
            seq![Event::Classes { classes: pow2(b) as u64 }] + classes::classes_stopped(
                p,
                cells,
                (width(args) - b) as nat,
                b,
                false,
                lo(args),
                hi(args),
                collision::pass_room(p, key, aux),
                buf,
            )
        } else {
            seq![Event::Generating]
        }
    } else if b > 0 {
        collision::passes_stopped(p, key, pow2(b), lo(args), hi(args), collision::pass_room(p, key, buf))
    } else if args.checkpoints {
        stages::checkpoints_stopped(
            collision::points_upto::<G>(shape(args, bits), s, scan, n),
            n,
            collision::stage_room::<G>(shape(args, bits), s, scan, n, aux),
            buf,
        )
    } else {
        seq![Event::Scanning { samples: scan as usize, bits: decimation(args) }]
    }
}

/// What the first `reps` sequential repetitions report.
pub open spec fn run_events<G: Generator>(args: &Args, points: usize, cells: nat, bits: nat, reps: nat) -> Seq<Event>
    decreases reps,
{
    if reps == 0 {
        Seq::empty()
    } else {
        let s: G::State = rep_start::<G>(args, points, bits, (reps - 1) as nat);
        let p: Seq<nat> = rep_points::<G>(args, points, bits, s);
        run_events::<G>(args, points, cells, bits, (reps - 1) as nat) + rep_events::<G>(args, points, cells, bits, s)
            + seq![
            Event::Repetition {
                points: examined(args, p) as usize,
                collisions: count(args, cells, p) as usize,
                total: total::<G>(args, points, cells, bits, reps) as u128,
            },
        ]
    }
}

/// The result of a sequential repetition: its count and the points examined, if the buffers hold
/// what it puts into them; it leaves the generator where the next one starts. Otherwise the result is
/// the buffer that overflowed, and the reports end there.
pub open spec fn rep_result<G: Generator>(
    args: &Args,
    points: usize,
    cells: nat,
    bits: nat,
    s: G::State,
    buf: nat,
    aux: nat,
    r: Result<(usize, usize), Bin>,
    end: G::State,
    reported: Seq<Event>,
    log: Seq<Event>,
) -> bool {
    let p: Seq<nat> = rep_points::<G>(args, points, bits, s);
    &&& r is Ok <==> rep_fits::<G>(args, points, cells, bits, s, buf, aux)
    &&& r matches Err(bin) ==> bin == rep_bin::<G>(args, points, bits, s, buf, aux) && log == reported + rep_stopped::<G>(
        args,
        points,
        cells,
        bits,
        s,
        buf,
        aux,
    )
    &&& r matches Ok(x) ==> {
        &&& x.0 == count(args, cells, p)
        &&& x.1 == examined(args, p)
        &&& end == sampling::advance::<G>(shape(args, bits), s, rep_scan(args, points))
        &&& log == reported + rep_events::<G>(args, points, cells, bits, s)
    }
}

/// A repetition of the birthday-spacings test with a tradeoff.
fn rep_birthday_tradeoff<T: Cell, const DIM: usize, G: Generator, P: Progress>(
    prng: &mut G,
    params: &GridParams,
    args: &Args,
    buf: &mut [T],
    aux: &mut [T],
    points: usize,
    progress: &mut P,
) -> (r: Result<(usize, usize), Bin>)
    requires
        DIM == 0 || DIM == args.t,
        *params == grid(args, params.cells),
        runnable(args, points, params.cells@, T::bits()),
        args.birthday_spacings,
        tradeoff(args) > 0,
    ensures
        final(buf)@.len() == old(buf)@.len(),
        final(aux)@.len() == old(aux)@.len(),
        rep_result::<G>(
            args,
            points,
            params.cells@,
            T::bits(),
            old(prng).state(),
            old(buf)@.len(),
            old(aux)@.len(),
            r,
            final(prng).state(),
            old(progress).log(),
            final(progress).log(),
        ),
{
    let decimating: bool = params.d > 0;
    let full: bool = args.u == 64 && args.s == 0;
    proof {
        lemma_grid(args, points, params.cells, T::bits());
    }
    let b: usize = args.tradeoff_bits();
    proof {
        assert(interval_key(args) == tally::top_key((params.index_bits(decimating) - b) as nat));
        assert(rep_points::<G>(args, points, T::bits(), prng.state()) == sampling::points::<G>(
            params.geometry(decimating, T::bits()),
            prng.state(),
            collision::scan_len(points, params.t, params.d),
        ));
    }
    let ghost log0: Seq<Event> = progress.log();
    let ghost p: Seq<nat> = rep_points::<G>(args, points, T::bits(), prng.state());
    let r: Result<(usize, usize), Bin> = match (decimating, full) {
        (false, false) => run_birthday_tradeoff::<T, DIM, false, false, G, P>(
            prng,
            params,
            buf,
            aux,
            points,
            b,
            args.pass,
            progress,
        ),
        (false, true) => run_birthday_tradeoff::<T, DIM, false, true, G, P>(
            prng,
            params,
            buf,
            aux,
            points,
            b,
            args.pass,
            progress,
        ),
        (true, false) => run_birthday_tradeoff::<T, DIM, true, false, G, P>(
            prng,
            params,
            buf,
            aux,
            points,
            b,
            args.pass,
            progress,
        ),
        (true, true) => run_birthday_tradeoff::<T, DIM, true, true, G, P>(
            prng,
            params,
            buf,
            aux,
            points,
            b,
            args.pass,
            progress,
        ),
    };
    proof {
        let head: Seq<Event> = seq![Event::Classes { classes: pow2(b as nat) as u64 }];
        let mid: Seq<Event> = classes::class_events(
            p,
            params.cells@,
            interval_key(args),
            b as nat,
            false,
            lo(args),
            hi(args),
        );
        let tail: Seq<Event> = seq![Event::Done { points: p.len() as usize }];
        assert(log0 + head + mid + tail =~= log0 + (head + mid + tail));
        let begun: Seq<Event> = classes::classes_stopped(
            p,
            params.cells@,
            (width(args) - b) as nat,
            b as nat,
            false,
            lo(args),
            hi(args),
            collision::pass_room(p, interval_key(args), old(aux)@.len()),
            old(buf)@.len(),
        );
        assert(log0 + head + begun =~= log0 + (head + begun));
    }
    r
}

/// A repetition of the birthday-spacings test without a tradeoff.
fn rep_birthday<T: Cell, const DIM: usize, G: Generator, P: Progress>(
    prng: &mut G,
    params: &GridParams,
    args: &Args,
    buf: &mut [T],
    aux: &mut [T],
    points: usize,
    progress: &mut P,
) -> (r: Result<(usize, usize), Bin>)
    requires
        DIM == 0 || DIM == args.t,
        *params == grid(args, params.cells),
        runnable(args, points, params.cells@, T::bits()),
        args.birthday_spacings,
        tradeoff(args) == 0,
        decimation(args) == 0 ==> points <= old(buf)@.len(),
    ensures
        final(buf)@.len() == old(buf)@.len(),
        final(aux)@.len() == old(aux)@.len(),
        rep_result::<G>(
            args,
            points,
            params.cells@,
            T::bits(),
            old(prng).state(),
            old(buf)@.len(),
            old(aux)@.len(),
            r,
            final(prng).state(),
            old(progress).log(),
            final(progress).log(),
        ),
{
    let decimating: bool = params.d > 0;
    let full: bool = args.u == 64 && args.s == 0;
    proof {
        lemma_grid(args, points, params.cells, T::bits());
        let s0: G::State = prng.state();
        sampling::lemma_points_bound::<G>(shape(args, T::bits()), s0, rep_scan(args, points));
        lemma_plain_count(args, params.cells@, rep_points::<G>(args, points, T::bits(), s0));
        if decimation(args) == 0 {
            lemma_undecimated_scan(args, points);
            sampling::lemma_points_undecimated::<G>(shape(args, T::bits()), s0, points as nat);
        }
    }
    match (decimating, full) {
        (false, false) => run_birthday::<T, DIM, false, false, G, P>(prng, params, buf, points, progress),
        (false, true) => run_birthday::<T, DIM, false, true, G, P>(prng, params, buf, points, progress),
        (true, false) => run_birthday::<T, DIM, true, false, G, P>(prng, params, buf, points, progress),
        (true, true) => run_birthday::<T, DIM, true, true, G, P>(prng, params, buf, points, progress),
    }
}

/// A repetition of the collision test with a tradeoff.
fn rep_collision_tradeoff<T: Cell, const DIM: usize, G: Generator, P: Progress>(
    prng: &mut G,
    params: &GridParams,
    args: &Args,
    buf: &mut [T],
    aux: &mut [T],
    points: usize,
    progress: &mut P,
) -> (r: Result<(usize, usize), Bin>)
    requires
        DIM == 0 || DIM == args.t,
        *params == grid(args, params.cells),
        runnable(args, points, params.cells@, T::bits()),
        !args.birthday_spacings,
        tradeoff(args) > 0,
    ensures
        final(buf)@.len() == old(buf)@.len(),
        final(aux)@.len() == old(aux)@.len(),
        rep_result::<G>(
            args,
            points,
            params.cells@,
            T::bits(),
            old(prng).state(),
            old(buf)@.len(),
            old(aux)@.len(),
            r,
            final(prng).state(),
            old(progress).log(),
            final(progress).log(),
        ),
{
    let decimating: bool = params.d > 0;
    proof {
        lemma_grid(args, points, params.cells, T::bits());
    }
    let b: usize = args.tradeoff_bits();
    proof {
        assert(interval_key(args) == tally::top_key((params.index_bits(decimating) - b) as nat));
        assert(rep_points::<G>(args, points, T::bits(), prng.state()) == sampling::points::<G>(
            params.geometry(decimating, T::bits()),
            prng.state(),
            collision::scan_len(points, params.t, params.d),
        ));
    }
    if decimating {
        run_collision_tradeoff::<T, DIM, true, G, P>(prng, params, buf, points, b, args.pass, progress)
    } else {
        run_collision_tradeoff::<T, DIM, false, G, P>(prng, params, buf, points, b, args.pass, progress)
    }
}

/// A repetition of the collision test with decimation, without a tradeoff.
fn rep_collision_decimate<T: Cell, const DIM: usize, G: Generator, P: Progress>(
    prng: &mut G,
    params: &GridParams,
    args: &Args,
    buf: &mut [T],
    aux: &mut [T],
    points: usize,
    progress: &mut P,
) -> (r: Result<(usize, usize), Bin>)
    requires
        DIM == 0 || DIM == args.t,
        *params == grid(args, params.cells),
        runnable(args, points, params.cells@, T::bits()),
        !args.birthday_spacings,
        tradeoff(args) == 0,
        decimation(args) > 0,
    ensures
        final(buf)@.len() == old(buf)@.len(),
        final(aux)@.len() == old(aux)@.len(),
        rep_result::<G>(
            args,
            points,
            params.cells@,
            T::bits(),
            old(prng).state(),
            old(buf)@.len(),
            old(aux)@.len(),
            r,
            final(prng).state(),
            old(progress).log(),
            final(progress).log(),
        ),
{
    let full: bool = args.u == 64 && args.s == 0;
    proof {
        lemma_grid(args, points, params.cells, T::bits());
        let s0: G::State = prng.state();
        sampling::lemma_points_bound::<G>(shape(args, T::bits()), s0, rep_scan(args, points));
        lemma_plain_count(args, params.cells@, rep_points::<G>(args, points, T::bits(), s0));
        if decimation(args) == 0 {
            lemma_undecimated_scan(args, points);
            sampling::lemma_points_undecimated::<G>(shape(args, T::bits()), s0, points as nat);
        }
    }
    if full {
        run_collision_decimate::<T, DIM, true, G, P>(prng, params, buf, points, args.checkpoints, aux, progress)
    } else {
        run_collision_decimate::<T, DIM, false, G, P>(prng, params, buf, points, args.checkpoints, aux, progress)
    }
}

/// A repetition of the plain collision test.
fn rep_collision<T: Cell, const DIM: usize, G: Generator, P: Progress>(
    prng: &mut G,
    params: &GridParams,
    args: &Args,
    buf: &mut [T],
    aux: &mut [T],
    points: usize,
    progress: &mut P,
) -> (r: Result<(usize, usize), Bin>)
    requires
        DIM == 0 || DIM == args.t,
        *params == grid(args, params.cells),
        runnable(args, points, params.cells@, T::bits()),
        !args.birthday_spacings,
        tradeoff(args) == 0,
        decimation(args) == 0,
        points <= old(buf)@.len(),
    ensures
        final(buf)@.len() == old(buf)@.len(),
        final(aux)@.len() == old(aux)@.len(),
        rep_result::<G>(
            args,
            points,
            params.cells@,
            T::bits(),
            old(prng).state(),
            old(buf)@.len(),
            old(aux)@.len(),
            r,
            final(prng).state(),
            old(progress).log(),
            final(progress).log(),
        ),
{
    let full: bool = args.u == 64 && args.s == 0;
    proof {
        lemma_grid(args, points, params.cells, T::bits());
        let s0: G::State = prng.state();
        sampling::lemma_points_bound::<G>(shape(args, T::bits()), s0, rep_scan(args, points));
        lemma_plain_count(args, params.cells@, rep_points::<G>(args, points, T::bits(), s0));
        if decimation(args) == 0 {
            lemma_undecimated_scan(args, points);
            sampling::lemma_points_undecimated::<G>(shape(args, T::bits()), s0, points as nat);
        }
    }
    let (head, _tail) = buf.split_at_mut(points);
    if full {
        Ok(run_collision::<T, DIM, true, G, P>(prng, params, head, progress))
    } else {
        Ok(run_collision::<T, DIM, false, G, P>(prng, params, head, progress))
    }
}

/// A sequential repetition.
fn run_rep<T: Cell, const DIM: usize, G: Generator, P: Progress>(
    prng: &mut G,
    params: &GridParams,
    args: &Args,
    buf: &mut [T],
    aux: &mut [T],
    points: usize,
    progress: &mut P,
) -> (r: Result<(usize, usize), Bin>)
    requires
        DIM == 0 || DIM == args.t,
        *params == grid(args, params.cells),
        runnable(args, points, params.cells@, T::bits()),
        tradeoff(args) == 0 && decimation(args) == 0 ==> points <= old(buf)@.len(),
    ensures
        final(buf)@.len() == old(buf)@.len(),
        final(aux)@.len() == old(aux)@.len(),
        rep_result::<G>(
            args,
            points,
            params.cells@,
            T::bits(),
            old(prng).state(),
            old(buf)@.len(),
            old(aux)@.len(),
            r,
            final(prng).state(),
            old(progress).log(),
            final(progress).log(),
        ),
{
    let b: usize = args.tradeoff_bits();
    if args.birthday_spacings {
        if b > 0 {
            rep_birthday_tradeoff::<T, DIM, G, P>(prng, params, args, buf, aux, points, progress)
        } else {
            rep_birthday::<T, DIM, G, P>(prng, params, args, buf, aux, points, progress)
        }
    } else if b > 0 {
        rep_collision_tradeoff::<T, DIM, G, P>(prng, params, args, buf, aux, points, progress)
    } else if params.d > 0 {
        rep_collision_decimate::<T, DIM, G, P>(prng, params, args, buf, aux, points, progress)
    } else {
        rep_collision::<T, DIM, G, P>(prng, params, args, buf, aux, points, progress)
    }
}

/// Without decimation there are as many samples as points.
pub proof fn lemma_undecimated_scan(args: &Args, points: usize)
    requires
        decimation(args) == 0,
    ensures
        rep_scan(args, points) == points,
{
    assert(args.t * decimation(args) == 0) by (nonlinear_arith)
        requires
            decimation(args) == 0,
    ;
    lemma2_to64();
    assert(points as nat * 1 == points);
}

/// A sequential repetition, with the loops specialized to small dimensions.
fn run_rep_dispatch<T: Cell, G: Generator, P: Progress>(
    prng: &mut G,
    params: &GridParams,
    args: &Args,
    buf: &mut [T],
    aux: &mut [T],
    points: usize,
    progress: &mut P,
) -> (r: Result<(usize, usize), Bin>)
    requires
        *params == grid(args, params.cells),
        runnable(args, points, params.cells@, T::bits()),
        tradeoff(args) == 0 && decimation(args) == 0 ==> points <= old(buf)@.len(),
    ensures
        final(buf)@.len() == old(buf)@.len(),
        final(aux)@.len() == old(aux)@.len(),
        rep_result::<G>(
            args,
            points,
            params.cells@,
            T::bits(),
            old(prng).state(),
            old(buf)@.len(),
            old(aux)@.len(),
            r,
            final(prng).state(),
            old(progress).log(),
            final(progress).log(),
        ),
{
    match args.t {
        1 => run_rep::<T, 1, G, P>(prng, params, args, buf, aux, points, progress),
        2 => run_rep::<T, 2, G, P>(prng, params, args, buf, aux, points, progress),
        3 => run_rep::<T, 3, G, P>(prng, params, args, buf, aux, points, progress),
        4 => run_rep::<T, 4, G, P>(prng, params, args, buf, aux, points, progress),
        5 => run_rep::<T, 5, G, P>(prng, params, args, buf, aux, points, progress),
        6 => run_rep::<T, 6, G, P>(prng, params, args, buf, aux, points, progress),
        7 => run_rep::<T, 7, G, P>(prng, params, args, buf, aux, points, progress),
        8 => run_rep::<T, 8, G, P>(prng, params, args, buf, aux, points, progress),
        _ => run_rep::<T, 0, G, P>(prng, params, args, buf, aux, points, progress),
    }
}

/// A repetition starts where the one before it ended, and the first one starts at the seed.
pub proof fn lemma_next_rep<G: Generator>(args: &Args, points: usize, bits: nat, rep: nat)
    ensures
        rep_start::<G>(args, points, bits, rep + 1) == sampling::advance::<G>(
            shape(args, bits),
            rep_start::<G>(args, points, bits, rep),
            rep_scan(args, points),
        ),
        rep_start::<G>(args, points, bits, 0) == G::seeded(args.seed),
{
    let n: nat = rep_scan(args, points);
    assert((rep + 1) * n == rep * n + n) by (nonlinear_arith);
    assert(0 * n == 0) by (nonlinear_arith);
    assert(0 * shape(args, bits).t == 0) by (nonlinear_arith);
    sampling::lemma_advance_compose::<G>(shape(args, bits), G::seeded(args.seed), rep * n, n);
}

/// Runs the test sequentially. The repetitions follow each other along the orbit of the generator.
///
/// The cell type `T` is chosen by the caller, wide enough for the cell indices. `buf` holds the
/// points (with the birthday-spacings tradeoff, the spacings of a class), and `aux` the points of a
/// checkpoint stage, or of a value interval of the birthday-spacings tradeoff.
///
/// Returns the total collision count and the points that each repetition kept, or the buffer that
/// overflowed.
pub fn run_test<T: Cell, G: Generator, P: Progress>(
    args: &Args,
    points: usize,
    cells: Cells,
    buf: &mut [T],
    aux: &mut [T],
    progress: &mut P,
) -> (r: Result<Totals, Bin>)
    requires
        runnable(args, points, cells@, T::bits()),
        tradeoff(args) == 0 && decimation(args) == 0 ==> points <= old(buf)@.len(),
    ensures
        final(buf)@.len() == old(buf)@.len(),
        final(aux)@.len() == old(aux)@.len(),
        r is Ok <==> (forall|rep: nat|
            rep < args.reps ==> rep_fits::<G>(
                args,
                points,
                cells@,
                T::bits(),
                #[trigger] rep_start::<G>(args, points, T::bits(), rep),
                old(buf)@.len(),
                old(aux)@.len(),
            )),
        r matches Err(bin) ==> exists|rep: nat|
            {
                let s: G::State = #[trigger] rep_start::<G>(args, points, T::bits(), rep);
                &&& rep < args.reps
                &&& !rep_fits::<G>(args, points, cells@, T::bits(), s, old(buf)@.len(), old(aux)@.len())
                &&& bin == rep_bin::<G>(args, points, T::bits(), s, old(buf)@.len(), old(aux)@.len())
                &&& final(progress).log() == old(progress).log() + run_events::<G>(
                    args,
                    points,
                    cells@,
                    T::bits(),
                    rep,
                ) + rep_stopped::<G>(args, points, cells@, T::bits(), s, old(buf)@.len(), old(aux)@.len())
                &&& forall|i: nat|
                    i < rep ==> rep_fits::<G>(
                        args,
                        points,
                        cells@,
                        T::bits(),
                        #[trigger] rep_start::<G>(args, points, T::bits(), i),
                        old(buf)@.len(),
                        old(aux)@.len(),
                    )
            },
        r matches Ok(x) ==> found::<G>(
            args,
            points,
            cells@,
            T::bits(),
            args.reps as nat,
            x.collisions,
            x.kept@,
        ) && final(progress).log() == old(progress).log() + run_events::<G>(
            args,
            points,
            cells@,
            T::bits(),
            args.reps as nat,
        ),
{
    let ghost log0: Seq<Event> = progress.log();
    let params: GridParams = GridParams { u: args.u, t: args.t, s: args.s, d: args.decimation_bits(), cells };
    let mut prng: G = G::new(args.seed);
    let mut tot: u128 = 0;
    let mut kept: Vec<usize> = Vec::new();
    let mut rep: usize = 0;
    proof {
        lemma_next_rep::<G>(args, points, T::bits(), 0);
        assert(progress.log() =~= log0 + run_events::<G>(args, points, cells@, T::bits(), 0));
    }
    while rep < args.reps
        invariant
            rep <= args.reps,
            params == grid(args, cells),
            runnable(args, points, cells@, T::bits()),
            tradeoff(args) == 0 && decimation(args) == 0 ==> points <= old(buf)@.len(),
            log0 == old(progress).log(),
            buf@.len() == old(buf)@.len(),
            aux@.len() == old(aux)@.len(),
            prng.state() == rep_start::<G>(args, points, T::bits(), rep as nat),
            tot == total::<G>(args, points, cells@, T::bits(), rep as nat),
            tot <= rep * usize::MAX,
            kept@.len() == rep,
            forall|i: int|
                0 <= i < rep ==> #[trigger] kept@[i] == examined(
                    args,
                    rep_points::<G>(
                        args,
                        points,
                        T::bits(),
                        rep_start::<G>(args, points, T::bits(), i as nat),
                    ),
                ),
            forall|i: nat|
                i < rep ==> rep_fits::<G>(
                    args,
                    points,
                    cells@,
                    T::bits(),
                    #[trigger] rep_start::<G>(args, points, T::bits(), i),
                    buf@.len(),
                    aux@.len(),
                ),
            progress.log() == log0 + run_events::<G>(args, points, cells@, T::bits(), rep as nat),
        decreases args.reps - rep,
    {
        let ghost s: G::State = prng.state();
        match run_rep_dispatch::<T, G, P>(&mut prng, &params, args, buf, aux, points, progress) {
            Err(bin) => {
                return Err(bin);
            },
            Ok((c, used)) => {
                proof {
                    lemma_next_rep::<G>(args, points, T::bits(), rep as nat);
                    assert((rep + 1) * usize::MAX == rep * usize::MAX + usize::MAX) by (nonlinear_arith);
                    assert((rep + 1) * usize::MAX <= 0xffff_ffff_ffff_ffff * 0xffff_ffff_ffff_ffff) by (nonlinear_arith)
                        requires
                            0 <= rep + 1 <= 0xffff_ffff_ffff_ffff,
                            usize::MAX <= 0xffff_ffff_ffff_ffff,
                    ;
                }
                tot += c as u128;
                kept.push(used);
                progress.report(Event::Repetition { points: used, collisions: c, total: tot });
                proof {
                    assert(progress.log() =~= log0 + run_events::<G>(
                        args,
                        points,
                        cells@,
                        T::bits(),
                        (rep + 1) as nat,
                    ));
                }
            },
        }
        rep += 1;
    }
    Ok(Totals { collisions: tot, kept })
}

/// A test takes the samples that its arguments ask for, and as many of them as there are points, times 2
/// to the number of bits decimated in all dimensions.
pub proof fn lemma_shape(args: &Args, points: usize, cells: Cells, bits: nat)
    ensures
        decimation(args) == match args.decimation_bits {
            Some(d) => d,
            None => 0,
        },
        tradeoff(args) == match args.tradeoff_bits {
            Some(b) => b,
            None => 0,
        },
        shape(args, bits).u == args.u,
        shape(args, bits).t == args.t,
        shape(args, bits).s == args.s,
        shape(args, bits).d == decimation(args),
        shape(args, bits).bits == bits,
        grid(args, cells).u == args.u,
        grid(args, cells).t == args.t,
        grid(args, cells).s == args.s,
        grid(args, cells).d == decimation(args),
        grid(args, cells).cells == cells,
        args.valid() ==> width(args) + decimation(args) * args.t == args.u * args.t,
        rep_scan(args, points) == points as nat * pow2((args.t * decimation(args)) as nat),
        forall|k: nat|
            #![trigger pow2(k)]
            lo(args) <= k < hi(args) <==> match args.pass {
                Some(p) => k == p,
                None => k < pow2(tradeoff(args)),
            },
{
    let (u, d, t): (int, int, int) = (args.u as int, decimation(args) as int, args.t as int);
    assert((u - d) * t + d * t == u * t) by (nonlinear_arith);
}

/// The points of a repetition are the kept samples of its stretch of the orbit, each one once and in
/// their order. Returns the numbers of the samples that are kept.
pub proof fn lemma_rep_points<G: Generator>(args: &Args, points: usize, bits: nat, rep: nat) -> (at: Seq<nat>)
    ensures
        ({
            let d: usize = decimation(args);
            let n: nat = points as nat * pow2((args.t * d) as nat);
            let s: G::State = rep_start::<G>(args, points, bits, rep);
            let p: Seq<nat> = rep_points::<G>(args, points, bits, s);
            &&& s == prng::orbit::<G>(G::seeded(args.seed), (rep * n) * args.t as nat)
            &&& at.len() == p.len()
            &&& forall|i: int| 0 <= i < at.len() ==> #[trigger] at[i] < n
            &&& forall|i: int, j: int| 0 <= i < j < at.len() ==> #[trigger] at[i] < #[trigger] at[j]
            &&& forall|i: int|
                0 <= i < at.len() ==> sampling::sample::<G>(
                    cell::geometry(args.t, args.u, args.s, d, bits),
                    prng::orbit::<G>(s, #[trigger] at[i] * args.t as nat),
                ) == Some(p[i])
            &&& forall|j: nat|
                j < n && sampling::sample::<G>(
                    cell::geometry(args.t, args.u, args.s, d, bits),
                    #[trigger] prng::orbit::<G>(s, j * args.t as nat),
                ) is Some ==> at.contains(j)
        }),
{
    sampling::lemma_points_are_samples::<G>(
        shape(args, bits),
        rep_start::<G>(args, points, bits, rep),
        rep_scan(args, points),
    )
}

/// The count of the collision test is the number of points that came before: of all of them, or of those
/// in the one value interval that is run. The points examined are all, or those in that interval.
pub proof fn lemma_collision_count(args: &Args, cells: nat, p: Seq<nat>)
    requires
        args.valid(),
        !args.birthday_spacings,
        forall|i: int| 0 <= i < p.len() ==> #[trigger] p[i] < pow2(width(args)),
    ensures
        args.pass is None ==> {
            &&& count(args, cells, p) == Set::new(|i: int| 0 <= i < p.len() && p.take(i).contains(p[i])).len()
            &&& examined(args, p) == p.len()
        },
        args.pass matches Some(k) ==> {
            let size: nat = pow2((width(args) - tradeoff(args)) as nat);
            &&& count(args, cells, p) == Set::new(
                |i: int|
                    0 <= i < p.len() && k as nat * size <= p[i] < (k as nat + 1) * size && p.take(i).contains(p[i]),
            ).len()
            &&& examined(args, p) == Set::new(
                |i: int| 0 <= i < p.len() && k as nat * size <= p[i] < (k as nat + 1) * size,
            ).len()
        },
{
    match args.pass {
        None => {
            lemma_tradeoff_count(args, cells, p);
            tally::lemma_collisions_repeats(p);
        },
        Some(k) => {
            let shift: nat = (width(args) - tradeoff(args)) as nat;
            let size: nat = pow2(shift);
            let key: spec_fn(nat) -> nat = interval_key(args);
            let n: nat = k as nat;
            tally::lemma_in_places(p, key, n, n + 1);
            assert forall|i: int| 0 <= i < p.len() implies (n <= key(#[trigger] p[i]) < n + 1 <==> n * size <= p[i] < (n
                + 1) * size) by {
                tally::lemma_top_key(shift, p[i], n);
            }
            assert(Set::new(|i: int| 0 <= i < p.len() && n <= key(p[i]) < n + 1) =~= Set::new(
                |i: int| 0 <= i < p.len() && n * size <= p[i] < (n + 1) * size,
            ));
            assert(Set::new(|i: int| 0 <= i < p.len() && n <= key(p[i]) < n + 1 && p.take(i).contains(p[i]))
                =~= Set::new(
                |i: int| 0 <= i < p.len() && n * size <= p[i] < (n + 1) * size && p.take(i).contains(p[i]),
            ));
        },
    }
}

/// The count of the birthday-spacings test is the number of distances between neighbours on the circle
/// that came before: of all of them, or of those in the one class that is run. Here `q` holds the points
/// in order, and `d` the distances.
pub proof fn lemma_birthday_count(args: &Args, cells: nat, p: Seq<nat>, q: Seq<nat>, d: Seq<nat>)
    requires
        args.valid(),
        args.birthday_spacings,
        q.to_multiset() == p.to_multiset(),
        forall|i: int| 0 < i < q.len() ==> q[i - 1] <= #[trigger] q[i],
        q.len() > 0 ==> q.last() < cells,
        d.len() == q.len(),
        q.len() > 0 ==> q.last() + d[0] == cells + q[0],
        forall|i: int| 0 < i < q.len() ==> q[i - 1] + #[trigger] d[i] == q[i],
    ensures
        args.pass is None ==> count(args, cells, p) == Set::new(
            |i: int| 0 <= i < d.len() && d.take(i).contains(d[i]),
        ).len(),
        args.pass matches Some(k) ==> count(args, cells, p) == Set::new(
            |i: int| 0 <= i < d.len() && d[i] % pow2(tradeoff(args)) == k as nat && d.take(i).contains(d[i]),
        ).len(),
        examined(args, p) == p.len(),
{
    let b: nat = tradeoff(args);
    circle::lemma_birthday_repeats(p, q, d, cells, b, lo(args), hi(args));
    match args.pass {
        None => {
            circle::lemma_birthday_classes(p, cells, b);
        },
        Some(k) => {
            assert(Set::new(
                |i: int| 0 <= i < d.len() && lo(args) <= d[i] % pow2(b) < hi(args) && d.take(i).contains(d[i]),
            ) =~= Set::new(|i: int| 0 <= i < d.len() && d[i] % pow2(b) == k as nat && d.take(i).contains(d[i])));
        },
    }
}

/// The total is the sum of the counts of the repetitions, each on its own stretch of the orbit, and the
/// points examined are listed in the order of the repetitions.
pub proof fn lemma_total_sum<G: Generator>(args: &Args, points: usize, cells: nat, bits: nat, reps: nat)
    ensures
        total::<G>(args, points, cells, bits, reps) == Seq::new(
            reps,
            |r: int| count(args, cells, rep_points::<G>(args, points, bits, rep_start::<G>(args, points, bits, r as nat))),
        ).fold_left(0nat, |a: nat, x: nat| a + x),
        all_examined::<G>(args, points, bits, reps).len() == reps,
        forall|r: nat|
            r < reps ==> all_examined::<G>(args, points, bits, reps)[r as int] == examined(
                args,
                rep_points::<G>(args, points, bits, #[trigger] rep_start::<G>(args, points, bits, r)),
            ),
    decreases reps,
{
    let all: Seq<nat> = Seq::new(
        reps,
        |r: int| count(args, cells, rep_points::<G>(args, points, bits, rep_start::<G>(args, points, bits, r as nat))),
    );
    if reps > 0 {
        let m: nat = (reps - 1) as nat;
        lemma_total_sum::<G>(args, points, cells, bits, m);
        let some: Seq<nat> = Seq::new(
            m,
            |r: int|
                count(args, cells, rep_points::<G>(args, points, bits, rep_start::<G>(args, points, bits, r as nat))),
        );
        assert(all.drop_last() =~= some);
        assert(all.last() == count(
            args,
            cells,
            rep_points::<G>(args, points, bits, rep_start::<G>(args, points, bits, m)),
        ));
    }
}

/// What a test returns is the total, and for each repetition the points that it examined.
pub proof fn lemma_found<G: Generator>(
    args: &Args,
    points: usize,
    cells: nat,
    bits: nat,
    reps: nat,
    collisions: u128,
    kept: Seq<usize>,
)
    ensures
        found::<G>(args, points, cells, bits, reps, collisions, kept) <==> {
            &&& collisions == total::<G>(args, points, cells, bits, reps)
            &&& kept.len() == reps
            &&& forall|r: nat|
                r < reps ==> kept[r as int] == examined(
                    args,
                    rep_points::<G>(args, points, bits, #[trigger] rep_start::<G>(args, points, bits, r)),
                )
        },
{
    lemma_total_sum::<G>(args, points, cells, bits, reps);
    if found::<G>(args, points, cells, bits, reps, collisions, kept) {
        assert forall|r: nat| r < reps implies kept[r as int] == examined(
            args,
            rep_points::<G>(args, points, bits, #[trigger] rep_start::<G>(args, points, bits, r)),
        ) by {
            assert(kept[r as int] == all_examined::<G>(args, points, bits, reps)[r as int]);
        }
    }
    if kept.len() == reps && (forall|r: nat|
        r < reps ==> kept[r as int] == examined(
            args,
            rep_points::<G>(args, points, bits, #[trigger] rep_start::<G>(args, points, bits, r)),
        )) {
        assert forall|rep: int| 0 <= rep < reps implies #[trigger] kept[rep] == all_examined::<G>(
            args,
            points,
            bits,
            reps,
        )[rep] by {
            let s: G::State = rep_start::<G>(args, points, bits, rep as nat);
        }
    }
}

/// What one more repetition reports: what it does, and then the points that it examined, its collisions,
/// and those of all repetitions so far.
pub proof fn lemma_run_reports<G: Generator>(args: &Args, points: usize, cells: nat, bits: nat, rep: nat)
    ensures
        run_events::<G>(args, points, cells, bits, 0).len() == 0,
        ({
            let s: G::State = rep_start::<G>(args, points, bits, rep);
            let p: Seq<nat> = rep_points::<G>(args, points, bits, s);
            run_events::<G>(args, points, cells, bits, rep + 1) == (run_events::<G>(args, points, cells, bits, rep)
                + rep_events::<G>(args, points, cells, bits, s)).push(
                Event::Repetition {
                    points: examined(args, p) as usize,
                    collisions: count(args, cells, p) as usize,
                    total: (total::<G>(args, points, cells, bits, rep) + count(args, cells, p)) as u128,
                },
            )
        }),
{
    let s: G::State = rep_start::<G>(args, points, bits, rep);
    let p: Seq<nat> = rep_points::<G>(args, points, bits, s);
    assert(run_events::<G>(args, points, cells, bits, rep + 1) =~= (run_events::<G>(args, points, cells, bits, rep)
        + rep_events::<G>(args, points, cells, bits, s)).push(
        Event::Repetition {
            points: examined(args, p) as usize,
            collisions: count(args, cells, p) as usize,
            total: (total::<G>(args, points, cells, bits, rep) + count(args, cells, p)) as u128,
        },
    ));
}

/// What a repetition reports, by the kind of test: a tradeoff one report per pass, or per class; a scan in
/// one go what it does, one thing after the other; and in the end, where there are no passes, how many
/// points there were.
pub proof fn lemma_rep_reports<G: Generator>(args: &Args, points: usize, cells: nat, bits: nat, s: G::State)
    requires
        args.valid(),
    ensures
        ({
            let p: Seq<nat> = rep_points::<G>(args, points, bits, s);
            let e: Seq<Event> = rep_events::<G>(args, points, cells, bits, s);
            let b: nat = tradeoff(args);
            let done: Event = Event::Done { points: p.len() as usize };
            let scan: nat = rep_scan(args, points);
            let n: nat = stages::checkpoints((args.t * decimation(args)) as nat, scan);
            &&& args.birthday_spacings && b == 0 ==> e == seq![
                Event::Generating,
                Event::Sorting,
                Event::Spacing,
                Event::SortingSpacings,
                Event::Counting,
            ].push(done)
            &&& args.birthday_spacings && b > 0 ==> {
                &&& e[0] == Event::Classes { classes: pow2(b) as u64 }
                &&& e.last() == done
                &&& e.drop_first().drop_last() == classes::class_events(
                    p,
                    cells,
                    tally::top_key((width(args) - b) as nat),
                    b,
                    false,
                    lo(args),
                    hi(args),
                )
            }
            &&& !args.birthday_spacings && b > 0 ==> e == collision::pass_events(
                p,
                tally::top_key((width(args) - b) as nat),
                pow2(b),
                lo(args),
                hi(args),
            )
            &&& !args.birthday_spacings && b == 0 && args.decimation_bits is None ==> e == seq![
                Event::Generating,
                Event::Sorting,
                Event::Counting,
            ].push(done)
            &&& !args.birthday_spacings && b == 0 && args.decimation_bits is Some && !args.checkpoints ==> e == seq![
                Event::Scanning { samples: scan as usize, bits: args.decimation_bits->0 },
                Event::Sorting,
                Event::Counting,
            ].push(done)
            &&& !args.birthday_spacings && b == 0 && args.decimation_bits is Some && args.checkpoints ==> e
                == stages::checkpoint_events(collision::points_upto::<G>(shape(args, bits), s, scan, n), n, n)
        }),
{
    let p: Seq<nat> = rep_points::<G>(args, points, bits, s);
    let e: Seq<Event> = rep_events::<G>(args, points, cells, bits, s);
    let b: nat = tradeoff(args);
    let done: Event = Event::Done { points: p.len() as usize };
    if args.birthday_spacings {
        if b > 0 {
            assert(e.drop_first().drop_last() =~= classes::class_events(
                p,
                cells,
                tally::top_key((width(args) - b) as nat),
                b,
                false,
                lo(args),
                hi(args),
            ));
        } else {
            assert(e =~= seq![
                Event::Generating,
                Event::Sorting,
                Event::Spacing,
                Event::SortingSpacings,
                Event::Counting,
            ].push(done));
        }
    } else if b == 0 && args.decimation_bits is None {
        assert(e =~= seq![Event::Generating, Event::Sorting, Event::Counting].push(done));
    } else if b == 0 && !args.checkpoints {
        assert(e =~= seq![
            Event::Scanning { samples: rep_scan(args, points) as usize, bits: args.decimation_bits->0 },
            Event::Sorting,
            Event::Counting,
        ].push(done));
    }
}

/// A repetition fits when each buffer holds what is put into it, exactly enough room counting as enough:
/// all points; or the points of each value interval that is run; or, with the birthday-spacings tradeoff,
/// those of every value interval, and the spacings of each class that is run; and with checkpoints the
/// points of each stage.
pub proof fn lemma_rep_fits<G: Generator>(
    args: &Args,
    points: usize,
    cells: nat,
    bits: nat,
    s: G::State,
    buf: nat,
    aux: nat,
)
    requires
        args.valid(),
    ensures
        ({
            let p: Seq<nat> = rep_points::<G>(args, points, bits, s);
            let b: nat = tradeoff(args);
            let key: spec_fn(nat) -> nat = tally::top_key((width(args) - b) as nat);
            let scan: nat = rep_scan(args, points);
            let n: nat = stages::checkpoints((args.t * decimation(args)) as nat, scan);
            &&& b == 0 && !args.checkpoints ==> (rep_fits::<G>(args, points, cells, bits, s, buf, aux) <==> p.len()
                <= buf)
            &&& b == 0 && args.checkpoints ==> (rep_fits::<G>(args, points, cells, bits, s, buf, aux) <==> p.len()
                <= buf && (forall|k: nat|
                k < n ==> #[trigger] collision::stage_points::<G>(shape(args, bits), s, scan, n, k).len() <= aux))
            &&& b > 0 && !args.birthday_spacings ==> (rep_fits::<G>(args, points, cells, bits, s, buf, aux) <==> (
            forall|k: nat| lo(args) <= k < hi(args) ==> #[trigger] collision::pass_room(p, key, buf)(k)))
            &&& b > 0 && args.birthday_spacings ==> (rep_fits::<G>(args, points, cells, bits, s, buf, aux) <==> (
            forall|k: nat| k < pow2(b) ==> #[trigger] collision::pass_room(p, key, aux)(k)) && (forall|j: nat|
                lo(args) <= j < hi(args) ==> #[trigger] classes::class(p, cells, b, j).len() <= buf))
        }),
{
    let p: Seq<nat> = rep_points::<G>(args, points, bits, s);
    let b: nat = tradeoff(args);
    let key: spec_fn(nat) -> nat = tally::top_key((width(args) - b) as nat);
    let fit: bool = rep_fits::<G>(args, points, cells, bits, s, buf, aux);
    if b > 0 && !args.birthday_spacings {
        let room: spec_fn(nat) -> bool = collision::pass_room(p, key, buf);
        if fit {
            assert forall|k: nat| lo(args) <= k < hi(args) implies #[trigger] room(k) by {
                assert(tally::select(p, interval_key(args), k).len() <= buf);
            }
        }
        if forall|k: nat| lo(args) <= k < hi(args) ==> #[trigger] room(k) {
            assert forall|k: nat| lo(args) <= k < hi(args) implies #[trigger] tally::select(
                p,
                interval_key(args),
                k,
            ).len() <= buf by {
                assert(room(k));
            }
        }
    } else if b > 0 {
        let room: spec_fn(nat) -> bool = collision::pass_room(p, key, aux);
        if fit {
            assert forall|k: nat| k < pow2(b) implies #[trigger] room(k) by {
                assert(tally::select(p, interval_key(args), k).len() <= aux);
            }
        }
        if forall|k: nat| k < pow2(b) ==> #[trigger] room(k) {
            assert forall|k: nat| k < pow2(b) implies #[trigger] tally::select(p, interval_key(args), k).len()
                <= aux by {
                assert(room(k));
            }
        }
    }
}

/// A sequential repetition that stops names the buffer that overflowed, and has reported what it did up to
/// there.
pub proof fn lemma_rep_stopped<G: Generator>(
    args: &Args,
    points: usize,
    cells: nat,
    bits: nat,
    s: G::State,
    buf: nat,
    aux: nat,
)
    requires
        args.valid(),
    ensures
        ({
            let p: Seq<nat> = rep_points::<G>(args, points, bits, s);
            let b: nat = tradeoff(args);
            let shift: nat = (width(args) - b) as nat;
            let key: spec_fn(nat) -> nat = tally::top_key(shift);
            let scan: nat = rep_scan(args, points);
            let n: nat = stages::checkpoints((args.t * decimation(args)) as nat, scan);
            let g: Geometry = shape(args, bits);
            let e: Seq<Event> = rep_stopped::<G>(args, points, cells, bits, s, buf, aux);
            let bin: Bin = rep_bin::<G>(args, points, bits, s, buf, aux);
            &&& args.birthday_spacings && b == 0 ==> e == seq![Event::Generating] && bin == Bin::DecimatedBirthday
            &&& args.birthday_spacings && b > 0 ==> {
                &&& e[0] == Event::Classes { classes: pow2(b) as u64 }
                &&& e.drop_first() == classes::classes_stopped(
                    p,
                    cells,
                    shift,
                    b,
                    false,
                    lo(args),
                    hi(args),
                    collision::pass_room(p, key, aux),
                    buf,
                )
                &&& bin == Bin::BirthdayInterval || bin == Bin::BirthdayClass
                &&& bin == Bin::BirthdayInterval <==> (exists|k: nat|
                    k < pow2(b) && #[trigger] tally::select(p, key, k).len() > aux && classes::class_upto(
                        p,
                        shift,
                        b,
                        lo(args),
                        k,
                    ).len() <= buf)
            }
            &&& !args.birthday_spacings && b > 0 ==> e == collision::passes_stopped(
                p,
                key,
                pow2(b),
                lo(args),
                hi(args),
                collision::pass_room(p, key, buf),
            ) && bin == Bin::CollisionPass
            &&& !args.birthday_spacings && b == 0 && !args.checkpoints ==> e == seq![
                Event::Scanning { samples: scan as usize, bits: decimation(args) },
            ] && bin == Bin::DecimatedCollision
            &&& !args.birthday_spacings && b == 0 && args.checkpoints ==> {
                &&& e == stages::checkpoints_stopped(
                    collision::points_upto::<G>(g, s, scan, n),
                    n,
                    collision::stage_room::<G>(g, s, scan, n, aux),
                    buf,
                )
                &&& bin == Bin::CheckpointStage || bin == Bin::CheckpointTotal
                &&& bin == Bin::CheckpointStage <==> (exists|k: nat|
                    k < n && (#[trigger] collision::stage_points::<G>(g, s, scan, n, k)).len() > aux
                        && collision::points_upto::<G>(g, s, scan, n)(k).len() <= buf)
            }
        }),
{
    let p: Seq<nat> = rep_points::<G>(args, points, bits, s);
    let b: nat = tradeoff(args);
    let shift: nat = (width(args) - b) as nat;
    let e: Seq<Event> = rep_stopped::<G>(args, points, cells, bits, s, buf, aux);
    if args.birthday_spacings && b > 0 {
        assert(e.drop_first() =~= classes::classes_stopped(
            p,
            cells,
            shift,
            b,
            false,
            lo(args),
            hi(args),
            collision::pass_room(p, tally::top_key(shift), aux),
            buf,
        ));
    }
}

/// Every test with valid arguments can be run, if there are points, their samples can be counted, and the
/// storage holds the indices, and for the birthday-spacings test the cells.
pub proof fn lemma_runnable(args: &Args, points: usize, cells: nat, bits: nat)
    requires
        args.valid(),
        points > 0,
        args.t * decimation(args) < usize::BITS,
        points as nat * pow2((args.t * decimation(args)) as nat) <= usize::MAX,
        (args.u - decimation(args)) * args.t <= bits,
        args.birthday_spacings ==> pow2(((args.u - decimation(args)) * args.t) as nat) <= cells <= pow2(bits),
        args.checkpoints ==> args.decimation_bits is Some && args.tradeoff_bits is None,
    ensures
        runnable(args, points, cells, bits),
{
}

} // verus!
