//! The parallel runners (and the single-pass recombination) against the sequential runner.
use coll_birth::birthday::run_birthday_parallel;
use coll_birth::cell::Cell;
use coll_birth::cli::{compute_points, Args};
use coll_birth::collision::run_test_parallel;
use coll_birth::common::{run_test, Bin, Cells};
use coll_birth::parallel::can_count;
use coll_birth::prng::{incr, romuduo, wyrand, Generator, Prng};
use coll_birth::progress::{Event, Journal};
use coll_birth::runs::Totals;
use coll_birth::sizing::{cell_width, parallel_loads, selection_bits, sequential_loads, Load};

fn make_args(u: usize, t: usize, m: usize, tradeoff: Option<usize>, seed: u64) -> Args {
    Args {
        u,
        t,
        m: Some(m),
        s: 0,
        tradeoff_bits: tradeoff,
        decimation_bits: None,
        checkpoints: false,
        birthday_spacings: false,
        reps: 1,
        seed,
        pretty_p: false,
        parallel: true,
        pass: None,
    }
}

fn cells_for(args: &Args) -> Cells {
    Cells::power_of_two((args.u - args.decimation_bits()) * args.t).unwrap()
}

/// The number of cells.
fn cells_f64(cells: &Cells) -> f64 {
    cells.last() as f64 + 1.0
}

/// The points of a test.
fn points_for(args: &Args, cells: &Cells) -> usize {
    args.validate().unwrap();
    let max_points = (cells_f64(cells).powf(5.0 / 12.0) / (2.0 * args.reps as f64).powf(1.0 / 3.0)) as usize;
    compute_points(args, cells, max_points).unwrap()
}

/// A buffer size that a bin of a uniform generator does not exceed.
fn buffer_size(points: usize, partition_bits: usize) -> usize {
    if partition_bits == 0 {
        return points;
    }
    let mean = points as f64 / 2.0f64.powi(partition_bits as i32);
    let l = (partition_bits as f64) * std::f64::consts::LN_2 + 1000.0 * std::f64::consts::LN_10;
    let dev = l / 3.0 + (l * l / 9.0 + 2.0 * mean * l).sqrt();
    ((mean + dev).ceil() as usize).min(points)
}

/// The memory locations for a bin.
fn room(load: Load) -> usize {
    buffer_size(load.samples, load.bits)
}

/// Expected collisions of points that are few in comparison to the cells.
fn sparse_lambda(points: f64, cells: f64) -> f64 {
    let mut u = points - 1.0;
    let mut v = 2.0;
    let mut t = (points * u) / (2.0 * cells);
    let mut lambda = t;
    let mut i = 3;
    while (t / lambda).abs() > f64::EPSILON && i < 64 {
        u -= 1.0;
        v += 1.0;
        t = -t * u / (cells * v);
        lambda += t;
        i += 1;
    }
    lambda
}

/// Runs a test sequentially.
fn sequential<T: Cell, G: Generator>(args: &Args, points: usize, journal: &mut Journal) -> Result<Totals, Bin> {
    let (first, second) = sequential_loads(args, points);
    let buf_len = room(first);
    let aux_len = second.map_or(0, |load| room(load).max(1));
    let mut buf = vec![T::zero(); buf_len];
    let mut aux = vec![T::zero(); aux_len];
    run_test::<T, G, Journal>(args, points, cells_for(args), &mut buf, &mut aux, journal)
}

/// Runs a test in parallel.
fn parallel<T: Cell, G: Generator>(
    args: &Args,
    points: usize,
    num_cpus: usize,
    journal: &mut Journal,
) -> Result<Totals, Bin> {
    let (regions, second) = parallel_loads(args, points, num_cpus);
    let caps: Vec<usize> = regions.into_iter().map(|load| room(load).max(1)).collect();
    let mut buf = vec![T::zero(); caps.iter().sum()];
    let mut other = vec![T::zero(); second.map_or(0, |load| room(load).max(1))];
    if args.birthday_spacings {
        run_birthday_parallel::<T, G, Journal>(
            args, points, cells_for(args), num_cpus, &mut buf, &caps, &mut other, journal,
        )
    } else {
        run_test_parallel::<T, G, Journal>(args, points, cells_for(args), num_cpus, &mut buf, &caps, &mut other, journal)
    }
}

fn seq<T: Cell>(args: &Args, points: usize) -> Totals {
    sequential::<T, Prng>(args, points, &mut Journal::new()).unwrap()
}

fn par<T: Cell>(args: &Args, points: usize, num_cpus: usize) -> Totals {
    parallel::<T, Prng>(args, points, num_cpus, &mut Journal::new()).unwrap()
}

// Single-pass (--pass K) runs one of the 2ᵇ summable units; the per-unit counts must sum to a full
// -b run, in both the sequential and parallel paths. This pins the recombination guarantee of the
// single-pass design.
#[test]
fn test_single_pass_collision_sum_matches_full() {
    let seed = 0xABCD_1234_5678_9ABC;
    let b = 2u32;
    let mut args = make_args(16, 2, 1 << 16, Some(b as usize), seed);
    let cells = cells_for(&args);
    let points = points_for(&args, &cells);

    let full_seq = seq::<u64>(&args, points).collisions;
    let full_par = par::<u64>(&args, points, 4).collisions;

    let mut sum_seq = 0u128;
    let mut sum_par = 0u128;
    for k in 0..(1u64 << b) {
        args.pass = Some(k);
        sum_seq += seq::<u64>(&args, points).collisions;
        sum_par += par::<u64>(&args, points, 4).collisions;
    }
    assert_eq!(
        full_seq, sum_seq,
        "sequential single-pass counts must sum to full"
    );
    assert_eq!(
        full_par, sum_par,
        "parallel single-pass counts must sum to full"
    );

    // The per-pass nominal lambda shares (lambda_total / 2ᵇ) sum back to the full lambda exactly
    // (power-of-two divisor → exact in f64).
    let num_passes = 1u64 << b;
    let lambda_k = sparse_lambda(points as f64, cells_f64(&cells)) / num_passes as f64;
    assert_eq!(
        num_passes as f64 * lambda_k,
        sparse_lambda(points as f64, cells_f64(&cells)),
        "single-pass lambda shares must sum to the full lambda"
    );
}

#[test]
fn test_single_pass_birthday_sum_matches_full() {
    let seed = 0x0BAD_F00D_DEAD_BEEF;
    let b = 2u32;
    let mut args = make_args(30, 2, 1 << 16, Some(b as usize), seed);
    args.birthday_spacings = true;
    let cells = cells_for(&args);
    let points = points_for(&args, &cells);

    let full_seq = seq::<u64>(&args, points).collisions;
    let full_par = par::<u64>(&args, points, 4).collisions;

    let mut sum_seq = 0u128;
    let mut sum_par = 0u128;
    for k in 0..(1u64 << b) {
        args.pass = Some(k);
        sum_seq += seq::<u64>(&args, points).collisions;
        sum_par += par::<u64>(&args, points, 4).collisions;
    }
    assert_eq!(
        full_seq, sum_seq,
        "sequential single-pass birthday counts must sum to full"
    );
    assert_eq!(
        full_par, sum_par,
        "parallel single-pass birthday counts must sum to full"
    );
}

// Every non-decimating generator has a faithful parallel split, so a parallel run must equal the
// sequential run for the same seed: jump-capable generators reach each thread's start via jump-ahead,
// others via pre-scan.
#[test]
fn test_faithful_plain_matches_sequential() {
    let seed = 0x00C0_FFEE_1234_5678;
    let args = make_args(12, 2, 1 << 18, None, seed);
    let cells = cells_for(&args);
    let points = points_for(&args, &cells);
    let s = seq::<u64>(&args, points);
    let p = par::<u64>(&args, points, 4);
    assert_eq!(
        s, p,
        "faithful plain parallel must equal the sequential run"
    );
}

#[test]
fn test_faithful_tradeoff_matches_sequential() {
    let seed = 0x0D15_EA5E_0BAD_F00D;
    let args = make_args(12, 2, 1 << 14, Some(2), seed);
    let cells = cells_for(&args);
    let points = points_for(&args, &cells);
    let s = seq::<u64>(&args, points);
    let p = par::<u64>(&args, points, 3);
    assert_eq!(
        s, p,
        "faithful tradeoff parallel must equal the sequential run"
    );
}

// Fixed-sample decimation is faithfully parallel: scanning a fixed sample budget makes each thread's
// contiguous sample-range reachable by jump/pre-scan.
#[test]
fn test_faithful_decimation_matches_sequential() {
    let seed = 0x0DEC_1A7E_0000_0001;
    let mut args = make_args(14, 2, 1 << 14, None, seed);
    args.decimation_bits = Some(2);
    let cells = cells_for(&args);
    let points = points_for(&args, &cells);
    let s = seq::<u64>(&args, points);
    let p = par::<u64>(&args, points, 4);
    assert_eq!(
        s, p,
        "faithful parallel decimation must equal sequential"
    );
}

#[test]
fn test_faithful_decimation_tradeoff_matches_sequential() {
    let seed = 0x0DEC_1A7E_0000_0002;
    let mut args = make_args(14, 2, 1 << 12, Some(2), seed);
    args.decimation_bits = Some(2);
    let cells = cells_for(&args);
    let points = points_for(&args, &cells);
    let s = seq::<u64>(&args, points);
    let p = par::<u64>(&args, points, 3);
    assert_eq!(
        s, p,
        "faithful parallel decimation+tradeoff must equal sequential"
    );
}

fn checkpoint_args(seed: u64) -> (Args, Cells) {
    let mut args = make_args(16, 2, 1 << 14, None, seed);
    args.decimation_bits = Some(2);
    args.checkpoints = true;
    let cells = cells_for(&args);
    (args, cells)
}

// Parallel checkpoints must be faithful: same final cumulative count for any P.
#[test]
fn test_parallel_checkpoints_match_across_cpus() {
    let (args, cells) = checkpoint_args(0x0C0C_0C0C_0000_0001);
    let points = points_for(&args, &cells);
    let r1 = par::<u64>(&args, points, 1);
    let r4 = par::<u64>(&args, points, 4);
    assert_eq!(r1, r4, "parallel checkpoints must match across CPU counts");
}

// P=1 parallel checkpoints must equal the sequential checkpoint runner.
#[test]
fn test_parallel_checkpoints_p1_match_sequential_runner() {
    let (args, cells) = checkpoint_args(0x0C0C_0C0C_0000_0002);
    let points = points_for(&args, &cells);
    let s = seq::<u64>(&args, points);
    let par1 = par::<u64>(&args, points, 1);
    assert_eq!(
        s, par1,
        "P=1 checkpoints must equal the sequential runner"
    );
}

// Parallel birthday-spacings (plain, b = 0) must equal the sequential run for any CPU count: the
// gathered interval is the same point multiset, so the spacings and their collisions match.
#[test]
fn test_faithful_birthday_plain_matches_sequential() {
    let seed = 0x0B17_4DA9_0000_0001;
    let mut args = make_args(20, 2, 40_000, None, seed);
    args.birthday_spacings = true;
    let cells = cells_for(&args); // 2⁴⁰
    let points = points_for(&args, &cells);
    let s = seq::<u64>(&args, points);
    let par1 = par::<u64>(&args, points, 1);
    let par3 = par::<u64>(&args, points, 3);
    assert_eq!(s, par1, "P=1 parallel birthday must equal sequential");
    assert_eq!(s, par3, "P=3 parallel birthday must equal sequential");
}

// Parallel birthday-spacings with decimation and no tradeoff (b = 0). Under decimation the kept count
// (= number of spacings, all in the single class when b = 0) is random with mean `points`; with this
// seed it lands above 40000. The class buffer must carry the full t·d + b headroom, so the run
// completes and still matches the sequential one.
#[test]
fn test_faithful_birthday_decimation_matches_sequential() {
    let seed = 3;
    let mut args = make_args(30, 2, 40_000, None, seed);
    args.birthday_spacings = true;
    args.decimation_bits = Some(2);
    let cells = cells_for(&args); // effective cells 2^((u−d)·t)
    let points = points_for(&args, &cells);
    let s = seq::<u64>(&args, points);
    let par1 = par::<u64>(&args, points, 1);
    let par3 = par::<u64>(&args, points, 3);
    assert_eq!(
        s, par1,
        "P=1 parallel birthday decimation must equal sequential"
    );
    assert_eq!(
        s, par3,
        "P=3 parallel birthday decimation must equal sequential"
    );
}

// Same, with the two-level top-bit tradeoff (b > 0).
#[test]
fn test_faithful_birthday_tradeoff_matches_sequential() {
    let seed = 0x0B17_4DA9_0000_0002;
    let mut args = make_args(20, 2, 10_000, Some(2), seed);
    args.birthday_spacings = true;
    let cells = cells_for(&args); // 2⁴⁰
    let points = points_for(&args, &cells); // points = 10000 · 4
    let s = seq::<u64>(&args, points);
    let par1 = par::<u64>(&args, points, 1);
    let par3 = par::<u64>(&args, points, 3);
    assert_eq!(
        s, par1,
        "P=1 parallel birthday tradeoff must equal sequential"
    );
    assert_eq!(
        s, par3,
        "P=3 parallel birthday tradeoff must equal sequential"
    );
}

// Birthday at the cells == 2^32 storage boundary in u32 cells (the wrap-around is evaluated through
// cells − 1, so no strictly-wider type is needed): the parallel two-level tradeoff must still match
// the sequential runner.
#[test]
fn test_faithful_birthday_boundary_u32_matches_sequential() {
    let seed = 0x0B17_4DA9_0000_0003;
    let mut args = make_args(16, 2, 12_500, Some(2), seed);
    args.birthday_spacings = true; // exactly 2^32 cells
    let points = 50_000usize; // m · 2ᵇ
    let s = seq::<u32>(&args, points);
    let par3 = par::<u32>(&args, points, 3);
    assert_eq!(
        s, par3,
        "boundary-width parallel birthday must equal sequential"
    );
}

/// Every mode, in three repetitions, on a generator that jumps, and on one that does not.
fn all_modes_agree<G: Generator>() {
    for (tradeoff, decimation, birthday, checkpoints) in [
        (None, None, false, false),
        (Some(3), None, false, false),
        (None, Some(1), false, false),
        (Some(3), Some(1), false, false),
        (None, Some(2), false, true),
        (None, None, true, false),
        (Some(3), None, true, false),
        (None, Some(1), true, false),
        (Some(3), Some(1), true, false),
    ] {
        let mut args = make_args(12, 2, 3_000, tradeoff, 77);
        args.decimation_bits = decimation;
        args.birthday_spacings = birthday;
        args.checkpoints = checkpoints;
        args.reps = 3;
        args.validate().unwrap();
        let points = 3_000;
        let mut journal = Journal::new();
        let s = sequential::<u32, G>(&args, points, &mut journal).unwrap();
        assert_eq!(s.kept.len(), 3);
        if decimation.is_none() {
            assert_eq!(s.kept, [points; 3]);
        }
        let totals: Vec<u128> = journal
            .events()
            .iter()
            .filter_map(|e| match e {
                Event::Repetition { total, .. } => Some(*total),
                _ => None,
            })
            .collect();
        assert_eq!(totals.len(), 3);
        assert_eq!(totals[2], s.collisions);
        for num_cpus in [0, 1, 2, 5] {
            let p = parallel::<u32, G>(&args, points, num_cpus, &mut Journal::new()).unwrap();
            assert_eq!(s, p);
        }
        // Wider storage changes nothing.
        assert_eq!(s, sequential::<u128, G>(&args, points, &mut Journal::new()).unwrap());
        assert_eq!(s, parallel::<u64, G>(&args, points, 3, &mut Journal::new()).unwrap());
    }
}

#[test]
fn jumping_generators_agree_in_all_modes() {
    all_modes_agree::<wyrand::Prng>();
}

#[test]
fn walking_generators_agree_in_all_modes() {
    all_modes_agree::<romuduo::Prng>();
}

#[test]
fn a_tradeoff_changes_no_count() {
    for birthday in [false, true] {
        let mut args = make_args(10, 2, 5_000, None, 21);
        args.birthday_spacings = birthday;
        args.reps = 2;
        let plain = seq::<u32>(&args, 5_000);
        for b in [1, 3, 6] {
            args.tradeoff_bits = Some(b);
            assert_eq!(plain, seq::<u32>(&args, 5_000));
            assert_eq!(plain, par::<u32>(&args, 5_000, 2));
        }
    }
}

#[test]
fn more_threads_than_samples() {
    let args = make_args(4, 1, 3, None, 1);
    assert_eq!(seq::<u32>(&args, 3), par::<u32>(&args, 3, 8));
}

#[test]
fn no_repetitions_find_nothing() {
    let mut args = make_args(8, 1, 100, None, 1);
    args.reps = 0;
    let nothing = Totals { collisions: 0, kept: Vec::new() };
    assert_eq!(seq::<u32>(&args, 100), nothing);
    assert_eq!(par::<u32>(&args, 100, 2), nothing);
}

#[test]
fn full_regions_are_noticed() {
    let mut args = make_args(12, 2, 1_000, Some(2), 9);
    let cells = cells_for(&args);
    let mut journal = Journal::new();
    let (mut buf, mut other) = (vec![0u64; 20], vec![0u64; 4_000]);
    let caps = [10usize, 10];
    let r = run_test_parallel::<u64, Prng, Journal>(
        &args, 1_000, cells, 2, &mut buf, &caps, &mut other, &mut journal,
    );
    assert_eq!(r, Err(Bin::TradeoffBin));
    args.tradeoff_bits = None;
    args.decimation_bits = Some(2);
    let cells = cells_for(&args);
    let r = run_test_parallel::<u64, Prng, Journal>(
        &args, 1_000, cells, 2, &mut buf, &caps, &mut other, &mut journal,
    );
    assert_eq!(r, Err(Bin::ParallelChunk));
    args.checkpoints = true;
    let mut roomy = vec![0u64; 4_000];
    let r = run_test_parallel::<u64, Prng, Journal>(
        &args, 1_000, cells, 2, &mut roomy, &[2_000, 2_000], &mut buf, &mut journal,
    );
    assert_eq!(r, Err(Bin::ParallelCheckpointTotal));
    args.checkpoints = false;
    args.birthday_spacings = true;
    let r = run_birthday_parallel::<u64, Prng, Journal>(
        &args, 1_000, cells, 2, &mut roomy, &[2_000, 2_000], &mut buf, &mut journal,
    );
    assert_eq!(r, Err(Bin::BirthdayClass));
}

#[test]
fn buffers_follow_the_mode() {
    let mut args = make_args(16, 2, 1_000, None, 0);
    assert_eq!(selection_bits(&args), 0);
    assert_eq!(sequential_loads(&args, 1_000), (Load { samples: 1_000, bits: 0 }, None));
    assert_eq!(
        parallel_loads(&args, 1_000, 3),
        (
            vec![
                Load { samples: 334, bits: 0 },
                Load { samples: 333, bits: 0 },
                Load { samples: 333, bits: 0 }
            ],
            None
        )
    );
    args.tradeoff_bits = Some(3);
    args.decimation_bits = Some(2);
    assert_eq!(selection_bits(&args), 7);
    let direct = Load { samples: 16_000, bits: 7 };
    assert_eq!(sequential_loads(&args, 1_000), (direct, None));
    args.birthday_spacings = true;
    assert_eq!(sequential_loads(&args, 1_000), (Load { samples: 1_000, bits: 3 }, Some(direct)));
    assert_eq!(parallel_loads(&args, 1_000, 1), (vec![direct], Some(direct)));
    // Four checkpoints.
    args.birthday_spacings = false;
    args.tradeoff_bits = None;
    args.checkpoints = true;
    let all = Load { samples: 16_000, bits: 4 };
    assert_eq!(sequential_loads(&args, 1_000), (all, Some(Load { samples: 4_000, bits: 4 })));
    assert_eq!(parallel_loads(&args, 1_000, 3), (vec![Load { samples: 1_335, bits: 4 }; 3], Some(all)));
}

#[test]
fn cells_are_as_narrow_as_can_be() {
    assert_eq!(cell_width(&make_args(16, 2, 1, None, 0)), 32);
    assert_eq!(cell_width(&make_args(33, 1, 1, None, 0)), 64);
    assert_eq!(cell_width(&make_args(64, 1, 1, None, 0)), 64);
    assert_eq!(cell_width(&make_args(13, 5, 1, None, 0)), 128);
    assert_eq!(cell_width(&make_args(64, 2, 1, None, 0)), 128);
    let mut args = make_args(40, 2, 1, None, 0);
    args.decimation_bits = Some(8);
    assert_eq!(cell_width(&args), 64);
}

/// A counter puts nearly all points into one bin; room for all samples is enough for it.
#[test]
fn room_for_all_samples_is_enough() {
    for (tradeoff, birthday) in [(None, false), (Some(3), false), (None, true), (Some(3), true)] {
        let mut args = make_args(12, 2, 1_000, tradeoff, 5);
        args.birthday_spacings = birthday;
        args.reps = 2;
        let (first, second) = sequential_loads(&args, 1_000);
        let mut buf = vec![0u32; first.samples];
        let mut aux = vec![0u32; second.map_or(0, |load| load.samples)];
        let mut journal = Journal::new();
        let r = run_test::<u32, incr::Prng, Journal>(
            &args,
            1_000,
            cells_for(&args),
            &mut buf,
            &mut aux,
            &mut journal,
        )
        .unwrap();
        assert_eq!(r.kept, [1_000, 1_000]);
        // All points are in the cell zero: all but one collide, and all but one spacing are zero.
        assert_eq!(r.collisions, if birthday { 2 * 998 } else { 2 * 999 });
    }
}

/// Arguments for a counter whose low `u` bits are the cells, on one dimension.
fn counter_args(u: usize, points: usize, seed: u64) -> Args {
    let mut args = make_args(u, 1, points, None, seed);
    args.s = 64 - u;
    args
}

/// The first pass over the cells 2, 3, 0, 1, 2, 3 keeps two points, and that over the cells 0, 1, 2, 3,
/// 0, 1 of the next repetition four.
#[test]
fn an_overflow_ends_the_reports_of_all_repetitions() {
    let mut args = counter_args(2, 6, 1);
    args.tradeoff_bits = Some(1);
    args.pass = Some(0);
    args.reps = 3;
    let expected = [
        Event::Pass { pass: 1, passes: 2 },
        Event::Sorting,
        Event::Counting,
        Event::PassDone { points: 2, collisions: 0, all_points: 2, all_collisions: 0 },
        Event::Repetition { points: 2, collisions: 0, total: 0 },
        Event::Pass { pass: 1, passes: 2 },
    ];
    let cells = cells_for(&args);
    let mut journal = Journal::new();
    let mut buf = [0u32; 3];
    let r = run_test::<u32, incr::Prng, Journal>(&args, 6, cells, &mut buf, &mut [], &mut journal);
    assert_eq!(r, Err(Bin::CollisionPass));
    assert_eq!(*journal.events(), expected);
    let mut journal = Journal::new();
    let r = run_test_parallel::<u32, incr::Prng, Journal>(
        &args, 6, cells, 2, &mut buf, &[1, 1], &mut [], &mut journal,
    );
    assert_eq!(r, Err(Bin::TradeoffBin));
    assert_eq!(*journal.events(), expected);
}

#[test]
fn an_overflow_ends_the_reports_of_threads() {
    // Each of two threads keeps one point in each of two stages.
    let mut args = counter_args(4, 4, 0);
    args.decimation_bits = Some(2);
    args.checkpoints = true;
    let cells = cells_for(&args);
    let mut journal = Journal::new();
    let (mut buf, mut acc) = ([0u32; 2], [0u32; 3]);
    let r = run_test_parallel::<u32, incr::Prng, Journal>(
        &args, 4, cells, 2, &mut buf, &[1, 1], &mut acc, &mut journal,
    );
    assert_eq!(r, Err(Bin::ParallelCheckpointTotal));
    let first = Event::Checkpoint { checkpoint: 1, checkpoints: 2 };
    assert_eq!(
        *journal.events(),
        [
            first,
            Event::Sorting,
            Event::Merging,
            Event::Counting,
            Event::CheckpointDone { points: 2, collisions: 0 },
            Event::Checkpoint { checkpoint: 2, checkpoints: 2 },
            Event::Sorting,
            Event::Merging,
        ]
    );
    let mut journal = Journal::new();
    let r = run_test_parallel::<u32, incr::Prng, Journal>(
        &args, 4, cells, 2, &mut buf, &[1, 0], &mut acc, &mut journal,
    );
    assert_eq!(r, Err(Bin::ParallelChunk));
    assert_eq!(*journal.events(), [first]);
    // Spacings of 1, between the points 11 to 14.
    let mut args = counter_args(16, 4, 10);
    args.birthday_spacings = true;
    let cells = cells_for(&args);
    let mut journal = Journal::new();
    let (mut buf, mut class_buf) = ([0u32; 4], [0u32; 2]);
    let r = run_birthday_parallel::<u32, incr::Prng, Journal>(
        &args, 4, cells, 2, &mut buf, &[2, 2], &mut class_buf, &mut journal,
    );
    assert_eq!(r, Err(Bin::BirthdayClass));
    let start = [Event::Classes { classes: 1 }, Event::Interval { class: 1, interval: 1, of: 1 }];
    assert_eq!(*journal.events(), [start[0], start[1], Event::Sorting, Event::Filtering]);
    let mut journal = Journal::new();
    let r = run_birthday_parallel::<u32, incr::Prng, Journal>(
        &args, 4, cells, 2, &mut buf, &[2, 1], &mut class_buf, &mut journal,
    );
    assert_eq!(r, Err(Bin::ParallelChunk));
    assert_eq!(*journal.events(), start);
    // A generator without jump-ahead walks to the starts of the threads first.
    let args = make_args(12, 2, 1_000, Some(2), 9);
    let mut journal = Journal::new();
    let r = run_test_parallel::<u32, romuduo::Prng, Journal>(
        &args, 1_000, cells_for(&args), 2, &mut buf, &[2, 2], &mut [], &mut journal,
    );
    assert_eq!(r, Err(Bin::TradeoffBin));
    assert_eq!(*journal.events(), [Event::Prescan, Event::PrescanDone, Event::Pass { pass: 1, passes: 4 }]);
}

/// The last position that a thread starts at must be countable; where the last repetition ends does
/// not matter.
#[test]
fn positions_are_counted_to_the_last_start() {
    let points = 1usize << 40;
    let mut args = make_args(8, 2, points, None, 0);
    args.reps = 1 << 23;
    assert!(can_count::<Prng>(&args, points, 1));
    assert!(can_count::<Prng>(&args, points, 2));
    args.reps += 1;
    assert!(!can_count::<Prng>(&args, points, 1));
    // Without jump-ahead only samples are counted.
    assert!(can_count::<romuduo::Prng>(&args, points, 1));
    args.reps = 1 << 24;
    assert!(can_count::<romuduo::Prng>(&args, points, 8));
    args.reps += 1;
    assert!(!can_count::<romuduo::Prng>(&args, points, 8));
    // The second of two threads starts too late.
    args.t = 3;
    args.reps = 0x555556;
    assert!(can_count::<Prng>(&args, points, 1));
    assert!(!can_count::<Prng>(&args, points, 2));
    args.reps = 0x555555;
    assert!(can_count::<Prng>(&args, points, 2));
    // The last stage of a repetition starts in the middle of it.
    let mut args = make_args(8, 1, points / 4, None, 0);
    args.decimation_bits = Some(2);
    args.reps = 1 << 24;
    assert!(can_count::<Prng>(&args, points / 4, 4));
    args.checkpoints = true;
    assert!(can_count::<Prng>(&args, points / 4, 4));
    args.s = 1;
    args.t = 2;
    args.decimation_bits = Some(1);
    args.reps = 1 << 23;
    assert!(can_count::<Prng>(&args, points / 4, 1));
    args.reps += 1;
    assert!(!can_count::<Prng>(&args, points / 4, 1));
    assert!(can_count::<romuduo::Prng>(&args, points / 4, 1));
    args.reps = 0;
    assert!(can_count::<Prng>(&args, points / 4, 1));
}
