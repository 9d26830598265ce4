//! Tests of the collision runners.
use coll_birth::collision::{run_collision, run_collision_decimate, run_collision_tradeoff};
use coll_birth::common::{Bin, Cells, GridParams};
use coll_birth::prng::{incr, Prng};
use coll_birth::progress::{Event, Journal};

fn grid(u: usize, t: usize, d: usize, bits: usize) -> GridParams {
    GridParams {
        u,
        t,
        s: 0,
        d,
        cells: Cells::power_of_two(bits).unwrap(),
    }
}

/// A buffer size that a bin of a uniform generator does not exceed.
fn buffer_size(points: usize, partition_bits: usize) -> usize {
    if partition_bits == 0 {
        return points;
    }
    let mean = points as f64 / 2.0f64.powi(partition_bits as i32);
    let l = (partition_bits as f64) * std::f64::consts::LN_2 + 1000.0 * std::f64::consts::LN_10;
    let dev = l / 3.0 + (l * l / 9.0 + 2.0 * mean * l).sqrt();
    ((mean + dev).ceil() as usize).min(points)
}

/// Both generators are at the same place.
fn same_place(a: Prng, b: Prng) -> bool {
    let (mut a, mut b) = (a, b);
    (0..4).all(|_| a.next_u64() == b.next_u64())
}

// Summing collisions over the tradeoff passes equals a single run on the same point stream
// (decimation off).
#[test]
fn test_tradeoff_sum_equals_single_run_no_decimation() {
    let (u, t, b, d) = (8usize, 2usize, 4usize, 0usize);
    let g = grid(u, t, d, u * t); // 2^16

    let passes = 1usize << b; // 2^4 = 16
    let m = 1_500usize;
    let points = m * passes; // 24_000 > sqrt(2^16) → collisions occur

    let start = Prng::new(2024);
    let mut journal = Journal::new();

    let mut single = start;
    let mut buf_single = vec![0u64; points];
    let c_single = run_collision::<u64, 0, false, _, _>(&mut single, &g, &mut buf_single, &mut journal);

    let mut traded = start;
    let cap = buffer_size(points, b);
    let mut buf_traded = vec![0u64; cap];
    let c_traded = run_collision_tradeoff::<u64, 0, false, _, _>(
        &mut traded,
        &g,
        &mut buf_traded,
        points,
        b,
        None,
        &mut journal,
    )
    .unwrap();

    assert_eq!(
        c_single, c_traded,
        "tradeoff passes must sum to the single-run count"
    );
    assert!(c_single.0 > 0);
    assert!(same_place(single, traded));
}

// Same exactness property with decimation on (d > 0): both runs decimate the same stream, so kept
// points and their collisions match.
#[test]
fn test_tradeoff_sum_equals_single_run_with_decimation() {
    let (u, t, b, d) = (10usize, 2usize, 4usize, 2usize);
    // effective cell space after decimation: 2^((u-d)*t) = 2^16
    let g = grid(u, t, d, (u - d) * t);

    let passes = 1usize << b;
    let m = 1_500usize;
    let points = m * passes;

    let start = Prng::new(7);
    let mut journal = Journal::new();

    // Fixed-sample: both runs scan scan_len = points · 2^(t·d) samples; the kept count is variable,
    // so buffers carry balls-into-bins headroom.
    let scan_len = points << (t * d);

    let mut single = start;
    let mut buf_single = vec![0u64; buffer_size(scan_len, t * d)];
    let c_single = run_collision_decimate::<u64, 0, false, _, _>(
        &mut single,
        &g,
        &mut buf_single,
        points,
        false,
        &mut [],
        &mut journal,
    )
    .unwrap();

    let mut traded = start;
    let cap = buffer_size(scan_len, t * d + b);
    let mut buf_traded = vec![0u64; cap];
    let c_traded = run_collision_tradeoff::<u64, 0, true, _, _>(
        &mut traded,
        &g,
        &mut buf_traded,
        points,
        b,
        None,
        &mut journal,
    )
    .unwrap();

    assert_eq!(c_single, c_traded);
    assert!(same_place(single, traded));
}

/// The counter makes the points known: the seed 0xfe draws 0xff, 0x100, …, whose low bytes
/// 0xff, 0x00, 0x01, … come round after 256 points.
#[test]
fn a_counter_collides_when_it_comes_round() {
    let mut g = grid(8, 1, 0, 8);
    g.s = 56;
    let mut prng = incr::Prng::new(0xfe);
    let mut journal = Journal::new();
    let mut buf = vec![0u32; 300];
    let r = run_collision::<u32, 1, false, _, _>(&mut prng, &g, &mut buf, &mut journal);
    assert_eq!(r, (44, 300));
    assert_eq!(prng.next_u64(), 0xfe + 301);
    assert_eq!(
        journal.events(),
        &[Event::Generating, Event::Sorting, Event::Counting, Event::Done { points: 300 }]
    );
}

#[test]
fn single_passes_sum_to_all() {
    let g = grid(8, 2, 0, 16);
    let start = Prng::new(5);
    let mut buf = vec![0u64; 5_000];
    let mut journal = Journal::new();
    let mut all = start;
    let whole =
        run_collision_tradeoff::<u64, 2, false, _, _>(&mut all, &g, &mut buf, 5_000, 2, None, &mut journal).unwrap();
    let mut sum = (0, 0);
    for k in 0..4 {
        let mut one = start;
        let mut journal = Journal::new();
        let (c, n) =
            run_collision_tradeoff::<u64, 2, false, _, _>(&mut one, &g, &mut buf, 5_000, 2, Some(k), &mut journal)
                .unwrap();
        sum = (sum.0 + c, sum.1 + n);
        assert!(same_place(one, all));
        assert_eq!(
            journal.events(),
            &[
                Event::Pass { pass: k + 1, passes: 4 },
                Event::Sorting,
                Event::Counting,
                Event::PassDone { points: n, collisions: c, all_points: n, all_collisions: c },
            ]
        );
    }
    assert_eq!(sum, whole);
    assert_eq!(whole.1, 5_000);
}

#[test]
fn checkpoints_end_where_a_plain_scan_does() {
    let g = grid(8, 2, 2, 12);
    let points = 2_000usize;
    let mut buf = vec![0u64; 4_000];
    let mut journal = Journal::new();
    let mut plain = Prng::new(11);
    let whole =
        run_collision_decimate::<u64, 2, false, _, _>(&mut plain, &g, &mut buf, points, false, &mut [], &mut journal)
            .unwrap();
    let mut staged = Prng::new(11);
    let mut aux = vec![0u64; 4_000];
    let mut journal = Journal::new();
    let all =
        run_collision_decimate::<u64, 2, false, _, _>(&mut staged, &g, &mut buf, points, true, &mut aux, &mut journal)
            .unwrap();
    assert_eq!(whole, all);
    assert!(same_place(plain, staged));
    // ⌊√2⁴⌋ checkpoints, the last of which has it all.
    let done: Vec<Event> =
        journal.events().iter().copied().filter(|e| matches!(e, Event::CheckpointDone { .. })).collect();
    assert_eq!(done.len(), 4);
    assert_eq!(done[3], Event::CheckpointDone { points: all.1, collisions: all.0 });
}

#[test]
fn full_bins_are_noticed() {
    let points = 2_000usize;
    let mut journal = Journal::new();
    let g = grid(8, 2, 0, 16);
    let mut small = vec![0u64; 100];
    let r = run_collision_tradeoff::<u64, 2, false, _, _>(
        &mut Prng::new(1),
        &g,
        &mut small,
        points,
        2,
        None,
        &mut journal,
    );
    assert_eq!(r, Err(Bin::CollisionPass));
    let g = grid(8, 2, 2, 12);
    let r = run_collision_decimate::<u64, 2, false, _, _>(
        &mut Prng::new(1),
        &g,
        &mut small,
        points,
        false,
        &mut [],
        &mut journal,
    );
    assert_eq!(r, Err(Bin::DecimatedCollision));
    let mut large = vec![0u64; 4_000];
    let r = run_collision_decimate::<u64, 2, false, _, _>(
        &mut Prng::new(1),
        &g,
        &mut large,
        points,
        true,
        &mut small,
        &mut journal,
    );
    assert_eq!(r, Err(Bin::CheckpointStage));
    let r = run_collision_decimate::<u64, 2, false, _, _>(
        &mut Prng::new(1),
        &g,
        &mut small,
        points,
        true,
        &mut large,
        &mut journal,
    );
    assert_eq!(r, Err(Bin::CheckpointTotal));
}

/// A tradeoff on no bits is a single pass over everything.
#[test]
fn a_tradeoff_on_no_bits_is_plain() {
    let g = grid(8, 2, 0, 16);
    let mut journal = Journal::new();
    let mut buf = vec![0u64; 3_000];
    let plain = run_collision::<u64, 2, false, _, _>(&mut Prng::new(3), &g, &mut buf, &mut journal);
    let traded =
        run_collision_tradeoff::<u64, 2, false, _, _>(&mut Prng::new(3), &g, &mut buf, 3_000, 0, None, &mut journal);
    assert_eq!(traded, Ok(plain));
}

/// Of the cells 1, 2, 3, 0, 1, 2 a pass keeps those with a given top bit, sorted, in the front of the
/// buffer. What the passes do not reach stays.
#[test]
fn passes_leave_their_points_in_front() {
    let mut g = grid(2, 1, 0, 2);
    g.s = 62;
    let mut journal = Journal::new();
    let mut prng = incr::Prng::new(0);
    let mut buf = [9u64; 6];
    let r = run_collision_tradeoff::<u64, 1, false, _, _>(&mut prng, &g, &mut buf, 6, 1, Some(0), &mut journal);
    assert_eq!(r, Ok((1, 3)));
    assert_eq!(buf, [0, 1, 1, 9, 9, 9]);
    assert_eq!(prng.next_u64(), 7);
    let mut prng = incr::Prng::new(0);
    let r = run_collision_tradeoff::<u64, 1, false, _, _>(&mut prng, &g, &mut buf, 5, 1, None, &mut journal);
    assert_eq!(r, Ok((1, 5)));
    // The second pass has two points, 2 and 3; the third place is of the first pass.
    assert_eq!(buf, [2, 3, 1, 9, 9, 9]);
}

#[test]
fn decimated_runs_keep_the_rest_of_the_buffer() {
    let g = grid(8, 2, 2, 12);
    for checkpoints in [false, true] {
        let mut buf = vec![77_777u64; 4_000];
        let mut aux = vec![0u64; 4_000];
        let (_, kept) = run_collision_decimate::<u64, 2, false, _, _>(
            &mut Prng::new(11),
            &g,
            &mut buf,
            2_000,
            checkpoints,
            &mut aux,
            &mut Journal::new(),
        )
        .unwrap();
        assert!(kept < 4_000);
        assert!(buf[..kept].windows(2).all(|w| w[0] <= w[1]));
        assert!(buf[kept..].iter().all(|&x| x == 77_777));
    }
}

/// When a pass overflows, the passes before it and its beginning have been reported: of the cells 2,
/// 3, 0, 1, 2, 3 the first pass keeps two, and the second one four.
#[test]
fn an_overflowing_pass_ends_the_reports() {
    let mut g = grid(2, 1, 0, 2);
    g.s = 62;
    let mut journal = Journal::new();
    let mut buf = [0u64; 3];
    let r = run_collision_tradeoff::<u64, 1, false, _, _>(
        &mut incr::Prng::new(1),
        &g,
        &mut buf,
        6,
        1,
        None,
        &mut journal,
    );
    assert_eq!(r, Err(Bin::CollisionPass));
    assert_eq!(
        *journal.events(),
        [
            Event::Pass { pass: 1, passes: 2 },
            Event::Sorting,
            Event::Counting,
            Event::PassDone { points: 2, collisions: 0, all_points: 2, all_collisions: 0 },
            Event::Pass { pass: 2, passes: 2 },
        ]
    );
}

/// Every fourth of sixteen samples is kept, two in each of two stages.
#[test]
fn an_overflowing_stage_ends_the_reports() {
    let mut g = grid(4, 1, 2, 2);
    g.s = 60;
    let mut run = |buf: usize, aux: usize, checkpoints: bool| {
        let mut journal = Journal::new();
        let (mut buf, mut aux) = (vec![0u64; buf], vec![0u64; aux]);
        let r = run_collision_decimate::<u64, 1, false, _, _>(
            &mut incr::Prng::new(0),
            &g,
            &mut buf,
            4,
            checkpoints,
            &mut aux,
            &mut journal,
        );
        (r, journal.events().clone())
    };
    assert_eq!(run(3, 0, false), (Err(Bin::DecimatedCollision), vec![Event::Scanning { samples: 16, bits: 2 }]));
    let first = Event::Checkpoint { checkpoint: 1, checkpoints: 2 };
    assert_eq!(run(4, 1, true), (Err(Bin::CheckpointStage), vec![first]));
    assert_eq!(run(1, 2, true), (Err(Bin::CheckpointTotal), vec![first, Event::Sorting, Event::Merging]));
    assert_eq!(
        run(3, 2, true),
        (
            Err(Bin::CheckpointTotal),
            vec![
                first,
                Event::Sorting,
                Event::Merging,
                Event::Counting,
                Event::CheckpointDone { points: 2, collisions: 0 },
                Event::Checkpoint { checkpoint: 2, checkpoints: 2 },
                Event::Sorting,
                Event::Merging,
            ]
        )
    );
    assert_eq!(run(4, 2, true).0, Ok((0, 4)));
}
