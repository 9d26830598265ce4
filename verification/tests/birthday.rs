//! Tests of the birthday-spacings runners.
use coll_birth::birthday::{compute_spacings, run_birthday, run_birthday_tradeoff};
use coll_birth::common::{count_adjacent_equals, sort_and_count, sort_prefix, Bin, Cells, GridParams};
use coll_birth::prng::{incr, Prng};
use coll_birth::progress::{Event, Journal};

fn grid(u: usize, t: usize, d: usize, bits: usize) -> GridParams {
    GridParams {
        u,
        t,
        s: 0,
        d,
        cells: Cells::power_of_two(bits).unwrap(),
    }
}

/// A buffer size that a bin of a uniform generator does not exceed.
fn buffer_size(points: usize, partition_bits: usize) -> usize {
    if partition_bits == 0 {
        return points;
    }
    let mean = points as f64 / 2.0f64.powi(partition_bits as i32);
    let l = (partition_bits as f64) * std::f64::consts::LN_2 + 1000.0 * std::f64::consts::LN_10;
    let dev = l / 3.0 + (l * l / 9.0 + 2.0 * mean * l).sqrt();
    ((mean + dev).ceil() as usize).min(points)
}

/// Both generators are at the same place.
fn same_place(a: Prng, b: Prng) -> bool {
    let (mut a, mut b) = (a, b);
    (0..4).all(|_| a.next_u64() == b.next_u64())
}

// The two-level birthday tradeoff visits the same point multiset as a single sweep, so its summed
// per-class spacing-collision count equals plain birthday.
#[test]
fn test_birthday_tradeoff_matches_plain_no_decimation() {
    let (u, t, b, d) = (8usize, 2usize, 4usize, 0usize);
    let g = grid(u, t, d, u * t); // 2^16
    let points = 4_000usize;
    let start = Prng::new(12_345);
    let mut journal = Journal::new();

    let mut plain = start;
    let mut buf_plain = vec![0u64; points];
    let c_plain =
        run_birthday::<u64, 0, false, false, _, _>(&mut plain, &g, &mut buf_plain, points, &mut journal).unwrap();

    let mut traded = start;
    let mut class_buf = vec![0u64; buffer_size(points, b)];
    let mut scratch = vec![0u64; buffer_size(points, b)];
    let c_traded = run_birthday_tradeoff::<u64, 0, false, false, _, _>(
        &mut traded,
        &g,
        &mut class_buf,
        &mut scratch,
        points,
        b,
        None,
        &mut journal,
    )
    .unwrap();
    assert_eq!(
        c_plain, c_traded,
        "birthday tradeoff must match the plain birthday count"
    );
    assert!(same_place(plain, traded));
}

// The wrap-around is computed via cells − 1, so an N-bit type works even when cells == 2^N exactly
// (no strictly-wider type needed). At the 2^32 boundary u32 and u64 storage must produce identical
// counts.
#[test]
fn test_birthday_width_boundary_u32_matches_u64() {
    let (u, t) = (16usize, 2usize);
    let g = grid(u, t, 0, 32); // exactly 2^32
    let points = 50_000usize; // λ = n³/4k ≈ 7276, so collisions occur
    let mut journal = Journal::new();

    let mut p32 = Prng::new(42);
    let mut buf32 = vec![0u32; points];
    let c32 = run_birthday::<u32, 0, false, false, _, _>(&mut p32, &g, &mut buf32, points, &mut journal).unwrap();

    let mut p64 = Prng::new(42);
    let mut buf64 = vec![0u64; points];
    let c64 = run_birthday::<u64, 0, false, false, _, _>(&mut p64, &g, &mut buf64, points, &mut journal).unwrap();

    assert!(c32.0 > 0, "boundary test should observe spacing collisions");
    assert_eq!(c32, c64, "u32 and u64 storage must agree at cells == 2^32");
}

// cells == 2^128 in u128 storage: the largest possible grid. Both runners must complete and agree
// (the counts are ~0 at this density; the value of the test is exercising the wrap arithmetic at the
// type limit).
#[test]
fn test_birthday_2_pow_128_cells_tradeoff_matches_plain() {
    let (u, t, b) = (64usize, 2usize, 2usize);
    let g = grid(u, t, 0, 128);
    let points = 4_000usize;
    let start = Prng::new(7);
    let mut journal = Journal::new();

    let mut plain = start;
    let mut buf_plain = vec![0u128; points];
    let c_plain =
        run_birthday::<u128, 0, false, true, _, _>(&mut plain, &g, &mut buf_plain, points, &mut journal).unwrap();

    let mut traded = start;
    let mut class_buf = vec![0u128; buffer_size(points, b)];
    let mut scratch = vec![0u128; buffer_size(points, b)];
    let c_traded = run_birthday_tradeoff::<u128, 0, false, true, _, _>(
        &mut traded,
        &g,
        &mut class_buf,
        &mut scratch,
        points,
        b,
        None,
        &mut journal,
    )
    .unwrap();
    assert_eq!(c_plain, c_traded);
}

// Same property with decimation on: both runs decimate the same stream, so the accepted points (and
// therefore the spacings) match.
#[test]
fn test_birthday_tradeoff_matches_plain_with_decimation() {
    let (u, t, b, d) = (10usize, 2usize, 4usize, 2usize);
    let g = grid(u, t, d, (u - d) * t); // 2^16 effective
    let points = 4_000usize;
    let scan_len = points << (t * d);
    let start = Prng::new(99);
    let mut journal = Journal::new();

    let mut plain = start;
    let mut buf_plain = vec![0u64; buffer_size(scan_len, t * d)];
    let c_plain =
        run_birthday::<u64, 0, true, false, _, _>(&mut plain, &g, &mut buf_plain, points, &mut journal).unwrap();

    let mut traded = start;
    let mut class_buf = vec![0u64; buffer_size(points, b)];
    let mut scratch = vec![0u64; buffer_size(scan_len, t * d + b)];
    let c_traded = run_birthday_tradeoff::<u64, 0, true, false, _, _>(
        &mut traded,
        &g,
        &mut class_buf,
        &mut scratch,
        points,
        b,
        None,
        &mut journal,
    )
    .unwrap();
    assert_eq!(c_plain, c_traded);
}

// Non-degenerate at the boundary: sorted points {3, 10, 2⁶⁴ − 1} on a circle of 2⁶⁴ cells have
// spacings {7, 2⁶⁴ − 11} and wrap 2⁶⁴ − (2⁶⁴ − 1) + 3 = 4, none of which overflow u64 despite cells
// itself being unrepresentable.
#[test]
fn test_wrap_at_width_boundary_is_exact() {
    let cells = Cells::power_of_two(64).unwrap();
    let mut v = [3u64, 10, u64::MAX];
    compute_spacings(&mut v, cells);
    assert_eq!(v[0], 4, "wrap-around spacing");
    assert_eq!(v[1], 7);
    assert_eq!(v[2], u64::MAX - 10);
}

// Degenerate case at the boundary: all points coincide, so the wrap-around would equal cells ==
// 2⁶⁴. It is replaced by a nonzero stand-in; the n − 1 zero spacings then yield exactly n − 2
// collisions, the true count.
#[test]
fn test_degenerate_equal_points_at_width_boundary() {
    let cells = Cells::power_of_two(64).unwrap();
    let mut v = [7u64, 7, 7, 7];
    compute_spacings(&mut v, cells);
    v.sort_unstable();
    assert_eq!(count_adjacent_equals(&v), 2);
}

#[test]
fn spacings_go_round_the_circle() {
    let mut none: [u32; 0] = [];
    compute_spacings(&mut none, Cells::up_to(9));
    let mut one = [4u32];
    compute_spacings(&mut one, Cells::up_to(9));
    assert_eq!(one, [1]);
    let mut v = [1u32, 4, 4, 8];
    compute_spacings(&mut v, Cells::up_to(9));
    assert_eq!(v, [3, 3, 0, 4]);
    // Over many chunks.
    let mut v: Vec<u64> = (0..20_000u64).map(|i| i * i).collect();
    compute_spacings(&mut v, Cells::power_of_two(40).unwrap());
    assert_eq!(v[0], (1u64 << 40) - 19_999 * 19_999);
    for i in 1..20_000u64 {
        assert_eq!(v[i as usize], 2 * i - 1);
    }
}

/// Consecutive points are all at distance one, but for the way round.
#[test]
fn a_counter_is_evenly_spaced() {
    let mut g = grid(16, 1, 0, 16);
    g.s = 48;
    let mut prng = incr::Prng::new(10);
    let mut journal = Journal::new();
    let mut buf = vec![0u32; 100];
    let r = run_birthday::<u32, 1, false, false, _, _>(&mut prng, &g, &mut buf, 100, &mut journal);
    assert_eq!(r, Ok((98, 100)));
    assert_eq!(prng.next_u64(), 111);
    assert_eq!(
        journal.events(),
        &[
            Event::Generating,
            Event::Sorting,
            Event::Spacing,
            Event::SortingSpacings,
            Event::Counting,
            Event::Done { points: 100 },
        ]
    );
    // Only two of the classes have spacings: the ones, and the way round.
    let mut scratch = vec![0u32; 100];
    for k in 0..4u64 {
        let mut journal = Journal::new();
        let r = run_birthday_tradeoff::<u32, 1, false, false, _, _>(
            &mut incr::Prng::new(10),
            &g,
            &mut buf,
            &mut scratch,
            100,
            2,
            Some(k),
            &mut journal,
        );
        // 2¹⁶ − 99 is 1 modulo 4.
        assert_eq!(r, Ok((if k == 1 { 98 } else { 0 }, 100)));
        let events = journal.events();
        assert_eq!(events[0], Event::Classes { classes: 4 });
        let empty = events.iter().filter(|e| **e == Event::IntervalEmpty).count();
        assert_eq!(empty, 3);
        let spacings = if k == 1 { 100 } else { 0 };
        let collisions = if k == 1 { 98 } else { 0 };
        assert!(events.contains(&Event::ClassDone {
            class: k + 1,
            of: 4,
            spacings,
            collisions,
            all_collisions: collisions
        }));
    }
}

#[test]
fn full_birthday_bins_are_noticed() {
    let g = grid(10, 2, 2, 16);
    let points = 1_000usize;
    let mut journal = Journal::new();
    let mut small = vec![0u64; 10];
    let r = run_birthday::<u64, 2, true, false, _, _>(&mut Prng::new(1), &g, &mut small, points, &mut journal);
    assert_eq!(r, Err(Bin::DecimatedBirthday));
    let mut large = vec![0u64; 2_000];
    let r = run_birthday_tradeoff::<u64, 2, true, false, _, _>(
        &mut Prng::new(1),
        &g,
        &mut large,
        &mut small,
        points,
        2,
        None,
        &mut journal,
    );
    assert_eq!(r, Err(Bin::BirthdayInterval));
    let r = run_birthday_tradeoff::<u64, 2, true, false, _, _>(
        &mut Prng::new(1),
        &g,
        &mut small,
        &mut large,
        points,
        2,
        None,
        &mut journal,
    );
    assert_eq!(r, Err(Bin::BirthdayClass));
}

#[test]
fn the_order_of_points_does_not_matter() {
    let cells = Cells::up_to(99);
    let mut counts = Vec::new();
    for points in [[5u64, 80, 11, 17, 23, 50], [50, 23, 17, 11, 80, 5], [17, 5, 50, 80, 23, 11]] {
        let mut v = points;
        sort_prefix(&mut v, 6);
        compute_spacings(&mut v, cells);
        // 25, 6, 6, 6, 27, 30.
        counts.push(sort_and_count(&mut v, 6, &mut Journal::new()));
    }
    assert_eq!(counts, [2, 2, 2]);
}

#[test]
fn spacings_leave_the_rest_of_the_buffer() {
    let mut g = grid(16, 1, 0, 16);
    g.s = 48;
    let mut buf = vec![7u32; 10];
    let r = run_birthday::<u32, 1, false, false, _, _>(&mut incr::Prng::new(10), &g, &mut buf, 4, &mut Journal::new());
    assert_eq!(r, Ok((2, 4)));
    assert_eq!(buf, [1, 1, 1, 65_533, 7, 7, 7, 7, 7, 7]);
    // The last class is empty, and leaves what the classes before it collected: the ones, and the way
    // round, which is 1 modulo 4.
    let mut classes = vec![7u32; 6];
    let mut scratch = vec![0u32; 6];
    let r = run_birthday_tradeoff::<u32, 1, false, false, _, _>(
        &mut incr::Prng::new(10),
        &g,
        &mut classes,
        &mut scratch,
        4,
        2,
        None,
        &mut Journal::new(),
    );
    assert_eq!(r, Ok((2, 4)));
    assert_eq!(classes, [1, 1, 1, 65_533, 7, 7]);
}

/// Of the points 11 to 14 all are in the first of four intervals, and all spacings are 1 modulo 4.
#[test]
fn an_overflowing_class_ends_the_reports() {
    let mut g = grid(16, 1, 0, 16);
    g.s = 48;
    let run = |class_buf: usize, scratch: usize, pass: Option<u64>| {
        let mut journal = Journal::new();
        let (mut class_buf, mut scratch) = (vec![0u32; class_buf], vec![0u32; scratch]);
        let r = run_birthday_tradeoff::<u32, 1, false, false, _, _>(
            &mut incr::Prng::new(10),
            &g,
            &mut class_buf,
            &mut scratch,
            4,
            2,
            pass,
            &mut journal,
        );
        (r, journal.events().clone())
    };
    let start = Event::Classes { classes: 4 };
    let first = |interval: u64| Event::Interval { class: 1, interval, of: 4 };
    let second = |interval: u64| Event::Interval { class: 2, interval, of: 4 };
    assert_eq!(run(4, 3, None), (Err(Bin::BirthdayInterval), vec![start, first(1)]));
    // The three spacings between the points do not fit.
    assert_eq!(run(2, 4, Some(1)), (Err(Bin::BirthdayClass), vec![start, second(1), Event::Sorting]));
    // The way round does not fit.
    assert_eq!(
        run(3, 4, Some(1)),
        (
            Err(Bin::BirthdayClass),
            vec![
                start,
                second(1),
                Event::Sorting,
                Event::IntervalDone { points: 4 },
                second(2),
                Event::IntervalEmpty,
                second(3),
                Event::IntervalEmpty,
                second(4),
                Event::IntervalEmpty,
            ]
        )
    );
    // The class before it is reported in full.
    assert_eq!(
        run(2, 4, None),
        (
            Err(Bin::BirthdayClass),
            vec![
                start,
                first(1),
                Event::Sorting,
                Event::IntervalDone { points: 4 },
                first(2),
                Event::IntervalEmpty,
                first(3),
                Event::IntervalEmpty,
                first(4),
                Event::IntervalEmpty,
                Event::ClassDone { class: 1, of: 4, spacings: 0, collisions: 0, all_collisions: 0 },
                second(1),
                Event::Sorting,
            ]
        )
    );
    assert_eq!(run(4, 4, None).0, Ok((2, 4)));
}

#[test]
fn an_overflowing_scan_ends_the_reports() {
    let mut g = grid(16, 1, 2, 14);
    g.s = 48;
    let mut journal = Journal::new();
    let mut buf = [0u32; 3];
    let r = run_birthday::<u32, 1, true, false, _, _>(&mut incr::Prng::new(0), &g, &mut buf, 4, &mut journal);
    assert_eq!(r, Err(Bin::DecimatedBirthday));
    assert_eq!(*journal.events(), [Event::Generating]);
}
