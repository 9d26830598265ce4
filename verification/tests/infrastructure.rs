//! Tests of counting, merging, compaction, and of the split of a scan among threads.
use coll_birth::common::{
    chunk_lens, compact_blocks, count_adjacent_equals, merge_into, pass_count, scan_samples, Cells, GridParams,
};
use coll_birth::fill::{gen_pass_dispatch, gen_unit_contiguous};
use coll_birth::orbit::{prescan_checkpoints, ranges, share_lens, share_starts, OrbitPartition};
use coll_birth::prng::{incr, romuduo, Prng};
use coll_birth::progress::{Event, Journal, Listener, Relay};
use coll_birth::stages::{num_checkpoints, stage_target};
use coll_birth::util::parallelism;

// incr has analytic state: next_u64 does x += 1 then returns x, so a generator seeded at seed reaches
// state x = seed + n after n steps and its next output is seed + n + 1.
#[test]
fn test_prescan_lands_at_jump_targets() {
    let seed = 0x1234_5678_9abc_def0u64;
    let t = 3usize;
    let total = 1000usize;
    let boundaries = [0usize, 137, 500, 999];
    let (snaps, end) = prescan_checkpoints(incr::Prng::new(seed), t, total, &boundaries);
    assert_eq!(snaps.len(), boundaries.len());
    for (k, &b) in boundaries.iter().enumerate() {
        let mut s = snaps[k];
        let expected = seed.wrapping_add((b * t) as u64).wrapping_add(1);
        assert_eq!(
            s.next_u64(),
            expected,
            "snapshot {k} at boundary {b} landed wrong"
        );
    }
    let mut e = end;
    let expected_end = seed.wrapping_add((total * t) as u64).wrapping_add(1);
    assert_eq!(e.next_u64(), expected_end, "chained end state landed wrong");
}

/// Lay sentinel-padded blocks into a buffer of capacity `Σ caps`, run `compact_blocks`, and check the
/// kept prefixes come out concatenated.
fn check(caps: &[usize], used: &[usize]) {
    let cap_total: usize = caps.iter().sum();
    // Each kept slot of block i carries a unique value (i*1000 + j); padding and trailing gap carry a
    // distinguishable sentinel.
    let mut buf = vec![u64::MAX; cap_total];
    let mut base = 0usize;
    let mut expected: Vec<u64> = Vec::new();
    for (i, (&cap, &len)) in caps.iter().zip(used).enumerate() {
        for j in 0..len {
            let v = (i as u64) * 1000 + j as u64;
            buf[base + j] = v;
            expected.push(v);
        }
        base += cap;
    }
    let total = compact_blocks::<u64>(&mut buf, caps, used);
    assert_eq!(
        total,
        used.iter().sum::<usize>(),
        "total for {caps:?}/{used:?}"
    );
    assert_eq!(
        &buf[..total],
        &expected[..],
        "compacted for {caps:?}/{used:?}"
    );
}

#[test]
fn test_compaction_cases() {
    check(&[5, 5, 5], &[5, 5, 5]); // all full: plain no-op
    check(&[5, 5, 5], &[3, 4, 2]); // generic gaps
    check(&[5, 5, 5], &[0, 4, 2]); // first empty
    check(&[5, 5, 5], &[3, 0, 2]); // middle empty
    check(&[5, 5, 5], &[3, 4, 0]); // last empty
    check(&[5, 5, 5], &[0, 0, 0]); // all empty
    check(&[10, 1, 7], &[1, 1, 7]); // big leftward shift, full last block
    check(&[4], &[2]); // single block
    check(&[0, 5, 0, 3], &[0, 5, 0, 3]); // zero-capacity sub-regions
}

#[test]
fn scans_count_samples() {
    assert_eq!(scan_samples(10_000, 2, 3), Some(640_000));
    assert_eq!(scan_samples(5, 1, 0), Some(5));
    assert_eq!(scan_samples(0, 3, 4), Some(0));
    assert_eq!(scan_samples(1, 1, 63), Some(1 << 63));
    assert_eq!(scan_samples(2, 1, 63), None);
    assert_eq!(scan_samples(1, 2, 32), None);
    assert_eq!(scan_samples(0, 2, 32), None);
    assert_eq!(scan_samples(usize::MAX, 1, 1), None);
    assert_eq!(scan_samples(1, usize::MAX, 2), None);
}

#[test]
fn adjacent_equals_are_counted_across_chunks() {
    assert_eq!(count_adjacent_equals::<u64>(&[]), 0);
    assert_eq!(count_adjacent_equals::<u64>(&[7]), 0);
    assert_eq!(count_adjacent_equals::<u32>(&[7, 7]), 1);
    assert_eq!(count_adjacent_equals::<u64>(&[1, 1, 2, 3, 3, 3]), 3);
    // All equal, over many chunks: one less than there are.
    assert_eq!(count_adjacent_equals::<u32>(&vec![5u32; 100_000]), 99_999);
    // Pairs that straddle every multiple of 1024.
    let v: Vec<u64> = (0..50_000u64).map(|i| (i + 1) / 2).collect();
    assert_eq!(count_adjacent_equals(&v), 24_999);
}

#[test]
fn merging_sorts_and_keeps_the_rest() {
    let mut buf = vec![1u64, 3, 5, 7, 0, 0, 0, 99];
    merge_into(&mut buf, 4, &[2, 5, 9]);
    assert_eq!(buf, [1, 2, 3, 5, 5, 7, 9, 99]);
    let mut buf = vec![4u64, 5, 0, 0];
    merge_into(&mut buf, 2, &[1, 2]);
    assert_eq!(buf, [1, 2, 4, 5]);
    let mut buf = vec![0u64, 0, 8];
    merge_into(&mut buf, 0, &[3, 4]);
    assert_eq!(buf, [3, 4, 8]);
    let mut buf = vec![3u64, 4];
    merge_into(&mut buf, 2, &[]);
    assert_eq!(buf, [3, 4]);
}

#[test]
fn chunks_cover_a_slice() {
    assert_eq!(chunk_lens(0, 1024), Vec::<usize>::new());
    assert_eq!(chunk_lens(5, 1024), [5]);
    assert_eq!(chunk_lens(2048, 1024), [1024, 1024]);
    assert_eq!(chunk_lens(2500, 1024), [1024, 1024, 452]);
}

#[test]
fn ranges_cover_a_scan() {
    assert_eq!(share_lens(10, 3), [4, 3, 3]);
    assert_eq!(share_starts(10, 3), [0, 4, 7]);
    assert_eq!(share_lens(2, 4), [1, 1, 0, 0]);
    assert_eq!(share_starts(2, 4), [0, 1, 2, 2]);
    assert_eq!(ranges(4, 10), 4);
    assert_eq!(ranges(20, 10), 10);
    assert_eq!(ranges(0, 10), 1);
    assert_eq!(ranges(5, 0), 1);
}

#[test]
fn partitions_reach_their_ranges() {
    // Jump-ahead.
    let mut journal = Journal::new();
    let mut jumping: OrbitPartition<incr::Prng> = OrbitPartition::new(100, 3, 10, 2);
    assert_eq!(jumping.num_cpus(), 3);
    assert_eq!(jumping.split_desc(), "jump-ahead");
    assert_eq!([jumping.start_sample(0), jumping.start_sample(1), jumping.start_sample(2)], [0, 4, 7]);
    for rep in 1..4usize {
        let snaps = jumping.rep_snapshots(rep, &mut journal);
        for (i, start) in [0u64, 4, 7].into_iter().enumerate() {
            let mut s = snaps[i];
            assert_eq!(s.next_u64(), 101 + 2 * (10 * (rep as u64 - 1) + start));
        }
    }
    assert_eq!(journal.events().len(), 0);
    // Pre-scan, against a walk.
    let mut walking: OrbitPartition<romuduo::Prng> = OrbitPartition::new(5, 3, 10, 2);
    assert_eq!(walking.split_desc(), "pre-scan");
    let mut walk = romuduo::Prng::new(5);
    for rep in 1..4usize {
        let snaps = walking.rep_snapshots(rep, &mut journal);
        for sample in 0..10 {
            for (i, start) in [0, 4, 7].into_iter().enumerate() {
                if start == sample {
                    let (mut a, mut b) = (snaps[i], walk);
                    assert_eq!(a.next_u64(), b.next_u64());
                }
            }
            walk.next_u64();
            walk.next_u64();
        }
    }
    assert_eq!(journal.events()[0], Event::Prescan);
    assert_eq!(journal.events()[1], Event::PrescanDone);
    assert_eq!(journal.events().len(), 6);
}

#[test]
fn cell_counts_reach_the_limit() {
    assert!(Cells::power_of_two(129).is_none());
    assert_eq!(Cells::power_of_two(128).unwrap().last(), u128::MAX);
    assert_eq!(Cells::power_of_two(0).unwrap().last(), 0);
    assert_eq!(Cells::power_of_two(64).unwrap().last(), u64::MAX as u128);
    assert_eq!(Cells::up_to(41).last(), 41);
    assert_eq!(pass_count(0), 1);
    assert_eq!(pass_count(63), 1 << 63);
}

#[test]
fn checkpoints_are_square_roots() {
    // ⌊√2⁴⌋, ⌊√2⁵⌋, ⌊√2⁶³⌋, and no more than there are samples.
    assert_eq!(num_checkpoints(0, 10), 1);
    assert_eq!(num_checkpoints(1, 10), 1);
    assert_eq!(num_checkpoints(4, 1000), 4);
    assert_eq!(num_checkpoints(5, 1000), 5);
    assert_eq!(num_checkpoints(7, 1000), 11);
    assert_eq!(num_checkpoints(63, usize::MAX), 3_037_000_499);
    assert_eq!(num_checkpoints(20, 7), 7);
    assert_eq!(stage_target(10, 3, 1), 3);
    assert_eq!(stage_target(10, 3, 2), 6);
    assert_eq!(stage_target(10, 3, 3), 10);
    assert_eq!(stage_target(usize::MAX, 3, 3), usize::MAX);
}

fn grid(u: usize, t: usize, d: usize) -> GridParams {
    GridParams {
        u,
        t,
        s: 0,
        d,
        cells: Cells::power_of_two((u - d) * t).unwrap(),
    }
}

/// Several regions, filled in parallel, hold what one scan gives, in the same order; a region that is
/// too small is noticed.
#[test]
fn regions_join_to_one_scan() {
    for t in [1usize, 2, 3, 9] {
        for (b, pass, d) in [(0usize, 0u64, 0usize), (2, 1, 0), (2, 3, 1), (0, 0, 1)] {
            let params = grid(6, t, d);
            let total = 1000usize;
            let mut whole = vec![0u64; total];
            let (n, mut end) =
                gen_pass_dispatch::<u64, Prng>(Prng::new(3), &params, &mut whole, total, pass, b, d > 0, false).unwrap();
            let mut walk = Prng::new(3);
            for _ in 0..total * t {
                walk.next_u64();
            }
            assert_eq!(end.next_u64(), walk.next_u64());
            let (lens, starts) = (share_lens(total, 3), share_starts(total, 3));
            let mut snaps = Vec::new();
            for s in starts {
                let mut g = Prng::new(3);
                g.try_skip((s * t) as u64).unwrap();
                snaps.push(g);
            }
            let caps = [400usize, 350, 400];
            let mut buf = vec![0u64; 1200];
            let m = gen_unit_contiguous::<u64, Prng>(&mut buf, &caps, &snaps, &params, &lens, pass, b, d > 0, false)
                .unwrap();
            assert_eq!(n, m);
            assert_eq!(&whole[..n], &buf[..m]);
            if b == 0 && d == 0 {
                assert_eq!(n, total);
                let short = [400usize, 332, 400];
                assert!(gen_unit_contiguous::<u64, Prng>(
                    &mut buf, &short, &snaps, &params, &lens, pass, b, false, false
                )
                .is_none());
            }
        }
    }
}

#[test]
fn the_pool_has_threads() {
    assert!(parallelism() >= 1);
}

/// Counts what it hears.
struct Ear {
    heard: Vec<Event>,
}

impl Listener for Ear {
    fn hear(&mut self, event: Event) {
        self.heard.push(event);
    }
}

#[test]
fn a_relay_tells_everything() {
    let mut relay = Relay::new(Ear { heard: Vec::new() });
    let mut journal = Journal::new();
    let mut a: OrbitPartition<romuduo::Prng> = OrbitPartition::new(5, 3, 10, 2);
    let mut b: OrbitPartition<romuduo::Prng> = OrbitPartition::new(5, 3, 10, 2);
    a.rep_snapshots(1, &mut relay);
    b.rep_snapshots(1, &mut journal);
    assert_eq!(relay.listener().heard, *journal.events());
    assert_eq!(journal.events().len(), 2);
}

#[test]
fn generation_keeps_the_rest_of_the_buffer() {
    let params = grid(6, 2, 0);
    let mut buf = vec![u64::MAX; 20];
    let (n, _) = gen_pass_dispatch::<u64, Prng>(Prng::new(3), &params, &mut buf, 30, 1, 2, false, false).unwrap();
    assert!(n < 20);
    assert!(buf[..n].iter().all(|&x| x >> 10 == 1));
    assert!(buf[n..].iter().all(|&x| x == u64::MAX));
    let mut buf = vec![u64::MAX; 25];
    let snaps = [Prng::new(3), Prng::new(4)];
    let n = gen_unit_contiguous::<u64, Prng>(&mut buf, &[10, 10], &snaps, &params, &[10, 10], 0, 0, false, false);
    assert_eq!(n, Some(20));
    assert_eq!(&buf[20..], &[u64::MAX; 5]);
}

#[test]
fn compaction_leaves_what_is_behind_the_blocks() {
    let mut buf = [1u64, 2, 3, 4, 5, 6, 7];
    assert_eq!(compact_blocks(&mut buf, &[3, 2], &[1, 2]), 3);
    assert_eq!(buf[..3], [1, 4, 5]);
    assert_eq!(buf[5..], [6, 7]);
    let mut buf = [1u64, 2, 3, 4, 5, 6, 7];
    assert_eq!(compact_blocks(&mut buf, &[3, 2], &[3, 2]), 5);
    assert_eq!(buf, [1, 2, 3, 4, 5, 6, 7]);
}

/// Only the boundaries have to be within reach, not the end of the window.
#[test]
fn snapshots_reach_as_far_as_offsets_can_be_counted() {
    let base = (u64::MAX / 2 - 10) as usize;
    let mut partition: OrbitPartition<incr::Prng> = OrbitPartition::new(0, 1, 1, 2);
    let snaps = partition.snapshots(base, usize::MAX, &[10, 3], false, &mut Journal::new());
    let (mut a, mut b) = (snaps[0], snaps[1]);
    assert_eq!(a.next_u64(), u64::MAX);
    assert_eq!(b.next_u64(), u64::MAX - 14);
}
