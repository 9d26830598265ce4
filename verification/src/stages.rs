//! The stages of a scan with checkpoints.
use vstd::arithmetic::div_mod::*;
use vstd::arithmetic::mul::*;
use vstd::arithmetic::power2::*;
use vstd::prelude::*;

use crate::bits;
use crate::common;
use crate::progress::Event;
use crate::tally;

verus! {

/// The greatest number whose square is at most `n`.
pub open spec fn floor_sqrt(n: nat) -> nat
    decreases n,
{
    if n == 0 {
        0
    } else {
        let r: nat = floor_sqrt((n - 1) as nat);
        if (r + 1) * (r + 1) <= n {
            r + 1
        } else {
            r
        }
    }
}

/// The number of checkpoints, ⌊√2*ᵗᵈ*⌋, but no more than there are samples.
pub open spec fn checkpoints(td: nat, scan: nat) -> nat {
    let r: nat = floor_sqrt(pow2(td));
    if scan < r {
        scan
    } else if r < 1 {
        1
    } else {
        r
    }
}

/// The samples scanned when checkpoint `k` of `n` is reached.
pub open spec fn stage_end(scan: nat, n: nat, k: nat) -> nat {
    scan * k / n
}

/// The floor of the square root is where squares pass the number.
pub proof fn lemma_floor_sqrt(n: nat)
    ensures
        floor_sqrt(n) * floor_sqrt(n) <= n < (floor_sqrt(n) + 1) * (floor_sqrt(n) + 1),
    decreases n,
{
    if n > 0 {
        lemma_floor_sqrt((n - 1) as nat);
        let r: nat = floor_sqrt((n - 1) as nat);
        let q: nat = floor_sqrt(n);
        if q == r + 1 {
            assert((q + 1) * (q + 1) > (r + 1) * (r + 1) && q * q == (r + 1) * (r + 1)) by (nonlinear_arith)
                requires
                    q == r + 1,
            ;
        } else {
            assert(q == r);
        }
    } else {
        let q: nat = floor_sqrt(n);
        assert(q * q == 0 && (q + 1) * (q + 1) == 1) by (nonlinear_arith)
            requires
                q == 0,
        ;
    }
}

/// There is one such place.
proof fn lemma_floor_sqrt_unique(n: nat, r: nat)
    requires
        r * r <= n < (r + 1) * (r + 1),
    ensures
        r == floor_sqrt(n),
{
    lemma_floor_sqrt(n);
    let q: nat = floor_sqrt(n);
    if r < q {
        assert((r + 1) * (r + 1) <= q * q) by (nonlinear_arith)
            requires
                r + 1 <= q,
        ;
    } else if q < r {
        assert((q + 1) * (q + 1) <= r * r) by (nonlinear_arith)
            requires
                q + 1 <= r,
        ;
    }
}

/// The number of checkpoints of a scan.
pub fn num_checkpoints(td: usize, scan: usize) -> (r: usize)
    requires
        td < 64,
        scan > 0,
    ensures
        r == checkpoints(td as nat, scan as nat),
        1 <= r <= scan,
{
    proof {
        bits::lemma_word_moduli();
        bits::lemma_u128_one_shl(td as u128);
        lemma_pow2_strictly_increases(td as nat, 64);
    }
    let n: u128 = 1u128 << (td as u128);
    let mut lo: u64 = 0;
    let mut hi: u64 = 0x2_0000_0000;
    while hi - lo > 1
        invariant
            lo < hi <= 0x2_0000_0000,
            lo * lo <= n < hi * hi,
        decreases hi - lo,
    {
        let mid: u64 = lo + (hi - lo) / 2;
        assert(mid * mid <= 0x4_0000_0000_0000_0000) by (nonlinear_arith)
            requires
                mid <= 0x2_0000_0000,
        ;
        if (mid as u128) * (mid as u128) <= n {
            lo = mid;
        } else {
            hi = mid;
        }
    }
    proof {
        lemma_floor_sqrt_unique(n as nat, lo as nat);
    }
    if (scan as u64) < lo {
        scan
    } else if lo < 1 {
        1
    } else {
        lo as usize
    }
}

/// Stages follow each other, from the first sample to the last one.
pub proof fn lemma_stages(scan: nat, n: nat, k: nat)
    requires
        0 < n,
        k < n,
    ensures
        stage_end(scan, n, 0) == 0,
        stage_end(scan, n, n) == scan,
        stage_end(scan, n, k) <= stage_end(scan, n, k + 1) <= scan,
        n <= scan ==> stage_end(scan, n, k) < stage_end(scan, n, k + 1),
{
    assert(scan * 0 == 0) by (nonlinear_arith);
    lemma_div_multiples_vanish(scan as int, n as int);
    assert(scan * n == n * scan) by (nonlinear_arith);
    assert(scan * k <= scan * (k + 1) <= scan * n) by (nonlinear_arith)
        requires
            k + 1 <= n,
    ;
    lemma_div_is_ordered((scan * k) as int, (scan * (k + 1)) as int, n as int);
    lemma_div_is_ordered((scan * (k + 1)) as int, (scan * n) as int, n as int);
    if n <= scan {
        assert(scan * k + n <= scan * (k + 1)) by (nonlinear_arith)
            requires
                n <= scan,
        ;
        lemma_div_is_ordered((scan * k + n) as int, (scan * (k + 1)) as int, n as int);
        lemma_div_plus_one((scan * k) as int, n as int);
    }
}

/// Later checkpoints have scanned no fewer samples.
pub proof fn lemma_stages_ordered(scan: nat, n: nat, k: nat, m: nat)
    requires
        0 < n,
        k <= m,
    ensures
        stage_end(scan, n, k) <= stage_end(scan, n, m),
{
    assert(scan * k <= scan * m) by (nonlinear_arith)
        requires
            k <= m,
    ;
    lemma_div_is_ordered((scan * k) as int, (scan * m) as int, n as int);
}

/// The samples scanned when a checkpoint is reached.
pub fn stage_target(scan: usize, n: usize, k: usize) -> (r: usize)
    requires
        0 < n,
        k <= n,
    ensures
        r == stage_end(scan as nat, n as nat, k as nat),
        r <= scan,
{
    proof {
        if k < n {
            lemma_stages(scan as nat, n as nat, k as nat);
        } else {
            lemma_stages(scan as nat, n as nat, (k - 1) as nat);
        }
        assert(0 <= scan * k <= 0xffff_ffff_ffff_ffff * 0xffff_ffff_ffff_ffff) by (nonlinear_arith)
            requires
                scan <= 0xffff_ffff_ffff_ffff,
                k <= 0xffff_ffff_ffff_ffff,
        ;
    }
    ((scan as u128) * (k as u128) / (n as u128)) as usize
}

/// What the first `k` of `n` checkpoints report, given the points up to each of them.
pub open spec fn checkpoint_events(upto: spec_fn(nat) -> Seq<nat>, n: nat, k: nat) -> Seq<Event>
    decreases k,
{
    if k == 0 {
        Seq::empty()
    } else {
        checkpoint_events(upto, n, (k - 1) as nat) + seq![
            Event::Checkpoint { checkpoint: k as usize, checkpoints: n as usize },
            Event::Sorting,
            Event::Merging,
            Event::Counting,
            Event::CheckpointDone {
                points: upto(k).len() as usize,
                collisions: tally::collisions(upto(k)) as usize,
            },
        ]
    }
}

/// Whether a stage fits: its own points do, and those up to its checkpoint fit in a buffer that holds
/// `cap`.
pub open spec fn checkpoint_fits(
    upto: spec_fn(nat) -> Seq<nat>,
    fits: spec_fn(nat) -> bool,
    cap: nat,
) -> spec_fn(nat) -> bool {
    |k: nat| fits(k) && upto(k + 1).len() <= cap
}

/// What the stages of `n` checkpoints have reported when one of them does not fit: the one that is
/// being generated, or the one that is being merged.
pub open spec fn checkpoints_stopped(
    upto: spec_fn(nat) -> Seq<nat>,
    n: nat,
    fits: spec_fn(nat) -> bool,
    cap: nat,
) -> Seq<Event> {
    let k: nat = common::first_misfit(checkpoint_fits(upto, fits, cap), 0, n);
    checkpoint_events(upto, n, k) + seq![Event::Checkpoint { checkpoint: (k + 1) as usize, checkpoints: n as usize }] + (
    if fits(k) {
        seq![Event::Sorting, Event::Merging]
    } else {
        Seq::empty()
    })
}

/// Merging the sorted orders of two parts sorts the whole.
pub proof fn lemma_merge_sorted(a: Seq<nat>, b: Seq<nat>)
    ensures
        tally::sorted(tally::sorted(a) + tally::sorted(b)) == tally::sorted(a + b),
{
    tally::lemma_sorted(a);
    tally::lemma_sorted(b);
    vstd::seq_lib::lemma_multiset_commutative(a, b);
    vstd::seq_lib::lemma_multiset_commutative(tally::sorted(a), tally::sorted(b));
    tally::lemma_sorted_permuted(tally::sorted(a) + tally::sorted(b), a + b);
}

/// Checkpoints are evenly spaced: after `k` of `n` of them, `k`/`n` of the samples are scanned, rounded
/// down.
pub proof fn lemma_stage_end(scan: nat, n: nat, k: nat)
    requires
        n > 0,
    ensures
        n * stage_end(scan, n, k) <= scan * k < n * (stage_end(scan, n, k) + 1),
{
    let (x, m): (int, int) = ((scan * k) as int, n as int);
    lemma_fundamental_div_mod(x, m);
    lemma_mod_bound(x, m);
    let q: int = x / m;
    assert(m * (q + 1) == m * q + m) by (nonlinear_arith);
}

/// There are ⌊√2*ᵗᵈ*⌋ checkpoints: their square is at most 2*ᵗᵈ*, and that of one more exceeds it,
/// unless there are not enough samples.
pub proof fn lemma_checkpoints(td: nat, scan: nat)
    requires
        scan > 0,
    ensures
        1 <= checkpoints(td, scan) <= scan,
        checkpoints(td, scan) * checkpoints(td, scan) <= pow2(td),
        checkpoints(td, scan) < scan ==> pow2(td) < (checkpoints(td, scan) + 1) * (checkpoints(td, scan) + 1),
{
    lemma_floor_sqrt(pow2(td));
    lemma_pow2_pos(td);
    let r: nat = floor_sqrt(pow2(td));
    assert(r >= 1) by (nonlinear_arith)
        requires
            pow2(td) < (r + 1) * (r + 1),
            pow2(td) >= 1,
    ;
    let c: nat = checkpoints(td, scan);
    assert(c * c <= r * r) by (nonlinear_arith)
        requires
            c <= r,
    ;
}

/// What each checkpoint reports: for every one of them, its number and how many there are, and then the
/// number of points up to it and the collisions among exactly those points. It reports nothing else but
/// that it sorts, merges and counts.
pub proof fn lemma_checkpoint_reports(upto: spec_fn(nat) -> Seq<nat>, n: nat, k: nat, j: nat)
    requires
        j < k,
    ensures
        checkpoint_events(upto, n, k).len() == 5 * k,
        checkpoint_events(upto, n, k)[5 * j as int] == (Event::Checkpoint {
            checkpoint: (j + 1) as usize,
            checkpoints: n as usize,
        }),
        checkpoint_events(upto, n, k)[5 * j as int + 1] == Event::Sorting,
        checkpoint_events(upto, n, k)[5 * j as int + 2] == Event::Merging,
        checkpoint_events(upto, n, k)[5 * j as int + 3] == Event::Counting,
        checkpoint_events(upto, n, k)[5 * j as int + 4] == (Event::CheckpointDone {
            points: upto(j + 1).len() as usize,
            collisions: Set::new(
                |i: int| 0 <= i < upto(j + 1).len() && upto(j + 1).take(i).contains(upto(j + 1)[i]),
            ).len() as usize,
        }),
    decreases k,
{
    let before: Seq<Event> = checkpoint_events(upto, n, (k - 1) as nat);
    tally::lemma_collisions_repeats(upto(j + 1));
    if j + 1 < k {
        lemma_checkpoint_reports(upto, n, (k - 1) as nat, j);
    } else if k > 1 {
        lemma_checkpoint_reports(upto, n, (k - 1) as nat, 0);
    } else {
        assert(checkpoint_events(upto, n, 0) =~= Seq::<Event>::empty());
    }
}

/// When the stage after checkpoint `k` is the first that does not fit, the reports end with it: where it
/// is generated, if its own points do not fit, and else where it is merged.
pub proof fn lemma_checkpoints_stopped(
    upto: spec_fn(nat) -> Seq<nat>,
    n: nat,
    fits: spec_fn(nat) -> bool,
    cap: nat,
    k: nat,
)
    requires
        k < n,
        forall|j: nat| j < k ==> #[trigger] fits(j) && upto(j + 1).len() <= cap,
        !(fits(k) && upto(k + 1).len() <= cap),
    ensures
        !fits(k) ==> checkpoints_stopped(upto, n, fits, cap) == checkpoint_events(upto, n, k).push(
            Event::Checkpoint { checkpoint: (k + 1) as usize, checkpoints: n as usize },
        ),
        fits(k) ==> checkpoints_stopped(upto, n, fits, cap) == checkpoint_events(upto, n, k).push(
            Event::Checkpoint { checkpoint: (k + 1) as usize, checkpoints: n as usize },
        ).push(Event::Sorting).push(Event::Merging),
{
    let steps: spec_fn(nat) -> bool = checkpoint_fits(upto, fits, cap);
    assert forall|j: nat| 0 <= j < k implies #[trigger] steps(j) by {
        assert(fits(j));
    }
    common::lemma_first_misfit(steps, 0, n, k);
    let begun: Seq<Event> = checkpoint_events(upto, n, k).push(
        Event::Checkpoint { checkpoint: (k + 1) as usize, checkpoints: n as usize },
    );
    if fits(k) {
        assert(checkpoints_stopped(upto, n, fits, cap) =~= begun.push(Event::Sorting).push(Event::Merging));
    } else {
        assert(checkpoints_stopped(upto, n, fits, cap) =~= begun);
    }
}

} // verus!
