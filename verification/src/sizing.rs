//! What the buffers of a test have to hold, and the storage of its cells.
use vstd::arithmetic::div_mod::*;
use vstd::arithmetic::power2::*;
use vstd::prelude::*;

use crate::circle;
use crate::classes;
use crate::cli::Args;
use crate::collision;
use crate::common;
use crate::common::{chunks_of, scan_samples};
use crate::orbit;
use crate::orbit::{ranges, share_lens};
use crate::parallel;
use crate::prng::Generator;
use crate::runs;
use crate::sampling;
use crate::stages;
use crate::stages::num_checkpoints;
use crate::tally;

verus! {

/// A bin: of a number of samples it gets those in which some bits have given values.
#[derive(Clone, Copy, PartialEq, Eq, Debug, Structural)]
pub struct Load {
    /// The samples.
    pub samples: usize,
    /// The bits by which they are selected.
    pub bits: usize,
}

/// The bits by which samples are selected: those decimated in each dimension, and those of the
/// tradeoff.
pub open spec fn partition_bits(args: &Args) -> int {
    args.t * runs::decimation(args) + runs::tradeoff(args)
}

/// The samples of the longest checkpoint stage.
pub open spec fn longest_stage(args: &Args, points: usize) -> int {
    let scan: nat = runs::rep_scan(args, points);
    common::chunk_count(
        scan as int,
        stages::checkpoints((args.t * runs::decimation(args)) as nat, scan) as int,
    )
}

/// A bin of a number of samples, by the bits of a test.
pub open spec fn load(args: &Args, samples: int) -> Load {
    Load { samples: samples as usize, bits: partition_bits(args) as usize }
}

/// What the buffers of a sequential test have to hold. The first one takes the kept points of the
/// scan, except that the birthday-spacings tradeoff collects the spacings of a class in it and keeps
/// the points of a value interval in the second one. Checkpoints take a second buffer too, for a
/// stage.
pub open spec fn sequential(args: &Args, points: usize) -> (Load, Option<Load>) {
    let direct: Load = load(args, runs::rep_scan(args, points) as int);
    if args.birthday_spacings && runs::tradeoff(args) > 0 {
        (Load { samples: points, bits: runs::tradeoff(args) as usize }, Some(direct))
    } else if args.checkpoints {
        (direct, Some(load(args, longest_stage(args, points))))
    } else {
        (direct, None)
    }
}

/// What the region of thread `i` of `n` has to hold: its range of the scan, or of the longest
/// checkpoint stage.
pub open spec fn region(args: &Args, points: usize, n: int, i: int) -> Load {
    if args.checkpoints {
        load(args, common::chunk_count(longest_stage(args, points), n) + 1)
    } else {
        load(args, orbit::share_len(runs::rep_scan(args, points) as int, n, i))
    }
}

/// What the second buffer of a parallel test has to hold: the spacings of a class, or the points of
/// all checkpoint stages.
pub open spec fn second(args: &Args, points: usize) -> Option<Load> {
    if args.birthday_spacings || args.checkpoints {
        Some(load(args, runs::rep_scan(args, points) as int))
    } else {
        None
    }
}

/// The bits by which samples are selected.
pub fn selection_bits(args: &Args) -> (r: usize)
    requires
        args.valid(),
    ensures
        r == partition_bits(args),
        r <= 128 * 64 + 64,
{
    proof {
        lemma_selection_bits(args);
    }
    args.t * args.decimation_bits() + args.tradeoff_bits()
}

/// There are not many bits.
proof fn lemma_selection_bits(args: &Args)
    requires
        args.valid(),
    ensures
        0 <= args.t * runs::decimation(args) <= 128 * 64,
        runs::tradeoff(args) < 64,
{
    let (t, d): (int, int) = (args.t as int, runs::decimation(args) as int);
    assert(0 <= t * d <= 128 * 64) by (nonlinear_arith)
        requires
            0 <= t <= 128,
            0 <= d <= 64,
    ;
}

/// The longest stage is no longer than the scan, which is even where it has stages.
proof fn lemma_longest_stage(args: &Args, points: usize, n: int)
    requires
        args.valid(),
        points > 0,
        collision::scannable(points, args.t, runs::decimation(args)),
        args.decimation_bits is Some,
        n > 0,
    ensures
        0 <= longest_stage(args, points) < usize::MAX,
        0 <= common::chunk_count(longest_stage(args, points), n) < usize::MAX,
{
    let (t, d): (int, int) = (args.t as int, runs::decimation(args) as int);
    let scan: nat = runs::rep_scan(args, points);
    let e: nat = (t * d) as nat;
    assert(t * d >= 1) by (nonlinear_arith)
        requires
            t >= 1,
            d >= 1,
    ;
    lemma_pow2_unfold(e);
    lemma_pow2_pos((e - 1) as nat);
    let half: nat = points as nat * pow2((e - 1) as nat);
    assert(scan == 2 * half && half > 0) by (nonlinear_arith)
        requires
            scan == points as nat * pow2(e),
            pow2(e) == 2 * pow2((e - 1) as nat),
            half == points as nat * pow2((e - 1) as nat),
            points > 0,
            pow2((e - 1) as nat) > 0,
    ;
    assert(usize::MAX % 2 == 1);
    let m: int = stages::checkpoints(e, scan) as int;
    assert(m >= 1);
    lemma_chunk_count(scan as int, m);
    lemma_chunk_count(longest_stage(args, points), n);
}

/// There are no more chunks than elements.
proof fn lemma_chunk_count(len: int, size: int)
    requires
        len >= 0,
        size >= 1,
    ensures
        0 <= common::chunk_count(len, size) <= len,
{
    let (q, r): (int, int) = (len / size, len % size);
    lemma_fundamental_div_mod(len, size);
    lemma_mod_bound(len, size);
    assert(0 <= q && q + (if r > 0 {
        1int
    } else {
        0
    }) <= len) by (nonlinear_arith)
        requires
            len == size * q + r,
            0 <= r < size,
            len >= 0,
            size >= 1,
    ;
}

/// What the buffers of a sequential test have to hold.
pub fn sequential_loads(args: &Args, points: usize) -> (r: (Load, Option<Load>))
    requires
        args.valid(),
        points > 0,
        collision::scannable(points, args.t, runs::decimation(args)),
        args.checkpoints ==> args.decimation_bits is Some,
    ensures
        r == sequential(args, points),
{
    let b: usize = args.tradeoff_bits();
    let d: usize = args.decimation_bits();
    let bits: usize = selection_bits(args);
    let scan: usize = match scan_samples(points, args.t, d) {
        Some(n) => n,
        None => 0,
    };
    let direct: Load = Load { samples: scan, bits };
    proof {
        lemma_selection_bits(args);
        parallel::lemma_scan_positive(args, points);
    }
    if args.birthday_spacings && b > 0 {
        (Load { samples: points, bits: b }, Some(direct))
    } else if args.checkpoints {
        let n: usize = num_checkpoints(args.t * d, scan);
        (direct, Some(Load { samples: chunks_of(scan, n), bits }))
    } else {
        (direct, None)
    }
}

/// What the buffers of a parallel test have to hold: the regions of the threads, and a second buffer.
pub fn parallel_loads(args: &Args, points: usize, num_cpus: usize) -> (r: (Vec<Load>, Option<Load>))
    requires
        args.valid(),
        points > 0,
        collision::scannable(points, args.t, runs::decimation(args)),
        args.checkpoints ==> args.decimation_bits is Some,
    ensures
        r.0@.len() == orbit::fan_out(num_cpus, runs::rep_scan(args, points) as usize),
        forall|i: int|
            0 <= i < r.0@.len() ==> #[trigger] r.0@[i] == region(args, points, r.0@.len() as int, i),
        r.1 == second(args, points),
{
    let d: usize = args.decimation_bits();
    let bits: usize = selection_bits(args);
    let scan: usize = match scan_samples(points, args.t, d) {
        Some(n) => n,
        None => 0,
    };
    proof {
        lemma_selection_bits(args);
        parallel::lemma_scan_positive(args, points);
    }
    let n: usize = ranges(num_cpus, scan);
    let mut regions: Vec<Load> = Vec::new();
    let lens: Vec<usize> = share_lens(scan, n);
    let mut i: usize = 0;
    while i < n
        invariant
            i <= n,
            n > 0,
            args.valid(),
            points > 0,
            collision::scannable(points, args.t, runs::decimation(args)),
            args.checkpoints ==> args.decimation_bits is Some,
            d == runs::decimation(args),
            args.t * d < 64,
            bits == partition_bits(args),
            scan == runs::rep_scan(args, points),
            scan > 0,
            lens@.len() == n,
            forall|k: int| 0 <= k < n ==> #[trigger] lens@[k] == orbit::share_len(scan as int, n as int, k),
            regions@.len() == i,
            forall|k: int| 0 <= k < i ==> #[trigger] regions@[k] == region(args, points, n as int, k),
        decreases n - i,
    {
        let samples: usize = if args.checkpoints {
            proof {
                lemma_longest_stage(args, points, n as int);
            }
            chunks_of(chunks_of(scan, num_checkpoints(args.t * d, scan)), n) + 1
        } else {
            lens[i]
        };
        regions.push(Load { samples, bits });
        i += 1;
    }
    let rest: Option<Load> = if args.birthday_spacings || args.checkpoints {
        Some(Load { samples: scan, bits })
    } else {
        None
    };
    (regions, rest)
}

/// Without decimation, buffers for all samples of their bins are never too small: only a selection
/// can go wrong.
pub proof fn lemma_samples_suffice<G: Generator>(args: &Args, points: usize, cells: nat, bits: nat, s: G::State)
    requires
        runs::runnable(args, points, cells, bits),
        runs::decimation(args) == 0,
    ensures
        runs::rep_fits::<G>(
            args,
            points,
            cells,
            bits,
            s,
            sequential(args, points).0.samples as nat,
            match sequential(args, points).1 {
                Some(aux) => aux.samples as nat,
                None => 0,
            },
        ),
{
    let p: Seq<nat> = runs::rep_points::<G>(args, points, bits, s);
    let b: nat = runs::tradeoff(args);
    runs::lemma_undecimated_scan(args, points);
    sampling::lemma_points_undecimated::<G>(runs::shape(args, bits), s, points as nat);
    assert(p.len() == points);
    assert forall|k: nat| #[trigger] tally::select(p, runs::interval_key(args), k).len() <= points by {
        tally::lemma_select_len(p, runs::interval_key(args), k);
    }
    assert forall|j: nat| #[trigger] classes::class(p, cells, b, j).len() <= points by {
        tally::lemma_sorted(p);
        tally::lemma_select_len(circle::proper_spacings(tally::sorted(p), cells), tally::low_key(b), j);
    }
}

/// The width of the narrowest storage that holds the cell indices of a test.
pub fn cell_width(args: &Args) -> (r: usize)
    requires
        args.valid(),
        runs::width(args) <= 128,
    ensures
        r == 32 || r == 64 || r == 128,
        runs::width(args) <= r,
        r > 32 ==> runs::width(args) > r / 2,
{
    let w: usize = args.u - args.decimation_bits();
    proof {
        assert(w * args.t >= 0) by (nonlinear_arith);
    }
    let bits: usize = w * args.t;
    if bits <= 32 {
        32
    } else if bits <= 64 {
        64
    } else {
        128
    }
}

/// The bins of a test are sized by what falls into them on the average, which is a 2*ᵇ*-th of the points:
/// of the samples of a bin, one in 2^`bits` is taken.
pub proof fn lemma_mean_load(args: &Args, points: usize)
    requires
        args.valid(),
        points > 0,
        collision::scannable(points, args.t, runs::decimation(args)),
    ensures
        sequential(args, points).0.samples as nat * pow2(runs::tradeoff(args)) == points as nat * pow2(
            sequential(args, points).0.bits as nat,
        ),
        args.birthday_spacings && runs::tradeoff(args) > 0 ==> {
            &&& sequential(args, points).0.samples == points
            &&& sequential(args, points).1 is Some
            &&& sequential(args, points).1->0.samples as nat * pow2(runs::tradeoff(args)) == points as nat * pow2(
                sequential(args, points).1->0.bits as nat,
            )
        },
        !args.birthday_spacings && args.checkpoints ==> sequential(args, points).1 is Some,
        !(args.birthday_spacings && runs::tradeoff(args) > 0) ==> sequential(args, points).0.samples
            == runs::rep_scan(args, points),
        !(args.birthday_spacings && runs::tradeoff(args) > 0) && !args.checkpoints ==> sequential(args, points).1 is None,
        second(args, points) is Some <==> args.birthday_spacings || args.checkpoints,
        second(args, points) is Some ==> second(args, points)->0.samples == runs::rep_scan(args, points) && second(
            args,
            points,
        )->0.bits == args.t * runs::decimation(args) + runs::tradeoff(args),
        partition_bits(args) == args.t * runs::decimation(args) + runs::tradeoff(args),
{
    lemma_selection_bits(args);
    let e: nat = (args.t * runs::decimation(args)) as nat;
    let b: nat = runs::tradeoff(args);
    lemma_pow2_adds(e, b);
    assert((points as nat * pow2(e)) * pow2(b) == points as nat * (pow2(e) * pow2(b))) by (nonlinear_arith);
    assert(load(args, runs::rep_scan(args, points) as int).bits == e + b);
}

/// The buffer for a stage is for the longest of them, and the regions of threads are for their ranges: the
/// whole scan is in them, or the longest stage and a sample more for each thread.
pub proof fn lemma_stage_load(args: &Args, points: usize, n: int, i: int)
    requires
        args.valid(),
        points > 0,
        collision::scannable(points, args.t, runs::decimation(args)),
        args.checkpoints ==> args.decimation_bits is Some,
        0 <= i < n <= runs::rep_scan(args, points),
    ensures
        ({
            let scan: int = runs::rep_scan(args, points) as int;
            let c: int = stages::checkpoints((args.t * runs::decimation(args)) as nat, scan as nat) as int;
            &&& longest_stage(args, points) * c >= scan > (longest_stage(args, points) - 1) * c
            &&& args.checkpoints ==> (region(args, points, n, i).samples - 1) * n >= longest_stage(args, points) > (
            region(args, points, n, i).samples - 2) * n
            &&& args.checkpoints ==> sequential(args, points).1 == Some(
                Load { samples: longest_stage(args, points) as usize, bits: sequential(args, points).0.bits },
            )
            &&& !args.checkpoints ==> region(args, points, n, i).samples == orbit::share_len(scan, n, i)
            &&& region(args, points, n, i).bits == args.t * runs::decimation(args) + runs::tradeoff(args)
        }),
{
    let scan: nat = runs::rep_scan(args, points);
    let e: nat = (args.t * runs::decimation(args)) as nat;
    lemma_selection_bits(args);
    parallel::lemma_scan_positive(args, points);
    stages::lemma_checkpoints(e, scan);
    common::lemma_enough_chunks(scan as int, stages::checkpoints(e, scan) as int);
    if args.checkpoints {
        lemma_longest_stage(args, points, n);
        common::lemma_enough_chunks(longest_stage(args, points), n);
    } else {
        orbit::lemma_shares(scan as int, n, i);
        orbit::lemma_shares_even(scan as int, n, i, i);
    }
}

/// The buffers that are asked for: for as many samples as are scanned, of which the selected share is kept.
/// Of a tradeoff of birthday spacings the first buffer is for a class of spacings, one of 2^b of them, and
/// the second one for an interval of points. With checkpoints the second one is for a stage.
pub proof fn lemma_sequential_loads(
    args: &Args,
    points: usize,
    r: (Load, Option<Load>),
    bits: usize,
    d: usize,
    b: usize,
)
    requires
        args.valid(),
        points > 0,
        d == match args.decimation_bits {
            Some(d) => d,
            None => 0,
        },
        b == match args.tradeoff_bits {
            Some(b) => b,
            None => 0,
        },
        args.t * d < usize::BITS,
        points as nat * pow2((args.t * d) as nat) <= usize::MAX,
        call_ensures(selection_bits, (args,), bits),
        call_ensures(sequential_loads, (args, points), r),
    ensures
        bits == args.t * d + b,
        ({
            let scan: usize = (points as nat * pow2((args.t * d) as nat)) as usize;
            let two_level: bool = args.birthday_spacings && b > 0;
            &&& two_level ==> r.0 == (Load { samples: points, bits: b }) && r.1 == Some(Load { samples: scan, bits })
            &&& !two_level ==> r.0 == (Load { samples: scan, bits })
            &&& !two_level ==> (r.1 is Some <==> args.checkpoints)
            &&& !two_level && args.checkpoints ==> r.1->0.bits == bits
        }),
{
    lemma_selection_bits(args);
}

/// The regions of threads: one for each of the ranges, for as many samples as it has; with checkpoints for
/// the same part of the longest stage, rounded up, and one more.
pub proof fn lemma_parallel_loads(
    args: &Args,
    points: usize,
    num_cpus: usize,
    n: usize,
    lens: Vec<usize>,
    r: (Vec<Load>, Option<Load>),
    d: usize,
    b: usize,
    i: int,
)
    requires
        args.valid(),
        points > 0,
        d == match args.decimation_bits {
            Some(d) => d,
            None => 0,
        },
        b == match args.tradeoff_bits {
            Some(b) => b,
            None => 0,
        },
        args.t * d < usize::BITS,
        points as nat * pow2((args.t * d) as nat) <= usize::MAX,
        call_ensures(ranges, (num_cpus, (points as nat * pow2((args.t * d) as nat)) as usize), n),
        call_ensures(share_lens, ((points as nat * pow2((args.t * d) as nat)) as usize, n), lens),
        call_ensures(parallel_loads, (args, points, num_cpus), r),
        0 <= i < n,
    ensures
        r.0@.len() == n,
        r.0@[i].bits == args.t * d + b,
        !args.checkpoints ==> r.0@[i].samples == lens@[i],
        args.birthday_spacings || args.checkpoints <==> r.1 is Some,
        r.1 matches Some(x) ==> x.samples == points * pow2((args.t * d) as nat) && x.bits == args.t * d + b,
{
    lemma_selection_bits(args);
}

/// The narrowest storage that holds the indices is chosen.
pub proof fn lemma_narrowest(args: &Args, w: nat, r: usize)
    requires
        args.valid(),
        w == (args.u - match args.decimation_bits {
            Some(d) => d,
            None => 0,
        }) * args.t,
        w <= 128,
        call_ensures(cell_width, (args,), r),
    ensures
        r == if w <= 32 {
            32usize
        } else if w <= 64 {
            64
        } else {
            128
        },
{
    let (u, d, t): (int, int, int) = (args.u as int, runs::decimation(args) as int, args.t as int);
    assert((u - d) * t == t * (u - d)) by (nonlinear_arith);
}

} // verus!
