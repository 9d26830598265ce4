//! The split of a scan among threads: contiguous ranges of samples, and the generator at the start
//! of each of them.
use vstd::arithmetic::div_mod::*;
use vstd::arithmetic::mul::*;
use vstd::prelude::*;

use crate::fill;
use crate::par;
use crate::prng;
use crate::prng::Generator;
use crate::progress::{Event, Progress};
use crate::sampling;
use crate::sampling::Geometry;
use crate::tally;

verus! {

/// The number of samples in range `i`, when `total` samples are split into `n` ranges whose lengths
/// differ by at most one.
pub open spec fn share_len(total: int, n: int, i: int) -> int {
    total / n + if i < total % n {
        1int
    } else {
        0
    }
}

/// The first sample of range `i`.
pub open spec fn share_start(total: int, n: int, i: int) -> int {
    i * (total / n) + if i < total % n {
        i
    } else {
        total % n
    }
}

/// The ranges follow each other, from the first sample to the last one.
pub proof fn lemma_shares(total: int, n: int, i: int)
    requires
        0 < n,
        0 <= total,
        0 <= i <= n,
    ensures
        share_start(total, n, 0) == 0,
        share_start(total, n, n) == total,
        share_start(total, n, i + 1) == share_start(total, n, i) + share_len(total, n, i),
        0 <= share_start(total, n, i) <= total,
        0 <= i * (total / n) <= total,
        0 <= total / n <= total,
        i < n ==> share_start(total, n, i) + share_len(total, n, i) <= total,
        i < n <= total ==> share_start(total, n, i) < total,
{
    let q: int = total / n;
    let r: int = total % n;
    lemma_fundamental_div_mod(total, n);
    lemma_mod_bound(total, n);
    lemma_div_pos_is_pos(total, n);
    assert((i + 1) * q == i * q + q) by (nonlinear_arith);
    assert(0 * q == 0) by (nonlinear_arith);
    assert(0 <= i * q <= n * q) by (nonlinear_arith)
        requires
            0 <= i <= n,
            q >= 0,
    ;
    assert(q <= n * q) by (nonlinear_arith)
        requires
            n >= 1,
            q >= 0,
    ;
    if i < n {
        assert(i * q + q <= n * q) by (nonlinear_arith)
            requires
                i + 1 <= n,
                q >= 0,
        ;
        if n <= total {
            assert(q >= 1) by (nonlinear_arith)
                requires
                    total == n * q + r,
                    r < n,
                    n <= total,
                    n > 0,
            ;
        }
    }
}

/// Splits a number of samples into ranges: the lengths.
pub fn share_lens(total: usize, n: usize) -> (r: Vec<usize>)
    requires
        n > 0,
    ensures
        r@.len() == n,
        forall|i: int| 0 <= i < n ==> #[trigger] r@[i] == share_len(total as int, n as int, i),
{
    let base: usize = total / n;
    let rem: usize = total % n;
    let mut r: Vec<usize> = Vec::new();
    let mut i: usize = 0;
    while i < n
        invariant
            i <= n,
            n > 0,
            base == total / n,
            rem == total % n,
            r@.len() == i,
            forall|k: int| 0 <= k < i ==> #[trigger] r@[k] == share_len(total as int, n as int, k),
        decreases n - i,
    {
        proof {
            lemma_shares(total as int, n as int, i as int);
        }
        r.push(
            if i < rem {
                base + 1
            } else {
                base
            },
        );
        i += 1;
    }
    r
}

/// Splits a number of samples into ranges: the first samples.
pub fn share_starts(total: usize, n: usize) -> (r: Vec<usize>)
    requires
        n > 0,
    ensures
        r@.len() == n,
        forall|i: int| 0 <= i < n ==> #[trigger] r@[i] == share_start(total as int, n as int, i),
{
    let base: usize = total / n;
    let rem: usize = total % n;
    let mut r: Vec<usize> = Vec::new();
    let mut i: usize = 0;
    while i < n
        invariant
            i <= n,
            n > 0,
            base == total / n,
            rem == total % n,
            r@.len() == i,
            forall|k: int| 0 <= k < i ==> #[trigger] r@[k] == share_start(total as int, n as int, k),
        decreases n - i,
    {
        proof {
            lemma_shares(total as int, n as int, i as int);
        }
        r.push(
            i * base + if i < rem {
                i
            } else {
                rem
            },
        );
        i += 1;
    }
    r
}

/// The number of ranges for a number of threads: no more than there are samples.
pub open spec fn fan_out(num_cpus: usize, total: usize) -> usize {
    if num_cpus == 0 || total == 0 {
        1
    } else if num_cpus < total {
        num_cpus
    } else {
        total
    }
}

/// The number of ranges for a number of threads.
pub fn ranges(num_cpus: usize, total: usize) -> (r: usize)
    ensures
        r == fan_out(num_cpus, total),
        r > 0,
        total > 0 ==> r <= total,
{
    let at_most: usize = if num_cpus < total {
        num_cpus
    } else {
        total
    };
    if at_most < 1 {
        1
    } else {
        at_most
    }
}

/// Boundaries in nondecreasing order, all less than `total`.
pub open spec fn boundaries_ok(boundaries: Seq<usize>, total: usize) -> bool {
    &&& forall|i: int, j: int| 0 <= i <= j < boundaries.len() ==> boundaries[i] <= boundaries[j]
    &&& forall|i: int| 0 <= i < boundaries.len() ==> #[trigger] boundaries[i] < total
}

/// The offsets on the orbit of some boundaries, behind `base` samples of `t` words, can be counted.
pub open spec fn reachable(base: int, boundaries: Seq<usize>, t: usize) -> bool {
    forall|i: int|
        0 <= i < boundaries.len() ==> base + #[trigger] boundaries[i] <= usize::MAX && (base + boundaries[i]) * t
            <= u64::MAX
}

/// The boundaries of a window whose end can be counted can be reached.
pub proof fn lemma_window_reachable(base: int, len: usize, boundaries: Seq<usize>, t: usize)
    requires
        0 <= base,
        boundaries_ok(boundaries, len),
        base + len <= usize::MAX,
        (base + len) * t <= u64::MAX,
    ensures
        reachable(base, boundaries, t),
{
    assert forall|i: int| 0 <= i < boundaries.len() implies base + #[trigger] boundaries[i] <= usize::MAX && (base
        + boundaries[i]) * t <= u64::MAX by {
        let x: int = base + boundaries[i];
        let y: int = base + len;
        assert(x * t <= y * t) by (nonlinear_arith)
            requires
                x <= y,
                t >= 0,
        ;
    }
}

/// The starts of the `n` ranges of `total` samples can be reached, behind `base` samples of `t` words.
pub open spec fn starts_reachable(base: int, total: usize, n: usize, t: usize) -> bool {
    forall|i: int|
        0 <= i < n ==> base + #[trigger] share_start(total as int, n as int, i) <= usize::MAX && (base + share_start(
            total as int,
            n as int,
            i,
        )) * t <= u64::MAX
}

/// The starts of the ranges of repetition `rep`, counted from one, can be reached.
pub open spec fn rep_reachable(rep: int, total: usize, n: usize, t: usize) -> bool {
    starts_reachable((rep - 1) * total, total, n, t)
}

/// What can be reached behind some samples can be reached behind fewer of them.
pub proof fn lemma_starts_earlier(base: int, later: int, total: usize, n: usize, t: usize)
    requires
        base <= later,
        starts_reachable(later, total, n, t),
    ensures
        starts_reachable(base, total, n, t),
{
    assert forall|i: int| 0 <= i < n implies base + #[trigger] share_start(total as int, n as int, i) <= usize::MAX && (
    base + share_start(total as int, n as int, i)) * t <= u64::MAX by {
        let x: int = share_start(total as int, n as int, i);
        assert(later + x <= usize::MAX);
        assert((base + x) * t <= (later + x) * t) by (nonlinear_arith)
            requires
                base <= later,
                t >= 0,
        ;
    }
}

/// The starts of all ranges can be reached when the last of them can.
pub proof fn lemma_last_start(base: int, total: usize, n: usize, t: usize)
    requires
        n > 0,
    ensures
        ({
            let last: int = base + total - total / n;
            starts_reachable(base, total, n, t) <==> last <= usize::MAX && last * t <= u64::MAX
        }),
{
    let x: int = share_start(total as int, n as int, n - 1);
    lemma_mod_bound(total as int, n as int);
    lemma_shares(total as int, n as int, n - 1);
    assert(x == total - total / n);
    if base + x <= usize::MAX && (base + x) * t <= u64::MAX {
        assert forall|i: int| 0 <= i < n implies base + #[trigger] share_start(total as int, n as int, i)
            <= usize::MAX && (base + share_start(total as int, n as int, i)) * t <= u64::MAX by {
            let y: int = share_start(total as int, n as int, i);
            lemma_starts_ordered(total as int, n as int, i, n - 1);
            assert((base + y) * t <= (base + x) * t) by (nonlinear_arith)
                requires
                    y <= x,
                    t >= 0,
            ;
        }
    }
}

/// Draws a number of words, and forgets them.
fn walk<G: Generator>(p: &mut G, n: usize)
    ensures
        final(p).state() == prng::orbit::<G>(old(p).state(), n as nat),
{
    let mut i: usize = 0;
    while i < n
        invariant
            i <= n,
            p.state() == prng::orbit::<G>(old(p).state(), i as nat),
        decreases n - i,
    {
        let _ = p.next_u64();
        i += 1;
    }
}

/// Sequentially walks `total_cells` samples of the orbit starting from `start` (each sample
/// consumes exactly *t* words, in every mode), capturing a copy of the generator when the walk
/// reaches each sample in `boundaries`.
///
/// Returns one snapshot per boundary plus the end state, so the caller can chain the next
/// repetition's walk. A snapshot is the state that skipping to its boundary gives.
pub fn prescan_checkpoints<G: Generator>(
    start: G,
    t: usize,
    total_cells: usize,
    boundaries: &[usize],
) -> (r: (Vec<G>, G))
    requires
        boundaries_ok(boundaries@, total_cells),
    ensures
        r.0@.len() == boundaries@.len(),
        forall|i: int|
            0 <= i < boundaries@.len() ==> (#[trigger] r.0@[i]).state() == prng::orbit::<G>(
                start.state(),
                (boundaries@[i] * t) as nat,
            ),
        r.1.state() == prng::orbit::<G>(start.state(), (total_cells * t) as nat),
{
    let mut p: G = start;
    let mut snaps: Vec<G> = Vec::new();
    let mut next: usize = 0;
    let mut cell: usize = 0;
    proof {
        assert(0 * t == 0) by (nonlinear_arith);
    }
    while cell < total_cells
        invariant
            cell <= total_cells,
            next <= boundaries@.len(),
            boundaries_ok(boundaries@, total_cells),
            snaps@.len() == next,
            p.state() == prng::orbit::<G>(start.state(), (cell * t) as nat),
            forall|i: int|
                0 <= i < next ==> (#[trigger] snaps@[i]).state() == prng::orbit::<G>(
                    start.state(),
                    (boundaries@[i] * t) as nat,
                ),
            forall|i: int| next <= i < boundaries@.len() ==> #[trigger] boundaries@[i] >= cell,
        decreases total_cells - cell,
    {
        while next < boundaries.len() && boundaries[next] == cell
            invariant
                next <= boundaries@.len(),
                boundaries_ok(boundaries@, total_cells),
                snaps@.len() == next,
                p.state() == prng::orbit::<G>(start.state(), (cell * t) as nat),
                forall|i: int|
                    0 <= i < next ==> (#[trigger] snaps@[i]).state() == prng::orbit::<G>(
                        start.state(),
                        (boundaries@[i] * t) as nat,
                    ),
                forall|i: int| next <= i < boundaries@.len() ==> #[trigger] boundaries@[i] >= cell,
            decreases boundaries@.len() - next,
        {
            snaps.push(p);
            next += 1;
        }
        proof {
            assert forall|i: int| next <= i < boundaries@.len() implies #[trigger] boundaries@[i] >= cell + 1 by {
                assert(boundaries@[next as int] <= boundaries@[i]);
            }
            prng::lemma_orbit_compose::<G>(start.state(), (cell * t) as nat, t as nat);
            lemma_mul_nonnegative(cell as int, t as int);
            assert((cell + 1) * t == cell * t + t) by (nonlinear_arith);
        }
        walk(&mut p, t);
        cell += 1;
    }
    proof {
        if next < boundaries@.len() {
            assert(boundaries@[next as int] < total_cells);
        }
    }
    (snaps, p)
}

/// The contiguous-orbit partition shared by both parallel runners. A scan of `scan_total` samples
/// is split into `num_cpus` contiguous sample ranges; the start of each is reached by jump-ahead
/// (`try_skip`) for skip-capable generators, or by a chained sequential pre-scan
/// ([`prescan_checkpoints`]) otherwise.
pub struct OrbitPartition<G> {
    num_cpus: usize,
    scan_total: usize,
    t: usize,
    skip_capable: bool,
    seed: u64,
    /// Pre-scan path only: where the previous pre-scan ended.
    prescan_start: G,
    /// Pre-scan path only: the samples walked so far.
    walked: Ghost<nat>,
}

impl<G: Generator> OrbitPartition<G> {
    /// The generator that was walked stands where it should.
    pub closed spec fn inv(&self) -> bool {
        &&& 0 < self.num_cpus
        &&& self.num_cpus <= self.scan_total || self.num_cpus == 1
        &&& self.skip_capable == G::jumps()
        &&& self.prescan_start.state() == prng::orbit::<G>(G::seeded(self.seed), self.walked@ * self.t as nat)
    }

    /// The number of ranges.
    pub closed spec fn cpus(&self) -> usize {
        self.num_cpus
    }

    /// The number of samples of a scan.
    pub closed spec fn total(&self) -> usize {
        self.scan_total
    }

    /// The number of words of a sample.
    pub closed spec fn dimension(&self) -> usize {
        self.t
    }

    /// The seed of the generator.
    pub closed spec fn seed(&self) -> u64 {
        self.seed
    }

    /// How many samples were walked by pre-scans.
    pub closed spec fn position(&self) -> nat {
        self.walked@
    }

    /// Splits a scan among threads. There are never more ranges than samples.
    pub fn new(seed: u64, num_cpus: usize, scan_total: usize, t: usize) -> (r: Self)
        ensures
            r.inv(),
            r.cpus() == fan_out(num_cpus, scan_total),
            r.total() == scan_total,
            r.dimension() == t,
            r.seed() == seed,
            r.position() == 0,
    {
        let mut probe: G = G::new(seed);
        proof {
            G::lemma_seeded_valid(seed);
            assert(0 * t == 0) by (nonlinear_arith);
        }
        let skip_capable: bool = probe.try_skip(0).is_ok();
        OrbitPartition {
            num_cpus: ranges(num_cpus, scan_total),
            scan_total,
            t,
            skip_capable,
            seed,
            prescan_start: G::new(seed),
            walked: Ghost(0),
        }
    }

    /// The number of ranges.
    pub fn num_cpus(&self) -> (r: usize)
        requires
            self.inv(),
        ensures
            r == self.cpus(),
            r > 0,
            r <= self.total() || r == 1,
    {
        self.num_cpus
    }

    /// The first sample of a range.
    pub fn start_sample(&self, i: usize) -> (r: usize)
        requires
            self.inv(),
            i <= self.cpus(),
        ensures
            r == share_start(self.total() as int, self.cpus() as int, i as int),
    {
        proof {
            lemma_shares(self.scan_total as int, self.num_cpus as int, i as int);
        }
        let base: usize = self.scan_total / self.num_cpus;
        let rem: usize = self.scan_total % self.num_cpus;
        i * base + if i < rem {
            i
        } else {
            rem
        }
    }

    /// How the starts of the ranges are reached.
    pub fn split_desc(&self) -> (r: &'static str)
        requires
            self.inv(),
        ensures
            G::jumps() ==> r@ == "jump-ahead"@,
            !G::jumps() ==> r@ == "pre-scan"@,
    {
        if self.skip_capable {
            "jump-ahead"
        } else {
            "pre-scan"
        }
    }

    /// Orbit-start snapshots: snapshot `i` stands at sample `base + boundaries[i]` of the orbit,
    /// within a window of `scan_len` samples. Skip-capable generators jump to the offset; others
    /// chain a pre-scan, which is announced on demand.
    pub fn snapshots<P: Progress>(
        &mut self,
        base: usize,
        scan_len: usize,
        boundaries: &[usize],
        announce: bool,
        progress: &mut P,
    ) -> (r: Vec<G>)
        requires
            old(self).inv(),
            G::jumps() ==> reachable(base as int, boundaries@, old(self).dimension()),
            !G::jumps() ==> boundaries_ok(boundaries@, scan_len) && base == old(self).position(),
        ensures
            final(self).inv(),
            final(self).cpus() == old(self).cpus(),
            final(self).total() == old(self).total(),
            final(self).dimension() == old(self).dimension(),
            final(self).seed() == old(self).seed(),
            final(self).position() == if G::jumps() {
                old(self).position()
            } else {
                old(self).position() + scan_len as nat
            },
            r@.len() == boundaries@.len(),
            forall|i: int|
                0 <= i < boundaries@.len() ==> (#[trigger] r@[i]).state() == prng::orbit::<G>(
                    G::seeded(old(self).seed()),
                    ((base + boundaries@[i]) * old(self).dimension()) as nat,
                ),
            final(progress).log() == old(progress).log() + prescan_events::<G>(announce),
    {
        let ghost s0: G::State = G::seeded(self.seed);
        let t: usize = self.t;
        if self.skip_capable {
            let mut r: Vec<G> = Vec::new();
            let mut i: usize = 0;
            while i < boundaries.len()
                invariant
                    i <= boundaries@.len(),
                    reachable(base as int, boundaries@, t),
                    G::jumps(),
                    s0 == G::seeded(self.seed),
                    r@.len() == i,
                    forall|k: int|
                        0 <= k < i ==> (#[trigger] r@[k]).state() == prng::orbit::<G>(
                            s0,
                            ((base + boundaries@[k]) * t) as nat,
                        ),
                decreases boundaries@.len() - i,
            {
                proof {
                    assert(base + boundaries@[i as int] <= usize::MAX);
                }
                let sample: usize = base + boundaries[i];
                proof {
                    lemma_mul_nonnegative(sample as int, t as int);
                    G::lemma_seeded_valid(self.seed);
                }
                let off: u64 = (sample as u64) * (t as u64);
                let mut p: G = G::new(self.seed);
                let _ = p.try_skip(off);
                r.push(p);
                i += 1;
            }
            proof {
                assert(progress.log() + prescan_events::<G>(announce) =~= progress.log());
            }
            r
        } else {
            let ghost log0: Seq<Event> = progress.log();
            if announce {
                progress.report(Event::Prescan);
            }
            let ghost w: nat = self.walked@;
            let (snaps, end) = prescan_checkpoints(self.prescan_start, t, scan_len, boundaries);
            proof {
                assert forall|i: int| 0 <= i < boundaries@.len() implies (#[trigger] snaps@[i]).state()
                    == prng::orbit::<G>(s0, ((base + boundaries@[i]) * t) as nat) by {
                    let b: int = boundaries@[i] as int;
                    lemma_mul_nonnegative(b, t as int);
                    prng::lemma_orbit_compose::<G>(s0, w * t as nat, (b * t) as nat);
                    assert(w * t + b * t == (w + b) * t) by (nonlinear_arith);
                }
                lemma_mul_nonnegative(scan_len as int, t as int);
                prng::lemma_orbit_compose::<G>(s0, w * t as nat, (scan_len * t) as nat);
                assert(w * t + scan_len * t == (w + scan_len) * t) by (nonlinear_arith);
            }
            self.prescan_start = end;
            self.walked = Ghost(w + scan_len as nat);
            if announce {
                progress.report(Event::PrescanDone);
            }
            proof {
                assert(progress.log() =~= log0 + prescan_events::<G>(announce));
            }
            snaps
        }
    }

    /// Snapshots for one full-scan repetition (counted from one): each range has its own. The
    /// pre-scan (if any) is announced.
    pub fn rep_snapshots<P: Progress>(&mut self, rep: usize, progress: &mut P) -> (r: Vec<G>)
        requires
            old(self).inv(),
            rep >= 1,
            (rep - 1) * old(self).total() <= usize::MAX,
            G::jumps() ==> rep_reachable(
                rep as int,
                old(self).total(),
                old(self).cpus(),
                old(self).dimension(),
            ),
            !G::jumps() ==> old(self).total() > 0 && (rep - 1) * old(self).total() == old(self).position(),
        ensures
            final(self).inv(),
            final(self).cpus() == old(self).cpus(),
            final(self).total() == old(self).total(),
            final(self).dimension() == old(self).dimension(),
            final(self).seed() == old(self).seed(),
            !G::jumps() ==> final(self).position() == rep * old(self).total(),
            r@.len() == old(self).cpus(),
            forall|i: int|
                0 <= i < r@.len() ==> (#[trigger] r@[i]).state() == prng::orbit::<G>(
                    G::seeded(old(self).seed()),
                    (((rep - 1) * old(self).total() + share_start(
                        old(self).total() as int,
                        old(self).cpus() as int,
                        i,
                    )) * old(self).dimension()) as nat,
                ),
            final(progress).log() == old(progress).log() + prescan_events::<G>(true),
    {
        let total: usize = self.scan_total;
        let n: usize = self.num_cpus;
        proof {
            assert((rep - 1) * total + total == rep * total) by (nonlinear_arith);
            assert(0 <= (rep - 1) * total) by (nonlinear_arith)
                requires
                    rep >= 1,
                    total >= 0,
            ;
        }
        let boundaries: Vec<usize> = share_starts(total, n);
        proof {
            if G::jumps() {
                assert forall|i: int| 0 <= i < n implies (rep - 1) * total + #[trigger] boundaries@[i] <= usize::MAX && ((
                rep - 1) * total + boundaries@[i]) * self.t <= u64::MAX by {
                    assert((rep - 1) * total + share_start(total as int, n as int, i) <= usize::MAX);
                }
            } else {
                lemma_starts_ok(boundaries@, total, n);
            }
        }
        self.snapshots((rep - 1) * total, total, boundaries.as_slice(), true, progress)
    }
}

/// The events of a pre-scan, which generators that can jump ahead do without.
pub open spec fn prescan_events<G: Generator>(announce: bool) -> Seq<Event> {
    if G::jumps() || !announce {
        Seq::empty()
    } else {
        seq![Event::Prescan, Event::PrescanDone]
    }
}

/// The first samples of the ranges are boundaries, unless there are more ranges than samples.
pub proof fn lemma_starts_ok(boundaries: Seq<usize>, total: usize, n: usize)
    requires
        0 < n <= total,
        boundaries.len() == n,
        forall|i: int| 0 <= i < n ==> #[trigger] boundaries[i] == share_start(total as int, n as int, i),
    ensures
        boundaries_ok(boundaries, total),
{
    assert forall|i: int, j: int| 0 <= i <= j < n implies boundaries[i] <= boundaries[j] by {
        lemma_starts_ordered(total as int, n as int, i, j);
    }
    assert forall|i: int| 0 <= i < n implies #[trigger] boundaries[i] < total by {
        lemma_shares(total as int, n as int, i);
    }
}

/// Ranges are in the order of their numbers.
proof fn lemma_starts_ordered(total: int, n: int, i: int, j: int)
    requires
        0 < n,
        0 <= total,
        0 <= i <= j <= n,
    ensures
        share_start(total, n, i) <= share_start(total, n, j),
    decreases j - i,
{
    if i < j {
        lemma_starts_ordered(total, n, i, j - 1);
        lemma_shares(total, n, j - 1);
    }
}

/// Taking a work unit of two stretches, one after the other.
proof fn lemma_unit_concat(p: Seq<nat>, q: Seq<nat>, width: nat, b: nat, pass: nat)
    ensures
        fill::unit(p + q, width, b, pass) == fill::unit(p, width, b, pass) + fill::unit(q, width, b, pass),
{
    tally::lemma_select_concat(p, q, tally::top_key((width - b) as nat), pass);
}

/// Threads that start at the ranges of a scan together generate what the whole scan generates, in
/// the same order, however many threads there are.
pub proof fn lemma_parallel_unit<G: Generator>(
    g: Geometry,
    s: G::State,
    snapshots: Seq<G>,
    lens: Seq<usize>,
    total: nat,
    width: nat,
    b: nat,
    pass: nat,
)
    requires
        0 < snapshots.len() == lens.len(),
        forall|i: int|
            0 <= i < snapshots.len() ==> (#[trigger] snapshots[i]).state() == sampling::advance::<G>(
                g,
                s,
                share_start(total as int, snapshots.len() as int, i) as nat,
            ),
        forall|i: int|
            0 <= i < lens.len() ==> #[trigger] lens[i] == share_len(total as int, snapshots.len() as int, i),
    ensures
        par::concat(fill::unit_parts(g, snapshots, lens, width, b, pass)) == fill::unit(
            sampling::points::<G>(g, s, total),
            width,
            b,
            pass,
        ),
{
    let n: int = snapshots.len() as int;
    let parts: Seq<Seq<nat>> = fill::unit_parts(g, snapshots, lens, width, b, pass);
    lemma_parallel_prefix::<G>(g, s, snapshots, lens, total, width, b, pass, n);
    assert(parts.take(n) =~= parts);
    lemma_shares(total as int, n, n);
}

/// The first `k` threads generate what the scan up to range `k` generates.
proof fn lemma_parallel_prefix<G: Generator>(
    g: Geometry,
    s: G::State,
    snapshots: Seq<G>,
    lens: Seq<usize>,
    total: nat,
    width: nat,
    b: nat,
    pass: nat,
    k: int,
)
    requires
        0 < snapshots.len() == lens.len(),
        0 <= k <= snapshots.len(),
        forall|i: int|
            0 <= i < snapshots.len() ==> (#[trigger] snapshots[i]).state() == sampling::advance::<G>(
                g,
                s,
                share_start(total as int, snapshots.len() as int, i) as nat,
            ),
        forall|i: int|
            0 <= i < lens.len() ==> #[trigger] lens[i] == share_len(total as int, snapshots.len() as int, i),
    ensures
        par::concat(fill::unit_parts(g, snapshots, lens, width, b, pass).take(k)) == fill::unit(
            sampling::points::<G>(g, s, share_start(total as int, snapshots.len() as int, k) as nat),
            width,
            b,
            pass,
        ),
    decreases k,
{
    let n: int = snapshots.len() as int;
    let parts: Seq<Seq<nat>> = fill::unit_parts(g, snapshots, lens, width, b, pass);
    if k == 0 {
        lemma_shares(total as int, n, 0);
        assert(parts.take(0) =~= Seq::<Seq<nat>>::empty());
        assert(sampling::points::<G>(g, s, 0) =~= Seq::<nat>::empty());
        assert(fill::unit(Seq::<nat>::empty(), width, b, pass) =~= Seq::<nat>::empty());
    } else {
        let j: int = k - 1;
        lemma_parallel_prefix::<G>(g, s, snapshots, lens, total, width, b, pass, j);
        lemma_shares(total as int, n, j);
        let m: nat = share_start(total as int, n, j) as nat;
        assert(parts.take(k).drop_last() =~= parts.take(j));
        assert(parts.take(k).last() == parts[j]);
        assert(snapshots[j].state() == sampling::advance::<G>(g, s, m));
        sampling::lemma_points_split::<G>(g, s, m, lens[j] as nat);
        lemma_unit_concat(
            sampling::points::<G>(g, s, m),
            sampling::points::<G>(g, snapshots[j].state(), lens[j] as nat),
            width,
            b,
            pass,
        );
    }
}

/// The ranges are even: an earlier one is never shorter than a later one, and longer by one sample at
/// most. None is empty while there are samples for all of them.
pub proof fn lemma_shares_even(total: int, n: int, i: int, j: int)
    requires
        0 < n,
        0 <= total,
        0 <= i <= j < n,
    ensures
        share_len(total, n, j) <= share_len(total, n, i) <= share_len(total, n, j) + 1,
        n <= total ==> share_len(total, n, j) > 0,
        share_start(total, n, i) + share_len(total, n, i) == share_start(total, n, i + 1),
        share_start(total, n, 0) == 0,
        share_start(total, n, n) == total,
{
    lemma_shares(total, n, i);
    lemma_shares(total, n, n);
    if n <= total {
        lemma_div_is_ordered(n, total, n);
        lemma_div_by_self(n);
    }
}

/// There are as many ranges as threads, unless there are fewer samples; and there is always one.
pub proof fn lemma_fan_out(num_cpus: usize, total: usize)
    ensures
        1 <= fan_out(num_cpus, total),
        fan_out(num_cpus, total) <= num_cpus || num_cpus == 0,
        fan_out(num_cpus, total) <= total || total == 0,
        fan_out(num_cpus, total) < num_cpus ==> fan_out(num_cpus, total) >= total,
        fan_out(num_cpus, total) < total ==> fan_out(num_cpus, total) >= num_cpus,
{
}

/// A pre-scan is announced, and its end too, by the generators that need one, on demand.
pub proof fn lemma_prescan_reports<G: Generator>(announce: bool)
    ensures
        prescan_events::<G>(announce).len() == if announce && !G::jumps() {
            2nat
        } else {
            0
        },
        announce && !G::jumps() ==> prescan_events::<G>(announce)[0] == Event::Prescan
            && prescan_events::<G>(announce)[1] == Event::PrescanDone,
{
}

/// A partition gives each thread a generator at the start of its own range, in each repetition: `starts`
/// are those of the ranges, and each range is reached after the samples of the repetitions before.
pub proof fn lemma_partition_snapshots<G: Generator, P: Progress>(
    p: Seq<&mut OrbitPartition<G>>,
    seed: u64,
    num_cpus: usize,
    total: usize,
    t: usize,
    made: OrbitPartition<G>,
    cpus: usize,
    starts: Vec<usize>,
    rep: usize,
    progress: Seq<&mut P>,
    r: Vec<G>,
    name: &'static str,
    i: int,
)
    requires
        p.len() == 1,
        progress.len() == 1,
        rep >= 1,
        call_ensures(OrbitPartition::<G>::new, (seed, num_cpus, total, t), made),
        made.cpus() == p[0].cpus(),
        made.total() == p[0].total(),
        made.dimension() == p[0].dimension(),
        made.seed() == p[0].seed(),
        call_ensures(OrbitPartition::<G>::num_cpus, (&made,), cpus),
        call_ensures(share_starts, (total, cpus), starts),
        call_ensures(OrbitPartition::<G>::split_desc, (&made,), name),
        call_ensures(OrbitPartition::<G>::rep_snapshots::<P>, (p[0], rep, progress[0]), r),
        0 <= i < r@.len(),
    ensures
        num_cpus == 0 || total == 0 ==> cpus == 1,
        0 < num_cpus <= total ==> cpus == num_cpus,
        0 < total < num_cpus ==> cpus == total,
        r@.len() == cpus,
        r@[i].state() == prng::orbit::<G>(G::seeded(seed), (((rep - 1) * total + starts@[i]) * t) as nat),
        G::jumps() ==> name@ == "jump-ahead"@,
        !G::jumps() ==> name@ == "pre-scan"@,
        final(progress[0]).log() == if G::jumps() {
            progress[0].log()
        } else {
            progress[0].log() + seq![Event::Prescan, Event::PrescanDone]
        },
{
}

/// A walk along the orbit comes by each boundary, and ends behind the last sample.
pub proof fn lemma_prescan_walk<G: Generator>(
    start: G,
    t: usize,
    total: usize,
    boundaries: &[usize],
    r: (Vec<G>, G),
    i: int,
)
    requires
        call_ensures(prescan_checkpoints::<G>, (start, t, total, boundaries), r),
        0 <= i < boundaries@.len(),
    ensures
        r.0@.len() == boundaries@.len(),
        r.0@[i].state() == prng::orbit::<G>(start.state(), boundaries@[i] as nat * t as nat),
        r.1.state() == prng::orbit::<G>(start.state(), total as nat * t as nat),
{
}

} // verus!
