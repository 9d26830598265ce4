//! Infrastructure shared by the collision and birthday-spacings tests.
use vstd::arithmetic::div_mod::*;
use vstd::arithmetic::mul::*;
use vstd::arithmetic::power2::*;
use vstd::multiset::Multiset;
use vstd::prelude::*;
use vstd::seq_lib::*;
use vstd::slice::*;

use crate::bits;
use crate::cell;
use crate::cell::{cell_index, decimate_once, Cell};
use crate::par;
use crate::par::par_map;
use crate::prng;
use crate::prng::Generator;
use crate::progress::{Event, Progress};
use crate::sampling;
use crate::sampling::Geometry;
use crate::tally;
use crate::util::parallelism;

pub use crate::runs::run_test;

verus! {

/// A number of cells, between one and 2^128.
#[derive(Clone, Copy)]
pub struct Cells {
    minus_one: u128,
}

impl View for Cells {
    type V = nat;

    closed spec fn view(&self) -> nat {
        self.minus_one as nat + 1
    }
}

impl Cells {
    /// The cells up to the one with the given index.
    pub fn up_to(last: u128) -> (r: Self)
        ensures
            r@ == last as nat + 1,
    {
        Cells { minus_one: last }
    }

    /// 2^n cells, if that is at most 2^128.
    pub fn power_of_two(n: usize) -> (r: Option<Self>)
        ensures
            r is Some <==> n <= 128,
            r matches Some(c) ==> c@ == pow2(n as nat),
    {
        proof {
            bits::lemma_word_moduli();
        }
        if n > 128 {
            None
        } else if n == 128 {
            Some(Cells { minus_one: u128::MAX })
        } else {
            proof {
                bits::lemma_u128_one_shl(n as u128);
                lemma_pow2_pos(n as nat);
            }
            Some(Cells { minus_one: (1u128 << (n as u128)) - 1 })
        }
    }

    /// The index of the last cell.
    pub fn last(&self) -> (r: u128)
        ensures
            r + 1 == self@,
    {
        self.minus_one
    }
}

/// Geometric parameters of a test grid.
#[derive(Clone, Copy)]
pub struct GridParams {
    /// log₂ of the number of subdivisions per dimension (the *u* value).
    pub u: usize,
    /// Number of dimensions.
    pub t: usize,
    /// Left shift applied to each word before extracting cell bits.
    pub s: usize,
    /// Decimation bits: low *d* bits of each element forced to zero (0 = none).
    pub d: usize,
    /// Total cell count; needed by the birthday-spacings wrap-around.
    pub cells: Cells,
}

impl GridParams {
    /// The bits decimated per dimension.
    pub open spec fn decimated(&self, decimate: bool) -> usize {
        if decimate {
            self.d
        } else {
            0
        }
    }

    /// The samples taken, with or without decimation, in storage of the given width.
    pub open spec fn geometry(&self, decimate: bool, bits: nat) -> Geometry {
        cell::geometry(self.t, self.u, self.s, self.decimated(decimate), bits)
    }

    /// Samples can be drawn, with the dimension given as a constant unless that is zero.
    pub open spec fn drawable(&self, dim: usize, decimate: bool, full: bool, bits: nat) -> bool {
        &&& dim == 0 || dim == self.t
        &&& cell::drawable(self.t, self.u, self.s, self.decimated(decimate), full, bits)
    }

    /// The bits of a cell index.
    pub open spec fn index_bits(&self, decimate: bool) -> nat {
        ((self.u - self.decimated(decimate)) as nat) * (self.t as nat)
    }

    /// Cell indices fit in storage of the given width.
    pub open spec fn fits(&self, decimate: bool, bits: nat) -> bool {
        self.index_bits(decimate) <= bits
    }

    /// Draws a cell index. See [`cell_index`].
    pub fn draw<T: Cell, const DIM: usize, const FULL: bool, G: Generator>(&self, prng: &mut G) -> (r: T)
        requires
            cell::drawable(cell::dimension(DIM, self.t), self.u, self.s, 0, FULL, T::bits()),
        ensures
            sampling::sample::<G>(
                cell::geometry(cell::dimension(DIM, self.t), self.u, self.s, 0, T::bits()),
                old(prng).state(),
            ) == Some(r.val()),
            final(prng).state() == prng::orbit::<G>(old(prng).state(), cell::dimension(DIM, self.t) as nat),
    {
        cell_index::<T, DIM, FULL, G>(prng, self.t, self.u, self.s)
    }

    /// One decimating attempt (exactly *t* draws) returning the compacted dense index when
    /// accepted, `None` when rejected. See [`decimate_once`].
    pub fn draw_decimate_once<T: Cell, const DIM: usize, const FULL: bool, G: Generator>(
        &self,
        prng: &mut G,
    ) -> (r: Option<T>)
        requires
            cell::drawable(cell::dimension(DIM, self.t), self.u, self.s, self.d, FULL, T::bits()),
        ensures
            sampling::sample::<G>(
                cell::geometry(cell::dimension(DIM, self.t), self.u, self.s, self.d, T::bits()),
                old(prng).state(),
            ) == (match r {
                Some(x) => Some(x.val()),
                None => None,
            }),
            final(prng).state() == prng::orbit::<G>(old(prng).state(), cell::dimension(DIM, self.t) as nat),
    {
        decimate_once::<T, DIM, FULL, G>(prng, self.t, self.u, self.s, self.d)
    }

    /// Takes one sample, with or without decimation.
    pub(crate) fn take_sample<T: Cell, const DIM: usize, const DECIMATE: bool, const FULL: bool, G: Generator>(
        &self,
        prng: &mut G,
    ) -> (r: Option<T>)
        requires
            self.drawable(DIM, DECIMATE, FULL, T::bits()),
        ensures
            sampling::sample::<G>(self.geometry(DECIMATE, T::bits()), old(prng).state()) == (match r {
                Some(x) => Some(x.val()),
                None => None,
            }),
            final(prng).state() == prng::orbit::<G>(old(prng).state(), self.t as nat),
    {
        if DECIMATE {
            self.draw_decimate_once::<T, DIM, FULL, G>(prng)
        } else {
            Some(self.draw::<T, DIM, FULL, G>(prng))
        }
    }
}

/// Samples scanned per pass: `points` · 2*ᵗᵈ*, unless that does not fit in a `usize`.
pub fn scan_samples(points: usize, t: usize, d: usize) -> (r: Option<usize>)
    ensures
        r is Some <==> t * d < usize::BITS && points * pow2((t * d) as nat) <= usize::MAX,
        r matches Some(n) ==> n == points * pow2((t * d) as nat),
{
    match t.checked_mul(d) {
        None => None,
        Some(td) => {
            if td >= usize::BITS as usize {
                None
            } else {
                proof {
                    bits::lemma_word_moduli();
                    bits::lemma_u128_one_shl(td as u128);
                    lemma_pow2_strictly_increases(td as nat, 64);
                    assert(points * pow2(td as nat) <= u128::MAX) by (nonlinear_arith)
                        requires
                            points <= 0xffff_ffff_ffff_ffff,
                            pow2(td as nat) <= 0x1_0000_0000_0000_0000,
                    ;
                }
                let n: u128 = (points as u128) * (1u128 << (td as u128));
                if n <= usize::MAX as u128 {
                    Some(n as usize)
                } else {
                    None
                }
            }
        },
    }
}

/// Counts the elements of `v[lo..hi]` that equal their predecessor in `v`.
fn count_range<T: Cell>(v: &[T], lo: usize, hi: usize) -> (r: usize)
    requires
        lo <= hi <= v@.len(),
    ensures
        tally::adjacent(tally::vals(v@).take(hi as int)) == tally::adjacent(tally::vals(v@).take(lo as int)) + r,
        r <= hi - lo,
{
    let ghost p: Seq<nat> = tally::vals(v@);
    let mut count: usize = 0;
    let mut i: usize = lo;
    while i < hi
        invariant
            lo <= i <= hi <= v@.len(),
            p == tally::vals(v@),
            tally::adjacent(p.take(i as int)) == tally::adjacent(p.take(lo as int)) + count,
            count <= i - lo,
        decreases hi - i,
    {
        proof {
            assert(p.take(i + 1).drop_last() =~= p.take(i as int));
        }
        if i > 0 && v[i - 1].same(v[i]) {
            count += 1;
        }
        i += 1;
    }
    count
}

/// The number of chunks of a given size.
pub open spec fn chunk_count(len: int, size: int) -> int {
    len / size + if len % size > 0 {
        1int
    } else {
        0
    }
}

/// Where a chunk starts.
pub open spec fn chunk_start(len: int, size: int, i: int) -> int {
    if i * size < len {
        i * size
    } else {
        len
    }
}

/// The chunk size for a slice: about ten chunks per thread, but at least 1024 elements.
pub(crate) fn chunk_size(len: usize) -> (r: usize)
    ensures
        r >= 1024,
{
    let per_thread: usize = len / (parallelism() * 10);
    if per_thread < 1024 {
        1024
    } else {
        per_thread
    }
}

/// The number of chunks of a given size.
pub fn chunks_of(len: usize, size: usize) -> (r: usize)
    requires
        size > 0,
    ensures
        r == chunk_count(len as int, size as int),
{
    proof {
        if len > 0 && size > 1 {
            lemma_div_decreases(len as int, size as int);
        }
    }
    len / size + if len % size > 0 {
        1
    } else {
        0
    }
}

/// The lengths of the chunks.
pub fn chunk_lens(len: usize, size: usize) -> (r: Vec<usize>)
    requires
        size > 1,
    ensures
        r@.len() == chunk_count(len as int, size as int),
        par::offset(r@, r@.len() as int) == len,
        forall|i: int| 0 <= i <= r@.len() ==> #[trigger] par::offset(r@, i) == chunk_start(len as int, size as int, i),
        forall|i: int| 0 <= i < r@.len() ==> #[trigger] r@[i] > 0,
{
    let n: usize = chunks_of(len, size);
    let mut r: Vec<usize> = Vec::new();
    let mut start: usize = 0;
    let mut i: usize = 0;
    proof {
        lemma_chunks(len as int, size as int, 0);
    }
    while i < n
        invariant
            i <= n,
            size > 1,
            n == chunk_count(len as int, size as int),
            r@.len() == i,
            start == chunk_start(len as int, size as int, i as int),
            start <= len,
            forall|k: int| 0 <= k <= i ==> #[trigger] par::offset(r@, k) == chunk_start(len as int, size as int, k),
            forall|k: int| 0 <= k < i ==> #[trigger] r@[k] > 0,
        decreases n - i,
    {
        proof {
            lemma_chunks(len as int, size as int, i as int);
        }
        let piece: usize = if len - start > size {
            size
        } else {
            len - start
        };
        let ghost before: Seq<usize> = r@;
        r.push(piece);
        start += piece;
        proof {
            assert forall|k: int| 0 <= k <= i + 1 implies #[trigger] par::offset(r@, k) == chunk_start(
                len as int,
                size as int,
                k,
            ) by {
                if k <= i {
                    par::lemma_offset_prefix(before, r@, k);
                    assert(par::offset(before, k) == chunk_start(len as int, size as int, k));
                } else {
                    par::lemma_offset_prefix(before, r@, i as int);
                    assert(par::offset(before, i as int) == chunk_start(len as int, size as int, i as int));
                }
            }
        }
        i += 1;
    }
    proof {
        lemma_chunks(len as int, size as int, n as int);
        assert(par::offset(r@, n as int) == chunk_start(len as int, size as int, n as int));
    }
    r
}

/// A chunk has the given number of elements that equal their predecessor.
spec fn chunk_counted(p: Seq<nat>, size: usize, i: usize, c: usize) -> bool {
    let lo: int = chunk_start(p.len() as int, size as int, i as int);
    let hi: int = chunk_start(p.len() as int, size as int, i + 1);
    &&& tally::adjacent(p.take(hi)) == tally::adjacent(p.take(lo)) + c
    &&& c <= hi - lo
}

/// Chunks start within the length, and the last one ends at it.
pub proof fn lemma_chunks(len: int, size: int, i: int)
    requires
        size > 0,
        len >= 0,
        0 <= i,
    ensures
        0 <= i * size,
        i < chunk_count(len, size) ==> i * size < len,
        i >= chunk_count(len, size) ==> i * size >= len,
        chunk_start(len, size, i + 1) == if len - chunk_start(len, size, i) > size {
            chunk_start(len, size, i) + size
        } else {
            len
        },
{
    lemma_fundamental_div_mod(len, size);
    lemma_mul_nonnegative(i, size);
    let q: int = len / size;
    let r: int = len % size;
    assert((i + 1) * size == i * size + size) by (nonlinear_arith);
    if i < chunk_count(len, size) {
        if i < q {
            assert(i * size + size <= size * q) by (nonlinear_arith)
                requires
                    i + 1 <= q,
                    size > 0,
            ;
        } else {
            assert(i * size == size * q) by (nonlinear_arith)
                requires
                    i == q,
            ;
        }
    } else {
        if r > 0 {
            assert(i * size >= size * q + size) by (nonlinear_arith)
                requires
                    i >= q + 1,
                    size > 0,
            ;
        } else {
            assert(i * size >= size * q) by (nonlinear_arith)
                requires
                    i >= q,
                    size > 0,
            ;
        }
    }
}

/// Counts the elements of a chunk that equal their predecessor.
fn count_chunk<T: Cell>(v: &[T], size: usize, i: usize) -> (c: usize)
    requires
        size > 0,
        i < chunk_count(v@.len() as int, size as int),
    ensures
        chunk_counted(tally::vals(v@), size, i, c),
{
    let len: usize = v.len();
    proof {
        lemma_chunks(len as int, size as int, i as int);
    }
    let lo: usize = i * size;
    let hi: usize = if len - lo > size {
        lo + size
    } else {
        len
    };
    count_range(v, lo, hi)
}

/// Counts adjacent equal pairs (in a sorted slice, one less than the multiplicity, summed over the
/// distinct elements).
///
/// The slice is read in contiguous chunks, in parallel; the pair that straddles the start of a
/// chunk is counted with that chunk.
pub fn count_adjacent_equals<T: Cell>(v: &[T]) -> (r: usize)
    ensures
        r == tally::adjacent(tally::vals(v@)),
        tally::ascending(tally::vals(v@)) ==> r == tally::collisions(tally::vals(v@)),
        r <= v@.len(),
{
    let ghost p: Seq<nat> = tally::vals(v@);
    proof {
        if tally::ascending(p) {
            tally::lemma_adjacent_collisions(p);
        }
    }
    let len: usize = v.len();
    if len < 2 {
        return 0;
    }
    let size: usize = chunk_size(len);
    let chunks: usize = chunks_of(len, size);
    let count = |i: usize| -> (c: usize)
        requires
            chunks > i,
        ensures
            chunk_counted(tally::vals(v@), size, i, c),
        { count_chunk(v, size, i) };
    let counts: Vec<usize> = par_map(chunks, count);
    let mut total: usize = 0;
    let mut k: usize = 0;
    proof {
        assert(p.take(0) =~= Seq::<nat>::empty());
        lemma_chunks(len as int, size as int, 0);
    }
    while k < chunks
        invariant
            k <= chunks,
            size > 0,
            chunks == chunk_count(len as int, size as int),
            counts@.len() == chunks,
            total == tally::adjacent(p.take(chunk_start(len as int, size as int, k as int))),
            total <= chunk_start(len as int, size as int, k as int) <= len,
            forall|i: int|
                #![trigger counts@[i]]
                0 <= i < chunks ==> chunk_counted(p, size, i as usize, counts@[i]),
            p.len() == len,
        decreases chunks - k,
    {
        proof {
            lemma_chunks(len as int, size as int, k as int);
            assert(chunk_counted(p, size, k, counts@[k as int]));
        }
        total += counts[k];
        k += 1;
    }
    proof {
        lemma_chunks(len as int, size as int, chunks as int);
        assert(p.take(len as int) =~= p);
    }
    total
}

/// Moving the last element of a part to the front of the rest keeps the elements.
proof fn lemma_move<T>(a: Seq<T>, b: Seq<T>, rest: Seq<T>, x: T)
    ensures
        (a.push(x) + b + rest).to_multiset() == (a + b + (seq![x] + rest)).to_multiset(),
        (a + b.push(x) + rest).to_multiset() == (a + b + (seq![x] + rest)).to_multiset(),
{
    assert(a.push(x) =~= a + seq![x]);
    assert(b.push(x) =~= b + seq![x]);
    lemma_multiset_commutative(a, seq![x]);
    lemma_multiset_commutative(b, seq![x]);
    lemma_multiset_commutative(a.push(x), b);
    lemma_multiset_commutative(a, b.push(x));
    lemma_multiset_commutative(a, b);
    lemma_multiset_commutative(seq![x], rest);
    lemma_multiset_commutative(a.push(x) + b, rest);
    lemma_multiset_commutative(a + b.push(x), rest);
    lemma_multiset_commutative(a + b, seq![x] + rest);
    let y: Multiset<T> = (a + b + (seq![x] + rest)).to_multiset();
    assert((a.push(x) + b + rest).to_multiset() =~= y);
    assert((a + b.push(x) + rest).to_multiset() =~= y);
}

/// Three-pointer right-to-left merge of `buf[..prefix_len]` (sorted) with `src` (sorted) into
/// `buf[..prefix_len + src.len()]`.
///
/// Walking the write pointer from the high end downward means we only ever overwrite positions
/// strictly above any still-unread element of the prefix, so no scratch slots are needed. Prefix
/// elements that remain when `src` is exhausted are already at their correct positions.
pub fn merge_into<T: Cell>(buf: &mut [T], prefix_len: usize, src: &[T])
    requires
        prefix_len + src@.len() <= old(buf)@.len(),
        cell::ascending(old(buf)@.take(prefix_len as int)),
        cell::ascending(src@),
    ensures
        final(buf)@.len() == old(buf)@.len(),
        cell::ascending(final(buf)@.take(prefix_len + src@.len())),
        tally::vals(final(buf)@.take(prefix_len + src@.len())) == tally::sorted(
            tally::vals(old(buf)@.take(prefix_len as int)) + tally::vals(src@),
        ),
        final(buf)@.skip(prefix_len + src@.len()) == old(buf)@.skip(prefix_len + src@.len()),
{
    let ghost before: Seq<T> = buf@;
    let ghost a: Seq<T> = before.take(prefix_len as int);
    let blen: usize = buf.len();
    let mut i: usize = prefix_len;
    let mut j: usize = src.len();
    let mut w: usize = i + j;
    let ghost n: int = w as int;
    proof {
        assert(a.take(i as int) =~= a);
        assert(src@.take(j as int) =~= src@);
        assert(buf@.subrange(w as int, n) =~= Seq::<T>::empty());
        assert(a + src@ + Seq::<T>::empty() =~= a + src@);
    }
    while i > 0 && j > 0
        invariant
            w == i + j,
            i <= prefix_len,
            j <= src@.len(),
            n == prefix_len + src@.len(),
            n <= buf@.len(),
            buf@.len() == before.len(),
            a == before.take(prefix_len as int),
            cell::ascending(a),
            cell::ascending(src@),
            forall|k: int| 0 <= k < i ==> buf@[k] == a[k],
            forall|k: int| n <= k < buf@.len() ==> buf@[k] == before[k],
            cell::ascending(buf@.subrange(w as int, n)),
            all_below(a.take(i as int), buf@.subrange(w as int, n)),
            all_below(src@.take(j as int), buf@.subrange(w as int, n)),
            (a.take(i as int) + src@.take(j as int) + buf@.subrange(w as int, n)).to_multiset() == (a
                + src@).to_multiset(),
        decreases i + j,
    {
        let ghost tail: Seq<T> = buf@.subrange(w as int, n);
        w -= 1;
        if buf[i - 1].at_least(src[j - 1]) {
            i -= 1;
            let x: T = buf[i];
            buf[w] = x;
            proof {
                lemma_move(a.take(i as int), src@.take(j as int), tail, x);
                assert(a.take(i + 1) =~= a.take(i as int).push(x));
                assert(buf@.subrange(w as int, n) =~= seq![x] + tail);
                lemma_take_last(a, i as int, src@, j as int, tail);
            }
        } else {
            j -= 1;
            let x: T = src[j];
            buf[w] = x;
            proof {
                lemma_move(a.take(i as int), src@.take(j as int), tail, x);
                assert(src@.take(j + 1) =~= src@.take(j as int).push(x));
                assert(buf@.subrange(w as int, n) =~= seq![x] + tail);
                lemma_take_last(src@, j as int, a, i as int, tail);
            }
        }
    }
    while j > 0
        invariant
            w == i + j,
            i == 0 || j == 0,
            i <= prefix_len,
            j <= src@.len(),
            n == prefix_len + src@.len(),
            n <= buf@.len(),
            buf@.len() == before.len(),
            a == before.take(prefix_len as int),
            cell::ascending(a),
            cell::ascending(src@),
            forall|k: int| 0 <= k < i ==> buf@[k] == a[k],
            forall|k: int| n <= k < buf@.len() ==> buf@[k] == before[k],
            cell::ascending(buf@.subrange(w as int, n)),
            all_below(a.take(i as int), buf@.subrange(w as int, n)),
            all_below(src@.take(j as int), buf@.subrange(w as int, n)),
            (a.take(i as int) + src@.take(j as int) + buf@.subrange(w as int, n)).to_multiset() == (a
                + src@).to_multiset(),
        decreases j,
    {
        let ghost tail: Seq<T> = buf@.subrange(w as int, n);
        w -= 1;
        j -= 1;
        let x: T = src[j];
        buf[w] = x;
        proof {
            lemma_move(a.take(i as int), src@.take(j as int), tail, x);
            assert(src@.take(j + 1) =~= src@.take(j as int).push(x));
            assert(buf@.subrange(w as int, n) =~= seq![x] + tail);
            lemma_take_last(src@, j as int, a, i as int, tail);
        }
    }
    proof {
        let result: Seq<T> = buf@.take(n);
        assert(result =~= a.take(i as int) + src@.take(0) + buf@.subrange(w as int, n));
        assert forall|k: int, m: int| 0 <= k <= m < result.len() implies #[trigger] result[k].val()
            <= #[trigger] result[m].val() by {
            let t: Seq<T> = buf@.subrange(w as int, n);
            if m < i {
                assert(a[k].val() <= a[m].val());
            } else if k >= i {
                assert(t[k - w].val() <= t[m - w].val());
            } else {
                assert(a.take(i as int)[k].val() <= t[m - w].val());
            }
        }
        tally::lemma_sorted_vals(a + src@, result);
        assert(tally::vals(a + src@) =~= tally::vals(a) + tally::vals(src@));
        assert(buf@.skip(n) =~= before.skip(n));
    }
}

/// Every element of a sequence is at most every element of another one.
spec fn all_below<T: Cell>(lo: Seq<T>, hi: Seq<T>) -> bool {
    forall|k: int, m: int|
        0 <= k < lo.len() && 0 <= m < hi.len() ==> #[trigger] lo[k].val() <= #[trigger] hi[m].val()
}

/// The greater of the last elements of two sorted sequences goes in front of what is above both.
proof fn lemma_take_last<T: Cell>(a: Seq<T>, i: int, b: Seq<T>, j: int, tail: Seq<T>)
    requires
        0 <= i < a.len(),
        0 <= j <= b.len(),
        cell::ascending(a),
        cell::ascending(b),
        j > 0 ==> b[j - 1].val() <= a[i].val(),
        cell::ascending(tail),
        all_below(a.take(i + 1), tail),
        all_below(b.take(j), tail),
    ensures
        cell::ascending(seq![a[i]] + tail),
        all_below(a.take(i), seq![a[i]] + tail),
        all_below(b.take(j), seq![a[i]] + tail),
{
    let s: Seq<T> = seq![a[i]] + tail;
    assert(a.take(i + 1)[i] == a[i]);
    assert forall|k: int, m: int| 0 <= k <= m < s.len() implies #[trigger] s[k].val() <= #[trigger] s[m].val() by {
        if k > 0 {
            assert(s[k] == tail[k - 1] && s[m] == tail[m - 1]);
        } else if m > 0 {
            assert(s[m] == tail[m - 1]);
        }
    }
    assert forall|k: int, m: int| 0 <= k < i && 0 <= m < s.len() implies #[trigger] a.take(i)[k].val()
        <= #[trigger] s[m].val() by {
        assert(a.take(i + 1)[k] == a[k]);
        if m > 0 {
            assert(s[m] == tail[m - 1]);
        } else {
            assert(a[k].val() <= a[i].val());
        }
    }
    assert forall|k: int, m: int| 0 <= k < j && 0 <= m < s.len() implies #[trigger] b.take(j)[k].val()
        <= #[trigger] s[m].val() by {
        if m > 0 {
            assert(s[m] == tail[m - 1]);
        } else {
            assert(b[k].val() <= b[j - 1].val());
        }
    }
}

/// The kept prefixes of the blocks of a buffer.
pub open spec fn kept_prefixes<T>(buf: Seq<T>, caps: Seq<usize>, used: Seq<usize>) -> Seq<Seq<T>> {
    Seq::new(caps.len(), |i: int| buf.subrange(par::offset(caps, i), par::offset(caps, i) + used[i]))
}

/// Closes the gaps left by under-filled blocks, in place.
///
/// `buf` is partitioned into `caps[i]`-sized blocks, of which the first `used[i]` elements are
/// kept. This shifts each block left to close the gaps, leaving the kept elements contiguous, and
/// returns their number. Every destination is at most its source, so that moves performed left to
/// right clobber no unread source.
pub fn compact_blocks<T: Cell>(buf: &mut [T], caps: &[usize], used: &[usize]) -> (total: usize)
    requires
        caps@.len() == used@.len(),
        par::offset(caps@, caps@.len() as int) <= old(buf)@.len(),
        forall|i: int| 0 <= i < used@.len() ==> #[trigger] used@[i] <= caps@[i],
    ensures
        total == par::offset(used@, used@.len() as int),
        total <= final(buf)@.len(),
        final(buf)@.len() == old(buf)@.len(),
        final(buf)@.take(total as int) == par::concat(kept_prefixes(old(buf)@, caps@, used@)),
        final(buf)@.skip(par::offset(caps@, caps@.len() as int)) == old(buf)@.skip(
            par::offset(caps@, caps@.len() as int),
        ),
        used@ == caps@ ==> final(buf)@ == old(buf)@,
{
    let ghost before: Seq<T> = buf@;
    let ghost parts: Seq<Seq<T>> = kept_prefixes(before, caps@, used@);
    let blen: usize = buf.len();
    let mut src_base: usize = 0;
    let mut dst: usize = 0;
    let mut b: usize = 0;
    proof {
        assert(parts.take(0) =~= Seq::<Seq<T>>::empty());
    }
    while b < caps.len()
        invariant
            b <= caps@.len(),
            caps@.len() == used@.len(),
            par::offset(caps@, caps@.len() as int) <= before.len(),
            forall|i: int| 0 <= i < used@.len() ==> #[trigger] used@[i] <= caps@[i],
            parts == kept_prefixes(before, caps@, used@),
            buf@.len() == before.len(),
            blen == before.len(),
            src_base == par::offset(caps@, b as int),
            dst == par::offset(used@, b as int),
            dst <= src_base <= before.len(),
            buf@.take(dst as int) == par::concat(parts.take(b as int)),
            forall|k: int| src_base <= k < before.len() ==> buf@[k] == before[k],
            used@ == caps@ ==> buf@ == before,
        decreases caps@.len() - b,
    {
        let len: usize = used[b];
        let ghost head: Seq<T> = buf@.take(dst as int);
        proof {
            assert(used@[b as int] <= caps@[b as int]);
            par::lemma_offset_monotone(caps@, b + 1, caps@.len() as int);
        }
        if dst != src_base {
            let mut j: usize = 0;
            proof {
                assert(before.subrange(src_base as int, src_base as int) =~= Seq::<T>::empty());
            }
            while j < len
                invariant
                    j <= len,
                    dst < src_base,
                    src_base + len <= before.len(),
                    buf@.len() == before.len(),
                    blen == before.len(),
                    buf@.take(dst + j) == head + before.subrange(src_base as int, src_base + j),
                    forall|k: int| src_base + j <= k < before.len() ==> buf@[k] == before[k],
                decreases len - j,
            {
                let x: T = buf[src_base + j];
                let ghost now: Seq<T> = buf@;
                buf[dst + j] = x;
                proof {
                    assert(buf@.take(dst + j + 1) =~= now.take(dst + j).push(x));
                    assert(before.subrange(src_base as int, src_base + j + 1) =~= before.subrange(
                        src_base as int,
                        src_base + j,
                    ).push(x));
                }
                j += 1;
            }
        } else {
            proof {
                assert(buf@.take(dst + len) =~= head + before.subrange(src_base as int, src_base + len));
            }
        }
        proof {
            assert(parts.take(b + 1).drop_last() =~= parts.take(b as int));
        }
        dst += len;
        src_base += caps[b];
        b += 1;
    }
    proof {
        assert(parts.take(b as int) =~= parts);
        assert(buf@.skip(src_base as int) =~= before.skip(src_base as int));
    }
    dst
}

/// The first of the numbers `lo..hi` that does not fit, or `hi` if all of them do.
pub open spec fn first_misfit(fits: spec_fn(nat) -> bool, lo: nat, hi: nat) -> nat
    decreases hi,
{
    if hi <= lo {
        hi
    } else {
        let k: nat = first_misfit(fits, lo, (hi - 1) as nat);
        if k < hi - 1 {
            k
        } else if fits((hi - 1) as nat) {
            hi
        } else {
            (hi - 1) as nat
        }
    }
}

/// The first number that does not fit, by what sets it apart.
pub proof fn lemma_first_misfit(fits: spec_fn(nat) -> bool, lo: nat, hi: nat, k: nat)
    requires
        lo <= k <= hi,
        forall|j: nat| lo <= j < k ==> #[trigger] fits(j),
        k < hi ==> !fits(k),
    ensures
        first_misfit(fits, lo, hi) == k,
    decreases hi,
{
    if lo < hi {
        let m: nat = (hi - 1) as nat;
        if k == hi {
            lemma_first_misfit(fits, lo, m, m);
            assert(fits(m));
        } else if k < m {
            lemma_first_misfit(fits, lo, m, k);
        } else {
            lemma_first_misfit(fits, lo, m, m);
        }
    }
}

/// What is in a buffer after a sequence was written to its front.
pub open spec fn overlaid(before: Seq<nat>, s: Seq<nat>) -> Seq<nat> {
    s + before.skip(s.len() as int)
}

/// A buffer that keeps what is behind the first `len` elements.
pub proof fn lemma_overlaid<T: Cell>(before: Seq<T>, after: Seq<T>, len: int)
    requires
        0 <= len <= before.len(),
        after.len() == before.len(),
        after.skip(len) == before.skip(len),
    ensures
        tally::vals(after) == overlaid(tally::vals(before), tally::vals(after.take(len))),
{
    let w: Seq<nat> = overlaid(tally::vals(before), tally::vals(after.take(len)));
    assert forall|i: int| 0 <= i < after.len() implies tally::vals(after)[i] == w[i] by {
        if i >= len {
            assert(after.skip(len)[i - len] == before.skip(len)[i - len]);
        }
    }
    assert(tally::vals(after) =~= w);
}

/// Sorts the first `len` elements, using all threads.
pub fn sort_prefix<T: Cell>(buf: &mut [T], len: usize)
    requires
        len <= old(buf)@.len(),
    ensures
        final(buf)@.len() == old(buf)@.len(),
        cell::ascending(final(buf)@.take(len as int)),
        tally::vals(final(buf)@.take(len as int)) == tally::sorted(tally::vals(old(buf)@.take(len as int))),
        final(buf)@.skip(len as int) == old(buf)@.skip(len as int),
{
    let ghost before: Seq<T> = buf@;
    let (head, tail) = buf.split_at_mut(len);
    let ghost first: Seq<T> = head@;
    let ghost rest: Seq<T> = tail@;
    T::sort_mt(head);
    let ghost after: Seq<T> = head@;
    proof {
        tally::lemma_sorted_vals(first, after);
        assert(first =~= before.take(len as int));
        assert(buf@ =~= after + rest);
        assert(buf@.take(len as int) =~= after);
        assert(buf@.skip(len as int) =~= before.skip(len as int));
    }
}

/// Sorts the first `len` elements, using the current thread only.
pub fn sort_prefix_st<T: Cell>(buf: &mut [T], len: usize)
    requires
        len <= old(buf)@.len(),
    ensures
        final(buf)@.len() == old(buf)@.len(),
        cell::ascending(final(buf)@.take(len as int)),
        tally::vals(final(buf)@.take(len as int)) == tally::sorted(tally::vals(old(buf)@.take(len as int))),
        final(buf)@.skip(len as int) == old(buf)@.skip(len as int),
{
    let ghost before: Seq<T> = buf@;
    let (head, tail) = buf.split_at_mut(len);
    let ghost first: Seq<T> = head@;
    let ghost rest: Seq<T> = tail@;
    T::sort_st(head);
    let ghost after: Seq<T> = head@;
    proof {
        tally::lemma_sorted_vals(first, after);
        assert(first =~= before.take(len as int));
        assert(buf@ =~= after + rest);
        assert(buf@.take(len as int) =~= after);
        assert(buf@.skip(len as int) =~= before.skip(len as int));
    }
}

/// Counts the collisions of the first `len` elements, which are sorted.
pub fn count_prefix<T: Cell>(buf: &[T], len: usize) -> (r: usize)
    requires
        len <= buf@.len(),
        cell::ascending(buf@.take(len as int)),
    ensures
        r == tally::collisions(tally::vals(buf@.take(len as int))),
        r <= len,
{
    let head: &[T] = slice_subrange(buf, 0, len);
    proof {
        assert(buf@.subrange(0, len as int) =~= buf@.take(len as int));
        let p: Seq<nat> = tally::vals(head@);
        assert forall|i: int, j: int| 0 <= i <= j < p.len() implies p[i] <= p[j] by {
            assert(head@[i].val() <= head@[j].val());
        }
    }
    count_adjacent_equals(head)
}

/// Sorts the first `len` elements, and counts their collisions.
pub fn sort_and_count<T: Cell, P: Progress>(buf: &mut [T], len: usize, progress: &mut P) -> (r: usize)
    requires
        len <= old(buf)@.len(),
    ensures
        final(buf)@.len() == old(buf)@.len(),
        cell::ascending(final(buf)@.take(len as int)),
        tally::vals(final(buf)@.take(len as int)) == tally::sorted(tally::vals(old(buf)@.take(len as int))),
        final(buf)@.skip(len as int) == old(buf)@.skip(len as int),
        r == tally::collisions(tally::vals(old(buf)@.take(len as int))),
        r <= len,
        final(progress).log() == old(progress).log() + seq![Event::Sorting, Event::Counting],
{
    let ghost p: Seq<nat> = tally::vals(buf@.take(len as int));
    let ghost log0: Seq<Event> = progress.log();
    progress.report(Event::Sorting);
    sort_prefix(buf, len);
    progress.report(Event::Counting);
    proof {
        assert(progress.log() =~= log0 + seq![Event::Sorting, Event::Counting]);
        tally::lemma_sorted(p);
        tally::lemma_collisions_permuted(p, tally::sorted(p));
    }
    count_prefix(buf, len)
}

/// A buffer that received more elements than it holds.
///
/// Buffers have enough headroom that, for a uniform generator, this happens with negligible
/// probability: the generator under test is grossly non-uniform.
#[derive(Clone, Copy, PartialEq, Eq, Debug, Structural)]
pub enum Bin {
    /// The region of a thread, without a tradeoff.
    ParallelChunk,
    /// The region of a thread, in a tradeoff pass.
    TradeoffBin,
    /// A pass of the collision tradeoff.
    CollisionPass,
    /// A decimated collision run.
    DecimatedCollision,
    /// A stage of a decimated collision run with checkpoints.
    CheckpointStage,
    /// All stages of a decimated collision run with checkpoints.
    CheckpointTotal,
    /// All stages of a parallel decimated collision run with checkpoints.
    ParallelCheckpointTotal,
    /// A decimated birthday-spacings run.
    DecimatedBirthday,
    /// A value interval of the birthday-spacings tradeoff.
    BirthdayInterval,
    /// A spacing class of the birthday-spacings tradeoff.
    BirthdayClass,
}

/// The first of the passes to run: all of the 2*ᵇ* passes, or a single one.
pub open spec fn pass_lo(pass: Option<u64>) -> nat {
    match pass {
        Some(k) => k as nat,
        None => 0,
    }
}

/// The end of the passes to run.
pub open spec fn pass_hi(b: nat, pass: Option<u64>) -> nat {
    match pass {
        Some(k) => k as nat + 1,
        None => pow2(b),
    }
}

/// A single pass to run is one of the 2*ᵇ* passes.
pub open spec fn pass_ok(b: nat, pass: Option<u64>) -> bool {
    pass matches Some(k) ==> (k as nat) < pow2(b)
}

/// The number of passes, 2*ᵇ*.
pub fn pass_count(b: usize) -> (r: u64)
    requires
        b < 64,
    ensures
        r == pow2(b as nat),
        r > 0,
{
    proof {
        bits::lemma_u64_one_shl(b as u64);
        lemma_pow2_pos(b as nat);
    }
    1u64 << (b as u64)
}

/// A grid draws what its parameters say, and decimates only when told to.
pub proof fn lemma_grid_geometry(params: &GridParams, decimate: bool, width: nat)
    ensures
        params.geometry(decimate, width).u == params.u,
        params.geometry(decimate, width).t == params.t,
        params.geometry(decimate, width).s == params.s,
        params.geometry(decimate, width).d == if decimate {
            params.d
        } else {
            0
        },
        params.geometry(decimate, width).bits == width,
        decimate && params.d <= params.u ==> params.index_bits(decimate) + params.d * params.t == params.u * params.t,
        !decimate ==> params.index_bits(decimate) == params.u * params.t,
        params.fits(decimate, width) <==> params.index_bits(decimate) <= width,
{
    let (u, d, t): (int, int, int) = (params.u as int, params.d as int, params.t as int);
    assert((u - d) * t + d * t == u * t) by (nonlinear_arith);
    assert((u - 0) * t == u * t);
}

/// The units to run: a single one, when that is asked for, and else all 2*ᵇ* of them.
pub proof fn lemma_units(b: nat, pass: Option<u64>, k: nat)
    ensures
        pass is None ==> (pass_lo(pass) <= k < pass_hi(b, pass) <==> k < pow2(b)),
        pass is Some ==> (pass_lo(pass) <= k < pass_hi(b, pass) <==> k == pass->0 as nat),
        pass_ok(b, pass) <==> (pass is Some ==> (pass->0 as nat) < pow2(b)),
{
}

/// Chunks of a size, rounded up: enough of them for all elements, and none to spare.
pub proof fn lemma_enough_chunks(len: int, size: int)
    requires
        len >= 0,
        size > 0,
    ensures
        chunk_count(len, size) * size >= len,
        (chunk_count(len, size) - 1) * size < len,
{
    let (q, r): (int, int) = (len / size, len % size);
    lemma_fundamental_div_mod(len, size);
    lemma_mod_bound(len, size);
    assert((q + 1) * size >= len && q * size <= len && (r > 0 ==> q * size < len) && (q - 1) * size < len && (r == 0 ==> q
        * size == len)) by (nonlinear_arith)
        requires
            len == size * q + r,
            0 <= r < size,
    ;
}

/// The first misfit is one, unless all fit, and what comes before it fits.
pub proof fn lemma_misfit(fits: spec_fn(nat) -> bool, lo: nat, hi: nat)
    requires
        lo <= hi,
    ensures
        lo <= first_misfit(fits, lo, hi) <= hi,
        first_misfit(fits, lo, hi) < hi ==> !fits(first_misfit(fits, lo, hi)),
        forall|j: nat| lo <= j < first_misfit(fits, lo, hi) ==> #[trigger] fits(j),
    decreases hi,
{
    if lo < hi {
        lemma_misfit(fits, lo, (hi - 1) as nat);
    }
}

/// Writing to the front changes the front and nothing else.
pub proof fn lemma_overlaid_parts(before: Seq<nat>, s: Seq<nat>)
    requires
        s.len() <= before.len(),
    ensures
        overlaid(before, s).len() == before.len(),
        forall|i: int| 0 <= i < s.len() ==> #[trigger] overlaid(before, s)[i] == s[i],
        forall|i: int| s.len() <= i < before.len() ==> #[trigger] overlaid(before, s)[i] == before[i],
{
}

/// The kept prefixes are those of the blocks: element `j` of prefix `i` stands `j` places behind the start
/// of block `i`.
pub proof fn lemma_kept_prefixes<T>(buf: Seq<T>, caps: Seq<usize>, used: Seq<usize>, i: int, j: int)
    requires
        caps.len() == used.len(),
        0 <= i < caps.len(),
        0 <= j < used[i] <= caps[i],
        par::offset(caps, caps.len() as int) <= buf.len(),
    ensures
        kept_prefixes(buf, caps, used).len() == caps.len(),
        kept_prefixes(buf, caps, used)[i].len() == used[i],
        kept_prefixes(buf, caps, used)[i][j] == buf[par::offset(caps, i) + j],
{
    par::lemma_offset_monotone(caps, 0, i);
    par::lemma_offset_monotone(caps, i + 1, caps.len() as int);
}

/// Chunks start at the multiples of their size, as far as there are elements.
pub proof fn lemma_chunk_starts(len: int, size: int, i: int)
    requires
        len >= 0,
        size > 0,
        i >= 0,
    ensures
        i * size <= len ==> chunk_start(len, size, i) == i * size,
        i * size >= len ==> chunk_start(len, size, i) == len,
{
}

/// 2^`n` cells have 2^`n` - 1 as their last index, and more than 2^128 of them are refused.
pub proof fn lemma_cell_counts(n: usize, r: Option<Cells>, last: u128, c: Cells, same: Cells)
    requires
        call_ensures(Cells::power_of_two, (n,), r),
        r matches Some(made) ==> call_ensures(Cells::last, (&made,), last),
        call_ensures(Cells::up_to, (last,), c),
        call_ensures(Cells::up_to, (last,), same),
    ensures
        r is Some <==> n <= 128,
        r matches Some(made) ==> last + 1 == pow2(n as nat) && made@ == c@,
        c@ == last + 1,
        c@ == same@,
{
}

/// The number of passes is 2^`b`.
pub proof fn lemma_pass_count(b: usize, r: u64)
    requires
        call_ensures(pass_count, (b,), r),
    ensures
        r == pow2(b as nat),
{
}

/// A number of chunks is enough for all elements, and none is to spare.
pub proof fn lemma_chunks_of(len: usize, size: usize, r: usize, lens: Vec<usize>)
    requires
        size > 1,
        call_ensures(chunks_of, (len, size), r),
        call_ensures(chunk_lens, (len, size), lens),
    ensures
        r * size >= len > (r - 1) * size,
        lens@.len() == r,
        forall|i: int| 0 <= i < r ==> #[trigger] lens@[i] > 0,
        forall|i: int| 0 <= i < r - 1 ==> #[trigger] lens@[i] == size,
{
    lemma_enough_chunks(len as int, size as int);
    assert forall|i: int| 0 <= i < r - 1 implies #[trigger] lens@[i] == size by {
        lemma_chunk_starts(len as int, size as int, i);
        lemma_chunk_starts(len as int, size as int, i + 1);
        assert(par::offset(lens@, i + 1) == par::offset(lens@, i) + lens@[i]);
        assert(par::offset(lens@, i) == chunk_start(len as int, size as int, i));
        let (a, b, c): (int, int, int) = (i, r - 1, size as int);
        assert((a + 1) * c <= b * c) by (nonlinear_arith)
            requires
                a + 1 <= b,
                c > 0,
        ;
        assert((a + 1) * c == a * c + c) by (nonlinear_arith);
    }
}

/// Compacting moves the used front of each block behind that of the one before.
pub proof fn lemma_compacted<T: Cell>(buf: Seq<&mut [T]>, caps: &[usize], used: &[usize], total: usize, i: int, j: int)
    requires
        buf.len() == 1,
        caps@.len() == used@.len(),
        par::offset(caps@, caps@.len() as int) <= buf[0]@.len(),
        0 <= i < caps@.len(),
        0 <= j < used@[i] <= caps@[i],
        call_ensures(compact_blocks::<T>, (buf[0], caps, used), total),
    ensures
        total == par::offset(used@, used@.len() as int),
        final(buf[0])@.take(total as int) == kept_prefixes(buf[0]@, caps@, used@).flatten(),
        kept_prefixes(buf[0]@, caps@, used@).len() == caps@.len(),
        kept_prefixes(buf[0]@, caps@, used@)[i].len() == used@[i],
        kept_prefixes(buf[0]@, caps@, used@)[i][j] == buf[0]@[par::offset(caps@, i) + j],
{
    lemma_kept_prefixes(buf[0]@, caps@, used@, i, j);
    par::lemma_concat_flat(kept_prefixes(buf[0]@, caps@, used@));
}

/// Sorting a prefix, by either way, puts it in order and keeps what is in it, and leaves the rest; and
/// then counting in it counts what came before.
pub proof fn lemma_prefix_sorted<T: Cell>(buf: Seq<&mut [T]>, len: usize, c: usize)
    requires
        buf.len() == 2,
        len <= buf[0]@.len(),
        buf[0]@ == buf[1]@,
        call_ensures(sort_prefix::<T>, (buf[0], len), ()),
        call_ensures(sort_prefix_st::<T>, (buf[1], len), ()),
        call_ensures(count_prefix::<T>, (final(buf[0]), len), c),
    ensures
        ({
            let before: Seq<nat> = tally::vals(buf[0]@.take(len as int));
            let after: Seq<nat> = tally::vals(final(buf[0])@.take(len as int));
            &&& after.to_multiset() == before.to_multiset()
            &&& forall|i: int| 0 < i < len ==> after[i - 1] <= #[trigger] after[i]
            &&& tally::vals(final(buf[1])@.take(len as int)) == after
            &&& final(buf[0])@.skip(len as int) == buf[0]@.skip(len as int)
            &&& final(buf[1])@.skip(len as int) == buf[0]@.skip(len as int)
            &&& c == Set::new(|i: int| 0 <= i < before.len() && before.take(i).contains(before[i])).len()
        }),
{
    let before: Seq<nat> = tally::vals(buf[0]@.take(len as int));
    let after: Seq<nat> = tally::vals(final(buf[0])@.take(len as int));
    tally::lemma_sorted(before);
    tally::lemma_collisions_permuted(before, after);
    tally::lemma_collisions_repeats(before);
    assert forall|i: int| 0 < i < len implies after[i - 1] <= #[trigger] after[i] by {
        assert(tally::ascending(after));
    }
}

} // verus!
