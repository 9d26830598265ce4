//! Work on the Rayon global thread pool, and the disjoint regions of a buffer that it is done on.
use rayon::iter::{IndexedParallelIterator, IntoParallelIterator, ParallelIterator};
use vstd::prelude::*;

verus! {

/// The sum of the first `k` lengths.
pub open spec fn offset(lens: Seq<usize>, k: int) -> int
    decreases k,
{
    if k <= 0 {
        0
    } else {
        offset(lens, k - 1) + lens[k - 1]
    }
}

/// Parts, one after the other.
pub open spec fn concat<A>(parts: Seq<Seq<A>>) -> Seq<A>
    decreases parts.len(),
{
    if parts.len() == 0 {
        Seq::empty()
    } else {
        concat(parts.drop_last()) + parts.last()
    }
}

/// Calls a function on `0..n` in parallel, by Rayon's parallel iteration over a range (`map`, then
/// `collect`). The function is called once on each index, and the results come in the order of
/// the indices.
#[verifier::external_body]
pub(crate) fn par_map<R: Send, F: Fn(usize) -> R + Sync + Send>(n: usize, f: F) -> (r: Vec<R>)
    requires
        forall|i: usize| i < n ==> call_requires(f, (i,)),
    ensures
        r@.len() == n,
        forall|i: usize| i < n ==> call_ensures(f, (i,), #[trigger] r@[i as int]),
{
    (0..n).into_par_iter().map(f).collect()
}

/// Calls a function on each of several disjoint regions in parallel, by Rayon's parallel iteration
/// over a vector (`enumerate`, `map`, then `collect`). The function is called once on each region,
/// with its position, and the results come in the order of the regions.
#[verifier::external_body]
pub(crate) fn par_parts<T: Send, R: Send, F: Fn(usize, &mut [T]) -> R + Sync + Send>(
    parts: Vec<&mut [T]>,
    f: F,
) -> (r: Vec<R>)
    requires
        forall|i: usize| i < parts@.len() ==> call_requires(f, (i, parts@[i as int])),
    ensures
        r@.len() == parts@.len(),
        forall|i: usize| i < parts@.len() ==> call_ensures(f, (i, parts@[i as int]), #[trigger] r@[i as int]),
{
    parts.into_par_iter().enumerate().map(|(i, p)| f(i, p)).collect()
}

/// Offsets do not decrease.
pub proof fn lemma_offset_monotone(lens: Seq<usize>, i: int, j: int)
    requires
        0 <= i <= j <= lens.len(),
    ensures
        0 <= offset(lens, i) <= offset(lens, j),
    decreases j,
{
    if i < j {
        lemma_offset_monotone(lens, i, j - 1);
    } else if i > 0 {
        lemma_offset_monotone(lens, i - 1, i - 1);
    }
}

/// The offset looks at the lengths before it only.
pub proof fn lemma_offset_prefix(a: Seq<usize>, b: Seq<usize>, k: int)
    requires
        k <= a.len(),
        k <= b.len(),
        forall|i: int| 0 <= i < k ==> a[i] == b[i],
    ensures
        offset(a, k) == offset(b, k),
    decreases k,
{
    if k > 0 {
        lemma_offset_prefix(a, b, k - 1);
    }
}

/// The length of a concatenation.
pub proof fn lemma_concat_len<A>(parts: Seq<Seq<A>>, lens: Seq<usize>)
    requires
        parts.len() == lens.len(),
        forall|i: int| 0 <= i < parts.len() ==> #[trigger] parts[i].len() == lens[i],
    ensures
        concat(parts).len() == offset(lens, lens.len() as int),
    decreases parts.len(),
{
    if parts.len() > 0 {
        let n: int = parts.len() - 1;
        assert(parts[n].len() == lens[n]);
        assert forall|i: int| 0 <= i < parts.drop_last().len() implies #[trigger] parts.drop_last()[i].len()
            == lens.drop_last()[i] by {
            assert(parts[i].len() == lens[i]);
        }
        lemma_concat_len(parts.drop_last(), lens.drop_last());
        lemma_offset_prefix(lens.drop_last(), lens, n);
    }
}

/// A part sits in the concatenation at its offset.
pub proof fn lemma_concat_part<A>(parts: Seq<Seq<A>>, lens: Seq<usize>, i: int)
    requires
        parts.len() == lens.len(),
        forall|i: int| 0 <= i < parts.len() ==> #[trigger] parts[i].len() == lens[i],
        0 <= i < parts.len(),
    ensures
        0 <= offset(lens, i),
        offset(lens, i) + lens[i] <= concat(parts).len(),
        concat(parts).subrange(offset(lens, i), offset(lens, i) + lens[i]) == parts[i],
    decreases parts.len(),
{
    let n: int = parts.len() - 1;
    let shorter: Seq<Seq<A>> = parts.drop_last();
    let short: Seq<usize> = lens.drop_last();
    assert(parts[n].len() == lens[n]);
    assert forall|i: int| 0 <= i < shorter.len() implies #[trigger] shorter[i].len() == short[i] by {
        assert(parts[i].len() == lens[i]);
    }
    lemma_concat_len(parts, lens);
    lemma_concat_len(shorter, short);
    lemma_offset_prefix(short, lens, i);
    lemma_offset_prefix(short, lens, n);
    lemma_offset_monotone(lens, 0, i);
    if i < n {
        lemma_concat_part(shorter, short, i);
        assert(concat(parts).subrange(offset(lens, i), offset(lens, i) + lens[i]) =~= concat(shorter).subrange(
            offset(short, i),
            offset(short, i) + short[i],
        ));
    } else {
        assert(concat(parts).subrange(offset(lens, i), offset(lens, i) + lens[i]) =~= parts[n]);
    }
}

/// Splits the first `k` regions, of the given lengths, off a buffer.
pub fn split_regions<'a, T>(buf: &'a mut [T], lens: &[usize], k: usize) -> (r: Vec<&'a mut [T]>)
    requires
        k <= lens@.len(),
        offset(lens@, k as int) <= old(buf)@.len(),
    ensures
        r@.len() == k,
        forall|i: int|
            #![trigger r@[i]]
            0 <= i < k ==> r@[i]@ == old(buf)@.subrange(offset(lens@, i), offset(lens@, i) + lens@[i]),
        final(buf)@ == concat(Seq::new(k as nat, |i: int| final(r@[i])@)) + old(buf)@.skip(offset(lens@, k as int)),
    decreases k,
{
    if k == 0 {
        let r: Vec<&'a mut [T]> = Vec::new();
        proof {
            assert(concat(Seq::new(k as nat, |i: int| final(r@[i])@)) =~= Seq::empty());
            assert(buf@.skip(0) =~= buf@);
        }
        r
    } else {
        let ghost whole: Seq<T> = buf@;
        proof {
            lemma_offset_monotone(lens@, k - 1, k as int);
        }
        let start: usize = sum(lens, k - 1, buf.len());
        let (head, tail) = buf.split_at_mut(start);
        let (region, _rest) = tail.split_at_mut(lens[k - 1]);
        let mut r: Vec<&'a mut [T]> = split_regions(head, lens, k - 1);
        let ghost before = r@;
        r.push(region);
        proof {
            assert forall|i: int|
                #![trigger r@[i]]
                0 <= i < k implies r@[i]@ == whole.subrange(offset(lens@, i), offset(lens@, i) + lens@[i]) by {
                if i < k - 1 {
                    lemma_offset_monotone(lens@, i + 1, k - 1);
                    lemma_offset_monotone(lens@, 0, i);
                    assert(r@[i] == before[i]);
                    assert(whole.subrange(0, start as int).subrange(offset(lens@, i), offset(lens@, i) + lens@[i])
                        =~= whole.subrange(offset(lens@, i), offset(lens@, i) + lens@[i]));
                }
            }
            assert(Seq::new(k as nat, |i: int| final(r@[i])@).drop_last() =~= Seq::new(
                (k - 1) as nat,
                |i: int| final(before[i])@,
            ));
        }
        r
    }
}

/// The sum of the first `k` lengths, which is known to be at most `limit`.
pub fn sum(lens: &[usize], k: usize, limit: usize) -> (r: usize)
    requires
        k <= lens@.len(),
        offset(lens@, k as int) <= limit,
    ensures
        r == offset(lens@, k as int),
{
    let mut r: usize = 0;
    let mut i: usize = 0;
    while i < k
        invariant
            i <= k <= lens@.len(),
            offset(lens@, k as int) <= limit,
            r == offset(lens@, i as int),
        decreases k - i,
    {
        proof {
            lemma_offset_monotone(lens@, i + 1, k as int);
        }
        r += lens[i];
        i += 1;
    }
    r
}

/// Offsets add up the lengths: there is nothing before the first, and each is as far from the one before
/// as its length says.
pub proof fn lemma_offset_steps(lens: Seq<usize>, k: int)
    requires
        0 <= k < lens.len(),
    ensures
        offset(lens, 0) == 0,
        offset(lens, k + 1) - offset(lens, k) == lens[k],
{
}

/// Parts are put one behind the other, in their order.
pub proof fn lemma_concat_flat<A>(parts: Seq<Seq<A>>)
    ensures
        concat(parts) == parts.flatten(),
    decreases parts.len(),
{
    parts.lemma_flatten_and_flatten_alt_are_equivalent();
    if parts.len() > 0 {
        lemma_concat_flat(parts.drop_last());
        parts.drop_last().lemma_flatten_and_flatten_alt_are_equivalent();
    }
}

} // verus!
