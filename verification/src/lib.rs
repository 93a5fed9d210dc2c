//! An in-place quicksort for vectors of unsigned integers.
//!
//! `partition` rearranges a range of the vector around its last element
//! (the pivot) and returns the pivot's final position; `quicksort` recurses
//! on the two sides of that position. The contracts state the classical
//! properties: the range comes out sorted, the values are a permutation of
//! the input, and nothing outside the range is touched.

use vstd::prelude::*;

mod perm;

verus! {

/// The values of `s` at positions `lo..=hi` are in non-decreasing order.
pub open spec fn sorted_between(s: Seq<u64>, lo: int, hi: int) -> bool {
    forall|i: int, j: int| lo <= i <= j <= hi ==> #[trigger] s[i] <= #[trigger] s[j]
}

/// `post` has the same length as `pre` and agrees with it at every
/// position outside `lo..=hi`.
pub open spec fn unchanged_outside(pre: Seq<u64>, post: Seq<u64>, lo: int, hi: int) -> bool {
    &&& post.len() == pre.len()
    &&& forall|k: int| 0 <= k < pre.len() && !(lo <= k <= hi) ==> post[k] == pre[k]
}

/// Exchange the elements at positions `i` and `j`.
fn swap(a: &mut Vec<u64>, i: usize, j: usize)
    requires
        i < old(a).len(),
        j < old(a).len(),
    ensures
        final(a)@ == old(a)@.update(i as int, old(a)@[j as int]).update(
            j as int,
            old(a)@[i as int],
        ),
{
    let x: u64 = a[i];
    let y: u64 = a[j];
    a.set(i, y);
    a.set(j, x);
}

/// Rearrange `a[low..=high]` around the value that starts at position
/// `high` (the pivot) and return the pivot's final position `p`: afterwards
/// every value at a position below `p` in the range is strictly less than
/// the pivot, every value above it is at least the pivot, the range holds
/// the same multiset of values it held before, and nothing outside the
/// range moves.
pub fn partition(a: &mut Vec<u64>, low: usize, high: usize) -> (p: usize)
    requires
        low <= high,
        high < old(a).len(),
    ensures
        low <= p <= high,
        final(a).len() == old(a).len(),
        final(a)@[p as int] == old(a)@[high as int],
        forall|k: int| low <= k < p ==> final(a)@[k] < final(a)@[p as int],
        forall|k: int| p < k <= high ==> final(a)@[k] >= final(a)@[p as int],
        final(a)@.subrange(low as int, high + 1).to_multiset() == old(a)@.subrange(
            low as int,
            high + 1,
        ).to_multiset(),
        final(a)@.to_multiset() == old(a)@.to_multiset(),
        unchanged_outside(old(a)@, final(a)@, low as int, high as int),
{
    let mut index: usize = low;
    let mut i: usize = low;
    while i <= high
        invariant
            low <= index <= i,
            index <= high,
            i <= high + 1,
            high < a.len(),
            a.len() == old(a).len(),
            a@[high as int] == old(a)@[high as int],
            forall|k: int| low <= k < index ==> a@[k] < a@[high as int],
            forall|k: int| index <= k < i ==> a@[k] >= a@[high as int],
            a@.subrange(low as int, high + 1).to_multiset() == old(a)@.subrange(
                low as int,
                high + 1,
            ).to_multiset(),
            a@.to_multiset() == old(a)@.to_multiset(),
            forall|k: int| 0 <= k < a.len() && !(low <= k <= high) ==> a@[k] == old(a)@[k],
        decreases high + 1 - i,
    {
        if a[i] < a[high] {
            let ghost pre = a@;
            swap(a, index, i);
            proof {
                perm::lemma_swap_subrange_multiset(
                    pre,
                    low as int,
                    high + 1,
                    index as int,
                    i as int,
                );
                perm::lemma_swap_multiset(pre, index as int, i as int);
            }
            index += 1;
        }
        i += 1;
    }
    let ghost pre = a@;
    swap(a, index, high);
    proof {
        perm::lemma_swap_subrange_multiset(pre, low as int, high + 1, index as int, high as int);
        perm::lemma_swap_multiset(pre, index as int, high as int);
    }
    index
}

/// Sort `a[low..=high]` in place. A range with `low >= high` holds at most
/// one element and is already sorted, so the call leaves the vector
/// untouched; otherwise the range comes out sorted and holds the same
/// multiset of values it held before, and nothing outside the range moves.
pub fn quicksort(a: &mut Vec<u64>, low: usize, high: usize)
    requires
        low < high ==> high < old(a).len(),
    ensures
        final(a).len() == old(a).len(),
        sorted_between(final(a)@, low as int, high as int),
        low < high ==> final(a)@.subrange(low as int, high + 1).to_multiset() == old(
            a,
        )@.subrange(low as int, high + 1).to_multiset(),
        final(a)@.to_multiset() == old(a)@.to_multiset(),
        unchanged_outside(old(a)@, final(a)@, low as int, high as int),
        low >= high ==> final(a)@ == old(a)@,
    decreases high - low + 1,
{
    if low < high {
        let ghost s0 = a@;
        let p = partition(a, low, high);
        let ghost s1 = a@;
        let ghost piv = a@[p as int];
        if p > low {
            quicksort(a, low, p - 1);
        }
        let ghost s2 = a@;
        proof {
            assert(s2.subrange(low as int, p as int).to_multiset() == s1.subrange(
                low as int,
                p as int,
            ).to_multiset()) by {
                if low + 1 >= p {
                    assert(s2.subrange(low as int, p as int) =~= s1.subrange(
                        low as int,
                        p as int,
                    ));
                }
            }
            assert forall|k: int| p <= k < s1.len() implies s2[k] == s1[k] by {}
            assert forall|k: int| low <= k < p implies s2[k] < piv by {
                let pred = |x: u64| x < piv;
                assert forall|m: int|
                    0 <= m < s1.subrange(low as int, p as int).len() implies pred(
                    #[trigger] s1.subrange(low as int, p as int)[m],
                ) by {
                    assert(s1.subrange(low as int, p as int)[m] == s1[low + m]);
                }
                perm::lemma_same_multiset_same_pred(
                    s1.subrange(low as int, p as int),
                    s2.subrange(low as int, p as int),
                    pred,
                );
                assert(pred(s2.subrange(low as int, p as int)[k - low]));
            }
        }
        quicksort(a, p + 1, high);
        let ghost s3 = a@;
        proof {
            assert forall|k: int| 0 <= k <= p implies s3[k] == s2[k] by {}
            assert(s3.subrange(p + 1, high + 1).to_multiset() == s2.subrange(
                p + 1,
                high + 1,
            ).to_multiset()) by {
                if p + 1 >= high {
                    assert(s3.subrange(p + 1, high + 1) =~= s2.subrange(p + 1, high + 1));
                }
            }
            assert forall|k: int| p < k <= high implies s3[k] >= piv by {
                let pred = |x: u64| x >= piv;
                assert forall|m: int|
                    0 <= m < s2.subrange(p + 1, high + 1).len() implies pred(
                    #[trigger] s2.subrange(p + 1, high + 1)[m],
                ) by {
                    assert(s2.subrange(p + 1, high + 1)[m] == s2[p + 1 + m]);
                    assert(s2[p + 1 + m] == s1[p + 1 + m]);
                }
                perm::lemma_same_multiset_same_pred(
                    s2.subrange(p + 1, high + 1),
                    s3.subrange(p + 1, high + 1),
                    pred,
                );
                assert(pred(s3.subrange(p + 1, high + 1)[k - p - 1]));
            }
            assert(s3[p as int] == piv);
            // The two sorted halves and the pivot between them make the
            // whole range sorted.
            assert forall|i: int, j: int|
                low <= i <= j <= high implies #[trigger] s3[i] <= #[trigger] s3[j] by {
                if j < p {
                    assert(s3[i] == s2[i] && s3[j] == s2[j]);
                } else if i < p && j == p {
                    assert(s3[i] < piv);
                } else if i < p && j > p {
                    assert(s3[i] < piv && s3[j] >= piv);
                } else if i == p && j > p {
                    assert(s3[j] >= piv);
                }
            }
            // The multiset of the range is carried through partition and
            // the two recursive sorts piece by piece.
            assert(s3.subrange(low as int, p as int).to_multiset() == s1.subrange(
                low as int,
                p as int,
            ).to_multiset()) by {
                assert(s3.subrange(low as int, p as int) =~= s2.subrange(low as int, p as int));
            }
            assert(s3.subrange(p as int, p + 1).to_multiset() == s1.subrange(
                p as int,
                p + 1,
            ).to_multiset()) by {
                assert(s3.subrange(p as int, p + 1) =~= s1.subrange(p as int, p + 1));
            }
            assert(s2.subrange(p + 1, high + 1) =~= s1.subrange(p + 1, high + 1));
            perm::lemma_subrange_split_multiset(s3, low as int, p as int, high + 1);
            perm::lemma_subrange_split_multiset(s3, p as int, p + 1, high + 1);
            perm::lemma_subrange_split_multiset(s1, low as int, p as int, high + 1);
            perm::lemma_subrange_split_multiset(s1, p as int, p + 1, high + 1);
            assert(s3.subrange(low as int, high + 1).to_multiset() == s0.subrange(
                low as int,
                high + 1,
            ).to_multiset());
        }
    }
}

/// Sort the whole vector in place. A vector of length zero or one is
/// already sorted and is left exactly as it was.
pub fn sort(a: &mut Vec<u64>)
    ensures
        final(a).len() == old(a).len(),
        sorted_between(final(a)@, 0, final(a).len() - 1),
        final(a)@.to_multiset() == old(a)@.to_multiset(),
        old(a).len() <= 1 ==> final(a)@ == old(a)@,
{
    if a.len() > 1 {
        let high: usize = a.len() - 1;
        quicksort(a, 0, high);
    }
}

/// Why a call to `sort_range` returned no result.
#[derive(Clone, Copy, Debug, PartialEq, Eq)]
pub enum SortError {
    /// The vector has no elements, so no inclusive range into it is valid.
    EmptySequence,
    /// `low` or `high` is not a valid index into the vector.
    OutOfRange,
}

/// Bounds-checked sorting of `a[low..=high]`: the bounds are validated
/// before any element moves, so on an error the vector is exactly as it
/// was. An empty vector is refused with `EmptySequence`; a `low` or `high`
/// beyond the last index is refused with `OutOfRange`; any other call
/// succeeds, and one with `low >= high` is a no-op.
pub fn sort_range(a: &mut Vec<u64>, low: usize, high: usize) -> (r: Result<(), SortError>)
    ensures
        final(a).len() == old(a).len(),
        old(a).len() == 0 ==> r == Err::<(), SortError>(SortError::EmptySequence),
        old(a).len() > 0 && (low >= old(a).len() || high >= old(a).len()) ==> r == Err::<
            (),
            SortError,
        >(SortError::OutOfRange),
        low < old(a).len() && high < old(a).len() ==> r == Ok::<(), SortError>(()),
        r is Err ==> final(a)@ == old(a)@,
        r is Ok ==> sorted_between(final(a)@, low as int, high as int),
        r is Ok ==> final(a)@.to_multiset() == old(a)@.to_multiset(),
        r is Ok ==> unchanged_outside(old(a)@, final(a)@, low as int, high as int),
        r is Ok && low < high ==> final(a)@.subrange(low as int, high + 1).to_multiset() == old(
            a,
        )@.subrange(low as int, high + 1).to_multiset(),
        r is Ok && low >= high ==> final(a)@ == old(a)@,
{
    if a.len() == 0 {
        return Err(SortError::EmptySequence);
    }
    if low >= a.len() || high >= a.len() {
        return Err(SortError::OutOfRange);
    }
    if low < high {
        quicksort(a, low, high);
    }
    Ok(())
}

/// Sorting is idempotent: a sequence already sorted on `lo..=hi` is left
/// exactly as it is by any rearrangement that meets the sorting contract,
/// that is, one that sorts `lo..=hi`, keeps the multiset of values of that
/// range, and touches nothing outside it.
pub proof fn lemma_sort_of_sorted_is_identity(pre: Seq<u64>, post: Seq<u64>, lo: int, hi: int)
    requires
        0 <= lo,
        hi < pre.len(),
        post.len() == pre.len(),
        sorted_between(pre, lo, hi),
        sorted_between(post, lo, hi),
        lo <= hi ==> post.subrange(lo, hi + 1).to_multiset() == pre.subrange(
            lo,
            hi + 1,
        ).to_multiset(),
        forall|k: int| 0 <= k < pre.len() && !(lo <= k <= hi) ==> post[k] == pre[k],
    ensures
        post == pre,
{
    if lo <= hi {
        let leq = |x: u64, y: u64| x <= y;
        let a = pre.subrange(lo, hi + 1);
        let b = post.subrange(lo, hi + 1);
        assert(vstd::relations::sorted_by(a, leq)) by {
            assert forall|i: int, j: int| 0 <= i < j < a.len() implies #[trigger] leq(
                a[i],
                a[j],
            ) by {
                assert(pre[lo + i] <= pre[lo + j]);
            }
        }
        assert(vstd::relations::sorted_by(b, leq)) by {
            assert forall|i: int, j: int| 0 <= i < j < b.len() implies #[trigger] leq(
                b[i],
                b[j],
            ) by {
                assert(post[lo + i] <= post[lo + j]);
            }
        }
        vstd::seq_lib::lemma_sorted_unique(a, b, leq);
        assert forall|k: int| 0 <= k < pre.len() implies post[k] == pre[k] by {
            if lo <= k <= hi {
                assert(a[k - lo] == b[k - lo]);
            }
        }
    }
    assert(post =~= pre);
}

} // verus!
