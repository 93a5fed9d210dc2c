//! Permutation facts behind the sorting proofs: how a swap shows up in the
//! multiset of a sequence, how that multiset splits at a midpoint, and that
//! a per-element bound survives any rearrangement of the values.

use vstd::prelude::*;
use vstd::seq_lib::group_to_multiset_ensures;
use vstd::seq_lib::lemma_multiset_commutative;
use vstd::multiset::group_multiset_axioms;

verus! {

/// Swapping two positions of a sequence leaves its multiset of values
/// unchanged.
pub(crate) proof fn lemma_swap_multiset(s: Seq<u64>, i: int, j: int)
    requires
        0 <= i < s.len(),
        0 <= j < s.len(),
    ensures
        s.update(i, s[j]).update(j, s[i]).to_multiset() == s.to_multiset(),
{
    broadcast use group_to_multiset_ensures;
    broadcast use group_multiset_axioms;

    let s1 = s.update(i, s[j]);
    let s2 = s1.update(j, s[i]);
    assert(s1[j] == s[j]);
    assert(s2.to_multiset() =~= s.to_multiset());
}

/// A swap of two positions lying inside `lo..hi` leaves the multiset of the
/// subrange `lo..hi` unchanged.
pub(crate) proof fn lemma_swap_subrange_multiset(s: Seq<u64>, lo: int, hi: int, i: int, j: int)
    requires
        0 <= lo <= i < hi <= s.len(),
        lo <= j < hi,
    ensures
        s.update(i, s[j]).update(j, s[i]).subrange(lo, hi).to_multiset() == s.subrange(
            lo,
            hi,
        ).to_multiset(),
{
    let t = s.subrange(lo, hi);
    assert(s.update(i, s[j]).update(j, s[i]).subrange(lo, hi) =~= t.update(
        i - lo,
        t[j - lo],
    ).update(j - lo, t[i - lo]));
    lemma_swap_multiset(t, i - lo, j - lo);
}

/// The multiset of `s[lo..hi]` splits at any midpoint of the range.
pub(crate) proof fn lemma_subrange_split_multiset(s: Seq<u64>, lo: int, mid: int, hi: int)
    requires
        0 <= lo <= mid <= hi <= s.len(),
    ensures
        s.subrange(lo, hi).to_multiset() == s.subrange(lo, mid).to_multiset().add(
            s.subrange(mid, hi).to_multiset(),
        ),
{
    assert(s.subrange(lo, hi) =~= s.subrange(lo, mid) + s.subrange(mid, hi));
    lemma_multiset_commutative(s.subrange(lo, mid), s.subrange(mid, hi));
}

/// Two sequences holding the same multiset of values satisfy the same
/// per-element predicates: rearranging values cannot break a bound that
/// held of each of them.
pub(crate) proof fn lemma_same_multiset_same_pred(
    s1: Seq<u64>,
    s2: Seq<u64>,
    pred: spec_fn(u64) -> bool,
)
    requires
        s2.to_multiset() == s1.to_multiset(),
        forall|k: int| 0 <= k < s1.len() ==> pred(#[trigger] s1[k]),
    ensures
        forall|k: int| 0 <= k < s2.len() ==> pred(#[trigger] s2[k]),
{
    broadcast use group_to_multiset_ensures;

    assert forall|k: int| 0 <= k < s2.len() implies pred(s2[k]) by {
        assert(s2.contains(s2[k]));
        assert(s1.to_multiset().count(s2[k]) > 0);
        assert(s1.contains(s2[k]));
        let m = choose|m: int| 0 <= m < s1.len() && s1[m] == s2[k];
        assert(pred(s1[m]));
    };
}

} // verus!
