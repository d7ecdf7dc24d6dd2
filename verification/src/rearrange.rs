//! Rearrangements of a sequence: the two moves that the sorts are made of,
//! and the proof that neither adds, drops or alters an element.

use vstd::prelude::*;
use vstd::seq_lib::*;

verus! {

/// `b` holds the elements of `a`, each as often as `a` does, in any order.
pub open spec fn rearranged<T>(a: Seq<T>, b: Seq<T>) -> bool {
    a.to_multiset() == b.to_multiset()
}

/// `s` with the elements at `i` and `j` exchanged.
pub open spec fn exchanged<T>(s: Seq<T>, i: int, j: int) -> Seq<T> {
    s.update(i, s[j]).update(j, s[i])
}

/// `s` with the range from `lo` to `hi`, both included, rotated one place to
/// the right: the element at `hi` moves to `lo`, and each element from `lo`
/// to `hi - 1` moves one place up.
pub open spec fn rotated_right<T>(s: Seq<T>, lo: int, hi: int) -> Seq<T> {
    Seq::new(
        s.len(),
        |k: int|
            if k == lo {
                s[hi]
            } else if lo < k <= hi {
                s[k - 1]
            } else {
                s[k]
            },
    )
}

/// Exchanging two elements rearranges the sequence.
pub proof fn lemma_exchanged_rearranged<T>(s: Seq<T>, i: int, j: int)
    requires
        0 <= i < s.len(),
        0 <= j < s.len(),
    ensures
        rearranged(s, exchanged(s, i, j)),
{
    broadcast use vstd::multiset::group_multiset_axioms;

    let t = s.update(i, s[j]);
    to_multiset_update(s, i, s[j]);
    to_multiset_update(t, j, s[i]);
    to_multiset_contains(s, s[i]);
    assert(s.contains(s[i]));
    assert(exchanged(s, i, j).to_multiset() =~= s.to_multiset());
}

/// Rotating a range one place to the right rearranges the sequence.
pub proof fn lemma_rotated_right_rearranged<T>(s: Seq<T>, lo: int, hi: int)
    requires
        0 <= lo <= hi < s.len(),
    ensures
        rearranged(s, rotated_right(s, lo, hi)),
    decreases hi - lo,
{
    if lo < hi {
        let t = rotated_right(s, lo + 1, hi);
        lemma_rotated_right_rearranged(s, lo + 1, hi);
        lemma_exchanged_rearranged(t, lo, lo + 1);
        assert(rotated_right(s, lo, hi) =~= exchanged(t, lo, lo + 1));
    } else {
        assert(rotated_right(s, lo, hi) =~= s);
    }
}

/// A rearrangement has the length of the sequence it rearranges.
pub proof fn lemma_rearranged_len<T>(a: Seq<T>, b: Seq<T>)
    requires
        rearranged(a, b),
    ensures
        a.len() == b.len(),
{
    to_multiset_len(a);
    to_multiset_len(b);
}

/// Every element of a rearrangement is an element of the sequence it
/// rearranges.
pub proof fn lemma_rearranged_contains<T>(a: Seq<T>, b: Seq<T>, x: T)
    requires
        rearranged(a, b),
        b.contains(x),
    ensures
        a.contains(x),
{
    to_multiset_contains(a, x);
    to_multiset_contains(b, x);
}

} // verus!
