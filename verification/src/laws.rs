//! What follows for every sequence from being sorted and from being a
//! rearrangement: the laws that make the contracts of the sorts say what
//! the result is.

use crate::order::{
    equivalent, le, lemma_order_laws, lemma_sorted_drop_last, sorted, total_order,
};
use crate::rearrange::{lemma_rearranged_contains, lemma_rearranged_len, rearranged};
use vstd::prelude::*;
use vstd::seq_lib::*;

verus! {

/// In `s`, elements that compare equal are the same value.
pub open spec fn equals_are_identical<T: Ord>(s: Seq<T>) -> bool {
    forall|i: int, j: int|
        0 <= i < s.len() && 0 <= j < s.len() && equivalent(#[trigger] s[i], #[trigger] s[j])
            ==> s[i] == s[j]
}

/// In a sorted sequence no element is greater than its successor.
pub proof fn lemma_sorted_neighbours<T: Ord>(s: Seq<T>, i: int)
    requires
        sorted(s),
        0 <= i,
        i + 1 < s.len(),
    ensures
        le(s[i], s[i + 1]),
{
}

/// Under a total order, a sequence in which no element is greater than its
/// successor is sorted.
pub proof fn lemma_neighbours_sorted<T: Ord>(s: Seq<T>)
    requires
        total_order::<T>(),
        forall|i: int| 0 <= i && i + 1 < s.len() ==> le(#[trigger] s[i], s[i + 1]),
    ensures
        sorted(s),
    decreases s.len(),
{
    if s.len() >= 2 {
        lemma_order_laws::<T>();
        let rest = s.drop_last();
        let last = s.len() - 1;
        assert forall|i: int| 0 <= i && i + 1 < rest.len() implies le(
            #[trigger] rest[i],
            rest[i + 1],
        ) by {
            assert(le(s[i], s[i + 1]));
        }
        lemma_neighbours_sorted(rest);
        assert forall|i: int, j: int| 0 <= i < j < s.len() implies #[trigger] le(s[i], s[j]) by {
            assert(le(s[last - 1], s[last]));
            if j < last {
                assert(le(rest[i], rest[j]));
            } else if i < last - 1 {
                assert(le(rest[i], rest[last - 1]));
            }
        }
    }
}

/// A sequence of at most one element has no rearrangement but itself.
pub proof fn lemma_short_rearranged<T>(a: Seq<T>, b: Seq<T>)
    requires
        a.len() <= 1,
        rearranged(a, b),
    ensures
        a == b,
{
    lemma_rearranged_len(a, b);
    if a.len() == 1 {
        assert(b.contains(b[0]));
        lemma_rearranged_contains(a, b, b[0]);
    }
    assert(a =~= b);
}

/// A sequence in which elements that compare equal are the same value has
/// one sorted rearrangement only: being sorted and being a rearrangement
/// say what the result of sorting it is.
pub proof fn lemma_sorted_rearranged_unique<T: Ord>(a: Seq<T>, b: Seq<T>)
    requires
        total_order::<T>(),
        equals_are_identical(a),
        rearranged(a, b),
        sorted(a),
        sorted(b),
    ensures
        a == b,
    decreases a.len(),
{
    lemma_rearranged_len(a, b);
    if a.len() == 0 {
        assert(a =~= b);
    } else {
        lemma_order_laws::<T>();
        let last = a.len() - 1;
        let a_rest = a.drop_last();
        let b_rest = b.drop_last();
        assert(a.contains(a[last]));
        assert(b.contains(b[last]));
        lemma_rearranged_contains(b, a, a[last]);
        lemma_rearranged_contains(a, b, b[last]);
        let in_b = choose|k: int| 0 <= k < b.len() && b[k] == a[last];
        let in_a = choose|k: int| 0 <= k < a.len() && a[k] == b[last];
        if in_b < last {
            assert(le(b[in_b], b[last]));
        }
        if in_a < last {
            assert(le(a[in_a], a[last]));
        }
        assert(equivalent(a[in_a], a[last]));
        assert(a[last] == b[last]);
        assert(a_rest =~= a.remove(last));
        assert(b_rest =~= b.remove(last));
        to_multiset_remove(a, last);
        to_multiset_remove(b, last);
        lemma_sorted_drop_last(a);
        lemma_sorted_drop_last(b);
        assert forall|i: int, j: int|
            0 <= i < a_rest.len() && 0 <= j < a_rest.len() && equivalent(
                #[trigger] a_rest[i],
                #[trigger] a_rest[j],
            ) implies a_rest[i] == a_rest[j] by {
            assert(equivalent(a[i], a[j]));
        }
        lemma_sorted_rearranged_unique(a_rest, b_rest);
        assert(a =~= a_rest.push(a[last]));
        assert(b =~= b_rest.push(b[last]));
    }
}

/// In a rearrangement of a sequence in which elements that compare equal
/// are the same value, they are the same value too.
pub proof fn lemma_rearranged_equals_are_identical<T: Ord>(a: Seq<T>, b: Seq<T>)
    requires
        equals_are_identical(a),
        rearranged(a, b),
    ensures
        equals_are_identical(b),
{
    assert forall|i: int, j: int|
        0 <= i < b.len() && 0 <= j < b.len() && equivalent(
            #[trigger] b[i],
            #[trigger] b[j],
        ) implies b[i] == b[j] by {
        assert(b.contains(b[i]));
        assert(b.contains(b[j]));
        lemma_rearranged_contains(a, b, b[i]);
        lemma_rearranged_contains(a, b, b[j]);
        let first = choose|k: int| 0 <= k < a.len() && a[k] == b[i];
        let second = choose|k: int| 0 <= k < a.len() && a[k] == b[j];
        assert(equivalent(a[first], a[second]));
    }
}

/// Two sorts make the same of a sequence in which elements that compare
/// equal are the same value, in whatever way each of them works.
pub proof fn lemma_sorts_agree<T: Ord>(s: Seq<T>, first: Seq<T>, second: Seq<T>)
    requires
        total_order::<T>(),
        equals_are_identical(s),
        rearranged(s, first),
        rearranged(s, second),
        sorted(first),
        sorted(second),
    ensures
        first == second,
{
    lemma_rearranged_equals_are_identical(s, first);
    lemma_sorted_rearranged_unique(first, second);
}

} // verus!
