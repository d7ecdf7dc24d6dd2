//! Selection sort.

use crate::laws::lemma_short_rearranged;
use crate::moves::rotate_right_one;
use crate::order::{equivalent, le, lemma_order_laws, sorted, total_order};
use crate::rearrange::{
    lemma_rearranged_len, lemma_rotated_right_rearranged, rearranged, rotated_right,
};
use crate::stable::{
    lemma_rotated_right_stable, lemma_stable_sorted_unique, lemma_stable_transitive, stable,
};
use vstd::prelude::*;

verus! {

/// Selection sort: the least element of the part not yet sorted is taken
/// out of it and put behind the sorted part, until nothing is left.
pub trait SelectionSort {
    /// Sorts `self` in place by selection sort.
    fn selection_sort(&mut self);
}

/// The first `settled` elements of `s` are in their final places: they are
/// sorted, and none of them is greater than an element after it.
spec fn head_settled<T: Ord>(s: Seq<T>, settled: int) -> bool {
    forall|i: int, j: int| 0 <= i < j < s.len() && i < settled ==> #[trigger] le(s[i], s[j])
}

/// The element of `s` at `least` is the first least element from `from` on:
/// no element from `from` on is less than it, and every element from `from`
/// up to it is greater.
spec fn first_least<T: Ord>(s: Seq<T>, from: int, least: int) -> bool {
    first_least_before(s, from, s.len() as int, least)
}

/// The element of `s` at `least` is the first least element from `from` up
/// to `end`, the element at `end` not included.
spec fn first_least_before<T: Ord>(s: Seq<T>, from: int, end: int, least: int) -> bool {
    &&& from <= least < end <= s.len()
    &&& forall|k: int| from <= k < end ==> #[trigger] le(s[least], s[k])
    &&& forall|k: int| from <= k < least ==> !#[trigger] le(s[k], s[least])
}

/// One more element is taken into account: if the least so far is greater
/// than it, it is the first least; if not, the least so far stays.
proof fn lemma_first_least_next<T: Ord>(s: Seq<T>, from: int, end: int, least: int)
    requires
        total_order::<T>(),
        0 <= from,
        end < s.len(),
        first_least_before(s, from, end, least),
    ensures
        !le(s[least], s[end]) ==> first_least_before(s, from, end + 1, end),
        le(s[least], s[end]) ==> first_least_before(s, from, end + 1, least),
{
    lemma_order_laws::<T>();
    if !le(s[least], s[end]) {
        assert forall|k: int| from <= k < end implies le(s[end], s[k]) && !le(s[k], s[end]) by {
            assert(le(s[least], s[k]));
        }
    }
}

/// The place of the least element of `s` from `from` on; of several least
/// elements, the place of the first.
fn first_minimum<T: Ord>(s: &[T], from: usize) -> (least: usize)
    requires
        from < s@.len(),
    ensures
        from <= least < s@.len(),
        total_order::<T>() ==> first_least(s@, from as int, least as int),
{
    let n = s.len();
    let mut least: usize = from;
    let mut k: usize = from + 1;
    proof {
        if total_order::<T>() {
            lemma_order_laws::<T>();
        }
    }
    while k < n
        invariant
            n == s@.len(),
            from <= least < k <= n,
            total_order::<T>() ==> first_least_before(s@, from as int, k as int, least as int),
        decreases n - k,
    {
        proof {
            if total_order::<T>() {
                lemma_order_laws::<T>();
                lemma_first_least_next(s@, from as int, k as int, least as int);
            }
        }
        if s[least] > s[k] {
            least = k;
        }
        k += 1;
    }
    least
}

/// Moving the first least element of the part not yet settled to the front
/// of that part settles it, and keeps the elements that compare equal in
/// their order.
proof fn lemma_selected<T: Ord>(s: Seq<T>, settled: int, least: int)
    requires
        total_order::<T>(),
        0 <= settled,
        head_settled(s, settled),
        first_least(s, settled, least),
    ensures
        head_settled(rotated_right(s, settled, least), settled + 1),
        stable(s, rotated_right(s, settled, least)),
{
    let after = rotated_right(s, settled, least);
    assert forall|i: int, j: int|
        0 <= i < j < after.len() && i < settled + 1 implies #[trigger] le(after[i], after[j]) by {
        let from = if j == settled {
            least
        } else if settled < j <= least {
            j - 1
        } else {
            j
        };
        assert(after[j] == s[from]);
        if i < settled {
            assert(le(s[i], s[from]));
        } else {
            assert(le(s[least], s[from]));
        }
    }
    assert forall|k: int| settled <= k < least implies !equivalent(#[trigger] s[k], s[least]) by {
        assert(!le(s[k], s[least]));
    }
    lemma_rotated_right_stable(s, settled, least);
}

impl<T: Ord> SelectionSort for [T] {
    /// The least element is moved to its place by rotating the range from
    /// that place to where it was found, not by an exchange: the elements
    /// that it passes keep their order.
    fn selection_sort(&mut self)
        ensures
            final(self)@.len() == old(self)@.len(),
            rearranged(old(self)@, final(self)@),
            total_order::<T>() ==> sorted(final(self)@),
            total_order::<T>() ==> stable(old(self)@, final(self)@),
            total_order::<T>() && sorted(old(self)@) ==> final(self)@ == old(self)@,
            old(self)@.len() <= 1 ==> final(self)@ == old(self)@,
    {
        let n = self.len();
        let mut i: usize = 0;
        while i < n
            invariant
                i <= n,
                n == self@.len(),
                rearranged(old(self)@, self@),
                total_order::<T>() ==> stable(old(self)@, self@),
                total_order::<T>() ==> head_settled(self@, i as int),
            decreases n - i,
        {
            let ghost before = self@;
            let least = first_minimum(self, i);
            rotate_right_one(self, i, least);
            proof {
                lemma_rotated_right_rearranged(before, i as int, least as int);
                if total_order::<T>() {
                    lemma_selected(before, i as int, least as int);
                    lemma_stable_transitive(old(self)@, before, self@);
                }
            }
            i += 1;
        }
        proof {
            lemma_rearranged_len(old(self)@, self@);
            if n <= 1 {
                lemma_short_rearranged(old(self)@, self@);
            }
            if total_order::<T>() && sorted(old(self)@) {
                lemma_stable_sorted_unique(old(self)@, self@);
            }
        }
    }
}

} // verus!
