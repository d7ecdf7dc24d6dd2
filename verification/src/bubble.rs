//! Bubble sort.

use crate::laws::lemma_short_rearranged;
use crate::moves::exchange;
use crate::order::{le, lemma_order_laws, sorted, total_order};
use crate::rearrange::{exchanged, lemma_exchanged_rearranged, lemma_rearranged_len, rearranged};
use crate::stable::{
    lemma_exchanged_stable, lemma_stable_sorted_unique, lemma_stable_transitive, stable,
};
use vstd::prelude::*;

verus! {

/// Bubble sort: passes over the slice that exchange each element with its
/// successor where the two are out of order, until a pass exchanges
/// nothing.
pub trait BubbleSort {
    /// Sorts `self` in place by bubble sort.
    fn bubble_sort(&mut self);
}

/// The last `settled` elements of `s` are in their final places: they are
/// sorted, and no element before them is greater than one of them.
spec fn tail_settled<T: Ord>(s: Seq<T>, settled: int) -> bool {
    forall|i: int, j: int|
        0 <= i < j < s.len() && s.len() - settled <= j ==> #[trigger] le(s[i], s[j])
}

/// No element of `s` before `at` is greater than the element at `at`.
spec fn greatest_so_far<T: Ord>(s: Seq<T>, at: int) -> bool {
    forall|k: int| 0 <= k < at ==> #[trigger] le(s[k], s[at])
}

/// The elements of `s` up to `at`, that one included, are sorted.
spec fn sorted_up_to<T: Ord>(s: Seq<T>, at: int) -> bool {
    forall|k: int, l: int| 0 <= k < l <= at ==> #[trigger] le(s[k], s[l])
}

/// A step of a pass that finds the neighbours at `at` out of order and
/// exchanges them: the greater one moves up, the elements that compare
/// equal keep their order, and what was settled stays so.
proof fn lemma_step_exchanged<T: Ord>(s: Seq<T>, at: int, settled: int)
    requires
        total_order::<T>(),
        0 <= at,
        0 <= settled,
        at + 1 < s.len() - settled,
        tail_settled(s, settled),
        greatest_so_far(s, at),
        !le(s[at], s[at + 1]),
    ensures
        tail_settled(exchanged(s, at, at + 1), settled),
        greatest_so_far(exchanged(s, at, at + 1), at + 1),
        stable(s, exchanged(s, at, at + 1)),
{
    let after = exchanged(s, at, at + 1);
    lemma_order_laws::<T>();
    lemma_exchanged_stable(s, at);
    assert forall|k: int| 0 <= k < at + 1 implies #[trigger] le(after[k], after[at + 1]) by {
        if k < at {
            assert(le(s[k], s[at]));
        }
    }
    assert forall|i: int, j: int|
        0 <= i < j < after.len() && after.len() - settled <= j implies #[trigger] le(
        after[i],
        after[j],
    ) by {
        let from = if i == at {
            at + 1
        } else if i == at + 1 {
            at
        } else {
            i
        };
        assert(le(s[from], s[j]));
    }
}

/// A step of a pass that finds the neighbours at `at` in order: the
/// greater one is the second, and if the elements up to the first were
/// sorted, so are those up to the second.
proof fn lemma_step_in_order<T: Ord>(s: Seq<T>, at: int)
    requires
        total_order::<T>(),
        0 <= at,
        at + 1 < s.len(),
        greatest_so_far(s, at),
        le(s[at], s[at + 1]),
    ensures
        greatest_so_far(s, at + 1),
        sorted_up_to(s, at) ==> sorted_up_to(s, at + 1),
{
    lemma_order_laws::<T>();
    assert forall|k: int| 0 <= k < at + 1 implies #[trigger] le(s[k], s[at + 1]) by {
        if k < at {
            assert(le(s[k], s[at]));
        }
    }
}

/// After a pass over all but the last `settled` elements, one more element
/// is settled; and if the pass found all neighbours in order, the sequence
/// is sorted.
proof fn lemma_pass_done<T: Ord>(s: Seq<T>, settled: int)
    requires
        total_order::<T>(),
        0 <= settled < s.len(),
        tail_settled(s, settled),
        greatest_so_far(s, s.len() - settled - 1),
    ensures
        tail_settled(s, settled + 1),
        sorted_up_to(s, s.len() - settled - 1) ==> sorted(s),
{
}

impl<T: Ord> BubbleSort for [T] {
    /// Each pass carries the greatest element of the part not yet settled to
    /// the end of that part, so a pass is one element shorter than the pass
    /// before it. A slice of `n` elements takes at most `n` passes, and an
    /// already sorted slice takes one.
    fn bubble_sort(&mut self)
        ensures
            final(self)@.len() == old(self)@.len(),
            rearranged(old(self)@, final(self)@),
            total_order::<T>() ==> sorted(final(self)@),
            total_order::<T>() ==> stable(old(self)@, final(self)@),
            total_order::<T>() && sorted(old(self)@) ==> final(self)@ == old(self)@,
            old(self)@.len() <= 1 ==> final(self)@ == old(self)@,
    {
        let n = self.len();
        let mut swapped = true;
        let mut i: usize = 0;
        while i < n && swapped
            invariant
                i <= n,
                n == self@.len(),
                rearranged(old(self)@, self@),
                total_order::<T>() ==> stable(old(self)@, self@),
                total_order::<T>() ==> tail_settled(self@, i as int),
                total_order::<T>() && !swapped ==> sorted(self@),
            decreases n - i,
        {
            swapped = false;
            let mut j: usize = 0;
            while j < n - i - 1
                invariant
                    i < n,
                    j <= n - i - 1,
                    n == self@.len(),
                    rearranged(old(self)@, self@),
                    total_order::<T>() ==> stable(old(self)@, self@),
                    total_order::<T>() ==> tail_settled(self@, i as int),
                    total_order::<T>() ==> greatest_so_far(self@, j as int),
                    total_order::<T>() && !swapped ==> sorted_up_to(self@, j as int),
                decreases n - i - 1 - j,
            {
                let ghost before = self@;
                proof {
                    if total_order::<T>() {
                        lemma_order_laws::<T>();
                    }
                }
                if self[j] > self[j + 1] {
                    exchange(self, j, j + 1);
                    swapped = true;
                    proof {
                        lemma_exchanged_rearranged(before, j as int, j + 1);
                        if total_order::<T>() {
                            lemma_step_exchanged(before, j as int, i as int);
                            lemma_stable_transitive(old(self)@, before, self@);
                        }
                    }
                } else {
                    proof {
                        if total_order::<T>() {
                            lemma_step_in_order(before, j as int);
                        }
                    }
                }
                j += 1;
            }
            proof {
                if total_order::<T>() {
                    lemma_pass_done(self@, i as int);
                }
            }
            i += 1;
        }
        proof {
            lemma_rearranged_len(old(self)@, self@);
            if n <= 1 {
                lemma_short_rearranged(old(self)@, self@);
            }
            if total_order::<T>() && sorted(old(self)@) {
                lemma_stable_sorted_unique(old(self)@, self@);
            }
        }
    }
}

} // verus!
