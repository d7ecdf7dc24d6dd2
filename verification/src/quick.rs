//! Quick sort.

use crate::laws::{equals_are_identical, lemma_sorted_rearranged_unique};
use crate::moves::exchange;
use crate::order::{le, lemma_order_laws, sorted, total_order};
use crate::rearrange::{
    exchanged, lemma_exchanged_rearranged, lemma_rearranged_contains, lemma_rearranged_len,
    rearranged,
};
use vstd::prelude::*;
use vstd::seq_lib::lemma_multiset_commutative;

verus! {

/// Quick sort: the first element, the pivot, is put between the elements
/// that are not greater than it and those that are, and the two parts are
/// sorted in the same way.
pub trait QuickSort {
    /// Sorts `self` in place by quick sort.
    fn quick_sort(&mut self);
}

/// The scan that parts the elements behind the pivot, which is the first
/// element of `s`, taken up where `left` of them at the front are known not
/// to be greater than the pivot, and those behind the first `right + 1` of
/// them are known to be greater.
///
/// From the left the scan passes elements that are not greater than the
/// pivot, from the right it passes elements that are; where it can do
/// neither, it exchanges the two elements at which it stands. It ends when
/// it has passed every element.
///
/// The result is the sequence after the scan, and the number of elements
/// that are not greater than the pivot: they stand right behind it.
pub open spec fn scan<T: Ord>(s: Seq<T>, left: int, right: int) -> (Seq<T>, int)
    decreases right - left + 2,
{
    if left > right {
        (s, left)
    } else if le(s[left + 1], s[0]) {
        scan(s, left + 1, right)
    } else if !le(s[right + 1], s[0]) {
        scan(s, left, right - 1)
    } else {
        scan(exchanged(s, left + 1, right + 1), left + 1, right - 1)
    }
}

/// `s` parted around its first element, the pivot, and the place of the
/// pivot in it: after the scan of the elements behind it, the pivot changes
/// places with the last of those that are not greater than it.
pub open spec fn parted<T: Ord>(s: Seq<T>) -> (Seq<T>, int) {
    let (after, place) = scan(s, 0, s.len() - 2);
    (exchanged(after, 0, place), place)
}

/// What quick sort makes of `s`: a sequence of at most one element is left
/// as it is, two elements are exchanged if the first is greater, and a
/// longer sequence is parted around its first element, and what is before
/// that element and what is behind it are sorted in the same way.
///
/// Elements that compare equal may stand in the result in another order
/// than in `s`; this function says in which.
pub open spec fn quick_sorted<T: Ord>(s: Seq<T>) -> Seq<T>
    decreases s.len(),
    via quick_sorted_terminates::<T>
{
    if s.len() <= 1 {
        s
    } else if s.len() == 2 {
        if le(s[0], s[1]) {
            s
        } else {
            exchanged(s, 0, 1)
        }
    } else {
        let (around, place) = parted(s);
        quick_sorted(around.subrange(0, place)) + seq![around[place]] + quick_sorted(
            around.subrange(place + 1, around.len() as int),
        )
    }
}

#[via_fn]
proof fn quick_sorted_terminates<T: Ord>(s: Seq<T>) {
    if s.len() > 2 {
        lemma_scan_rearranges(s, 0, s.len() - 2);
    }
}

/// The element at `place` parts `s`: no element before it is greater than
/// it, and every element behind it is.
pub open spec fn parts_at<T: Ord>(s: Seq<T>, place: int) -> bool {
    &&& 0 <= place < s.len()
    &&& forall|k: int| 0 <= k < place ==> #[trigger] le(s[k], s[place])
    &&& forall|k: int| place < k < s.len() ==> !#[trigger] le(s[k], s[place])
}

/// Of the elements of `s` behind the first, which is the pivot, the first
/// `low` are not greater than the pivot, and those behind the first `high`
/// are.
spec fn sides_hold<T: Ord>(s: Seq<T>, low: int, high: int) -> bool {
    &&& forall|k: int| 1 <= k <= low ==> #[trigger] le(s[k], s[0])
    &&& forall|k: int| high < k < s.len() ==> !#[trigger] le(s[k], s[0])
}

/// The scan rearranges the sequence, and counts no more elements than
/// stand behind the pivot.
pub proof fn lemma_scan_rearranges<T: Ord>(s: Seq<T>, left: int, right: int)
    requires
        0 <= left <= right + 1,
        right + 1 < s.len(),
    ensures
        rearranged(s, scan(s, left, right).0),
        scan(s, left, right).0.len() == s.len(),
        left <= scan(s, left, right).1 < s.len(),
    decreases right - left + 2,
{
    if left > right {
    } else if le(s[left + 1], s[0]) {
        lemma_scan_rearranges(s, left + 1, right);
    } else if !le(s[right + 1], s[0]) {
        lemma_scan_rearranges(s, left, right - 1);
    } else if left < right {
        lemma_exchanged_rearranged(s, left + 1, right + 1);
        lemma_scan_rearranges(exchanged(s, left + 1, right + 1), left + 1, right - 1);
    }
}

/// Under a total order the scan puts every element behind the pivot on its
/// side: those that are not greater than the pivot in front, the others
/// behind them.
proof fn lemma_scan_parts<T: Ord>(s: Seq<T>, left: int, right: int)
    requires
        total_order::<T>(),
        0 <= left <= right + 1,
        right + 1 < s.len(),
        sides_hold(s, left, right + 1),
    ensures
        sides_hold(scan(s, left, right).0, scan(s, left, right).1, scan(s, left, right).1),
    decreases right - left + 2,
{
    if left > right {
    } else if le(s[left + 1], s[0]) {
        lemma_scan_parts(s, left + 1, right);
    } else if !le(s[right + 1], s[0]) {
        lemma_scan_parts(s, left, right - 1);
    } else {
        let after = exchanged(s, left + 1, right + 1);
        assert forall|k: int| 1 <= k <= left + 1 implies #[trigger] le(after[k], after[0]) by {
            if k <= left {
                assert(le(s[k], s[0]));
            }
        }
        assert forall|k: int| right < k < after.len() implies !#[trigger] le(
            after[k],
            after[0],
        ) by {
            if k > right + 1 {
                assert(!le(s[k], s[0]));
            }
        }
        lemma_scan_parts(after, left + 1, right - 1);
    }
}

/// Parting a sequence around its first element rearranges it, and under a
/// total order the pivot then parts it.
pub proof fn lemma_parted<T: Ord>(s: Seq<T>)
    requires
        s.len() >= 2,
    ensures
        rearranged(s, parted(s).0),
        parted(s).0.len() == s.len(),
        0 <= parted(s).1 < s.len(),
        total_order::<T>() ==> parts_at(parted(s).0, parted(s).1),
{
    let (scanned, place) = scan(s, 0, s.len() - 2);
    let around = exchanged(scanned, 0, place);
    lemma_scan_rearranges(s, 0, s.len() - 2);
    lemma_exchanged_rearranged(scanned, 0, place);
    if total_order::<T>() {
        lemma_order_laws::<T>();
        lemma_scan_parts(s, 0, s.len() - 2);
        assert forall|k: int| 0 <= k < place implies #[trigger] le(around[k], around[place]) by {
            if k == 0 {
                assert(le(scanned[place], scanned[0]));
            } else {
                assert(le(scanned[k], scanned[0]));
            }
        }
        assert forall|k: int| place < k < around.len() implies !#[trigger] le(
            around[k],
            around[place],
        ) by {
            assert(!le(scanned[k], scanned[0]));
        }
    }
}

/// Rearranging what is before an element and what is behind it rearranges
/// the whole.
proof fn lemma_rearranged_around<T>(
    whole: Seq<T>,
    place: int,
    lower_after: Seq<T>,
    higher_after: Seq<T>,
)
    requires
        0 <= place < whole.len(),
        rearranged(whole.subrange(0, place), lower_after),
        rearranged(whole.subrange(place + 1, whole.len() as int), higher_after),
    ensures
        rearranged(whole, lower_after + seq![whole[place]] + higher_after),
{
    let lower = whole.subrange(0, place);
    let higher = whole.subrange(place + 1, whole.len() as int);
    let middle = seq![whole[place]];
    assert(whole =~= lower + middle + higher);
    lemma_multiset_commutative(lower + middle, higher);
    lemma_multiset_commutative(lower, middle);
    lemma_multiset_commutative(lower_after + middle, higher_after);
    lemma_multiset_commutative(lower_after, middle);
}

/// Where an element parts a sequence, sorting what is before it and what is
/// behind it sorts the whole.
proof fn lemma_sorted_around<T: Ord>(
    whole: Seq<T>,
    place: int,
    lower_sorted: Seq<T>,
    higher_sorted: Seq<T>,
)
    requires
        total_order::<T>(),
        parts_at(whole, place),
        rearranged(whole.subrange(0, place), lower_sorted),
        rearranged(whole.subrange(place + 1, whole.len() as int), higher_sorted),
        sorted(lower_sorted),
        sorted(higher_sorted),
    ensures
        sorted(lower_sorted + seq![whole[place]] + higher_sorted),
{
    let lower = whole.subrange(0, place);
    let higher = whole.subrange(place + 1, whole.len() as int);
    let pivot = whole[place];
    let result = lower_sorted + seq![pivot] + higher_sorted;
    lemma_order_laws::<T>();
    lemma_rearranged_len(lower, lower_sorted);
    lemma_rearranged_len(higher, higher_sorted);
    assert forall|k: int| 0 <= k < lower_sorted.len() implies le(lower_sorted[k], pivot) by {
        lemma_rearranged_contains(lower, lower_sorted, lower_sorted[k]);
        let at = choose|at: int| 0 <= at < lower.len() && lower[at] == lower_sorted[k];
        assert(le(whole[at], whole[place]));
    }
    assert forall|k: int| 0 <= k < higher_sorted.len() implies !le(higher_sorted[k], pivot) by {
        lemma_rearranged_contains(higher, higher_sorted, higher_sorted[k]);
        let at = choose|at: int| 0 <= at < higher.len() && higher[at] == higher_sorted[k];
        assert(!le(whole[place + 1 + at], whole[place]));
    }
    assert forall|a: int, b: int| 0 <= a < b < result.len() implies #[trigger] le(
        result[a],
        result[b],
    ) by {
        if b < place {
            assert(le(lower_sorted[a], lower_sorted[b]));
        } else if b == place {
            assert(le(lower_sorted[a], pivot));
        } else if a < place {
            assert(le(lower_sorted[a], pivot));
            assert(!le(higher_sorted[b - place - 1], pivot));
        } else if a == place {
            assert(!le(higher_sorted[b - place - 1], pivot));
        } else {
            assert(le(higher_sorted[a - place - 1], higher_sorted[b - place - 1]));
        }
    }
}

/// What quick sort makes of a sequence is a rearrangement of it, and under
/// a total order it is sorted.
pub proof fn lemma_quick_sorted<T: Ord>(s: Seq<T>)
    ensures
        rearranged(s, quick_sorted(s)),
        total_order::<T>() ==> sorted(quick_sorted(s)),
    decreases s.len(),
{
    if s.len() <= 1 {
    } else if s.len() == 2 {
        lemma_exchanged_rearranged(s, 0, 1);
        if total_order::<T>() {
            lemma_order_laws::<T>();
            assert(le(s[0], s[1]) || le(s[1], s[0]));
        }
    } else {
        let (around, place) = parted(s);
        let lower = around.subrange(0, place);
        let higher = around.subrange(place + 1, around.len() as int);
        lemma_parted(s);
        lemma_quick_sorted(lower);
        lemma_quick_sorted(higher);
        lemma_rearranged_around(around, place, quick_sorted(lower), quick_sorted(higher));
        if total_order::<T>() {
            lemma_sorted_around(around, place, quick_sorted(lower), quick_sorted(higher));
        }
    }
}

/// Parts the slice around its first element and returns the place where
/// that element, the pivot, ends up.
///
/// The elements behind the pivot are scanned from both ends at once. `left`
/// passes the elements that are not greater than the pivot and `right`
/// passes those that are; where both stop, the two elements are exchanged.
/// `left` and `right` count from the element behind the pivot.
fn partition<T: Ord>(s: &mut [T]) -> (place: usize)
    requires
        old(s)@.len() >= 2,
    ensures
        place < old(s)@.len(),
        final(s)@.len() == old(s)@.len(),
        rearranged(old(s)@, final(s)@),
        total_order::<T>() ==> (final(s)@, place as int) == parted(old(s)@),
{
    let n = s.len();
    let mut left: usize = 0;
    let mut right: usize = n - 2;
    let ghost outcome = scan(s@, 0, n - 2);
    while left <= right
        invariant_except_break
            total_order::<T>() ==> left <= right + 1,
            total_order::<T>() ==> scan(s@, left as int, right as int) == outcome,
        invariant
            n == s@.len(),
            n >= 2,
            left <= n - 1,
            right <= n - 2,
            rearranged(old(s)@, s@),
        ensures
            total_order::<T>() ==> (s@, left as int) == outcome,
        decreases n + right - left,
    {
        proof {
            if total_order::<T>() {
                lemma_order_laws::<T>();
            }
        }
        if s[left + 1] <= s[0] {
            left += 1;
        } else if s[right + 1] > s[0] {
            if right == 0 {
                assert(scan(s@, left as int, -1) == (s@, left as int));
                break ;
            }
            right -= 1;
        } else {
            proof {
                lemma_exchanged_rearranged(s@, left + 1, right + 1);
            }
            exchange(s, left + 1, right + 1);
            left += 1;
            if right == 0 {
                break ;
            }
            right -= 1;
        }
    }
    proof {
        lemma_exchanged_rearranged(s@, 0, left as int);
    }
    exchange(s, 0, left);
    left
}

impl<T: Ord> QuickSort for [T] {
    /// The pivot is always the first element, so on a slice that is sorted
    /// already, or sorted backwards, each call parts off one element only:
    /// the calls then nest as deep as the slice is long, and the sort takes
    /// time quadratic in its length.
    fn quick_sort(&mut self)
        ensures
            final(self)@.len() == old(self)@.len(),
            rearranged(old(self)@, final(self)@),
            total_order::<T>() ==> sorted(final(self)@),
            total_order::<T>() ==> final(self)@ == quick_sorted(old(self)@),
            total_order::<T>() && sorted(old(self)@) && equals_are_identical(old(self)@)
                ==> final(self)@ == old(self)@,
            old(self)@.len() <= 1 ==> final(self)@ == old(self)@,
        decreases old(self)@.len(),
    {
        let n = self.len();
        if n <= 1 {
            return ;
        }
        if n == 2 {
            proof {
                lemma_exchanged_rearranged(self@, 0, 1);
                lemma_quick_sorted(self@);
                if total_order::<T>() {
                    lemma_order_laws::<T>();
                }
            }
            if self[0] > self[1] {
                exchange(self, 0, 1);
            }
            return ;
        }
        let place = partition(self);
        let ghost around = self@;
        let (lower, upper) = self.split_at_mut(place);
        let (_, higher) = upper.split_at_mut(1);
        let ghost lower_parted = lower@;
        let ghost higher_parted = higher@;
        lower.quick_sort();
        higher.quick_sort();
        proof {
            assert(lower_parted == around.subrange(0, place as int));
            assert(higher_parted == around.subrange(place + 1, n as int));
            assert(self@ == lower@ + seq![around[place as int]] + higher@);
            lemma_rearranged_around(around, place as int, lower@, higher@);
            if total_order::<T>() {
                assert(self@ == quick_sorted(old(self)@));
                lemma_quick_sorted(old(self)@);
                if sorted(old(self)@) && equals_are_identical(old(self)@) {
                    lemma_sorted_rearranged_unique(old(self)@, self@);
                }
            }
        }
    }
}

} // verus!
