//! Insertion sort.

use crate::laws::{equals_are_identical, lemma_short_rearranged, lemma_sorted_rearranged_unique};
use crate::moves::rotate_right_one;
use crate::order::{equivalent, le, lemma_order_laws, sorted, total_order};
use crate::rearrange::{lemma_rotated_right_rearranged, rearranged, rotated_right};
use vstd::prelude::*;

verus! {

/// Insertion sort: each element in turn is put where it belongs among the
/// elements before it, which are sorted already.
pub trait InsertionSort {
    /// Sorts `self` in place by insertion sort.
    fn insertion_sort(&mut self);
}

/// What a binary search for `x` in the sorted sequence `s` may answer.
///
/// `Ok` holds the place of an element that compares equal to `x`; where
/// there are several, it may be the place of any of them. `Err` says that
/// no element compares equal to `x`, and holds the one place where `x`
/// keeps the sequence sorted: behind the elements that are less than `x`
/// and before those that are greater.
pub open spec fn search_answer<T: Ord>(s: Seq<T>, x: T, found: Result<usize, usize>) -> bool {
    match found {
        Ok(place) => place < s.len() && equivalent(s[place as int], x),
        Err(place) => {
            &&& place <= s.len()
            &&& forall|k: int| 0 <= k < place ==> !#[trigger] le(x, s[k])
            &&& forall|k: int| place <= k < s.len() ==> !#[trigger] le(s[k], x)
        },
    }
}

/// The binary search of the standard library, `<[T]>::binary_search`.
///
/// Its documentation says what it returns for a sorted slice, and calls the
/// result for any other slice unspecified; so this says something of a
/// sorted slice only, under a total order: that the result is a
/// `search_answer`. Nothing is said of which of several equal elements is
/// found, and nothing of the result for a slice that is not sorted, not
/// even that it is a place in the slice.
pub assume_specification<Item>[ <[Item]>::binary_search ](s: &[Item], x: &Item) -> (found: Result<
    usize,
    usize,
>) where Item: Ord
    ensures
        total_order::<Item>() && sorted(s@) ==> search_answer(s@, *x, found),
;

/// The first `count` elements of `s` are sorted.
pub open spec fn head_sorted<T: Ord>(s: Seq<T>, count: int) -> bool {
    forall|i: int, j: int| 0 <= i < j < count ==> #[trigger] le(s[i], s[j])
}

/// An element before `at` compares equal to the element at `at`.
pub open spec fn has_equal_before<T: Ord>(s: Seq<T>, at: int) -> bool {
    exists|k: int| 0 <= k < at && equivalent(#[trigger] s[k], s[at])
}

/// `point` is a place for the element at `at` among the sorted elements
/// before it. Where one of them compares equal to it, this is the place of
/// such an element, and the new element goes before that one. Where none
/// does, it is the one place that keeps them sorted.
pub open spec fn belongs_at<T: Ord>(s: Seq<T>, at: int, point: int) -> bool {
    if has_equal_before(s, at) {
        0 <= point < at && equivalent(s[point], s[at])
    } else {
        &&& 0 <= point <= at
        &&& forall|k: int| 0 <= k < point ==> #[trigger] le(s[k], s[at])
        &&& forall|k: int| point <= k < at ==> !#[trigger] le(s[k], s[at])
    }
}

/// `after` is `before` with the element at `at` moved to a place where it
/// belongs among the elements before it.
pub open spec fn placed<T: Ord>(before: Seq<T>, at: int, after: Seq<T>) -> bool {
    exists|point: int| #[trigger]
        belongs_at(before, at, point) && after == rotated_right(before, point, at)
}

/// `result` is what insertion sort may make of `start` by placing its
/// elements up to the one at `last`, that one included, one after the
/// other, each among those placed before it.
///
/// Where an element finds several that compare equal to it, this leaves
/// open before which of them it goes. In every other respect it says what
/// the result is.
pub open spec fn inserted<T: Ord>(start: Seq<T>, last: int, result: Seq<T>) -> bool
    decreases last + 1,
{
    if last < 0 {
        result == start
    } else {
        exists|middle: Seq<T>|
            inserted(start, last - 1, middle) && #[trigger] placed(middle, last, result)
    }
}

/// Moving an element to a place where it belongs among the sorted elements
/// before it leaves one more element sorted.
pub proof fn lemma_placed<T: Ord>(s: Seq<T>, at: int, point: int)
    requires
        total_order::<T>(),
        0 <= at < s.len(),
        head_sorted(s, at),
        belongs_at(s, at, point),
    ensures
        head_sorted(rotated_right(s, point, at), at + 1),
{
    let after = rotated_right(s, point, at);
    lemma_order_laws::<T>();
    assert forall|i: int, j: int| 0 <= i < j < at + 1 implies #[trigger] le(after[i], after[j]) by {
        if j < point {
            assert(le(s[i], s[j]));
        } else if j == point {
            assert(le(s[i], s[point]));
            assert(le(s[i], s[at]));
        } else if i < point {
            assert(le(s[i], s[j - 1]));
        } else if i == point {
            if point < j - 1 {
                assert(le(s[point], s[j - 1]));
            }
            assert(le(s[at], s[j - 1]));
        } else {
            assert(le(s[i - 1], s[j - 1]));
        }
    }
}

/// What insertion sort makes of a sequence by placing its elements up to
/// the one at `last` is a rearrangement of the sequence, and sorted up to
/// that element.
pub proof fn lemma_inserted<T: Ord>(start: Seq<T>, last: int, result: Seq<T>)
    requires
        total_order::<T>(),
        last < start.len(),
        inserted(start, last, result),
    ensures
        result.len() == start.len(),
        rearranged(start, result),
        head_sorted(result, last + 1),
    decreases last + 1,
{
    if last >= 0 {
        let middle = choose|middle: Seq<T>|
            inserted(start, last - 1, middle) && #[trigger] placed(middle, last, result);
        lemma_inserted(start, last - 1, middle);
        let point = choose|point: int| #[trigger]
            belongs_at(middle, last, point) && result == rotated_right(middle, point, last);
        lemma_rotated_right_rearranged(middle, point, last);
        lemma_placed(middle, last, point);
    }
}

/// Where a binary search finds that the element at `at` belongs among the
/// `at` elements before it.
///
/// The search says where only if those elements are sorted, under a total
/// order. What it returns else may be no place up to `at` at all.
fn insertion_point<T: Ord>(s: &[T], at: usize) -> (point: usize)
    requires
        at < s@.len(),
    ensures
        total_order::<T>() && head_sorted(s@, at as int) ==> belongs_at(
            s@,
            at as int,
            point as int,
        ),
{
    let found = s[0..at].binary_search(&s[at]);
    proof {
        let before = s@.subrange(0, at as int);
        if total_order::<T>() && head_sorted(s@, at as int) {
            lemma_order_laws::<T>();
            assert forall|i: int, j: int| 0 <= i < j < before.len() implies #[trigger] le(
                before[i],
                before[j],
            ) by {
                assert(le(s@[i], s@[j]));
            }
            match found {
                Ok(place) => {
                    assert(equivalent(before[place as int], s@[at as int]));
                    assert(equivalent(s@[place as int], s@[at as int]));
                },
                Err(place) => {
                    assert forall|k: int| 0 <= k < at implies !equivalent(
                        #[trigger] s@[k],
                        s@[at as int],
                    ) by {
                        if k < place {
                            assert(!le(s@[at as int], before[k]));
                        } else {
                            assert(!le(before[k], s@[at as int]));
                        }
                    }
                    assert forall|k: int| 0 <= k < place implies #[trigger] le(
                        s@[k],
                        s@[at as int],
                    ) by {
                        assert(!le(s@[at as int], before[k]));
                    }
                    assert forall|k: int| place <= k < at implies !#[trigger] le(
                        s@[k],
                        s@[at as int],
                    ) by {
                        assert(!le(before[k], s@[at as int]));
                    }
                },
            }
        }
    }
    match found {
        Ok(place) => place,
        Err(place) => place,
    }
}

impl<T: Ord> InsertionSort for [T] {
    /// The element is moved to its place by rotating the range from that
    /// place to where it was, which moves the sorted elements between one
    /// place up.
    ///
    /// An element goes before the element that the search finds to compare
    /// equal to it, so elements that compare equal do not keep their order:
    /// of two such elements the second comes out first.
    ///
    /// Where the comparisons of `T` are no total order, the search may
    /// answer with no place among the elements searched; the element is
    /// then left where it is.
    fn insertion_sort(&mut self)
        ensures
            final(self)@.len() == old(self)@.len(),
            rearranged(old(self)@, final(self)@),
            total_order::<T>() ==> sorted(final(self)@),
            total_order::<T>() ==> inserted(old(self)@, old(self)@.len() - 1, final(self)@),
            total_order::<T>() && sorted(old(self)@) && equals_are_identical(old(self)@)
                ==> final(self)@ == old(self)@,
            old(self)@.len() <= 1 ==> final(self)@ == old(self)@,
    {
        let n = self.len();
        let mut i: usize = 0;
        while i < n
            invariant
                i <= n,
                n == self@.len(),
                n == old(self)@.len(),
                rearranged(old(self)@, self@),
                total_order::<T>() ==> head_sorted(self@, i as int),
                total_order::<T>() ==> inserted(old(self)@, i - 1, self@),
            decreases n - i,
        {
            let ghost before = self@;
            let point = insertion_point(self, i);
            if point <= i {
                rotate_right_one(self, point, i);
                proof {
                    lemma_rotated_right_rearranged(before, point as int, i as int);
                }
            }
            proof {
                if total_order::<T>() {
                    assert(belongs_at(before, i as int, point as int));
                    lemma_placed(before, i as int, point as int);
                    assert(placed(before, i as int, self@));
                }
            }
            i += 1;
        }
        proof {
            if n <= 1 {
                lemma_short_rearranged(old(self)@, self@);
            }
            if total_order::<T>() && sorted(old(self)@) && equals_are_identical(old(self)@) {
                lemma_sorted_rearranged_unique(old(self)@, self@);
            }
        }
    }
}

} // verus!
