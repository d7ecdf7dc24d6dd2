//! In-place comparison sorts for slices of any element type with a total
//! order: bubble sort, selection sort, insertion sort and quick sort.
//!
//! Each sort is a trait with one method, implemented for `[T]` where
//! `T: Ord`, so that `slice.bubble_sort()` and the like can be written for
//! any slice, array or vector of such elements. The sorts allocate nothing
//! and fail on no input.
//!
//! Every sort is proved to rearrange its slice: no element is added, lost
//! or altered, whatever the comparisons of `T` answer. Where those
//! comparisons are a total order (see [`order::total_order`]), every sort is
//! proved to leave its slice sorted. Bubble sort and selection sort are
//! stable: elements that compare equal keep their order (see
//! [`stable::stable`]), and a sorted slice is left as it is. Insertion sort
//! and quick sort are not stable: insertion sort puts an element before an
//! element that compares equal to it (see [`insertion::inserted`]), and
//! [`quick::quick_sorted`] says in which order quick sort leaves such
//! elements. Both leave a sorted slice as it is if its elements that
//! compare equal are the same value.
//!
//! The modules [`laws`] and [`stable`] prove that these properties leave no
//! choice: a sequence has one stable sorted rearrangement only, and one
//! sorted rearrangement only if its elements that compare equal are the
//! same value.

pub mod bubble;
pub mod insertion;
pub mod laws;
mod moves;
pub mod order;
pub mod quick;
pub mod rearrange;
pub mod selection;
pub mod stable;

pub use bubble::BubbleSort;
pub use insertion::InsertionSort;
pub use quick::QuickSort;
pub use selection::SelectionSort;
