use rand::distributions::{Distribution, Standard};
use sorting_algorithms::{BubbleSort, InsertionSort, QuickSort, SelectionSort};
use std::fmt::Debug;

/// Runs `sorter` on `n` random arrays, the `i`-th of length `i`, and checks
/// that each comes out in non-decreasing order.
fn sort<T>(sorter: fn(&mut [T]), n: usize)
where
    T: Debug + Ord,
    Standard: Distribution<T>,
{
    for i in 0..n {
        let mut array = (0..i)
            .into_iter()
            .map(|_| rand::random())
            .collect::<Vec<_>>();

        sorter(array.as_mut_slice());

        for pair in array.windows(2) {
            assert!(pair[0] <= pair[1], "{array:?}");
        }
    }
}

#[test]
fn std_sort() {
    sort::<u8>(|array| array.sort(), 100);
}

#[test]
fn bubble_sort() {
    sort::<u8>(BubbleSort::bubble_sort, 100);
}

#[test]
fn selection_sort() {
    sort::<u8>(SelectionSort::selection_sort, 100);
}

#[test]
fn insertion_sort() {
    sort::<u8>(InsertionSort::insertion_sort, 100);
}

#[test]
fn quick_sort() {
    sort::<u8>(QuickSort::quick_sort, 100);
}

/// Runs `sorter` and the standard library's sort on the same random arrays
/// and checks that they agree.
fn agrees_with_std<T>(sorter: fn(&mut [T]), n: usize)
where
    T: Debug + Ord + Clone,
    Standard: Distribution<T>,
{
    for i in 0..n {
        let input = (0..i)
            .into_iter()
            .map(|_| rand::random())
            .collect::<Vec<T>>();

        let mut array = input.clone();
        sorter(array.as_mut_slice());

        let mut expected = input.clone();
        expected.sort();

        assert_eq!(array, expected, "{input:?}");
    }
}

#[test]
fn bubble_sort_agrees_with_std() {
    agrees_with_std::<u8>(BubbleSort::bubble_sort, 100);
    agrees_with_std::<i64>(BubbleSort::bubble_sort, 60);
    agrees_with_std::<bool>(BubbleSort::bubble_sort, 60);
}

#[test]
fn selection_sort_agrees_with_std() {
    agrees_with_std::<u8>(SelectionSort::selection_sort, 100);
    agrees_with_std::<i64>(SelectionSort::selection_sort, 60);
    agrees_with_std::<bool>(SelectionSort::selection_sort, 60);
}

#[test]
fn insertion_sort_agrees_with_std() {
    agrees_with_std::<u8>(InsertionSort::insertion_sort, 100);
    agrees_with_std::<i64>(InsertionSort::insertion_sort, 60);
    agrees_with_std::<bool>(InsertionSort::insertion_sort, 60);
}

#[test]
fn quick_sort_agrees_with_std() {
    agrees_with_std::<u8>(QuickSort::quick_sort, 100);
    agrees_with_std::<i64>(QuickSort::quick_sort, 60);
    agrees_with_std::<bool>(QuickSort::quick_sort, 60);
}

#[test]
fn long_random_arrays() {
    for _ in 0..5 {
        let input = (0..1000)
            .into_iter()
            .map(|_| rand::random())
            .collect::<Vec<u16>>();
        let mut expected = input.clone();
        expected.sort();

        let mut array = input.clone();
        array.bubble_sort();
        assert_eq!(array, expected);

        let mut array = input.clone();
        array.selection_sort();
        assert_eq!(array, expected);

        let mut array = input.clone();
        array.insertion_sort();
        assert_eq!(array, expected);

        let mut array = input.clone();
        array.quick_sort();
        assert_eq!(array, expected);
    }
}
