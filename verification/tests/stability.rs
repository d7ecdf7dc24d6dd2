use sorting_algorithms::{BubbleSort, InsertionSort, QuickSort, SelectionSort};
use std::cmp::Ordering;

/// An element that is ordered by its key alone: two elements with one key
/// compare equal, and the tag tells them apart.
#[derive(Clone, Copy, Debug)]
struct Keyed {
    key: u8,
    tag: usize,
}

impl PartialEq for Keyed {
    fn eq(&self, other: &Self) -> bool {
        self.key == other.key
    }
}

impl Eq for Keyed {}

impl PartialOrd for Keyed {
    fn partial_cmp(&self, other: &Self) -> Option<Ordering> {
        Some(self.cmp(other))
    }
}

impl Ord for Keyed {
    fn cmp(&self, other: &Self) -> Ordering {
        self.key.cmp(&other.key)
    }
}

/// The elements with these keys, tagged by their places.
fn keyed(keys: &[u8]) -> Vec<Keyed> {
    keys.iter()
        .enumerate()
        .map(|(tag, &key)| Keyed { key, tag })
        .collect()
}

/// Keys and tags, to compare elements by both.
fn pairs(elements: &[Keyed]) -> Vec<(u8, usize)> {
    elements.iter().map(|e| (e.key, e.tag)).collect()
}

/// The elements sorted by key, those with one key in the order of their
/// tags, which is the order in which `keyed` made them.
fn stably_sorted(elements: &[Keyed]) -> Vec<(u8, usize)> {
    let mut expected = pairs(elements);
    expected.sort();
    expected
}

fn stable_sorters() -> Vec<(&'static str, fn(&mut [Keyed]))> {
    vec![
        ("bubble", BubbleSort::bubble_sort as fn(&mut [Keyed])),
        ("selection", SelectionSort::selection_sort as fn(&mut [Keyed])),
    ]
}

#[test]
fn equal_elements_keep_their_order() {
    let input = keyed(&[2, 1, 2, 0, 1, 2, 0, 0, 1]);
    for (name, sorter) in stable_sorters() {
        let mut array = input.clone();
        sorter(array.as_mut_slice());
        assert_eq!(
            pairs(&array),
            [(0, 3), (0, 6), (0, 7), (1, 1), (1, 4), (1, 8), (2, 0), (2, 2), (2, 5)],
            "{name}"
        );
    }
}

#[test]
fn selection_sort_rotates_the_least_into_place() {
    // An exchange of the first element with the least would put the first
    // of the two elements with key 2 behind the second.
    let mut array = keyed(&[2, 2, 1]);
    array.selection_sort();
    assert_eq!(pairs(&array), [(1, 2), (2, 0), (2, 1)]);
}

#[test]
fn selection_sort_takes_the_first_of_several_least() {
    let mut array = keyed(&[3, 1, 2, 1, 1]);
    array.selection_sort();
    assert_eq!(pairs(&array), [(1, 1), (1, 3), (1, 4), (2, 2), (3, 0)]);
}

#[test]
fn insertion_sort_puts_an_element_before_its_equal() {
    let mut array = keyed(&[1, 1]);
    array.insertion_sort();
    assert_eq!(pairs(&array), [(1, 1), (1, 0)]);

    // The last element finds one equal element among the sorted ones, the
    // first, and goes before it.
    let mut array = keyed(&[1, 2, 1]);
    array.insertion_sort();
    assert_eq!(pairs(&array), [(1, 2), (1, 0), (2, 1)]);

    let mut array = keyed(&[3, 5, 7, 5]);
    array.insertion_sort();
    assert_eq!(pairs(&array), [(3, 0), (5, 3), (5, 1), (7, 2)]);
}

#[test]
fn insertion_sort_puts_an_element_before_one_of_its_equals() {
    // The second element goes before the first. The third finds two equal
    // elements and goes before one of them, never behind both.
    let mut array = keyed(&[1, 1, 1]);
    array.insertion_sort();
    let found = pairs(&array);
    assert!(
        found == [(1, 2), (1, 1), (1, 0)] || found == [(1, 1), (1, 2), (1, 0)],
        "{found:?}"
    );
}

#[test]
fn insertion_sort_without_equal_elements() {
    let mut array = keyed(&[4, 0, 2, 9, 1, 3]);
    array.insertion_sort();
    assert_eq!(
        pairs(&array),
        [(0, 1), (1, 4), (2, 2), (3, 5), (4, 0), (9, 3)]
    );
}

#[test]
fn insertion_sort_keeps_every_element() {
    for code in 0..4096u32 {
        let mut keys = Vec::new();
        let mut rest = code;
        for _ in 0..6 {
            keys.push((rest % 4) as u8);
            rest /= 4;
        }
        let mut array = keyed(&keys);
        array.insertion_sort();
        for pair in array.windows(2) {
            assert!(pair[0].key <= pair[1].key, "{keys:?}");
        }
        let mut found = pairs(&array);
        found.sort();
        assert_eq!(found, stably_sorted(&keyed(&keys)), "{keys:?}");
    }
}

#[test]
fn bubble_sort_leaves_equal_neighbours() {
    let mut array = keyed(&[1, 1, 0, 0]);
    array.bubble_sort();
    assert_eq!(pairs(&array), [(0, 2), (0, 3), (1, 0), (1, 1)]);
}

#[test]
fn sorted_input_with_equal_elements_is_left_as_it_is() {
    let input = keyed(&[0, 0, 1, 1, 1, 2, 5, 5]);
    for (name, sorter) in stable_sorters() {
        let mut array = input.clone();
        sorter(array.as_mut_slice());
        assert_eq!(pairs(&array), pairs(&input), "{name}");
    }
}

#[test]
fn stable_sorts_agree_with_one_another() {
    // All 4^6 sequences of length 6 over four keys.
    for code in 0..4096u32 {
        let mut keys = Vec::new();
        let mut rest = code;
        for _ in 0..6 {
            keys.push((rest % 4) as u8);
            rest /= 4;
        }
        let input = keyed(&keys);
        let expected = stably_sorted(&input);
        for (name, sorter) in stable_sorters() {
            let mut array = input.clone();
            sorter(array.as_mut_slice());
            assert_eq!(pairs(&array), expected, "{name} sort of {keys:?}");
        }
    }
}

#[test]
fn quick_sort_keeps_every_element() {
    for code in 0..4096u32 {
        let mut keys = Vec::new();
        let mut rest = code;
        for _ in 0..6 {
            keys.push((rest % 4) as u8);
            rest /= 4;
        }
        let mut array = keyed(&keys);
        array.quick_sort();
        for pair in array.windows(2) {
            assert!(pair[0].key <= pair[1].key, "{keys:?}");
        }
        // Sorted by key and then by tag, the result is the input sorted so:
        // no element was lost, made or changed.
        let mut found = pairs(&array);
        found.sort();
        assert_eq!(found, stably_sorted(&keyed(&keys)), "{keys:?}");
    }
}

#[test]
fn quick_sort_may_reorder_equal_elements() {
    // The scan passes all three elements, and the pivot, which was first,
    // changes places with the last.
    let mut array = keyed(&[1, 1, 1]);
    array.quick_sort();
    assert_eq!(pairs(&array), [(1, 2), (1, 1), (1, 0)]);

    let mut array = keyed(&[2, 1, 2, 1]);
    array.quick_sort();
    assert_eq!(pairs(&array), [(1, 1), (1, 3), (2, 2), (2, 0)]);
}

#[test]
fn quick_sort_of_two_equal_elements_leaves_them() {
    let mut array = keyed(&[5, 5]);
    array.quick_sort();
    assert_eq!(pairs(&array), [(5, 0), (5, 1)]);
}

#[test]
fn quick_sort_exchanges_across_the_pivot() {
    // The scan stops at 9 from the left and at 0 from the right and
    // exchanges them; then the pivot changes places with 0.
    let mut array = keyed(&[4, 9, 4, 0]);
    array.quick_sort();
    assert_eq!(pairs(&array), [(0, 3), (4, 2), (4, 0), (9, 1)]);
}
