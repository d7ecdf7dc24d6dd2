use sorting_algorithms::{BubbleSort, InsertionSort, QuickSort, SelectionSort};

/// The four sorts, each under its name.
fn sorters() -> Vec<(&'static str, fn(&mut [i32]))> {
    vec![
        ("bubble", BubbleSort::bubble_sort as fn(&mut [i32])),
        ("selection", SelectionSort::selection_sort as fn(&mut [i32])),
        ("insertion", InsertionSort::insertion_sort as fn(&mut [i32])),
        ("quick", QuickSort::quick_sort as fn(&mut [i32])),
    ]
}

/// Checks that every sort turns `input` into `expected`.
fn all_give(input: &[i32], expected: &[i32]) {
    for (name, sorter) in sorters() {
        let mut array = input.to_vec();
        sorter(array.as_mut_slice());
        assert_eq!(array, expected, "{name} sort of {input:?}");
    }
}

#[test]
fn six_elements() {
    all_give(&[5, 3, 8, 1, 9, 2], &[1, 2, 3, 5, 8, 9]);
}

#[test]
fn empty_slice_stays_empty() {
    all_give(&[], &[]);
}

#[test]
fn single_element_stays() {
    all_give(&[7], &[7]);
    all_give(&[i32::MIN], &[i32::MIN]);
}

#[test]
fn two_elements_out_of_order() {
    all_give(&[2, 1], &[1, 2]);
}

#[test]
fn two_elements_in_order() {
    all_give(&[1, 2], &[1, 2]);
    all_give(&[4, 4], &[4, 4]);
}

#[test]
fn quick_sort_of_two() {
    let mut array = [2, 1];
    array.quick_sort();
    assert_eq!(array, [1, 2]);
}

#[test]
fn quick_sort_of_three() {
    for input in [[1, 2, 3], [1, 3, 2], [2, 1, 3], [2, 3, 1], [3, 1, 2], [3, 2, 1]] {
        let mut array = input;
        array.quick_sort();
        assert_eq!(array, [1, 2, 3], "{input:?}");
    }
}

#[test]
fn repeated_values() {
    all_give(&[3, 1, 3, 2, 1], &[1, 1, 2, 3, 3]);
    all_give(&[2, 2, 2, 2], &[2, 2, 2, 2]);
    all_give(&[1, 0, 1, 0, 1, 0], &[0, 0, 0, 1, 1, 1]);
}

#[test]
fn sorted_input_is_left_as_it_is() {
    all_give(&[1, 2, 3, 4, 5, 6, 7, 8], &[1, 2, 3, 4, 5, 6, 7, 8]);
    all_give(&[-3, -3, 0, 0, 9], &[-3, -3, 0, 0, 9]);
}

#[test]
fn input_sorted_backwards() {
    all_give(&[8, 7, 6, 5, 4, 3, 2, 1], &[1, 2, 3, 4, 5, 6, 7, 8]);
    all_give(&[3, 2, 1], &[1, 2, 3]);
}

#[test]
fn extreme_values() {
    all_give(
        &[i32::MAX, 0, i32::MIN, -1, 1, i32::MAX, i32::MIN],
        &[i32::MIN, i32::MIN, -1, 0, 1, i32::MAX, i32::MAX],
    );
}

#[test]
fn pivot_is_the_least_or_the_greatest() {
    all_give(&[1, 5, 4, 3, 2], &[1, 2, 3, 4, 5]);
    all_give(&[5, 1, 2, 3, 4], &[1, 2, 3, 4, 5]);
    all_give(&[3, 3, 1], &[1, 3, 3]);
    all_give(&[3, 4, 4], &[3, 4, 4]);
}

#[test]
fn sorting_twice_is_sorting_once() {
    for (name, sorter) in sorters() {
        let mut once = vec![9, -2, 7, 7, 0, 3, -2, 5];
        sorter(once.as_mut_slice());
        let mut twice = once.clone();
        sorter(twice.as_mut_slice());
        assert_eq!(once, twice, "{name}");
    }
}

/// All orders of `items`, by Heap's method.
fn permutations(items: &mut Vec<i32>, count: usize, into: &mut Vec<Vec<i32>>) {
    if count <= 1 {
        into.push(items.clone());
        return;
    }
    for i in 0..count {
        permutations(items, count - 1, into);
        if count % 2 == 0 {
            items.swap(i, count - 1);
        } else {
            items.swap(0, count - 1);
        }
    }
}

#[test]
fn every_order_of_up_to_six_elements() {
    for n in 0..=6 {
        let sorted: Vec<i32> = (0..n).collect();
        let mut orders = Vec::new();
        permutations(&mut sorted.clone(), n as usize, &mut orders);
        for order in orders {
            all_give(&order, &sorted);
        }
    }
}

#[test]
fn every_sequence_over_three_values() {
    // All 3^5 sequences of length 5 over {0, 1, 2}.
    for code in 0..243 {
        let mut input = Vec::new();
        let mut rest = code;
        for _ in 0..5 {
            input.push(rest % 3);
            rest /= 3;
        }
        let mut expected = input.clone();
        expected.sort();
        all_give(&input, &expected);
    }
}

#[test]
fn other_element_types() {
    let mut words = vec!["pear", "apple", "fig", "apple", "banana"];
    words.bubble_sort();
    assert_eq!(words, ["apple", "apple", "banana", "fig", "pear"]);

    let mut pairs = vec![(2, 'b'), (1, 'z'), (2, 'a'), (1, 'a')];
    pairs.selection_sort();
    assert_eq!(pairs, [(1, 'a'), (1, 'z'), (2, 'a'), (2, 'b')]);

    let mut options = vec![Some(3u64), None, Some(1), None];
    options.insertion_sort();
    assert_eq!(options, [None, None, Some(1), Some(3)]);

    let mut strings = vec![String::from("b"), String::from("a"), String::from("c")];
    strings.quick_sort();
    assert_eq!(strings, ["a", "b", "c"]);
}
