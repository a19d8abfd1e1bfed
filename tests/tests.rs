use dmsort::{sort, sort_by, sort_by_key, sort_copy, sort_copy_by};
use std::cell::Cell;

fn check_type<T: Clone + PartialEq + Ord + std::fmt::Debug>(unsorted: Vec<T>) {
    let mut dm_sorted = unsorted.clone();
    sort(&mut dm_sorted);

    let mut std_sorted = unsorted.clone();
    std_sorted.sort();

    assert_eq!(dm_sorted, std_sorted, "FAIL with input {:?}", unsorted);
}

fn check(list: Vec<i32>) {
    check_type(list.iter().map(|&x| format!("{:02}", x)).collect());
    check_type(list);
}

fn check_type_panicking<T: Clone + PartialEq + Ord + std::fmt::Debug>(unsorted: Vec<T>) {
    let mut dm_sorted = unsorted.clone();
    sort(&mut dm_sorted);

    let mut std_sorted = unsorted.clone();
    std_sorted.sort();

    if dm_sorted != std_sorted {
        panic!("FAIL with input {:?}", unsorted);
    }
}

fn check_panicking(list: Vec<i32>) {
    check_type_panicking(list.iter().map(|&x| format!("{:02}", x)).collect());
    check_type_panicking(list);
}

/// A deterministic pseudo-random sequence, mostly in order, with `one_in` of its values replaced.
fn mostly_sorted(len: usize, one_in: u64, seed: u64) -> Vec<i32> {
    let mut state = seed;
    let mut out = Vec::new();
    for i in 0..len {
        state = state.wrapping_mul(6364136223846793005).wrapping_add(1442695040888963407);
        let r = state >> 33;
        if one_in > 0 && r % one_in == 0 {
            out.push((r % (len as u64 + 1)) as i32);
        } else {
            out.push(i as i32);
        }
    }
    out
}

#[test]
fn simple_tests() {
    check(vec![]);
    check(vec![0]);
    check(vec![0, 1]);
    check(vec![1, 0]);
    check(vec![0, 1, 2]);
    check(vec![0, 2, 1]);
    check(vec![1, 0, 2]);
    check(vec![1, 2, 0]);
    check(vec![2, 0, 1]);
    check(vec![2, 1, 0]);
    check(vec![0, 1, 3, 2, 4, -5, 6, 7, 8, 9]);
    check(vec![0, 1, 10, 3, 4, 5, 6, 7, 8, 9]);
    check(vec![10, 1, 2, 3, 4, 5, 6, 7, 8, 9]);
    check(vec![0, 0, 2, 3, 4, 1, 6, 1, 8, 9]);
    check(vec![20, 21, 22, 23, 24, 25, 26, 27, 28, 29, 10, 11, 12, 13, 14, 15, 16, 17, 18, 19]);
    check(vec![20, 21, 2, 23, 4, 5, 6, 7, 8, 9, 10, 11, 12, 13, 14, 15, 16, 17, 18, 19]);
}

#[test]
fn run_tests() {
    check_panicking(vec![]);
    check_panicking(vec![0]);
    check_panicking(vec![0, 1]);
    check_panicking(vec![1, 0]);
    check_panicking(vec![0, 1, 2]);
    check_panicking(vec![0, 2, 1]);
    check_panicking(vec![1, 0, 2]);
    check_panicking(vec![1, 2, 0]);
    check_panicking(vec![2, 0, 1]);
    check_panicking(vec![2, 1, 0]);
    check_panicking(vec![0, 1, 3, 2, 4, -5, 6, 7, 8, 9]);
    check_panicking(vec![0, 1, 10, 3, 4, 5, 6, 7, 8, 9]);
    check_panicking(vec![10, 1, 2, 3, 4, 5, 6, 7, 8, 9]);
    check_panicking(vec![0, 0, 2, 3, 4, 1, 6, 1, 8, 9]);
    check_panicking(vec![20, 21, 22, 23, 24, 25, 26, 27, 28, 29, 10, 11, 12, 13, 14, 15, 16, 17, 18, 19]);
    check_panicking(vec![20, 21, 2, 23, 4, 5, 6, 7, 8, 9, 10, 11, 12, 13, 14, 15, 16, 17, 18, 19]);
}

#[test]
fn empty_sequence_stays_empty() {
    let mut v: Vec<i32> = vec![];
    sort(&mut v);
    assert_eq!(v, Vec::<i32>::new());
}

#[test]
fn single_element_stays() {
    let mut v = vec![0];
    sort(&mut v);
    assert_eq!(v, vec![0]);
}

#[test]
fn two_elements_swapped() {
    let mut v = vec![1, 0];
    sort(&mut v);
    assert_eq!(v, vec![0, 1]);
}

#[test]
fn one_element_out_of_place() {
    let mut v = vec![0, 1, 10, 3, 4, 5, 6, 7, 8, 9];
    sort(&mut v);
    assert_eq!(v, vec![0, 1, 3, 4, 5, 6, 7, 8, 9, 10]);
}

#[test]
fn two_ascending_runs() {
    let mut v: Vec<i32> = (20..30).chain(10..20).collect();
    sort(&mut v);
    assert_eq!(v, (10..30).collect::<Vec<i32>>());
}

#[test]
fn descending_by_reversed_comparator() {
    let mut v = vec![0, 1, 6, 7, 2, 3, 4, 5];
    sort_by(&mut v, |a, b| b.cmp(a));
    assert_eq!(v, vec![7, 6, 5, 4, 3, 2, 1, 0]);
}

#[test]
fn descending_by_negated_key() {
    let mut v = vec![0, 1, 6, 7, 2, 3, 4, 5];
    sort_by_key(&mut v, |x| -x);
    assert_eq!(v, vec![7, 6, 5, 4, 3, 2, 1, 0]);
}

#[test]
fn natural_order_after_reversal() {
    let mut v = vec![7, 6, 5, 4, 3, 2, 1, 0];
    sort(&mut v);
    assert_eq!(v, vec![0, 1, 2, 3, 4, 5, 6, 7]);
}

#[test]
fn boundary_inputs_make_no_comparisons() {
    let calls = Cell::new(0usize);
    let mut empty: Vec<i32> = vec![];
    sort_by(&mut empty, |a, b| {
        calls.set(calls.get() + 1);
        a.cmp(b)
    });
    let mut one = vec![42];
    sort_by(&mut one, |a, b| {
        calls.set(calls.get() + 1);
        a.cmp(b)
    });
    let mut one_copy = vec![42];
    let dropped = sort_copy_by(&mut one_copy, |a: &i32, b: &i32| {
        calls.set(calls.get() + 1);
        a.cmp(b)
    });
    assert_eq!(calls.get(), 0);
    assert_eq!(empty, Vec::<i32>::new());
    assert_eq!(one, vec![42]);
    assert_eq!(one_copy, vec![42]);
    assert_eq!(dropped, 0);
}

#[test]
fn sorted_input_is_left_alone_with_one_comparison_per_step() {
    let sorted: Vec<i32> = (0..100).collect();
    let calls = Cell::new(0usize);
    let mut v = sorted.clone();
    sort_by(&mut v, |a, b| {
        calls.set(calls.get() + 1);
        a.cmp(b)
    });
    assert_eq!(v, sorted);
    assert_eq!(calls.get(), 99);
}

#[test]
fn sorted_input_has_no_drops() {
    let sorted: Vec<i32> = (0..100).collect();
    let mut v = sorted.clone();
    assert_eq!(sort_copy(&mut v), 0);
    assert_eq!(v, sorted);
}

#[test]
fn drop_counts_of_the_reference_sorter() {
    let mut v = vec![1, 0];
    assert_eq!(sort_copy(&mut v), 1);
    assert_eq!(v, vec![0, 1]);

    let mut v = vec![0, 1, 10, 3, 4, 5, 6, 7, 8, 9];
    assert_eq!(sort_copy(&mut v), 1);
    assert_eq!(v, vec![0, 1, 3, 4, 5, 6, 7, 8, 9, 10]);

    // Ten drops in a row make the scan give back the whole first run.
    let mut v: Vec<i32> = (20..30).chain(10..20).collect();
    assert_eq!(sort_copy(&mut v), 10);
    assert_eq!(v, (10..30).collect::<Vec<i32>>());
}

#[test]
fn disordered_input_takes_the_fallback() {
    // After a quarter of the input, three of the four elements seen were dropped: the sorter
    // gives up, sorts everything, and estimates the drops as four times three.
    let mut v: Vec<i32> = (0..20).rev().collect();
    assert_eq!(sort_copy(&mut v), 12);
    assert_eq!(v, (0..20).collect::<Vec<i32>>());

    let mut w: Vec<i32> = (0..20).rev().collect();
    sort(&mut w);
    assert_eq!(w, (0..20).collect::<Vec<i32>>());
}

#[test]
fn both_sorters_agree() {
    for seed in 0..40u64 {
        for &one_in in &[0u64, 2, 5, 20] {
            let input = mostly_sorted(300, one_in, seed);
            let mut by_moves = input.clone();
            sort_by(&mut by_moves, |a, b| a.cmp(b));
            let mut by_copies = input.clone();
            sort_copy_by(&mut by_copies, |a: &i32, b: &i32| a.cmp(b));
            let mut expected = input.clone();
            expected.sort();
            assert_eq!(by_moves, by_copies);
            assert_eq!(by_moves, expected);
        }
    }
}

#[test]
fn output_is_a_sorted_permutation() {
    for seed in 0..40u64 {
        for &one_in in &[0u64, 3, 10, 50] {
            let input = mostly_sorted(257, one_in, seed);
            let mut v = input.clone();
            sort(&mut v);
            for i in 1..v.len() {
                assert!(v[i - 1] <= v[i]);
            }
            let mut a = input.clone();
            a.sort_unstable();
            assert_eq!(v, a);
        }
    }
}

#[test]
fn move_only_elements_are_sorted() {
    let mut v: Vec<String> = vec!["d", "a", "c", "b", "e"].into_iter().map(String::from).collect();
    sort(&mut v);
    assert_eq!(v, vec!["a", "b", "c", "d", "e"]);

    let mut w: Vec<Vec<u8>> = vec![vec![3], vec![1, 2], vec![], vec![1]];
    sort_by_key(&mut w, |x| x.len());
    assert_eq!(w.iter().map(|x| x.len()).collect::<Vec<usize>>(), vec![0, 1, 1, 2]);
}

#[test]
fn equal_keys_keep_all_elements() {
    let input: Vec<(i32, char)> = vec![(1, 'a'), (0, 'b'), (1, 'c'), (0, 'd'), (1, 'e')];
    let mut v = input.clone();
    sort_by(&mut v, |a, b| a.0.cmp(&b.0));
    assert_eq!(v.iter().map(|p| p.0).collect::<Vec<i32>>(), vec![0, 0, 1, 1, 1]);
    let mut got = v.clone();
    got.sort();
    let mut want = input.clone();
    want.sort();
    assert_eq!(got, want);
}

/// Pairs whose first components repeat often, so that many elements compare equal.
fn tied_pairs(len: usize, keys: u64, seed: u64) -> Vec<(u64, usize)> {
    let mut state = seed;
    let mut out = Vec::new();
    for i in 0..len {
        state = state.wrapping_mul(6364136223846793005).wrapping_add(1442695040888963407);
        let r = state >> 33;
        let k = if r % 4 == 0 { r % keys } else { (i as u64 * keys) / len as u64 };
        out.push((k, i));
    }
    out
}

#[test]
fn both_sorters_agree_on_ties() {
    let input = vec![(5, 'a'), (3, 'b'), (3, 'c'), (6, 'd')];
    let mut by_moves = input.clone();
    sort_by(&mut by_moves, |a, b| a.0.cmp(&b.0));
    let mut by_copies = input.clone();
    sort_copy_by(&mut by_copies, |a: &(i32, char), b: &(i32, char)| a.0.cmp(&b.0));
    assert_eq!(by_moves, by_copies);
    assert_eq!(by_moves.iter().map(|p| p.0).collect::<Vec<i32>>(), vec![3, 3, 5, 6]);

    for seed in 0..60u64 {
        for &(len, keys) in &[(7usize, 3u64), (40, 4), (300, 10), (300, 2)] {
            let input = tied_pairs(len, keys, seed);
            let mut by_moves = input.clone();
            sort_by(&mut by_moves, |a, b| a.0.cmp(&b.0));
            let mut by_copies = input.clone();
            sort_copy_by(&mut by_copies, |a: &(u64, usize), b: &(u64, usize)| a.0.cmp(&b.0));
            assert_eq!(by_moves, by_copies);
        }
    }
    // A reversed input takes the fallback path in both.
    let input: Vec<(u64, usize)> = (0..40).rev().map(|i| (i / 4, i as usize)).collect();
    let mut by_moves = input.clone();
    sort_by(&mut by_moves, |a, b| a.0.cmp(&b.0));
    let mut by_copies = input.clone();
    sort_copy_by(&mut by_copies, |a: &(u64, usize), b: &(u64, usize)| a.0.cmp(&b.0));
    assert_eq!(by_moves, by_copies);
}

#[test]
fn fallback_estimate_on_sixteen_reversed() {
    // At the test, two of the four elements seen were dropped: the estimate is four times two.
    let mut v: Vec<i32> = (0..16).rev().collect();
    assert_eq!(sort_copy(&mut v), 8);
    assert_eq!(v, (0..16).collect::<Vec<i32>>());
}
