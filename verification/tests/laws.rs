use std::cmp::Ordering;
use yt42::algorithms::sort::tim_sort::{get_min_run_size, tim_sort, tim_sort_by};

#[test]
fn min_run_size_below_64_is_the_length() {
    assert_eq!(get_min_run_size(0), (0, 1));
    assert_eq!(get_min_run_size(1), (1, 1));
    assert_eq!(get_min_run_size(31), (31, 1));
    assert_eq!(get_min_run_size(32), (32, 1));
    assert_eq!(get_min_run_size(63), (63, 1));
}

#[test]
fn min_run_size_from_64_on_is_halved() {
    assert_eq!(get_min_run_size(64), (64, 1));
    assert_eq!(get_min_run_size(65), (65, 1));
    assert_eq!(get_min_run_size(66), (33, 2));
    assert_eq!(get_min_run_size(128), (64, 2));
    assert_eq!(get_min_run_size(129), (65, 2));
    assert_eq!(get_min_run_size(130), (65, 2));
    assert_eq!(get_min_run_size(131), (33, 4));
    assert_eq!(get_min_run_size(1088), (34, 32));
    assert_eq!(get_min_run_size(10_000), (40, 250));
}

#[test]
fn sort_is_stable() {
    let mut v = [(1, "a"), (1, "b"), (0, "c")];
    tim_sort_by(&mut v, |x: &(i32, &str), y: &(i32, &str)| x.0.cmp(&y.0));
    assert_eq!(v, [(0, "c"), (1, "a"), (1, "b")]);
}

#[test]
fn sort_is_stable_across_merges() {
    // 200 elements with 5 keys: runs are found, lengthened and merged
    let mut v: Vec<(u32, usize)> = (0..200).map(|i| (((i * 7919) % 5) as u32, i)).collect();
    tim_sort_by(&mut v, |x: &(u32, usize), y: &(u32, usize)| x.0.cmp(&y.0));
    for w in v.windows(2) {
        assert!(w[0].0 < w[1].0 || (w[0].0 == w[1].0 && w[0].1 < w[1].1));
    }
}

#[test]
fn sort_keeps_every_element() {
    let original: Vec<i32> = (0..500).map(|i| (i * 37) % 101 - 50).collect();
    let mut sorted = original.clone();
    tim_sort(&mut sorted);
    let mut expected = original.clone();
    expected.sort();
    assert_eq!(sorted, expected);
    assert_eq!(sorted.len(), original.len());
}

#[test]
fn sorting_twice_changes_nothing() {
    let mut v: Vec<(i32, usize)> = (0..300).map(|i| (((i * 31) % 17) as i32, i)).collect();
    let by_first = |x: &(i32, usize), y: &(i32, usize)| x.0.cmp(&y.0);
    tim_sort_by(&mut v, by_first);
    let once = v.clone();
    tim_sort_by(&mut v, by_first);
    assert_eq!(v, once);
}

#[test]
fn empty_and_single_inputs_stay() {
    let mut empty: Vec<i32> = vec![];
    tim_sort(&mut empty);
    assert!(empty.is_empty());
    let mut single = vec![7];
    tim_sort(&mut single);
    assert_eq!(single, vec![7]);
}

#[test]
fn short_input_is_one_run() {
    let mut v: Vec<i32> = (0..63).rev().collect();
    tim_sort(&mut v);
    assert_eq!(v, (0..63).collect::<Vec<i32>>());
}

#[test]
fn descending_input_by_reverse_comparator() {
    let mut v: Vec<i32> = (0..1000).map(|i| (i * 7919) % 1009).collect();
    tim_sort_by(&mut v, |a: &i32, b: &i32| match a.cmp(b) {
        Ordering::Less => Ordering::Greater,
        Ordering::Equal => Ordering::Equal,
        Ordering::Greater => Ordering::Less,
    });
    for w in v.windows(2) {
        assert!(w[0] >= w[1]);
    }
}

#[test]
fn long_runs_are_merged_in_gallops() {
    // two long runs, one wholly before the other but for a few elements
    let mut v: Vec<i32> = (0..400).map(|i| 2 * i).collect();
    v.extend((0..400).map(|i| 2 * i + 1));
    v.extend(0..50);
    let mut expected = v.clone();
    expected.sort();
    tim_sort(&mut v);
    assert_eq!(v, expected);
}
