use std::cmp::Ordering;
use yt42::algorithms::adapter::heap_on_slice::heap_implementation::{adjust_heap, move_upward};
use yt42::algorithms::sort::counting_sort::TryCountingSort;
use yt42::algorithms::sort::quick_sort::ternary_quick_sort::{ternary_partition, ternary_partition_by};
use yt42::algorithms::sort::tim_sort::{tim_sort_by, update_min_gallop};
use yt42::collections::binary_heap::comparator::DefaultComparator;
use yt42::collections::binary_heap::min_heap::MinHeap;
use yt42::order::turned_round;

#[test]
fn threshold_rises_after_a_gallop_of_one() {
    let mut threshold = 3u32;
    update_min_gallop(&mut threshold, 1);
    assert_eq!(threshold, 4);
}

#[test]
fn threshold_falls_after_a_longer_gallop_but_not_below_one() {
    let mut threshold = 3u32;
    update_min_gallop(&mut threshold, 5);
    assert_eq!(threshold, 2);
    update_min_gallop(&mut threshold, 2);
    assert_eq!(threshold, 1);
    update_min_gallop(&mut threshold, 7);
    assert_eq!(threshold, 1);
}

#[test]
fn turning_round_swaps_less_and_greater() {
    assert_eq!(turned_round(Ordering::Less), Ordering::Greater);
    assert_eq!(turned_round(Ordering::Equal), Ordering::Equal);
    assert_eq!(turned_round(Ordering::Greater), Ordering::Less);
}

#[test]
fn pivots_are_the_first_and_the_last_element() {
    let mut slice = vec![3, 1, 4, 1, 5];
    let pivots = ternary_partition(&mut slice);
    assert_eq!(pivots, (3, 4));
    assert_eq!(slice, vec![1, 1, 3, 4, 5]);
}

#[test]
fn pivots_by_a_comparator_that_turns_the_order_round() {
    let mut slice = vec![3, 1, 4, 1, 5];
    let downwards = |a: &i32, b: &i32| b.cmp(a);
    let pivots = ternary_partition_by(&mut slice, &downwards);
    assert_eq!(slice, vec![5, 4, 3, 1, 1]);
    assert_eq!(slice[pivots.0 - 1], 5);
    assert_eq!(slice[pivots.1], 3);
}

#[test]
fn equal_elements_without_a_key_are_refused() {
    let mut slice = [-2i32, -2];
    assert!(slice.try_counting_sort().is_err());
    assert_eq!(slice, [-2, -2]);
}

#[test]
fn moving_upward_touches_the_path_to_the_root_only() {
    let mut arr = vec![1, 5, 3, 7, 0];
    let compare = |a: &i32, b: &i32| a.cmp(b);
    assert!(move_upward(&mut arr, 4, compare));
    assert_eq!(arr, vec![0, 1, 3, 7, 5]);
}

#[test]
fn adjusting_a_heap_moves_nothing() {
    let mut arr = vec![1, 2, 3, 4, 5];
    let compare = |a: &i32, b: &i32| a.cmp(b);
    for idx in 0..arr.len() {
        assert!(!adjust_heap(&mut arr, idx, compare));
        assert_eq!(arr, vec![1, 2, 3, 4, 5]);
    }
}

#[test]
fn adjusting_tells_that_the_slice_changed() {
    let mut arr = vec![1, 2, 3, 4, 0];
    let compare = |a: &i32, b: &i32| a.cmp(b);
    assert!(adjust_heap(&mut arr, 4, compare));
    assert_eq!(arr, vec![0, 1, 3, 4, 2]);
    let mut arr = vec![9, 2, 3, 4, 5];
    assert!(adjust_heap(&mut arr, 0, compare));
    assert_eq!(arr, vec![2, 4, 3, 9, 5]);
}

#[test]
fn root_may_be_changed_more_than_once_before_it_is_restored() {
    let mut heap = MinHeap::<u32, DefaultComparator>::from_vec(vec![3, 2, 1, 5, 4], DefaultComparator);
    *heap.peek_mut().unwrap() = 10;
    assert_eq!(*heap.peek_mut().unwrap(), 10);
    *heap.peek_mut().unwrap() = 6;
    heap.restore();
    let mut popped = Vec::new();
    while let Some(x) = heap.pop() {
        popped.push(x);
    }
    assert_eq!(popped, vec![2, 3, 4, 5, 6]);
}

#[test]
fn merges_in_which_gallops_fail_stay_stable() {
    // few keys, so that streaks are long and gallops often take one element
    let mut state = 12345u64;
    let mut v: Vec<(u32, usize)> = Vec::new();
    for i in 0..20_000 {
        state = state.wrapping_mul(6364136223846793005).wrapping_add(1442695040888963407);
        let key = if (state >> 33) % 16 == 0 { 1 } else { 0 };
        let key = key + 2 * ((i / 700) % 3) as u32;
        v.push((key, i));
    }
    let mut expected = v.clone();
    expected.sort_by(|a, b| a.0.cmp(&b.0));
    tim_sort_by(&mut v, |a: &(u32, usize), b: &(u32, usize)| a.0.cmp(&b.0));
    assert_eq!(v, expected);
}
