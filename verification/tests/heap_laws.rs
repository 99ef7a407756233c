use yt42::algorithms::adapter::heap_on_slice::{max_heap, min_heap};
use yt42::algorithms::sort::intro_sort::intro_sort;
use yt42::collections::binary_heap::comparator::DefaultComparator;
use yt42::collections::binary_heap::min_heap::MinHeap;

#[test]
fn heapsort_sorts_upwards_and_reverse_sort_downwards() {
    let mut up = vec![5, 3, 9, 1, 1, 8, 2];
    max_heap::heapsort(&mut up);
    assert_eq!(up, vec![1, 1, 2, 3, 5, 8, 9]);
    let mut down = vec![5, 3, 9, 1, 1, 8, 2];
    min_heap::heap_reverse_sort(&mut down);
    assert_eq!(down, vec![9, 8, 5, 3, 2, 1, 1]);
}

#[test]
fn pop_hands_back_the_rest_and_leaves_the_root_behind() {
    let mut heap = vec![1, 4, 2, 9, 5];
    assert!(min_heap::is_heap(&heap));
    {
        let rest = min_heap::heap_pop(&mut heap).unwrap();
        assert_eq!(rest.len(), 4);
        assert!(min_heap::is_heap(rest));
        assert_eq!(rest[0], 2);
    }
    assert_eq!(heap[4], 1);
    let mut nothing: Vec<i32> = vec![];
    assert!(min_heap::heap_pop(&mut nothing).is_none());
}

#[test]
fn pushpop_gives_the_least_of_heap_and_element() {
    let mut heap = vec![2, 4, 3];
    assert_eq!(min_heap::heap_pushpop(&mut heap, 1), 1);
    assert_eq!(heap, vec![2, 4, 3]);
    assert_eq!(min_heap::heap_pushpop(&mut heap, 5), 2);
    assert!(min_heap::is_heap(&heap));
    let mut sorted = heap.clone();
    sorted.sort();
    assert_eq!(sorted, vec![3, 4, 5]);
}

#[test]
fn intro_sort_falls_back_without_losing_order() {
    // many equal keys and a long sorted stretch
    let mut v: Vec<u32> = (0..5000).map(|i| if i % 3 == 0 { 7 } else { i }).collect();
    let mut expected = v.clone();
    expected.sort();
    intro_sort(&mut v);
    assert_eq!(v, expected);
}

#[test]
fn min_heap_pops_in_order() {
    let mut heap = MinHeap::<u32, DefaultComparator>::new(DefaultComparator);
    for x in [9u32, 4, 7, 1, 8, 1, 3] {
        heap.push(x);
    }
    assert_eq!(heap.len(), 7);
    let mut popped = Vec::new();
    while let Some(x) = heap.pop() {
        popped.push(x);
    }
    assert_eq!(popped, vec![1, 1, 3, 4, 7, 8, 9]);
    assert!(heap.is_empty());
    assert!(heap.top().is_none());
}

#[test]
fn min_heap_root_can_be_changed_and_restored() {
    let mut heap = MinHeap::<u32, DefaultComparator>::from_vec(vec![3, 2, 1, 5, 4], DefaultComparator);
    *heap.peek_mut().unwrap() = 10;
    heap.restore();
    assert_eq!(*heap.top().unwrap(), 2);
}
