use yt42::algorithms::adapter::heap_on_slice::min_heap;

#[test]
fn tests_test_heapify() {
    let mut heap = vec![3, 1, 4, 1, 5, 9, 2, 6];
    min_heap::heapify(&mut heap);
    assert!(min_heap::is_heap(&heap));
}

#[test]
fn tests_test_move_upward() {}

#[test]
fn tests_test_move_downward() {}

#[test]
fn tests_test_adjust_heap() {}

#[test]
fn tests_test_heap_pushpop() {}

#[test]
fn tests_test_heap_pop() {}

#[test]
fn tests_test_heap_reverse_sort() {}

#[test]
fn test_heap_sort() {}
