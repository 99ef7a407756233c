use std::cmp::Ordering;

use yt42::algorithms::adapter::heap_on_slice::comparator::{Comparator, DefaultComparator};
use yt42::algorithms::adapter::heap_on_slice::heap_implementation::{
    is_heap, move_downward, move_upward,
};
use yt42::algorithms::adapter::heap_on_slice::{max_heap, min_heap};

#[test]
fn test_namespace() {
    let mut slice = vec![1, 2, 3, 4, 5];
    min_heap::heapify(&mut slice);
    assert!(min_heap::is_heap(&slice));
    max_heap::heapify(&mut slice);
    assert!(max_heap::is_heap(&slice));
}

#[test]
fn test_heap_property_true_and_false() {
    let comp = DefaultComparator;
    // empty and single-element heaps
    let empty: Vec<i32> = vec![];
    assert!(is_heap(&empty, |a: &i32, b: &i32| comp.cmp(a, b)));
    let single = vec![1];
    assert!(is_heap(&single, |a: &i32, b: &i32| comp.cmp(a, b)));
    // valid heap
    let heap = vec![1, 3, 2, 7, 5, 4];
    assert!(is_heap(&heap, |a: &i32, b: &i32| comp.cmp(a, b)));
    // invalid heap: parent greater than child
    let bad = vec![2, 1];
    assert!(!is_heap(&bad, |a: &i32, b: &i32| comp.cmp(a, b)));
}

// Numeric slice tests
#[test]
fn max_heap_numeric_methods() {
    let comp = DefaultComparator;
    let by = |a: &i32, b: &i32| comp.cmp(a, b);
    let turned = |a: &i32, b: &i32| comp.cmp(b, a);
    // initial array
    let mut arr = vec![5, 1, 8, 3, 2];
    assert!(!max_heap::is_heap_by(&arr, by));
    max_heap::heapify_by(&mut arr, by);
    assert!(max_heap::is_heap_by(&arr, by));
    assert_eq!(arr[0], 8);

    // break leaf to be too large
    let len = arr.len();
    arr[len - 1] = 10;
    assert!(!max_heap::is_heap_by(&arr, by));
    assert!(move_upward(&mut arr, len - 1, turned));
    assert!(max_heap::is_heap_by(&arr, by));

    // break root to be too small
    arr[0] = 0;
    assert!(!max_heap::is_heap_by(&arr, by));
    assert!(move_downward(&mut arr, 0, turned));
    assert!(max_heap::is_heap_by(&arr, by));

    // heap_pushpop: small x (should pop old max)
    let mut arr2 = vec![4, 5, 6];
    max_heap::heapify_by(&mut arr2, by);
    let x = max_heap::heap_pushpop_by(&mut arr2, 3, by);
    assert_eq!(x, 6);
    assert!(max_heap::is_heap_by(&arr2, by));

    // heap_pushpop: large x (returned without change)
    let mut arr3 = vec![4, 5, 6];
    max_heap::heapify_by(&mut arr3, by);
    let y = max_heap::heap_pushpop_by(&mut arr3, 7, by);
    assert_eq!(y, 7);
    assert!(max_heap::is_heap_by(&arr3, by));

    // heap_pop: remove max element
    let mut arr4 = vec![2, 4, 6];
    max_heap::heapify_by(&mut arr4, by);
    if let Some(rest) = max_heap::heap_pop_by(&mut arr4, by) {
        assert_eq!(rest.len(), 2);
        assert!(max_heap::is_heap_by(rest, by));
    } else {
        panic!("heap_pop returned None");
    }
}

// String and Vec<i32> tests
#[test]
fn max_heap_string_and_vec_methods() {
    let comp = DefaultComparator;
    // Strings: root should be lexicographically largest
    let mut strs = vec![
        "alpha".to_string(),
        "delta".to_string(),
        "charlie".to_string(),
    ];
    max_heap::heapify_by(&mut strs, |a: &String, b: &String| comp.cmp(a, b));
    assert_eq!(strs[0], "delta");
    assert!(max_heap::is_heap_by(&strs, |a: &String, b: &String| comp.cmp(a, b)));

    // Vec<i32>: compare by lexicographic order
    let mut vecs = vec![vec![1], vec![3, 4], vec![2]];
    max_heap::heapify_by(&mut vecs, |a: &Vec<i32>, b: &Vec<i32>| comp.cmp(a, b));
    assert_eq!(vecs[0], vec![3, 4]);
    assert!(max_heap::is_heap_by(&vecs, |a: &Vec<i32>, b: &Vec<i32>| comp.cmp(a, b)));
}

// Custom comparator: the distance from a center
fn by_distance(center: i32) -> impl Fn(&i32, &i32) -> Ordering + Copy {
    move |a: &i32, b: &i32| {
        let da = a.abs_diff(center);
        let db = b.abs_diff(center);
        da.cmp(&db)
    }
}

fn slice_is_sorted<T, F: Fn(&T, &T) -> Ordering>(comp: F, arr: &[T]) -> bool {
    for i in 1..arr.len() {
        if comp(&arr[i], &arr[i - 1]) == Ordering::Less {
            return false;
        }
    }
    true
}

#[test]
fn max_heap_custom_comparator_distance() {
    let comp = by_distance(3);
    let mut arr = vec![1, 5, 3, 7, 2];
    max_heap::heapify_by(&mut arr, comp);
    assert!(max_heap::is_heap_by(&arr, comp));
    // root is farthest from center
    assert_eq!(arr[0], 7);

    // heap_sort produces ascending by distance (via reverse then pop)
    max_heap::heapsort_by(&mut arr, comp);
    // after sort, closest to center appears first
    assert_eq!(arr[0], 3);
    // check if the array is sorted by distance
    assert!(slice_is_sorted(comp, &arr));
}

// Numeric slice tests
#[test]
fn min_heap_numeric_methods() {
    let comp = DefaultComparator;
    let by = |a: &i32, b: &i32| comp.cmp(a, b);
    let mut arr = vec![5, 1, 8, 3, 2];
    assert!(!min_heap::is_heap_by(&arr, by));
    min_heap::heapify_by(&mut arr, by);
    assert!(min_heap::is_heap_by(&arr, by));

    // move_downward (after breaking root)
    arr[0] = 10;
    assert!(!min_heap::is_heap_by(&arr, by));
    assert!(move_downward(&mut arr, 0, by));
    assert!(min_heap::is_heap_by(&arr, by));

    // move_upward (after breaking leaf)
    let mut arr2 = arr.clone();
    let len = arr2.len();
    arr2[len - 1] = 0;
    assert!(!min_heap::is_heap_by(&arr2, by));
    assert!(move_upward(&mut arr2, len - 1, by));
    assert!(min_heap::is_heap_by(&arr2, by));

    // heap_pushpop and heap_pop
    let mut arr3 = vec![2, 4, 6];
    let x = min_heap::heap_pushpop_by(&mut arr3, 1, by);
    assert_eq!(x, 1);
    assert!(min_heap::is_heap_by(&arr3, by));
    let mut arr4 = vec![2, 4, 6];
    if let Some(rest) = min_heap::heap_pop_by(&mut arr4, by) {
        assert_eq!(rest.len(), 2);
        assert!(min_heap::is_heap_by(rest, by));
    } else {
        panic!("heap_pop returned None");
    }
}

// String element tests
#[test]
fn min_heap_string_and_vec_methods() {
    let comp = DefaultComparator;
    // Strings
    let mut strs = vec![
        "delta".to_string(),
        "alpha".to_string(),
        "charlie".to_string(),
    ];
    min_heap::heapify_by(&mut strs, |a: &String, b: &String| comp.cmp(a, b));
    assert_eq!(strs[0], "alpha");
    assert!(min_heap::is_heap_by(&strs, |a: &String, b: &String| comp.cmp(a, b)));

    // Vec<i32>
    let mut vecs = vec![vec![3], vec![1, 2], vec![1]];
    min_heap::heapify_by(&mut vecs, |a: &Vec<i32>, b: &Vec<i32>| comp.cmp(a, b));
    assert_eq!(vecs[0], vec![1]);
    assert!(min_heap::is_heap_by(&vecs, |a: &Vec<i32>, b: &Vec<i32>| comp.cmp(a, b)));
}

fn slice_is_reverse_sorted<T, F: Fn(&T, &T) -> Ordering>(comp: F, arr: &[T]) -> bool {
    for pair in arr.windows(2) {
        if comp(&pair[0], &pair[1]) == Ordering::Less {
            return false;
        }
    }
    true
}

#[test]
fn min_heap_custom_comparator_distance() {
    let comp = by_distance(3);
    let mut arr = vec![1, 5, 3, 7, 2];
    min_heap::heapify_by(&mut arr, comp);
    assert!(min_heap::is_heap_by(&arr, comp));
    // the root should be the element closest to center (3)
    let root = arr[0];
    assert_eq!(root, 3);
    // sorting reverse-order on distance
    min_heap::heap_reverse_sort_by(&mut arr, comp);
    // after reverse sort by distance, farthest appears first
    assert_eq!(arr[0], 7);
    // check if the array is sorted in reverse order
    assert!(slice_is_reverse_sorted(comp, &arr));
}
