use yt42::algorithms::adapter::heap_on_slice::comparator::{Comparator, DefaultComparator, Reverse, ReverseComparator};


use std::cmp::Ordering;

#[test]
fn comparator_default_comparator_orders() {
    let comp = DefaultComparator;
    assert_eq!(comp.cmp(&1, &2), Ordering::Less);
    assert_eq!(comp.cmp(&2, &1), Ordering::Greater);
    assert_eq!(comp.cmp(&3, &3), Ordering::Equal);
}

#[test]
fn comparator_reverse_comparator_orders() {
    let comp = ReverseComparator;
    assert_eq!(comp.cmp(&1, &2), Ordering::Greater);
    assert_eq!(comp.cmp(&2, &1), Ordering::Less);
    assert_eq!(comp.cmp(&3, &3), Ordering::Equal);
}

#[test]
fn comparator_reverse_wrapper_reverses_order() {
    let dc = DefaultComparator;
    let comp = Reverse(&dc);
    assert_eq!(comp.cmp(&1, &2), Ordering::Greater);
    assert_eq!(comp.cmp(&2, &1), Ordering::Less);
    assert_eq!(comp.cmp(&3, &3), Ordering::Equal);

    let rc = ReverseComparator;
    let comp2 = Reverse(&rc);
    assert_eq!(comp2.cmp(&1, &2), Ordering::Less);
    assert_eq!(comp2.cmp(&2, &1), Ordering::Greater);
    assert_eq!(comp2.cmp(&3, &3), Ordering::Equal);
}

#[test]
fn test_unsized_comparator() {
    // Use a trait object for Comparator<i32>
    let comp: &dyn Comparator<i32> = &DefaultComparator;
    // DefaultComparator should order 1 < 2
    assert_eq!(comp.cmp(&1, &2), Ordering::Less);
    // Wrap the trait object in Reverse to invert ordering
    let rev = Reverse(comp);
    assert_eq!(rev.cmp(&1, &2), Ordering::Greater);
}
