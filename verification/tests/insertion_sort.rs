use yt42::algorithms::sort::insertion_sort::{insertion_sort, insertion_sort_by};

use std::cmp::Reverse;

use rand::distr::StandardUniform;
use rand::rngs::StdRng;
use rand::{Rng, SeedableRng};


const TEST_SIZE: usize = 10_000;

#[test]
fn test_insertion_sort_with_empty() {
    let mut vec: Vec<i32> = Vec::new();
    insertion_sort(&mut vec);
    assert!(vec.is_sorted());
}

#[test]
fn test_insertion_sort_with_size1() {
    let mut vec: Vec<i32> = vec![0; 1];
    insertion_sort(&mut vec);
    assert!(vec.is_sorted());
}

#[test]
fn lib_test_insertion_sort() {
    let seed: u64 = 42;
    let rng = StdRng::seed_from_u64(seed);

    let mut vec: Vec<i32> = rng.sample_iter(StandardUniform).take(TEST_SIZE).collect();

    insertion_sort(&mut vec);

    assert!(vec.is_sorted());
}

#[test]
fn lib_test_insertion_sort_by() {
    let seed: u64 = 42;
    let rng = StdRng::seed_from_u64(seed);

    let mut vec: Vec<i32> = rng.sample_iter(StandardUniform).take(TEST_SIZE).collect();

    insertion_sort_by(&mut vec, |a: &i32, b: &i32| Reverse(a).cmp(&Reverse(b)));

    assert!(vec.is_sorted_by(|&a, &b| { a > b }));
}
