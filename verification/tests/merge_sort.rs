use yt42::algorithms::sort::merge_sort::{merge_sort, merge_sort_by};

use std::cmp::Reverse;

use rand::distr::StandardUniform;
use rand::rngs::StdRng;
use rand::{Rng, SeedableRng};

const TEST_SIZE: usize = 10_000;

#[test]
fn lib_test_merge_sort() {
    let seed: u64 = 42;
    let rng = StdRng::seed_from_u64(seed);

    let mut vec: Vec<i32> = rng.sample_iter(StandardUniform).take(TEST_SIZE).collect();

    merge_sort(&mut vec);

    assert!(vec.is_sorted());
}

#[test]
fn lib_test_merge_sort_by() {
    let seed: u64 = 42;
    let rng = StdRng::seed_from_u64(seed);

    let mut vec: Vec<i32> = rng.sample_iter(StandardUniform).take(TEST_SIZE).collect();

    merge_sort_by(&mut vec, |a: &i32, b: &i32| Reverse(a).cmp(&Reverse(b)));

    assert!(vec.is_sorted_by(|&a, &b| { a > b }));
}
