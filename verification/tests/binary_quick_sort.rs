use yt42::algorithms::sort::quick_sort::binary_quick_sort::{binary_quick_sort, binary_quick_sort_by, partition_by};

use std::cmp::Reverse;

use rand::distr::StandardUniform;
use rand::rngs::StdRng;
use rand::{Rng, SeedableRng};


const TEST_SIZE: usize = 10_000;

fn is_partitioned(slice: &[i32], pivot_pos: usize) -> bool {
    let len = slice.len();

    for i in 0..pivot_pos {
        if slice[i] > slice[pivot_pos] {
            return false;
        }
    }
    for i in (pivot_pos + 1)..len {
        if slice[i] <= slice[pivot_pos] {
            return false;
        }
    }
    true
}

#[test]
fn binary_quick_sort_test_partition() {
    let seed: u64 = 42;
    let rng = StdRng::seed_from_u64(seed);

    let mut vec: Vec<i32> = rng.sample_iter(StandardUniform).take(100).collect();

    let pivot_pos = partition_by(&mut vec, &i32::cmp);

    assert!(is_partitioned(&vec, pivot_pos));
}

#[test]
fn binary_quick_sort_test_binary_quick_sort() {
    let seed: u64 = 42;
    let rng = StdRng::seed_from_u64(seed);

    let mut vec: Vec<i32> = rng.sample_iter(StandardUniform).take(TEST_SIZE).collect();

    binary_quick_sort(&mut vec);

    assert!(vec.is_sorted());
}

#[test]
fn binary_quick_sort_test_binary_quick_sort_by() {
    let seed: u64 = 42;
    let rng = StdRng::seed_from_u64(seed);

    let mut vec: Vec<i32> = rng.sample_iter(StandardUniform).take(TEST_SIZE).collect();

    binary_quick_sort_by(&mut vec, |a: &i32, b: &i32| Reverse(a).cmp(&Reverse(b)));

    assert!(vec.is_sorted_by(|&a, &b| { a > b }));
}
