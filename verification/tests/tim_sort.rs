use yt42::algorithms::sort::tim_sort::{
    binary_insertion_sort_by, galloping_count, get_min_run_size, get_sorted_run_from_slice,
    merge_two_run, tim_sort, tim_sort_by,
};

use std::cmp::Reverse;

use rand::distr::StandardUniform;
use rand::rngs::StdRng;
use rand::{Rng, SeedableRng};

const TEST_SIZE: usize = 10_000;

#[test]
fn test_min_run_size() {
    let n = 1088;
    let (min_run_size, max_run_cnt) = get_min_run_size(n);
    assert_eq!(min_run_size, 34);
    assert_eq!(max_run_cnt, 32);
}

#[test]
fn test_binary_insertion_sort_by() {
    let seed: u64 = 42;
    let rng = StdRng::seed_from_u64(seed);

    let mut vec: Vec<i32> = rng.sample_iter(StandardUniform).take(1000).collect();

    binary_insertion_sort_by(
        &mut vec,
        |a: &i32, b: &i32| Reverse(a).cmp(&Reverse(b)),
        true,
    );

    assert!(vec.is_sorted_by(|&a, &b| { a > b }));
}

#[test]
fn test_get_sorted_run_inc() {
    let mut slice = [2, 3, -1, -5, 0, 4, 11, 15];
    let run_end_pos = get_sorted_run_from_slice(&mut slice, i32::cmp, 0, 5);
    assert_eq!(run_end_pos, 8);
    assert_eq!(slice, [-5, -1, 0, 2, 3, 4, 11, 15]);
}

#[test]
fn test_get_sorted_run_dec() {
    let mut slice = [3, 2, -1, -5, 0, 4, 11, 15];
    let run_end_pos = get_sorted_run_from_slice(&mut slice, i32::cmp, 0, 4);
    assert_eq!(run_end_pos, 4);
    assert_eq!(slice, [-5, -1, 2, 3, 0, 4, 11, 15]);
}

#[test]
fn test_galloping_count() {
    let mut slice = [7, 1, 2, 3, 4, 5, 6, 7, 7, 8, 8, 9, 10, 8];

    // search left run
    assert_eq!(
        galloping_count(&mut slice, 0, 1, 13, |r1, target| {
            i32::cmp(r1, target).is_le()
        }),
        8 // 1, 2, 3, 4, 5, 6, 7, 7 -> 8ea
    );

    // right run
    assert_eq!(
        galloping_count(&mut slice, 13, 1, 13, |r2, target| {
            i32::cmp(r2, target).is_lt()
        }),
        8 // 1, 2, 3, 4, 5, 6, 7, 7 -> 8ea
    );
}

#[test]
fn test_merge_two_run() {
    let mut merge_buffer: Vec<usize> = vec![0; 9];
    let mut slice = [-9, 0, 2, 3, 8, 1, 4, 5, 44];
    merge_two_run(
        &mut slice,
        i32::cmp,
        &mut merge_buffer,
        (0, 5),
        (5, 9),
    );
    assert_eq!(slice, [-9, 0, 1, 2, 3, 4, 5, 8, 44]);
}

#[test]
fn test_merge_two_run_one_off_error() {
    let mut merge_buffer: Vec<usize> = vec![0; 9];
    let mut slice = [55, 0, 1, 2, 3, 4, 5, 6, 99];
    merge_two_run(
        &mut slice,
        i32::cmp,
        &mut merge_buffer,
        (0, 1),
        (1, 9),
    );
    assert_eq!(slice, [0, 1, 2, 3, 4, 5, 6, 55, 99]);

    let mut slice = [0, 1, 2, 3, 4, 5, 6, 99, -33];
    merge_two_run(
        &mut slice,
        i32::cmp,
        &mut merge_buffer,
        (0, 8),
        (8, 9),
    );
    assert_eq!(slice, [-33, 0, 1, 2, 3, 4, 5, 6, 99]);
}

#[test]
fn test_merge_two_run_stable() {
    let mut merge_buffer: Vec<usize> = vec![0; 8];
    let mut str_slice = ["a", "dd", "heh", "hahah", "b", "c", "aa", "dddddd"];

    merge_two_run(
        &mut str_slice,
        |str1, str2| usize::cmp(&str1.len(), &str2.len()),
        &mut merge_buffer,
        (0, 4),
        (4, 8),
    );

    assert_eq!(
        str_slice,
        ["a", "b", "c", "dd", "aa", "heh", "hahah", "dddddd"]
    );
}

#[test]
fn test_tim_sort_by_small() {
    let seed: u64 = 42;
    let rng = StdRng::seed_from_u64(seed);

    let mut vec: Vec<i32> = rng.sample_iter(StandardUniform).take(53).collect();

    println!("Before sort : {:?}", vec);
    tim_sort_by(&mut vec, |a: &i32, b: &i32| Reverse(a).cmp(&Reverse(b)));

    println!("After sort : {:?}", vec);
    assert!(vec.is_sorted_by(|&a, &b| { a > b }));
}

#[test]
fn test_tim_sort_by_big() {
    let seed: u64 = 42;
    let rng = StdRng::seed_from_u64(seed);

    let mut vec: Vec<i32> = rng.sample_iter(StandardUniform).take(TEST_SIZE).collect();

    tim_sort_by(&mut vec, |a: &i32, b: &i32| Reverse(a).cmp(&Reverse(b)));

    assert!(vec.is_sorted_by(|&a, &b| { a > b }));
}

#[test]
fn test_tim_sort_by_stable() {
    let mut str_slice = ["hahah", "heh", "a", "aa", "b", "c", "dddddd", "aa"];

    tim_sort_by(&mut str_slice, |str1, str2| {
        usize::cmp(&str1.len(), &str2.len())
    });

    assert_eq!(
        str_slice,
        ["a", "b", "c", "aa", "aa", "heh", "hahah", "dddddd"]
    );
}

#[test]
fn test_tim_sort_by_string() {
    let seed: u64 = 42;
    let rng = StdRng::seed_from_u64(seed);

    let mut vec: Vec<String> = rng
        .sample_iter(StandardUniform)
        .take(TEST_SIZE)
        .map(|n: i32| n.to_string())
        .collect();

    tim_sort(&mut vec);

    assert!(vec.is_sorted());
}
