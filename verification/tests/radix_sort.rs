use yt42::algorithms::sort::radix_sort::{RadixSortExt, SerialScheme};

type Projection<T> = Box<dyn Fn(&T) -> usize>;

// helper to compare with standard sort for u32
fn check_sorted_u32(data: &mut [u32]) {
    let mut expected = data.to_vec();
    expected.sort();
    assert_eq!(data, expected.as_slice());
}

#[test]
fn u32_radix_1bit() {
    let mut v = vec![123, 0, 456, 1, 0xFFFF_FFFF, 999_999];
    let scheme1 = {
        (
            #[allow(clippy::identity_op)]
            |x: &u32| ((*x >> 0) & 1) as usize,
            |x: &u32| ((*x >> 1) & 1) as usize,
            |x: &u32| ((*x >> 2) & 1) as usize,
            |x: &u32| ((*x >> 3) & 1) as usize,
            |x: &u32| ((*x >> 4) & 1) as usize,
            |x: &u32| ((*x >> 5) & 1) as usize,
            |x: &u32| ((*x >> 6) & 1) as usize,
            |x: &u32| ((*x >> 7) & 1) as usize,
            |x: &u32| ((*x >> 8) & 1) as usize,
            |x: &u32| ((*x >> 9) & 1) as usize,
            |x: &u32| ((*x >> 10) & 1) as usize,
            |x: &u32| ((*x >> 11) & 1) as usize,
            |x: &u32| ((*x >> 12) & 1) as usize,
            |x: &u32| ((*x >> 13) & 1) as usize,
            |x: &u32| ((*x >> 14) & 1) as usize,
            |x: &u32| ((*x >> 15) & 1) as usize,
        )
    };
    v.as_mut_slice().radix_sort(scheme1);
    let scheme2 = {
        (
            |x: &u32| ((*x >> 16) & 1) as usize,
            |x: &u32| ((*x >> 17) & 1) as usize,
            |x: &u32| ((*x >> 18) & 1) as usize,
            |x: &u32| ((*x >> 19) & 1) as usize,
            |x: &u32| ((*x >> 20) & 1) as usize,
            |x: &u32| ((*x >> 21) & 1) as usize,
            |x: &u32| ((*x >> 22) & 1) as usize,
            |x: &u32| ((*x >> 23) & 1) as usize,
            |x: &u32| ((*x >> 24) & 1) as usize,
            |x: &u32| ((*x >> 25) & 1) as usize,
            |x: &u32| ((*x >> 26) & 1) as usize,
            |x: &u32| ((*x >> 27) & 1) as usize,
            |x: &u32| ((*x >> 28) & 1) as usize,
            |x: &u32| ((*x >> 29) & 1) as usize,
            |x: &u32| ((*x >> 30) & 1) as usize,
            |x: &u32| ((*x >> 31) & 1) as usize,
        )
    };
    v.as_mut_slice().radix_sort(scheme2);
    check_sorted_u32(&mut v);
}

#[test]
fn u32_radix_2bit() {
    let mut v = vec![17, 256, 0, 65535, 1, 42, 999_999];
    let scheme = (
        #[allow(clippy::identity_op)]
        |x: &u32| ((*x >> 0) & 3) as usize,
        |x: &u32| ((*x >> 2) & 3) as usize,
        |x: &u32| ((*x >> 4) & 3) as usize,
        |x: &u32| ((*x >> 6) & 3) as usize,
        |x: &u32| ((*x >> 8) & 3) as usize,
        |x: &u32| ((*x >> 10) & 3) as usize,
        |x: &u32| ((*x >> 12) & 3) as usize,
        |x: &u32| ((*x >> 14) & 3) as usize,
        |x: &u32| ((*x >> 16) & 3) as usize,
        |x: &u32| ((*x >> 18) & 3) as usize,
        |x: &u32| ((*x >> 20) & 3) as usize,
        |x: &u32| ((*x >> 22) & 3) as usize,
        |x: &u32| ((*x >> 24) & 3) as usize,
        |x: &u32| ((*x >> 26) & 3) as usize,
        |x: &u32| ((*x >> 28) & 3) as usize,
        |x: &u32| ((*x >> 30) & 3) as usize,
    );
    v.as_mut_slice().radix_sort(scheme);
    check_sorted_u32(&mut v);
}

#[test]
fn u32_radix_4bit() {
    let mut v = vec![0x1234_5678, 0, 0xFFFF_FFFF, 42, 17, 0xDEAD_BEEF];
    let scheme = (
        #[allow(clippy::identity_op)]
        |x: &u32| ((*x >> 0) & 0xF) as usize,
        |x: &u32| ((*x >> 4) & 0xF) as usize,
        |x: &u32| ((*x >> 8) & 0xF) as usize,
        |x: &u32| ((*x >> 12) & 0xF) as usize,
        |x: &u32| ((*x >> 16) & 0xF) as usize,
        |x: &u32| ((*x >> 20) & 0xF) as usize,
        |x: &u32| ((*x >> 24) & 0xF) as usize,
        |x: &u32| ((*x >> 28) & 0xF) as usize,
    );
    v.as_mut_slice().radix_sort(scheme);
    check_sorted_u32(&mut v);
}

#[test]
fn u32_radix_8bit() {
    let mut v = vec![0xDEAD_BEEF, 123, 0, 0xFF00_FF00, 42, 999_999];
    let scheme = (
        #[allow(clippy::identity_op)]
        |x: &u32| ((*x >> 0) & 0xFF) as usize,
        |x: &u32| ((*x >> 8) & 0xFF) as usize,
        |x: &u32| ((*x >> 16) & 0xFF) as usize,
        |x: &u32| ((*x >> 24) & 0xFF) as usize,
    );
    v.as_mut_slice().radix_sort(scheme);
    check_sorted_u32(&mut v);
}

#[test]
fn i32_sign_abs_scheme() {
    let mut v = vec![-5, 3, -2, 1, -4, 0, 7, -1];
    let scheme = (
        |x: &i32| x.unsigned_abs() as usize,
        |x: &i32| if *x < 0 { 0 } else { 1 },
    );
    v.as_mut_slice().radix_sort(scheme);

    let expected = vec![-1, -2, -4, -5, 0, 1, 3, 7];
    assert_eq!(v, expected);
}

#[test]
fn ascii_string_lexicographic() {
    let mut v = vec![
        "apple".to_string(),
        "banana".to_string(),
        "app".to_string(),
        "apricot".to_string(),
        "bananaaa".to_string(),
        "".to_string(),
    ];
    let max_len = v.iter().map(|s| s.len()).max().unwrap();
    let mut projections: Vec<Projection<String>> = Vec::new();
    for i in 0..max_len {
        projections.push(Box::new(move |s: &String| {
            let idx = max_len - 1 - i; // LSB: last char
            s.as_bytes().get(idx).copied().unwrap_or(0) as usize
        }));
    }
    let scheme = SerialScheme::new(&mut projections[..]);
    v.as_mut_slice().radix_sort(scheme);
    let expected = vec![
        "".to_string(),
        "app".to_string(),
        "apple".to_string(),
        "apricot".to_string(),
        "banana".to_string(),
        "bananaaa".to_string(),
    ];
    assert_eq!(v, expected);
}
