use yt42::algorithms::sort::counting_sort::{
    CountingSort, CountingSortByKey, CountingSortByKeyCached, TryCountingSort,
};

#[test]
fn test_counting_sort() {
    let mut arr: [usize; 7] = [4, 2, 2, 8, 3, 3, 1];
    arr.counting_sort();
    assert_eq!(arr, [1, 2, 2, 3, 3, 4, 8]);
}

#[test]
fn test_try_counting_sort() {
    let mut arr: [i32; 7] = [4, 2, 2, 8, 3, 3, 1];
    assert!(arr.try_counting_sort().is_ok());
    assert_eq!(arr, [1, 2, 2, 3, 3, 4, 8]);

    let mut arr2: [i32; 3] = [4, -2, -8];
    assert!(arr2.try_counting_sort().is_err());
    assert_eq!(arr2, [4, -2, -8]);
}

#[derive(Debug, Clone, PartialEq, Eq)]
struct Word {
    text: String,
}
impl Word {
    fn new(text: &str) -> Self {
        Word {
            text: text.to_string(),
        }
    }
    fn vowel_count(&self) -> usize {
        self.text
            .to_lowercase()
            .chars()
            .filter(|&c| "aeiou".contains(c))
            .count()
    }
}

#[test]
fn test_counting_sort_by_key_cached() {
    let mut items = vec![
        Word::new("counting"),
        Word::new("hello"),
        Word::new("sort"),
        Word::new("a"),
        Word::new("world"),
        Word::new("is"),
        Word::new("rust"),
        Word::new("bb"),
        Word::new("stable"),
        Word::new("ccc"),
    ];
    let answer = vec![
        Word::new("bb"),
        Word::new("ccc"),
        Word::new("sort"),
        Word::new("a"),
        Word::new("world"),
        Word::new("is"),
        Word::new("rust"),
        Word::new("hello"),
        Word::new("stable"),
        Word::new("counting"),
    ];
    items.counting_sort_by_key_cached(|item| item.vowel_count());
    assert_eq!(items, answer);
}

#[test]
fn test_counting_sort_by_key() {
    let mut strings = vec![
        "counting".to_string(),
        "hello".to_string(),
        "sort____".to_string(),
        "a".to_string(),
        "world".to_string(),
        "is______".to_string(),
        "rust".to_string(),
        "bb".to_string(),
        "stable__".to_string(),
        "ccc".to_string(),
    ];
    let answer = vec![
        "a".to_string(),
        "bb".to_string(),
        "ccc".to_string(),
        "rust".to_string(),
        "hello".to_string(),
        "world".to_string(),
        "counting".to_string(),
        "sort____".to_string(),
        "is______".to_string(),
        "stable__".to_string(),
    ];
    strings.counting_sort_by_key(|s| s.len());
    assert_eq!(strings, answer);
}

// 빈 배열 테스트
#[test]
fn test_empty_array_counting_sort() {
    let mut arr: [usize; 0] = [];
    arr.counting_sort();
    assert_eq!(arr, <[usize; 0]>::default());
}

#[test]
fn test_empty_array_try_counting_sort() {
    let mut arr: [i32; 0] = [];
    assert!(arr.try_counting_sort().is_ok());
    assert_eq!(arr, <[i32; 0]>::default());
}

#[test]
fn test_empty_array_counting_sort_by_key() {
    let mut arr: [String; 0] = [];
    arr.counting_sort_by_key(|s| s.len());
    assert_eq!(arr, <[String; 0]>::default()); // 빈 벡터는 그대로 유지
}

#[test]
fn test_empty_array_counting_sort_by_key_cached() {
    let mut arr: [String; 0] = [];
    arr.counting_sort_by_key_cached(|s| s.len());
    assert_eq!(arr, <[String; 0]>::default()); // 빈 벡터는 그대로 유지
}

// 모든 요소가 동일한 경우 테스트 (안정성 간접 확인)
#[test]
fn test_all_elements_same_key_counting_sort() {
    let mut arr = [1usize, 1, 1, 1];
    arr.counting_sort();
    assert_eq!(arr, [1, 1, 1, 1]);
}

#[test]
fn test_all_elements_same_key_try_counting_sort() {
    let mut arr = [5i32, 5, 5];
    assert!(arr.try_counting_sort().is_ok());
    assert_eq!(arr, [5, 5, 5]);
}

#[test]
fn test_all_elements_same_key_counting_sort_by_key() {
    // 안정성: 모든 키가 같을 때 원래 순서가 유지되어야 함
    let mut arr = vec![
        Word::new("apple"),
        Word::new("apricot"),
        Word::new("banana"),
    ];
    let expected = arr.clone(); // 원래 순서
    arr.counting_sort_by_key(|_w| 0); // 모든 키를 0으로 설정
    assert_eq!(
        arr, expected,
        "Order should be preserved for same keys (stability)"
    );
}

#[test]
fn test_all_elements_same_key_counting_sort_by_key_cached() {
    let mut arr = vec![Word::new("zebra"), Word::new("yak"), Word::new("xylophone")];
    let expected = arr.clone();
    arr.counting_sort_by_key_cached(|_w| 10); // 모든 키를 10으로 설정
    assert_eq!(
        arr, expected,
        "Order should be preserved for same keys (stability)"
    );
}

// 이미 정렬된 배열 테스트
#[test]
fn test_already_sorted_counting_sort() {
    let mut arr = [1usize, 2, 3, 4];
    arr.counting_sort();
    assert_eq!(arr, [1, 2, 3, 4]);
}

#[test]
fn test_already_sorted_try_counting_sort() {
    let mut arr = [10i32, 20, 30];
    assert!(arr.try_counting_sort().is_ok());
    assert_eq!(arr, [10, 20, 30]);
}

#[test]
fn test_already_sorted_counting_sort_by_key() {
    let mut arr = vec!["a".to_string(), "bb".to_string(), "ccc".to_string()];
    let expected = arr.clone();
    arr.counting_sort_by_key(|s| s.len());
    assert_eq!(arr, expected);
}

#[test]
fn test_already_sorted_counting_sort_by_key_cached() {
    let mut arr = vec![Word::new("a"), Word::new("b"), Word::new("c")];
    let expected = arr.clone();
    arr.counting_sort_by_key_cached(|w| w.text.chars().next().unwrap() as usize); // 첫 글자 ASCII 값
    assert_eq!(arr, expected);
}

// 역순으로 정렬된 배열 테스트
#[test]
fn test_reverse_sorted_counting_sort() {
    let mut arr = [4usize, 3, 2, 1];
    arr.counting_sort();
    assert_eq!(arr, [1, 2, 3, 4]);
}

#[test]
fn test_reverse_sorted_try_counting_sort() {
    let mut arr = [30i32, 20, 10];
    assert!(arr.try_counting_sort().is_ok());
    assert_eq!(arr, [10, 20, 30]);
}

#[test]
fn test_reverse_sorted_counting_sort_by_key() {
    let mut arr = vec!["ccc".to_string(), "bb".to_string(), "a".to_string()];
    arr.counting_sort_by_key(|s| s.len());
    assert_eq!(
        arr,
        vec!["a".to_string(), "bb".to_string(), "ccc".to_string()]
    );
}

#[test]
fn test_reverse_sorted_counting_sort_by_key_cached() {
    let mut arr = vec![Word::new("c"), Word::new("b"), Word::new("a")];
    arr.counting_sort_by_key_cached(|w| w.text.chars().next().unwrap() as usize);
    assert_eq!(arr, vec![Word::new("a"), Word::new("b"), Word::new("c")]);
}

// usize::MAX 키 값 패닉 테스트
#[test]
#[should_panic]
fn test_counting_sort_with_usize_max_panics() {
    let mut arr = [0usize, usize::MAX];
    arr.counting_sort();
}

#[test]
#[should_panic]
fn test_try_counting_sort_with_usize_max_panics() {
    // T가 usize일 때, try_into()는 성공하고 그 후 key == usize::MAX 체크에서 패닉해야 함
    let mut arr_usize: [usize; 2] = [0, usize::MAX];
    // unwrap_or_else로 try_into 자체의 에러가 아님을 명확히 함
    arr_usize
        .try_counting_sort()
        .unwrap_or_else(|e| panic!("try_into failed unexpectedly for usize input: {:?}", e));
}

#[test]
#[should_panic]
fn test_counting_sort_by_key_with_usize_max_key_panics() {
    let mut arr = [0, 1]; // i32 타입 사용
    arr.counting_sort_by_key(|x: &i32| if *x == 1 { usize::MAX } else { 0 });
}

#[test]
#[should_panic]
fn test_counting_sort_by_key_cached_with_usize_max_key_panics() {
    let mut arr = [0, 1]; // i32 타입 사용
    arr.counting_sort_by_key_cached(|x: &i32| if *x == 1 { usize::MAX } else { 0 });
}

// TryInto<usize> 변환 실패 테스트 (TryFromIntError)
#[test]
fn test_try_counting_sort_conversion_failure_u64_if_usize_is_smaller() {
    // 이 테스트는 usize가 u64보다 작을 때 (예: 32비트 대상) 의미가 있음
    if usize::BITS < 64 {
        let large_val_beyond_usize_max = (usize::MAX as u64) + 1;
        let mut arr: [u64; 2] = [0, large_val_beyond_usize_max];
        assert!(
            arr.try_counting_sort().is_err(),
            "Should fail to convert large_val_beyond_usize_max to usize"
        );
        assert_eq!(
            arr,
            [0, large_val_beyond_usize_max],
            "Array should be unchanged on conversion error"
        );
    } else {
        // usize가 64비트인 경우, u64::MAX를 usize로 변환 시도 (usize::MAX와 같다면 성공, 아니면 실패)
        // 여기서는 usize::MAX + 1 개념이 u64 범위 내에서만 의미 있으므로,
        // usize가 64비트일 때는 이 특정 테스트 케이스는 스킵하거나 다르게 접근해야 함.
        // 지금은 usize < u64 경우만 명확히 테스트.
        println!(
            "Skipping test_try_counting_sort_conversion_failure_u64_if_usize_is_smaller as usize is likely 64-bit."
        );
    }
}
#[test]
fn test_try_counting_sort_negative_value_fails_conversion() {
    let mut arr_i8: [i8; 2] = [5, -1];
    assert!(
        arr_i8.try_counting_sort().is_err(),
        "Should fail for negative i8 value"
    );
    assert_eq!(
        arr_i8,
        [5, -1],
        "Array should be unchanged on negative i8 error"
    );

    let mut arr_i64: [i64; 2] = [100, -100];
    assert!(
        arr_i64.try_counting_sort().is_err(),
        "Should fail for negative i64 value"
    );
    assert_eq!(
        arr_i64,
        [100, -100],
        "Array should be unchanged on negative i64 error"
    );
}
