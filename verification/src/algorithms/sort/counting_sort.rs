//! Counting sort: a stable sort by keys that are small numbers.
//!
//! The keys are counted, the counts are summed up so that each tells where
//! the elements of its key end, and each element is then given its place from
//! the last one down.

use vstd::prelude::*;
use vstd::arithmetic::power2::pow2;
use vstd::slice::slice_to_vec;
use crate::permutation::{identity, rearranged, lemma_identity, lemma_rearranged_multiset};
use crate::slices::{places_within, placed_from, settle};

verus! {

/// `usize::next_power_of_two`: the least power of two that is not less than
/// `x`. Where that power does not fit the type the call fails or gives 0, so
/// `x` is required not to be above the greatest power of two that fits.
pub assume_specification[ usize::next_power_of_two ](x: usize) -> (power: usize)
    requires
        x <= usize::MAX / 2 + 1,
    ensures
        x <= power <= usize::MAX / 2 + 1,
        exists|k: nat| power == pow2(k),
        forall|k: nat| x <= #[trigger] pow2(k) ==> power <= pow2(k),
;

/// The number of the first `upto` keys that are less than `v`.
pub open spec fn count_lt(keys: Seq<usize>, v: int, upto: int) -> int
    decreases upto,
{
    if upto <= 0 {
        0
    } else {
        count_lt(keys, v, upto - 1) + if keys[upto - 1] < v {
            1int
        } else {
            0int
        }
    }
}

/// The number of the first `upto` keys that are `v`.
pub open spec fn count_eq(keys: Seq<usize>, v: int, upto: int) -> int
    decreases upto,
{
    if upto <= 0 {
        0
    } else {
        count_eq(keys, v, upto - 1) + if keys[upto - 1] == v {
            1int
        } else {
            0int
        }
    }
}

/// The place of the element at `i` in a stable sort by `keys`: the number of
/// keys that are less than its key, and of keys before it that are the same.
pub open spec fn rank(keys: Seq<usize>, i: int) -> int {
    count_lt(keys, keys[i] as int, keys.len() as int) + count_eq(keys, keys[i] as int, i)
}

/// Counts grow with the number of keys that are counted, and the keys that
/// are less than `v` or `v` itself are the keys that are less than `v + 1`.
pub proof fn lemma_counts(keys: Seq<usize>, v: int, a: int, b: int)
    requires
        0 <= a <= b <= keys.len(),
    ensures
        0 <= count_lt(keys, v, a) <= count_lt(keys, v, b),
        0 <= count_eq(keys, v, a) <= count_eq(keys, v, b),
        count_lt(keys, v, b) + count_eq(keys, v, b) == count_lt(keys, v + 1, b),
        count_lt(keys, v + 1, b) <= b,
        forall|w: int| v < w ==> count_lt(keys, v + 1, b) <= #[trigger] count_lt(keys, w, b),
        (forall|j: int| 0 <= j < b ==> keys[j] != v) ==> count_eq(keys, v, b) == 0,
    decreases b,
{
    if b > 0 {
        if a < b {
            lemma_counts(keys, v, a, b - 1);
        } else {
            lemma_counts(keys, v, a - 1, b - 1);
        }
        lemma_counts(keys, v, b - 1, b - 1);
        assert forall|w: int| v < w implies count_lt(keys, v + 1, b) <= #[trigger] count_lt(
            keys,
            w,
            b,
        ) by {
            assert(count_lt(keys, v + 1, b - 1) <= count_lt(keys, w, b - 1));
        }
    }
}

/// An element with a lesser key, or with the same key and standing before,
/// has a lesser rank; and each rank is a place of the sequence.
pub proof fn lemma_rank(keys: Seq<usize>, i: int, j: int)
    requires
        0 <= i < keys.len(),
        0 <= j < keys.len(),
    ensures
        0 <= rank(keys, i) < keys.len(),
        keys[i] < keys[j] || (keys[i] == keys[j] && i < j) ==> rank(keys, i) < rank(keys, j),
{
    let n = keys.len() as int;
    let ki = keys[i] as int;
    let kj = keys[j] as int;
    lemma_counts(keys, ki, i, n);
    lemma_counts(keys, ki, i + 1, n);
    lemma_counts(keys, ki, i, i + 1);
    lemma_counts(keys, kj, j, n);
    if keys[i] == keys[j] && i < j {
        lemma_counts(keys, ki, i + 1, j);
    }
}

/// The keys have been counted up to `upto`: the counter holds for each key
/// the number of elements that have it, and is long enough for each of them.
pub open spec fn counted(counter: Seq<usize>, keys: Seq<usize>, upto: int) -> bool {
    &&& forall|j: int| 0 <= j < upto ==> #[trigger] keys[j] < counter.len()
    &&& forall|v: int| 0 <= v < counter.len() ==> #[trigger] counter[v] == count_eq(keys, v, upto)
}

/// The counter holds for each key below `upto` the number of elements whose
/// key is not greater, and for the other keys the number of elements that have that key.
pub open spec fn accumulated(counter: Seq<usize>, keys: Seq<usize>, upto: int) -> bool {
    &&& forall|j: int| 0 <= j < keys.len() ==> #[trigger] keys[j] < counter.len()
    &&& forall|v: int|
        0 <= v < counter.len() ==> #[trigger] counter[v] == if v < upto {
            count_lt(keys, v + 1, keys.len() as int)
        } else {
            count_eq(keys, v, keys.len() as int)
        }
}

/// Counts the keys and sums the counts up: the counter that comes back holds
/// for each key that occurs the number of elements whose key is not greater.
pub fn get_accumulated_counter(keys: &[usize]) -> (counter: Vec<usize>)
    requires
        forall|j: int| 0 <= j < keys@.len() ==> #[trigger] keys@[j] <= usize::MAX / 2,
    ensures
        forall|j: int| 0 <= j < keys@.len() ==> #[trigger] keys@[j] < counter@.len(),
        forall|j: int|
            0 <= j < keys@.len() ==> counter@[#[trigger] keys@[j] as int] == count_lt(
                keys@,
                keys@[j] + 1,
                keys@.len() as int,
            ),
{
    let mut counter: Vec<usize> = Vec::new();
    let mut max_key: usize = 0;
    let n = keys.len();

    let mut i: usize = 0;
    while i < n
        invariant
            n == keys@.len(),
            i <= n,
            forall|j: int| 0 <= j < keys@.len() ==> #[trigger] keys@[j] <= usize::MAX / 2,
            counted(counter@, keys@, i as int),
            forall|j: int| 0 <= j < i ==> #[trigger] keys@[j] <= max_key,
            i > 0 ==> max_key < counter@.len(),
            i == 0 ==> max_key == 0,
            max_key <= usize::MAX / 2,
        decreases n - i,
    {
        let key = keys[i];
        let ghost before = counter@;
        if counter.len() <= key {
            counter.resize(key.checked_add(1).unwrap().next_power_of_two(), 0);
            proof {
                assert forall|v: int| 0 <= v < counter@.len() implies #[trigger] counter@[v]
                    == count_eq(keys@, v, i as int) by {
                    if v < before.len() {
                        assert(counter@.subrange(0, before.len() as int)[v] == before[v]);
                    } else {
                        lemma_counts(keys@, v, 0, i as int);
                    }
                }
            }
        }
        proof {
            lemma_counts(keys@, key as int, i as int, i as int);
        }
        assert(key < counter@.len());
        let ghost sized = counter@;
        counter[key] = counter[key].checked_add(1).unwrap();
        proof {
            assert forall|v: int| 0 <= v < counter@.len() implies #[trigger] counter@[v]
                == count_eq(keys@, v, i + 1) by {
                assert(sized[v] == count_eq(keys@, v, i as int));
            }
        }
        max_key = if max_key > key {
            max_key
        } else {
            key
        };
        i += 1;
    }

    proof {
        if n > 0 {
            lemma_none_below(keys@, n as int);
            lemma_counts(keys@, 0, n as int, n as int);
        }
    }
    let mut i: usize = 1;
    while i <= max_key
        invariant
            n == keys@.len(),
            1 <= i,
            n > 0 ==> max_key < counter@.len(),
            n > 0 ==> i <= max_key + 1,
            n == 0 ==> max_key == 0,
            max_key <= usize::MAX / 2,
            accumulated(counter@, keys@, i as int) || n == 0,
        decreases max_key + 1 - i,
    {
        proof {
            lemma_counts(keys@, i as int, n as int, n as int);
            lemma_counts(keys@, i - 1, n as int, n as int);
        }
        counter[i] = counter[i].checked_add(counter[i - 1]).unwrap();
        i += 1;
    }
    proof {
        if n > 0 {
            assert forall|j: int| 0 <= j < keys@.len() implies counter@[#[trigger] keys@[j] as int]
                == count_lt(keys@, keys@[j] + 1, keys@.len() as int) by {
                if keys@[j] == 0 {
                    lemma_counts(keys@, 0, n as int, n as int);
                    lemma_counts(keys@, -1, n as int, n as int);
                    assert(count_lt(keys@, 0, n as int) == 0) by {
                        lemma_none_below(keys@, n as int);
                    }
                }
            }
        }
    }
    counter
}

/// No key is less than 0.
proof fn lemma_none_below(keys: Seq<usize>, upto: int)
    requires
        0 <= upto <= keys.len(),
    ensures
        count_lt(keys, 0, upto) == 0,
    decreases upto,
{
    if upto > 0 {
        lemma_none_below(keys, upto - 1);
    }
}

/// Gives each element its place: from the last element down, the count of
/// its key is lowered by one and is then the place of the element.
pub fn accumulated_counter2permutation(counter: &mut [usize], keys: &[usize], len: usize) -> (perm:
    Vec<usize>)
    requires
        len == keys@.len(),
        forall|j: int| 0 <= j < keys@.len() ==> #[trigger] keys@[j] < old(counter)@.len(),
        forall|j: int|
            0 <= j < keys@.len() ==> old(counter)@[#[trigger] keys@[j] as int] == count_lt(
                keys@,
                keys@[j] + 1,
                keys@.len() as int,
            ),
    ensures
        perm@.len() == len,
        forall|j: int| 0 <= j < len ==> #[trigger] perm@[j] == rank(keys@, j),
        final(counter)@.len() == old(counter)@.len(),
{
    let mut perm: Vec<usize> = vec![0; len];
    let mut idx: usize = len;
    proof {
        assert forall|j: int| 0 <= j < keys@.len() implies counter@[#[trigger] keys@[j] as int]
            == count_lt(keys@, keys@[j] as int, len as int) + count_eq(
            keys@,
            keys@[j] as int,
            len as int,
        ) by {
            lemma_counts(keys@, keys@[j] as int, len as int, len as int);
        }
    }
    while idx > 0
        invariant
            len == keys@.len(),
            idx <= len,
            perm@.len() == len,
            counter@.len() == old(counter)@.len(),
            forall|j: int| 0 <= j < keys@.len() ==> #[trigger] keys@[j] < counter@.len(),
            forall|j: int|
                0 <= j < keys@.len() ==> counter@[#[trigger] keys@[j] as int] == count_lt(
                    keys@,
                    keys@[j] as int,
                    len as int,
                ) + count_eq(keys@, keys@[j] as int, idx as int),
            forall|j: int| idx <= j < len ==> #[trigger] perm@[j] == rank(keys@, j),
        decreases idx,
    {
        idx -= 1;
        let key = keys[idx];
        let ghost counts = counter@;
        proof {
            lemma_counts(keys@, key as int, idx as int, idx as int);
            lemma_counts(keys@, key as int, idx as int, len as int);
            assert(count_eq(keys@, key as int, idx + 1) == count_eq(keys@, key as int, idx as int)
                + 1);
        }
        counter[key] -= 1;
        perm[idx] = counter[key];
        proof {
            assert forall|j: int| 0 <= j < keys@.len() implies counter@[#[trigger] keys@[j] as int]
                == count_lt(keys@, keys@[j] as int, len as int) + count_eq(
                keys@,
                keys@[j] as int,
                idx as int,
            ) by {
                assert(counts[keys@[j] as int] == count_lt(keys@, keys@[j] as int, len as int)
                    + count_eq(keys@, keys@[j] as int, idx + 1));
            }
        }
    }
    perm
}

/// Moves each element to the place that `perm` holds for it, by exchanges;
/// `perm` then holds each index at itself.
pub fn apply_permutation<T>(src: &mut [T], perm: &mut [usize])
    requires
        old(perm)@.len() == old(src)@.len(),
        places_within(old(perm)@, 0, old(src)@.len() as int),
    ensures
        final(src)@.len() == old(src)@.len(),
        final(perm)@.len() == old(perm)@.len(),
        forall|a: int|
            0 <= a < old(src)@.len() ==> final(src)@[#[trigger] old(perm)@[a] as int] == old(
                src,
            )@[a],
        exists|origin: Seq<int>|
            placed_from(
                old(src)@,
                final(src)@,
                old(perm)@,
                origin,
                0,
                old(src)@.len() as int,
            ),
{
    settle(src, perm, 0, src.len());
}

/// Moves each element to the place that `perm` holds for it, by way of a copy of the slice.
pub fn apply_permutation_copy<T>(src: &mut [T], perm: &[usize]) where T: Copy
    requires
        perm@.len() == old(src)@.len(),
        places_within(perm@, 0, old(src)@.len() as int),
    ensures
        final(src)@.len() == old(src)@.len(),
        forall|a: int|
            0 <= a < old(src)@.len() ==> final(src)@[#[trigger] perm@[a] as int] == old(src)@[a],
{
    let cloned_src = slice_to_vec(src);
    let n = src.len();
    let mut idx: usize = 0;
    while idx < n
        invariant
            n == src@.len(),
            n == perm@.len(),
            n == cloned_src@.len(),
            idx <= n,
            cloned_src@ == old(src)@,
            places_within(perm@, 0, n as int),
            forall|a: int| 0 <= a < idx ==> src@[#[trigger] perm@[a] as int] == cloned_src@[a],
        decreases n - idx,
    {
        src[perm[idx]] = cloned_src[idx];
        proof {
            assert forall|a: int| 0 <= a < idx + 1 implies src@[#[trigger] perm@[a] as int]
                == cloned_src@[a] by {
                if a < idx {
                    assert(perm@[a] != perm@[idx as int]);
                }
            }
        }
        idx += 1;
    }
}

/// The ranks of the keys are places, each taken once.
pub proof fn lemma_ranks_are_places(keys: Seq<usize>, perm: Seq<usize>)
    requires
        perm.len() == keys.len(),
        forall|j: int| 0 <= j < keys.len() ==> #[trigger] perm[j] == rank(keys, j),
    ensures
        places_within(perm, 0, keys.len() as int),
{
    assert forall|a: int| 0 <= a < keys.len() implies 0 <= #[trigger] perm[a] < keys.len() by {
        lemma_rank(keys, a, a);
    }
    assert forall|a: int, b: int| 0 <= a < b < keys.len() implies #[trigger] perm[a]
        != #[trigger] perm[b] by {
        lemma_rank(keys, a, b);
        lemma_rank(keys, b, a);
    }
}

/// `p` tells how `before` was rearranged to `after`: in the order of `keys`,
/// elements with the same key in the order in which they stood.
pub open spec fn sorts_by_keys<T>(keys: Seq<usize>, before: Seq<T>, after: Seq<T>, p: Seq<int>) -> bool {
    &&& keys.len() == before.len()
    &&& rearranged(before, after, p)
    &&& forall|x: int, y: int|
        0 <= x < y < p.len() ==> keys[#[trigger] p[x]] < keys[#[trigger] p[y]] || (keys[p[x]]
            == keys[p[y]] && p[x] < p[y])
}

/// Where each element stands at its rank, the sequence is sorted stably by the keys.
pub proof fn lemma_ranked_sorted<T>(
    keys: Seq<usize>,
    before: Seq<T>,
    after: Seq<T>,
    perm: Seq<usize>,
    origin: Seq<int>,
)
    requires
        keys.len() == before.len(),
        after.len() == before.len(),
        perm.len() == keys.len(),
        forall|j: int| 0 <= j < keys.len() ==> #[trigger] perm[j] == rank(keys, j),
        placed_from(before, after, perm, origin, 0, before.len() as int),
    ensures
        sorts_by_keys(keys, before, after, origin),
{
    assert forall|x: int, y: int| 0 <= x < y < origin.len() implies keys[#[trigger] origin[x]]
        < keys[#[trigger] origin[y]] || (keys[origin[x]] == keys[origin[y]] && origin[x]
        < origin[y]) by {
        assert(perm[origin[x]] == x);
        assert(perm[origin[y]] == y);
        lemma_rank(keys, origin[y], origin[x]);
    }
    assert forall|x: int, y: int| 0 <= x < y < origin.len() implies #[trigger] origin[x]
        != #[trigger] origin[y] by {
        assert(perm[origin[x]] == x);
        assert(perm[origin[y]] == y);
    }
}

/// Whatever key `e` allows for an element is the key that `kf` gives for it.
pub open spec fn tells_keys<T>(e: spec_fn(T, usize) -> bool, kf: spec_fn(T) -> usize) -> bool {
    forall|x: T, k: usize| #[trigger] e(x, k) ==> k == kf(x)
}

/// The key of `a` is not greater than the key of `b`, whatever function tells the keys.
pub open spec fn key_le<T>(e: spec_fn(T, usize) -> bool, a: T, b: T) -> bool {
    forall|kf: spec_fn(T) -> usize| #[trigger] tells_keys(e, kf) ==> kf(a) <= kf(b)
}

/// The key of `a` is less than the key of `b`, whatever function tells the keys.
pub open spec fn key_lt<T>(e: spec_fn(T, usize) -> bool, a: T, b: T) -> bool {
    forall|kf: spec_fn(T) -> usize| #[trigger] tells_keys(e, kf) ==> kf(a) < kf(b)
}

/// `e` allows a key for `x`.
pub open spec fn has_key<T>(e: spec_fn(T, usize) -> bool, x: T) -> bool {
    exists|k: usize| #[trigger] e(x, k)
}

/// `after` holds the elements of `before` in the order of their keys,
/// elements with the same key in the order in which they stood.
pub open spec fn sorted_by_key<T>(e: spec_fn(T, usize) -> bool, before: Seq<T>, after: Seq<T>) -> bool {
    exists|p: Seq<int>|
        #![trigger rearranged(before, after, p)]
        rearranged(before, after, p) && forall|x: int, y: int|
            0 <= x < y < p.len() ==> if #[trigger] p[x] < #[trigger] p[y] {
                key_le(e, after[x], after[y])
            } else {
                key_lt(e, after[x], after[y])
            }
}

/// Each element has one key, and no key of an element of `s` is too great
/// for a counter to be made for it.
pub open spec fn countable<T>(e: spec_fn(T, usize) -> bool, s: Seq<T>) -> bool {
    &&& exists|kf: spec_fn(T) -> usize| tells_keys(e, kf)
    &&& forall|x: T, k: usize| s.contains(x) && #[trigger] e(x, k) ==> k <= usize::MAX / 2
}

/// The keys that `key_fn` may return for an element.
pub open spec fn keyed<T, F: Fn(&T) -> usize>(key_fn: F) -> spec_fn(T, usize) -> bool {
    |x: T, k: usize| call_ensures(key_fn, (&x,), k)
}

/// The numbers that `into` may turn an element into.
pub open spec fn converted<T: Into<usize>>() -> spec_fn(T, usize) -> bool {
    |x: T, k: usize| call_ensures(<T as Into<usize>>::into, (x,), k)
}

/// The numbers that `try_into` may turn an element into.
pub open spec fn try_converted<T: TryInto<usize>>() -> spec_fn(T, usize) -> bool {
    |x: T, k: usize| call_ensures(<T as TryInto<usize>>::try_into, (x,), Ok(k))
}

/// A sequence that is sorted stably by the keys that were taken from its
/// elements is sorted by key.
pub proof fn lemma_sorted_by_key<T>(
    e: spec_fn(T, usize) -> bool,
    keys: Seq<usize>,
    before: Seq<T>,
    after: Seq<T>,
    p: Seq<int>,
)
    requires
        sorts_by_keys(keys, before, after, p),
        forall|i: int| 0 <= i < before.len() ==> e(before[i], #[trigger] keys[i]),
    ensures
        sorted_by_key(e, before, after),
        after.to_multiset() == before.to_multiset(),
        after.len() == before.len(),
{
    assert forall|x: int, y: int| 0 <= x < y < p.len() implies if #[trigger] p[x]
        < #[trigger] p[y] {
        key_le(e, after[x], after[y])
    } else {
        key_lt(e, after[x], after[y])
    } by {
        assert(e(before[p[x]], keys[p[x]]));
        assert(e(before[p[y]], keys[p[y]]));
    }
    lemma_rearranged_multiset(before, after, p);
}

/// A sequence of one element or of none is sorted by key as it stands.
pub proof fn lemma_short_sorted_by_key<T>(e: spec_fn(T, usize) -> bool, s: Seq<T>)
    requires
        s.len() <= 1,
    ensures
        sorted_by_key(e, s, s),
{
    lemma_identity(s);
    assert(rearranged(s, s, identity(s.len())));
}

/// The keys that were taken twice from the same elements are the same.
pub proof fn lemma_same_keys<T>(
    e: spec_fn(T, usize) -> bool,
    s: Seq<T>,
    keys1: Seq<usize>,
    keys2: Seq<usize>,
)
    requires
        countable(e, s),
        keys1.len() == s.len(),
        keys2.len() == s.len(),
        forall|i: int| 0 <= i < s.len() ==> e(s[i], #[trigger] keys1[i]),
        forall|i: int| 0 <= i < s.len() ==> e(s[i], #[trigger] keys2[i]),
    ensures
        keys1 == keys2,
        forall|i: int| 0 <= i < s.len() ==> #[trigger] keys1[i] <= usize::MAX / 2,
{
    let kf = choose|kf: spec_fn(T) -> usize| tells_keys(e, kf);
    assert forall|i: int| 0 <= i < s.len() implies keys1[i] == keys2[i] && #[trigger] keys1[i]
        <= usize::MAX / 2 by {
        assert(e(s[i], keys1[i]));
        assert(e(s[i], keys2[i]));
        assert(s.contains(s[i]));
    }
    assert(keys1 =~= keys2);
}

/// Takes the key of each element.
pub fn keys_by<T, F>(slice: &[T], key_fn: &F) -> (keys: Vec<usize>) where F: Fn(&T) -> usize
    requires
        forall|x: T| #[trigger] call_requires(*key_fn, (&x,)),
    ensures
        keys@.len() == slice@.len(),
        forall|i: int| 0 <= i < slice@.len() ==> keyed(*key_fn)(slice@[i], #[trigger] keys@[i]),
{
    let mut keys: Vec<usize> = Vec::new();
    let mut i: usize = 0;
    while i < slice.len()
        invariant
            i <= slice@.len(),
            keys@.len() == i,
            forall|x: T| #[trigger] call_requires(*key_fn, (&x,)),
            forall|j: int| 0 <= j < i ==> keyed(*key_fn)(slice@[j], #[trigger] keys@[j]),
        decreases slice@.len() - i,
    {
        let key = key_fn(&slice[i]);
        keys.push(key);
        i += 1;
    }
    keys
}

/// Turns each element into a number.
pub fn keys_into<T>(slice: &[T]) -> (keys: Vec<usize>) where T: Into<usize> + Copy
    ensures
        keys@.len() == slice@.len(),
        forall|i: int| 0 <= i < slice@.len() ==> converted::<T>()(slice@[i], #[trigger] keys@[i]),
{
    let mut keys: Vec<usize> = Vec::new();
    let mut i: usize = 0;
    while i < slice.len()
        invariant
            i <= slice@.len(),
            keys@.len() == i,
            forall|j: int| 0 <= j < i ==> converted::<T>()(slice@[j], #[trigger] keys@[j]),
        decreases slice@.len() - i,
    {
        let key: usize = slice[i].into();
        keys.push(key);
        i += 1;
    }
    keys
}

/// Tries to turn each element into a number, and gives up at the first that cannot be turned.
pub fn keys_try_into<T>(slice: &[T]) -> (keys: Result<Vec<usize>, <T as TryInto<usize>>::Error>) where
    T: TryInto<usize> + Copy,

    ensures
        match keys {
            Ok(taken) => taken@.len() == slice@.len() && forall|i: int|
                0 <= i < slice@.len() ==> try_converted::<T>()(slice@[i], #[trigger] taken@[i]),
            Err(e) => exists|i: int|
                0 <= i < slice@.len() && call_ensures(
                    <T as TryInto<usize>>::try_into,
                    (#[trigger] slice@[i],),
                    Err(e),
                ),
        },
{
    let mut keys: Vec<usize> = Vec::new();
    let mut i: usize = 0;
    while i < slice.len()
        invariant
            i <= slice@.len(),
            keys@.len() == i,
            forall|j: int| 0 <= j < i ==> try_converted::<T>()(slice@[j], #[trigger] keys@[j]),
        decreases slice@.len() - i,
    {
        let tried: Result<usize, <T as TryInto<usize>>::Error> = slice[i].try_into();
        match tried {
            Ok(key) => {
                keys.push(key);
            },
            Err(e) => {
                return Err(e);
            },
        }
        i += 1;
    }
    Ok(keys)
}

/// A slice and a function that takes keys from its elements are fit for
/// counting sort: the function may be called on each element, and its keys can be counted.
pub open spec fn fit_for_keys<T, F: Fn(&T) -> usize>(s: Seq<T>, key_fn: F) -> bool {
    &&& forall|x: T| #[trigger] call_requires(key_fn, (&x,))
    &&& countable(keyed(key_fn), s)
}

/// Sorts a slice of numbers that turn into their keys.
///
/// It is implemented by slices of every type whose values can be copied and
/// turn into `usize`, and is not meant to be implemented by other types.
pub trait CountingSort {
    /// What is to be sorted has keys that can be counted.
    spec fn sortable(&self) -> bool;

    fn counting_sort(self)
        requires
            self.sortable(),
    ;
}

/// Sorts a slice of numbers that may turn into their keys, and fails where one does not.
///
/// It is implemented by slices of every type whose values can be copied and
/// may turn into `usize`, and is not meant to be implemented by other types.
pub trait TryCountingSort {
    type TryIntoError;

    /// What is to be sorted has keys that can be counted.
    spec fn try_sortable(&self) -> bool;

    fn try_counting_sort(self) -> Result<(), Self::TryIntoError>
        requires
            self.try_sortable(),
    ;
}

/// Sorts a slice by the keys that a function takes from its elements. The
/// function is called twice for each element.
pub trait CountingSortByKey<T> {
    /// The elements that are to be sorted.
    spec fn elements(&self) -> Seq<T>;

    fn counting_sort_by_key<F>(self, key_fn: F) where F: Fn(&T) -> usize
        requires
            fit_for_keys(self.elements(), key_fn),
    ;
}

/// Sorts a slice by the keys that a function takes from its elements. The
/// function is called once for each element, and the keys are kept.
pub trait CountingSortByKeyCached<T> {
    /// The elements that are to be sorted.
    spec fn cached_elements(&self) -> Seq<T>;

    fn counting_sort_by_key_cached<F>(self, key_fn: F) where F: Fn(&T) -> usize
        requires
            fit_for_keys(self.cached_elements(), key_fn),
    ;
}

impl<T> CountingSort for &mut [T] where T: Into<usize> + Copy {
    open spec fn sortable(&self) -> bool {
        countable(converted::<T>(), (**self)@)
    }

    fn counting_sort(self)
        ensures
            final(self)@.len() == old(self)@.len(),
            final(self)@.to_multiset() == old(self)@.to_multiset(),
            sorted_by_key(converted::<T>(), old(self)@, final(self)@),
    {
        let ghost before = self@;
        assert(old(self).sortable() == countable(converted::<T>(), before));
        if self.len() <= 1 {
            proof {
                lemma_short_sorted_by_key(converted::<T>(), before);
            }
            return ;
        }
        let first_keys = keys_into(self);
        let keys = keys_into(self);
        proof {
            lemma_same_keys(converted::<T>(), before, first_keys@, keys@);
        }
        let mut counter = get_accumulated_counter(first_keys.as_slice());

        let perm = accumulated_counter2permutation(
            counter.as_mut_slice(),
            keys.as_slice(),
            self.len(),
        );
        proof {
            lemma_ranks_are_places(keys@, perm@);
        }
        apply_permutation_copy(self, perm.as_slice());
        proof {
            lemma_copied_sorted(converted::<T>(), keys@, before, self@, perm@);
        }
    }
}

impl<T> TryCountingSort for &mut [T] where T: TryInto<usize> + Copy {
    type TryIntoError = <T as TryInto<usize>>::Error;

    open spec fn try_sortable(&self) -> bool {
        countable(try_converted::<T>(), (**self)@)
    }

    fn try_counting_sort(self) -> (done: Result<(), Self::TryIntoError>)
        ensures
            final(self)@.len() == old(self)@.len(),
            final(self)@.to_multiset() == old(self)@.to_multiset(),
            match done {
                Ok(_) => sorted_by_key(try_converted::<T>(), old(self)@, final(self)@) && (old(self)@.len() >= 2 ==> forall|i: int|
                    0 <= i < old(self)@.len() ==> #[trigger] has_key(
                        try_converted::<T>(),
                        old(self)@[i],
                    )),
                Err(e) => final(self)@ == old(self)@ && exists|i: int|
                    0 <= i < old(self)@.len() && call_ensures(
                        <T as TryInto<usize>>::try_into,
                        (#[trigger] old(self)@[i],),
                        Err(e),
                    ),
            },
    {
        let ghost before = self@;
        assert(old(self).try_sortable() == countable(try_converted::<T>(), before));
        if self.len() <= 1 {
            proof {
                lemma_short_sorted_by_key(try_converted::<T>(), before);
            }
            return Ok(());
        }
        let first_keys = match keys_try_into(self) {
            Ok(keys) => keys,
            Err(e) => {
                return Err(e);
            },
        };
        let keys = match keys_try_into(self) {
            Ok(keys) => keys,
            Err(e) => {
                return Err(e);
            },
        };
        proof {
            lemma_same_keys(try_converted::<T>(), before, first_keys@, keys@);
            assert forall|i: int| 0 <= i < before.len() implies #[trigger] has_key(
                try_converted::<T>(),
                before[i],
            ) by {
                assert(try_converted::<T>()(before[i], keys@[i]));
            }
        }
        let mut counter = get_accumulated_counter(first_keys.as_slice());

        let perm = accumulated_counter2permutation(
            counter.as_mut_slice(),
            keys.as_slice(),
            self.len(),
        );
        proof {
            lemma_ranks_are_places(keys@, perm@);
        }
        apply_permutation_copy(self, perm.as_slice());
        proof {
            lemma_copied_sorted(try_converted::<T>(), keys@, before, self@, perm@);
        }
        Ok(())
    }
}

impl<T> CountingSortByKey<T> for &mut [T] {
    open spec fn elements(&self) -> Seq<T> {
        (**self)@
    }

    fn counting_sort_by_key<F>(self, key_fn: F) where F: Fn(&T) -> usize
        ensures
            final(self)@.len() == old(self)@.len(),
            final(self)@.to_multiset() == old(self)@.to_multiset(),
            sorted_by_key(keyed(key_fn), old(self)@, final(self)@),
    {
        let ghost before = self@;
        assert(old(self).elements() == before);
        if self.len() <= 1 {
            proof {
                lemma_short_sorted_by_key(keyed(key_fn), before);
            }
            return ;
        }
        let first_keys = keys_by(self, &key_fn);
        let keys = keys_by(self, &key_fn);
        proof {
            lemma_same_keys(keyed(key_fn), before, first_keys@, keys@);
        }
        let mut counter: Vec<usize> = get_accumulated_counter(first_keys.as_slice());

        let mut perm = accumulated_counter2permutation(
            counter.as_mut_slice(),
            keys.as_slice(),
            self.len(),
        );
        let ghost ranks = perm@;
        proof {
            lemma_ranks_are_places(keys@, ranks);
        }
        apply_permutation(self, perm.as_mut_slice());
        proof {
            let origin = choose|origin: Seq<int>|
                placed_from(before, self@, ranks, origin, 0, before.len() as int);
            lemma_ranked_sorted(keys@, before, self@, ranks, origin);
            lemma_sorted_by_key(keyed(key_fn), keys@, before, self@, origin);
        }
    }
}

impl<T> CountingSortByKeyCached<T> for &mut [T] {
    open spec fn cached_elements(&self) -> Seq<T> {
        (**self)@
    }

    fn counting_sort_by_key_cached<F>(self, key_fn: F) where F: Fn(&T) -> usize
        ensures
            final(self)@.len() == old(self)@.len(),
            final(self)@.to_multiset() == old(self)@.to_multiset(),
            sorted_by_key(keyed(key_fn), old(self)@, final(self)@),
    {
        let ghost before = self@;
        assert(old(self).cached_elements() == before);
        if self.len() <= 1 {
            proof {
                lemma_short_sorted_by_key(keyed(key_fn), before);
            }
            return ;
        }
        let keys: Vec<usize> = keys_by(self, &key_fn);
        proof {
            lemma_same_keys(keyed(key_fn), before, keys@, keys@);
        }
        let mut counter = get_accumulated_counter(keys.as_slice());

        let mut perm = accumulated_counter2permutation(
            counter.as_mut_slice(),
            keys.as_slice(),
            self.len(),
        );
        let ghost ranks = perm@;
        proof {
            lemma_ranks_are_places(keys@, ranks);
        }
        apply_permutation(self, perm.as_mut_slice());
        proof {
            let origin = choose|origin: Seq<int>|
                placed_from(before, self@, ranks, origin, 0, before.len() as int);
            lemma_ranked_sorted(keys@, before, self@, ranks, origin);
            lemma_sorted_by_key(keyed(key_fn), keys@, before, self@, origin);
        }
    }
}

/// Where each element was copied to its rank, the slice is sorted by key.
pub proof fn lemma_copied_sorted<T>(
    e: spec_fn(T, usize) -> bool,
    keys: Seq<usize>,
    before: Seq<T>,
    after: Seq<T>,
    perm: Seq<usize>,
)
    requires
        keys.len() == before.len(),
        after.len() == before.len(),
        perm.len() == keys.len(),
        forall|j: int| 0 <= j < keys.len() ==> #[trigger] perm[j] == rank(keys, j),
        forall|a: int| 0 <= a < before.len() ==> after[#[trigger] perm[a] as int] == before[a],
        forall|i: int| 0 <= i < before.len() ==> e(before[i], #[trigger] keys[i]),
    ensures
        sorted_by_key(e, before, after),
        after.to_multiset() == before.to_multiset(),
{
    lemma_ranks_are_places(keys, perm);
    let origin = inverse(perm, keys.len() as int);
    lemma_inverse(perm, keys.len() as int);
    assert(placed_from(before, after, perm, origin, 0, before.len() as int)) by {
        assert forall|x: int| 0 <= x < before.len() implies 0 <= #[trigger] origin[x]
            < before.len() && after[x] == before[origin[x]] && perm[origin[x]] == x by {
            assert(after[perm[origin[x]] as int] == before[origin[x]]);
        }
    }
    lemma_ranked_sorted(keys, before, after, perm, origin);
    lemma_sorted_by_key(e, keys, before, after, origin);
}

/// For each place the index that `dest` sends there, taken from the first `n` indices.
pub open spec fn inverse(dest: Seq<usize>, n: int) -> Seq<int> {
    Seq::new(dest.len(), |x: int| choose|a: int| 0 <= a < n && dest[a] == x)
}

/// Where `dest` holds each index below `n` once, each of them is held somewhere.
pub proof fn lemma_inverse(dest: Seq<usize>, n: int)
    requires
        n == dest.len(),
        places_within(dest, 0, n),
    ensures
        forall|x: int|
            0 <= x < n ==> 0 <= #[trigger] inverse(dest, n)[x] < n && dest[inverse(dest, n)[x]]
                == x,
{
    assert forall|x: int| 0 <= x < n implies 0 <= #[trigger] inverse(dest, n)[x] < n
        && dest[inverse(dest, n)[x]] == x by {
        lemma_onto(dest, n, x);
    }
}

/// A sequence that holds each index below `n` at most once, and nothing
/// else, holds each of them.
pub proof fn lemma_onto(dest: Seq<usize>, n: int, x: int)
    requires
        n == dest.len(),
        places_within(dest, 0, n),
        0 <= x < n,
    ensures
        exists|a: int| 0 <= a < n && dest[a] == x,
{
    let held = Set::new(|v: int| exists|a: int| 0 <= a < n && #[trigger] dest[a] == v);
    lemma_held(dest, n, n);
    vstd::set_lib::lemma_int_range(0, n);
    let all = vstd::set_lib::set_int_range(0, n);
    assert(held_upto(dest, n).subset_of(all));
    vstd::set_lib::lemma_subset_equality(held_upto(dest, n), all);
    assert(all.contains(x));
    assert(held_upto(dest, n).contains(x));
}

/// The indices that the first `upto` entries of `dest` hold.
pub open spec fn held_upto(dest: Seq<usize>, upto: int) -> Set<int> {
    Set::new(|v: int| exists|a: int| 0 <= a < upto && #[trigger] dest[a] == v)
}

/// The first `upto` entries hold as many indices as they are.
proof fn lemma_held(dest: Seq<usize>, n: int, upto: int)
    requires
        n == dest.len(),
        places_within(dest, 0, n),
        0 <= upto <= n,
    ensures
        held_upto(dest, upto).finite(),
        held_upto(dest, upto).len() == upto,
    decreases upto,
{
    if upto == 0 {
        assert(held_upto(dest, 0) =~= Set::<int>::empty());
    } else {
        lemma_held(dest, n, upto - 1);
        let v = dest[upto - 1] as int;
        assert(held_upto(dest, upto) =~= held_upto(dest, upto - 1).insert(v)) by {
            assert forall|w: int| held_upto(dest, upto).contains(w) implies held_upto(
                dest,
                upto - 1,
            ).insert(v).contains(w) by {
                let a = choose|a: int| 0 <= a < upto && #[trigger] dest[a] == w;
                if a < upto - 1 {
                    assert(held_upto(dest, upto - 1).contains(w));
                }
            }
            assert forall|w: int| held_upto(dest, upto - 1).insert(v).contains(
                w,
            ) implies held_upto(dest, upto).contains(w) by {
                if w == v {
                    assert(dest[upto - 1] == w);
                } else {
                    let a = choose|a: int| 0 <= a < upto - 1 && #[trigger] dest[a] == w;
                    assert(dest[a] == w);
                }
            }
        }
        assert(!held_upto(dest, upto - 1).contains(v)) by {
            if held_upto(dest, upto - 1).contains(v) {
                let a = choose|a: int| 0 <= a < upto - 1 && #[trigger] dest[a] == v;
                assert(dest[a] != dest[upto - 1]);
            }
        }
    }
}

} // verus!
