//! How sorted parts on either side of a pivot make a sorted whole.

use vstd::prelude::*;
use vstd::seq_lib::*;
use core::cmp::Ordering;
use crate::order::{le, lt, lemma_le_trans};
use crate::sorted::sorted;

verus! {

/// No element of `s` is after `x`.
pub open spec fn all_le<T, F: Fn(&T, &T) -> Ordering>(compare: F, s: Seq<T>, x: T) -> bool {
    forall|k: int| 0 <= k < s.len() ==> le(compare, #[trigger] s[k], x)
}

/// No element of `s` is before `x`.
pub open spec fn all_ge<T, F: Fn(&T, &T) -> Ordering>(compare: F, s: Seq<T>, x: T) -> bool {
    forall|k: int| 0 <= k < s.len() ==> le(compare, x, #[trigger] s[k])
}

/// Each element of `s` is strictly after `x`.
pub open spec fn all_gt<T, F: Fn(&T, &T) -> Ordering>(compare: F, s: Seq<T>, x: T) -> bool {
    forall|k: int| 0 <= k < s.len() ==> lt(compare, x, #[trigger] s[k])
}

/// Each element of `s` is strictly before `x`.
pub open spec fn all_lt<T, F: Fn(&T, &T) -> Ordering>(compare: F, s: Seq<T>, x: T) -> bool {
    forall|k: int| 0 <= k < s.len() ==> lt(compare, #[trigger] s[k], x)
}

/// Each element of `a` is an element of `b` where both hold the same elements.
pub proof fn lemma_element_of<T>(a: Seq<T>, b: Seq<T>, i: int)
    requires
        a.to_multiset() == b.to_multiset(),
        0 <= i < a.len(),
    ensures
        exists|k: int| 0 <= k < b.len() && #[trigger] b[k] == a[i],
{
    broadcast use to_multiset_contains;

    assert(a.contains(a[i]));
    assert(a.to_multiset().count(a[i]) > 0);
    assert(b.contains(a[i]));
}

/// What holds of every element of a sequence holds of every element of one
/// that holds the same elements.
pub proof fn lemma_bounds_kept<T, F: Fn(&T, &T) -> Ordering>(
    compare: F,
    before: Seq<T>,
    after: Seq<T>,
    x: T,
)
    requires
        after.to_multiset() == before.to_multiset(),
    ensures
        all_le(compare, before, x) ==> all_le(compare, after, x),
        all_ge(compare, before, x) ==> all_ge(compare, after, x),
        all_lt(compare, before, x) ==> all_lt(compare, after, x),
        all_gt(compare, before, x) ==> all_gt(compare, after, x),
{
    assert forall|k: int| 0 <= k < after.len() implies (all_le(compare, before, x) ==> le(
        compare,
        #[trigger] after[k],
        x,
    )) && (all_ge(compare, before, x) ==> le(compare, x, after[k])) && (all_lt(
        compare,
        before,
        x,
    ) ==> lt(compare, after[k], x)) && (all_gt(compare, before, x) ==> lt(
        compare,
        x,
        after[k],
    )) by {
        lemma_element_of(after, before, k);
        let m = choose|m: int| 0 <= m < before.len() && #[trigger] before[m] == after[k];
        assert(before[m] == after[k]);
    }
}

/// Two sorted sequences with an element between them that is not before any
/// element of the first and not after any of the second make a sorted whole.
pub proof fn lemma_joined<T, F: Fn(&T, &T) -> Ordering>(
    compare: F,
    a: Seq<T>,
    x: T,
    b: Seq<T>,
    na: int,
    nb: int,
)
    requires
        na == a.len(),
        nb == b.len(),
        sorted(compare, a, 0, na),
        sorted(compare, b, 0, nb),
        all_le(compare, a, x),
        all_ge(compare, b, x),
    ensures
        sorted(compare, a.push(x) + b, 0, na + 1 + nb),
        (a.push(x) + b).to_multiset() == a.to_multiset().insert(x).add(b.to_multiset()),
{
    let s = a.push(x) + b;
    assert forall|i: int, j: int| 0 <= i < j < na + 1 + nb implies le(
        compare,
        #[trigger] s[i],
        #[trigger] s[j],
    ) by {
        if j < na {
            assert(s[i] == a[i] && s[j] == a[j]);
        } else if j == na {
            assert(s[i] == a[i] && s[j] == x);
        } else if i < na {
            assert(s[i] == a[i] && s[j] == b[j - na - 1]);
            lemma_le_trans(compare, a[i], x, b[j - na - 1]);
        } else if i == na {
            assert(s[i] == x && s[j] == b[j - na - 1]);
        } else {
            assert(s[i] == b[i - na - 1] && s[j] == b[j - na - 1]);
        }
    }
    lemma_multiset_commutative(a.push(x), b);
    to_multiset_build(a, x);
}

} // verus!
