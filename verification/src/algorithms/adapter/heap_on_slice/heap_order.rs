//! Heap order, told over a pair of relations that a comparison stands for.

use vstd::prelude::*;
use vstd::seq_lib::*;
use crate::permutation::swapped;
use core::cmp::Ordering;
use vstd::std_specs::cmp::OrdSpec;
use crate::order::{is_comparator, is_ordered, flipped, le, lt, lemma_preorder, lemma_callable, lemma_le_refl, lemma_le_trans, lemma_le_lt_trans, lemma_lt_le_trans, lemma_lt_le, lemma_le_lt_exclusive, lemma_result};

verus! {

/// The two relations of an order: "not after" and "strictly before".
#[verifier::reject_recursive_types(T)]
pub struct Relations<T> {
    pub le: spec_fn(T, T) -> bool,
    pub lt: spec_fn(T, T) -> bool,
}

/// The relations are those of a preorder in which no pair goes both ways strictly.
#[verifier::opaque]
pub open spec fn is_order<T>(r: Relations<T>) -> bool {
    &&& forall|a: T| #[trigger] (r.le)(a, a)
    &&& forall|a: T, b: T| #[trigger] (r.lt)(a, b) ==> (r.le)(a, b)
    &&& forall|a: T, b: T| !(#[trigger] (r.le)(a, b) && (r.lt)(b, a))
    &&& forall|a: T, b: T, c: T| #[trigger] (r.le)(a, b) && #[trigger] (r.le)(b, c) ==> (r.le)(a, c)
    &&& forall|a: T, b: T, c: T| #[trigger] (r.le)(a, b) && #[trigger] (r.lt)(b, c) ==> (r.lt)(a, c)
    &&& forall|a: T, b: T, c: T| #[trigger] (r.lt)(a, b) && #[trigger] (r.le)(b, c) ==> (r.lt)(a, c)
}

/// What `is_order` says of three elements.
pub proof fn lemma_order<T>(r: Relations<T>, a: T, b: T, c: T)
    requires
        is_order(r),
    ensures
        (r.le)(a, a),
        (r.lt)(a, b) ==> (r.le)(a, b),
        !((r.le)(a, b) && (r.lt)(b, a)),
        (r.le)(a, b) && (r.le)(b, c) ==> (r.le)(a, c),
        (r.le)(a, b) && (r.lt)(b, c) ==> (r.lt)(a, c),
        (r.lt)(a, b) && (r.le)(b, c) ==> (r.lt)(a, c),
{
    reveal(is_order);
}

/// The result `o` of a comparison of `a` with `b` holds in `r`.
pub open spec fn holds_in<T>(r: Relations<T>, a: T, b: T, o: Ordering) -> bool {
    match o {
        Ordering::Less => (r.lt)(a, b) && (r.le)(a, b),
        Ordering::Equal => (r.le)(a, b) && (r.le)(b, a),
        Ordering::Greater => (r.lt)(b, a) && (r.le)(b, a),
    }
}

/// Each result of `compare` holds in `r`: a pair found `Less` is strictly
/// before, a pair found `Greater` strictly after, a pair found `Equal` is
/// neither.
pub open spec fn reports<T, C: Fn(&T, &T) -> Ordering>(compare: C, r: Relations<T>) -> bool {
    forall|a: T, b: T, o: Ordering| #[trigger]
        call_ensures(compare, (&a, &b), o) ==> match o {
            Ordering::Less => (r.lt)(a, b) && (r.le)(a, b),
            Ordering::Equal => (r.le)(a, b) && (r.le)(b, a),
            Ordering::Greater => (r.lt)(b, a) && (r.le)(b, a),
        }
}

/// `compare` may be called on any pair, and what it returns holds in the order `r`.
pub open spec fn tells<T, C: Fn(&T, &T) -> Ordering>(compare: C, r: Relations<T>) -> bool {
    &&& forall|a: T, b: T| #[trigger] call_requires(compare, (&a, &b))
    &&& reports(compare, r)
    &&& is_order(r)
}

/// The order that `compare` stands for.
pub open spec fn direct<T, F: Fn(&T, &T) -> Ordering>(compare: F) -> Relations<T> {
    Relations { le: |a: T, b: T| le(compare, a, b), lt: |a: T, b: T| lt(compare, a, b) }
}

/// The order that `compare` stands for, turned round.
pub open spec fn reversed<T, F: Fn(&T, &T) -> Ordering>(compare: F) -> Relations<T> {
    Relations { le: |a: T, b: T| le(compare, b, a), lt: |a: T, b: T| lt(compare, b, a) }
}

/// The orders of a comparator are orders.
pub proof fn lemma_orders<T, F: Fn(&T, &T) -> Ordering>(compare: F)
    requires
        is_comparator(compare),
    ensures
        is_order(direct(compare)),
        is_order(reversed(compare)),
{
    reveal(is_order);
    let d = direct(compare);
    let v = reversed(compare);
    assert forall|a: T| #[trigger] (d.le)(a, a) by {
        lemma_le_refl(compare, a);
    }
    assert forall|a: T| #[trigger] (v.le)(a, a) by {
        lemma_le_refl(compare, a);
    }
    assert forall|a: T, b: T| #[trigger] (d.lt)(a, b) implies (d.le)(a, b) by {
        lemma_lt_le(compare, a, b);
    }
    assert forall|a: T, b: T| #[trigger] (v.lt)(a, b) implies (v.le)(a, b) by {
        lemma_lt_le(compare, b, a);
    }
    assert forall|a: T, b: T| !(#[trigger] (d.le)(a, b) && (d.lt)(b, a)) by {
        if le(compare, a, b) {
            lemma_le_lt_exclusive(compare, a, b);
        }
    }
    assert forall|a: T, b: T| !(#[trigger] (v.le)(a, b) && (v.lt)(b, a)) by {
        if le(compare, b, a) {
            lemma_le_lt_exclusive(compare, b, a);
        }
    }
    assert forall|a: T, b: T, c: T| #[trigger] (d.le)(a, b) && #[trigger] (d.le)(b, c) implies (
    d.le)(a, c) by {
        lemma_le_trans(compare, a, b, c);
    }
    assert forall|a: T, b: T, c: T| #[trigger] (d.le)(a, b) && #[trigger] (d.lt)(b, c) implies (
    d.lt)(a, c) by {
        lemma_le_lt_trans(compare, a, b, c);
    }
    assert forall|a: T, b: T, c: T| #[trigger] (d.lt)(a, b) && #[trigger] (d.le)(b, c) implies (
    d.lt)(a, c) by {
        lemma_lt_le_trans(compare, a, b, c);
    }
    assert forall|a: T, b: T, c: T| #[trigger] (v.le)(a, b) && #[trigger] (v.le)(b, c) implies (
    v.le)(a, c) by {
        lemma_le_trans(compare, c, b, a);
    }
    assert forall|a: T, b: T, c: T| #[trigger] (v.le)(a, b) && #[trigger] (v.lt)(b, c) implies (
    v.lt)(a, c) by {
        lemma_lt_le_trans(compare, c, b, a);
    }
    assert forall|a: T, b: T, c: T| #[trigger] (v.lt)(a, b) && #[trigger] (v.le)(b, c) implies (
    v.lt)(a, c) by {
        lemma_le_lt_trans(compare, c, b, a);
    }
}

/// A function that returns what `compare` returns tells the order of `compare`.
pub proof fn lemma_tells_direct<T, C: Fn(&T, &T) -> Ordering, F: Fn(&T, &T) -> Ordering>(
    same: C,
    compare: F,
)
    requires
        is_comparator(compare),
        forall|a: T, b: T| #[trigger] call_requires(same, (&a, &b)),
        forall|a: T, b: T, o: Ordering| #[trigger]
            call_ensures(same, (&a, &b), o) ==> call_ensures(compare, (&a, &b), o),
    ensures
        tells(same, direct(compare)),
{
    lemma_orders(compare);
    assert forall|a: T, b: T, o: Ordering| #[trigger]
        call_ensures(same, (&a, &b), o) implies match o {
        Ordering::Less => lt(compare, a, b) && le(compare, a, b),
        Ordering::Equal => le(compare, a, b) && le(compare, b, a),
        Ordering::Greater => lt(compare, b, a) && le(compare, b, a),
    } by {
        lemma_result(compare, a, b, o);
    }
}

/// `rev` may be called on any pair, and returns what `compare` returns, turned round.
pub open spec fn reverses<T, C: Fn(&T, &T) -> Ordering, F: Fn(&T, &T) -> Ordering>(
    rev: C,
    compare: F,
) -> bool {
    &&& forall|a: T, b: T| #[trigger] call_requires(rev, (&a, &b))
    &&& forall|a: T, b: T, o: Ordering| #[trigger]
        call_ensures(rev, (&a, &b), o) ==> call_ensures(compare, (&a, &b), flipped(o))
}

/// A comparator may be called on every pair.
pub proof fn lemma_reversing<T, F: Fn(&T, &T) -> Ordering>(compare: F)
    requires
        is_comparator(compare),
    ensures
        forall|a: T, b: T| #[trigger] call_requires(compare, (&a, &b)),
{
    assert forall|a: T, b: T| #[trigger] call_requires(compare, (&a, &b)) by {
        lemma_callable(compare, a, b);
    }
}

/// A key may be called on every element.
pub proof fn lemma_keyed<T, K, G: Fn(&T) -> K>(key: G)
    requires
        is_key(key),
    ensures
        forall|a: T| #[trigger] call_requires(key, (&a,)),
{
    reveal(is_key);
}

/// A function that returns what `compare` returns, turned round, tells the
/// order of `compare` turned round.
pub proof fn lemma_tells_reversed<T, C: Fn(&T, &T) -> Ordering, F: Fn(&T, &T) -> Ordering>(
    rev: C,
    compare: F,
)
    requires
        is_comparator(compare),
        reverses(rev, compare),
    ensures
        tells(rev, reversed(compare)),
{
    lemma_orders(compare);
    assert forall|a: T, b: T, o: Ordering| #[trigger]
        call_ensures(rev, (&a, &b), o) implies match o {
        Ordering::Less => lt(compare, b, a) && le(compare, b, a),
        Ordering::Equal => le(compare, b, a) && le(compare, a, b),
        Ordering::Greater => lt(compare, a, b) && le(compare, a, b),
    } by {
        lemma_result(compare, a, b, flipped(o));
    }
}

/// A comparator that is lent tells its own order.
pub proof fn lemma_tells_own<T, F: Fn(&T, &T) -> Ordering>(compare: &F)
    requires
        is_comparator(*compare),
    ensures
        tells(compare, direct(*compare)),
        tells(*compare, direct(*compare)),
{
    assert forall|a: T, b: T| #[trigger] call_requires(compare, (&a, &b)) by {
        lemma_callable(*compare, a, b);
    }
    assert forall|a: T, b: T| #[trigger] call_requires(*compare, (&a, &b)) by {
        lemma_callable(*compare, a, b);
    }
    lemma_tells_direct(compare, *compare);
    lemma_tells_direct(*compare, *compare);
}

/// Whatever `key` returns for an element is what `kf` gives for it.
pub open spec fn gives<T, K, G: Fn(&T) -> K>(key: G, kf: spec_fn(T) -> K) -> bool {
    forall|a: T, k: K| #[trigger] call_ensures(key, (&a,), k) ==> k == kf(a)
}

/// `key` may be called on any element, and what it returns depends on the element alone.
#[verifier::opaque]
pub open spec fn is_key<T, K, G: Fn(&T) -> K>(key: G) -> bool {
    &&& forall|a: T| #[trigger] call_requires(key, (&a,))
    &&& exists|kf: spec_fn(T) -> K| gives(key, kf)
}

/// The key of `a` is not after the key of `b`, whatever function tells the keys.
#[verifier::opaque]
pub open spec fn key_le<T, K: Ord, G: Fn(&T) -> K>(key: G, a: T, b: T) -> bool {
    forall|kf: spec_fn(T) -> K| #[trigger]
        gives(key, kf) ==> kf(a).cmp_spec(&kf(b)) != Ordering::Greater
}

/// The key of `a` is strictly before the key of `b`, whatever function tells the keys.
#[verifier::opaque]
pub open spec fn key_lt<T, K: Ord, G: Fn(&T) -> K>(key: G, a: T, b: T) -> bool {
    forall|kf: spec_fn(T) -> K| #[trigger]
        gives(key, kf) ==> kf(a).cmp_spec(&kf(b)) == Ordering::Less
}

/// The order of the elements by their keys.
pub open spec fn by_key<T, K: Ord, G: Fn(&T) -> K>(key: G) -> Relations<T> {
    Relations { le: |a: T, b: T| key_le(key, a, b), lt: |a: T, b: T| key_lt(key, a, b) }
}

/// The order of the elements by their keys, turned round.
pub open spec fn by_key_reversed<T, K: Ord, G: Fn(&T) -> K>(key: G) -> Relations<T> {
    Relations { le: |a: T, b: T| key_le(key, b, a), lt: |a: T, b: T| key_lt(key, b, a) }
}

/// What the relations by key say of three elements.
proof fn lemma_key_order<T, K: Ord, G: Fn(&T) -> K>(key: G, a: T, b: T, c: T)
    requires
        is_key(key),
        is_ordered::<K>(),
    ensures
        key_le(key, a, a),
        key_lt(key, a, b) ==> key_le(key, a, b),
        !(key_le(key, a, b) && key_lt(key, b, a)),
        key_le(key, a, b) && key_le(key, b, c) ==> key_le(key, a, c),
        key_le(key, a, b) && key_lt(key, b, c) ==> key_lt(key, a, c),
        key_lt(key, a, b) && key_le(key, b, c) ==> key_lt(key, a, c),
{
    reveal(is_key);
    reveal(key_le);
    reveal(key_lt);
    let ord = |x: K, y: K| x.cmp_spec(&y);
    assert forall|kf: spec_fn(T) -> K| #[trigger] gives(key, kf) implies {
        &&& kf(a).cmp_spec(&kf(a)) != Ordering::Greater
        &&& (kf(a).cmp_spec(&kf(b)) == Ordering::Less ==> kf(a).cmp_spec(&kf(b))
            != Ordering::Greater)
        &&& !(kf(a).cmp_spec(&kf(b)) != Ordering::Greater && kf(b).cmp_spec(&kf(a))
            == Ordering::Less)
        &&& (kf(a).cmp_spec(&kf(b)) != Ordering::Greater && kf(b).cmp_spec(&kf(c))
            != Ordering::Greater ==> kf(a).cmp_spec(&kf(c)) != Ordering::Greater)
        &&& (kf(a).cmp_spec(&kf(b)) != Ordering::Greater && kf(b).cmp_spec(&kf(c))
            == Ordering::Less ==> kf(a).cmp_spec(&kf(c)) == Ordering::Less)
        &&& (kf(a).cmp_spec(&kf(b)) == Ordering::Less && kf(b).cmp_spec(&kf(c))
            != Ordering::Greater ==> kf(a).cmp_spec(&kf(c)) == Ordering::Less)
    } by {
        lemma_preorder(ord, kf(a), kf(b), kf(c));
        lemma_preorder(ord, kf(b), kf(a), kf(c));
        assert(ord(kf(a), kf(a)) == kf(a).cmp_spec(&kf(a)));
        assert(ord(kf(a), kf(b)) == kf(a).cmp_spec(&kf(b)));
        assert(ord(kf(b), kf(a)) == kf(b).cmp_spec(&kf(a)));
        assert(ord(kf(b), kf(c)) == kf(b).cmp_spec(&kf(c)));
        assert(ord(kf(a), kf(c)) == kf(a).cmp_spec(&kf(c)));
    }
    let kf0 = choose|kf: spec_fn(T) -> K| gives(key, kf);
    assert(gives(key, kf0));
}

/// The relations by key are orders.
pub proof fn lemma_key_orders<T, K: Ord, G: Fn(&T) -> K>(key: G)
    requires
        is_key(key),
        is_ordered::<K>(),
    ensures
        is_order(by_key(key)),
        is_order(by_key_reversed(key)),
{
    reveal(is_order);
    let d = by_key(key);
    let v = by_key_reversed(key);
    assert forall|a: T| #[trigger] (d.le)(a, a) by {
        lemma_key_order(key, a, a, a);
    }
    assert forall|a: T| #[trigger] (v.le)(a, a) by {
        lemma_key_order(key, a, a, a);
    }
    assert forall|a: T, b: T| #[trigger] (d.lt)(a, b) implies (d.le)(a, b) by {
        lemma_key_order(key, a, b, b);
    }
    assert forall|a: T, b: T| #[trigger] (v.lt)(a, b) implies (v.le)(a, b) by {
        lemma_key_order(key, b, a, a);
    }
    assert forall|a: T, b: T| !(#[trigger] (d.le)(a, b) && (d.lt)(b, a)) by {
        lemma_key_order(key, a, b, b);
    }
    assert forall|a: T, b: T| !(#[trigger] (v.le)(a, b) && (v.lt)(b, a)) by {
        lemma_key_order(key, b, a, a);
    }
    assert forall|a: T, b: T, c: T| #[trigger] (d.le)(a, b) && #[trigger] (d.le)(b, c) implies (
    d.le)(a, c) by {
        lemma_key_order(key, a, b, c);
    }
    assert forall|a: T, b: T, c: T| #[trigger] (d.le)(a, b) && #[trigger] (d.lt)(b, c) implies (
    d.lt)(a, c) by {
        lemma_key_order(key, a, b, c);
    }
    assert forall|a: T, b: T, c: T| #[trigger] (d.lt)(a, b) && #[trigger] (d.le)(b, c) implies (
    d.lt)(a, c) by {
        lemma_key_order(key, a, b, c);
    }
    assert forall|a: T, b: T, c: T| #[trigger] (v.le)(a, b) && #[trigger] (v.le)(b, c) implies (
    v.le)(a, c) by {
        lemma_key_order(key, c, b, a);
    }
    assert forall|a: T, b: T, c: T| #[trigger] (v.le)(a, b) && #[trigger] (v.lt)(b, c) implies (
    v.lt)(a, c) by {
        lemma_key_order(key, c, b, a);
    }
    assert forall|a: T, b: T, c: T| #[trigger] (v.lt)(a, b) && #[trigger] (v.le)(b, c) implies (
    v.lt)(a, c) by {
        lemma_key_order(key, c, b, a);
    }
}

/// `compare` returns how the keys of its two elements compare.
pub open spec fn compares_keys<T, K: Ord, C: Fn(&T, &T) -> Ordering, G: Fn(&T) -> K>(
    compare: C,
    key: G,
    turned: bool,
) -> bool {
    &&& forall|a: T, b: T| #[trigger] call_requires(compare, (&a, &b))
    &&& forall|a: T, b: T, o: Ordering| #[trigger]
        call_ensures(compare, (&a, &b), o) ==> exists|ka: K, kb: K|
            #![trigger call_ensures(key, (&a,), ka), call_ensures(key, (&b,), kb)]
            call_ensures(key, (&a,), ka) && call_ensures(key, (&b,), kb) && ka.cmp_spec(&kb) == (
            if turned {
                flipped(o)
            } else {
                o
            })
}

/// A function that compares the keys of the elements tells their order by key.
pub proof fn lemma_tells_by_key<T, K: Ord, C: Fn(&T, &T) -> Ordering, G: Fn(&T) -> K>(
    compare: C,
    key: G,
    turned: bool,
)
    requires
        is_key(key),
        is_ordered::<K>(),
        compares_keys(compare, key, turned),
    ensures
        !turned ==> tells(compare, by_key(key)),
        turned ==> tells(compare, by_key_reversed(key)),
{
    lemma_key_orders(key);
    reveal(key_le);
    reveal(key_lt);
    let ord = |x: K, y: K| x.cmp_spec(&y);
    assert forall|a: T, b: T, o: Ordering| #[trigger] call_ensures(compare, (&a, &b), o) implies (
    if turned {
        match o {
            Ordering::Less => key_lt(key, b, a) && key_le(key, b, a),
            Ordering::Equal => key_le(key, b, a) && key_le(key, a, b),
            Ordering::Greater => key_lt(key, a, b) && key_le(key, a, b),
        }
    } else {
        match o {
            Ordering::Less => key_lt(key, a, b) && key_le(key, a, b),
            Ordering::Equal => key_le(key, a, b) && key_le(key, b, a),
            Ordering::Greater => key_lt(key, b, a) && key_le(key, b, a),
        }
    }) by {
        let (ka, kb) = choose|ka: K, kb: K|
            #![trigger call_ensures(key, (&a,), ka), call_ensures(key, (&b,), kb)]
            call_ensures(key, (&a,), ka) && call_ensures(key, (&b,), kb) && ka.cmp_spec(&kb) == (
            if turned {
                flipped(o)
            } else {
                o
            });
        assert forall|kf: spec_fn(T) -> K| #[trigger] gives(key, kf) implies kf(a) == ka && kf(b)
            == kb && (kb.cmp_spec(&ka) == Ordering::Less <==> ka.cmp_spec(&kb)
            == Ordering::Greater) && (kb.cmp_spec(&ka) == Ordering::Greater <==> ka.cmp_spec(&kb)
            == Ordering::Less) by {
            lemma_preorder(ord, ka, kb, kb);
            lemma_preorder(ord, kb, ka, ka);
            assert(ord(ka, kb) == ka.cmp_spec(&kb));
            assert(ord(kb, ka) == kb.cmp_spec(&ka));
        }
    }
}

/// The index of the parent of the node at `i`.
pub open spec fn parent(i: int) -> int {
    (i - 1) / 2
}

/// From the node at `from` on, no node of `s` is after one of its children.
pub open spec fn heap_from<T>(r: Relations<T>, s: Seq<T>, from: int) -> bool {
    forall|i: int| 0 < i < s.len() && parent(i) >= from ==> (r.le)(s[parent(i)], #[trigger] s[i])
}

/// No node of `s` is after one of its children: the first element is the root of a heap.
pub open spec fn heap_ordered<T>(r: Relations<T>, s: Seq<T>) -> bool {
    heap_from(r, s, 0)
}

/// The node at `at` is not after its children.
pub open spec fn settled<T>(r: Relations<T>, s: Seq<T>, at: int) -> bool {
    forall|i: int| 0 < i < s.len() && parent(i) == at ==> (r.le)(s[at], #[trigger] s[i])
}

/// The parent of the node at `at`, where it counts, is not after the children of that node.
pub open spec fn bridged<T>(r: Relations<T>, s: Seq<T>, at: int, from: int) -> bool {
    at > 0 && parent(at) >= from ==> forall|i: int|
        0 < i < s.len() && parent(i) == at ==> (r.le)(s[parent(at)], #[trigger] s[i])
}

/// From `from` on `s` is in heap order but for the node at `at`, which may be after its children.
pub open spec fn heap_but_below<T>(r: Relations<T>, s: Seq<T>, at: int, from: int) -> bool {
    &&& forall|i: int|
        0 < i < s.len() && parent(i) >= from && parent(i) != at ==> (r.le)(
            s[parent(i)],
            #[trigger] s[i],
        )
    &&& bridged(r, s, at, from)
}

/// `s` is in heap order but for the node at `at`, which may be before its parent.
pub open spec fn heap_but_above<T>(r: Relations<T>, s: Seq<T>, at: int) -> bool {
    &&& forall|i: int| 0 < i < s.len() && i != at ==> (r.le)(s[parent(i)], #[trigger] s[i])
    &&& bridged(r, s, at, 0)
}

/// `s` is in heap order but for the node at `at`, of which nothing is known
/// but that its parent is not after its children.
pub open spec fn heap_but_at<T>(r: Relations<T>, s: Seq<T>, at: int) -> bool {
    &&& forall|i: int|
        0 < i < s.len() && i != at && parent(i) != at ==> (r.le)(s[parent(i)], #[trigger] s[i])
    &&& bridged(r, s, at, 0)
}

/// In a heap the root is not after any element.
pub proof fn lemma_root_first<T>(r: Relations<T>, s: Seq<T>, i: int)
    requires
        is_order(r),
        heap_ordered(r, s),
        0 <= i < s.len(),
    ensures
        (r.le)(s[0], s[i]),
    decreases i,
{
    if i == 0 {
        lemma_order(r, s[0], s[0], s[0]);
    } else {
        lemma_root_first(r, s, parent(i));
        lemma_order(r, s[0], s[parent(i)], s[i]);
    }
}

/// The node at `at` changed places with its child at `to`, which was strictly
/// before it and not after the other child: the left child, or the right
/// child where that one was strictly before the left.
pub open spec fn went_down<T>(r: Relations<T>, s: Seq<T>, s2: Seq<T>, at: int, to: int) -> bool {
    &&& 0 <= at < to < s.len()
    &&& parent(to) == at
    &&& s2 == swapped(s, at, to)
    &&& (r.lt)(s[to], s[at])
    &&& forall|i: int| 0 < i < s.len() && parent(i) == at ==> (r.le)(s[to], #[trigger] s[i])
    &&& to == 2 * at + 2 ==> (r.lt)(s[to], s[to - 1])
}

/// `s2` is `s` after the node at `at` sank: it changed places with the least
/// of its children while that one was strictly before it.
pub open spec fn sinks<T>(r: Relations<T>, s: Seq<T>, s2: Seq<T>, at: int) -> bool
    decreases s.len() - at,
{
    ||| s2 == s && settled(r, s, at)
    ||| went_down(r, s, swapped(s, at, 2 * at + 1), at, 2 * at + 1) && sinks(
        r,
        swapped(s, at, 2 * at + 1),
        s2,
        2 * at + 1,
    )
    ||| went_down(r, s, swapped(s, at, 2 * at + 2), at, 2 * at + 2) && sinks(
        r,
        swapped(s, at, 2 * at + 2),
        s2,
        2 * at + 2,
    )
}

/// The node at `at` has a parent and is strictly before it.
pub open spec fn can_rise<T>(r: Relations<T>, s: Seq<T>, at: int) -> bool {
    0 < at < s.len() && (r.lt)(s[at], s[parent(at)])
}

/// `s2` is `s` after the node at `at` rose: it changed places with its parent
/// while it was strictly before it.
pub open spec fn rises<T>(r: Relations<T>, s: Seq<T>, s2: Seq<T>, at: int) -> bool
    decreases at,
{
    ||| s2 == s && (at <= 0 || at >= s.len() || (r.le)(s[parent(at)], s[at]))
    ||| 0 < at < s.len() && (r.lt)(s[at], s[parent(at)]) && rises(
        r,
        swapped(s, at, parent(at)),
        s2,
        parent(at),
    )
}

/// `k` is the node at `from` or one of the nodes above it.
pub open spec fn on_path(k: int, from: int) -> bool
    decreases from,
{
    k == from || (from > 0 && on_path(k, parent(from)))
}

/// The nodes above a node stand before it.
pub proof fn lemma_path_above(k: int, from: int)
    requires
        0 <= from,
        on_path(k, from),
    ensures
        0 <= k <= from,
    decreases from,
{
    if k != from {
        lemma_path_above(k, parent(from));
    }
}

/// A node that rose took with it only the nodes above it: every other
/// element stays, and where the node was strictly before its parent, the
/// parent's element stands where the node stood.
pub proof fn lemma_rises<T>(r: Relations<T>, s: Seq<T>, s2: Seq<T>, at: int)
    requires
        is_order(r),
        rises(r, s, s2, at),
        0 <= at,
    ensures
        s2.len() == s.len(),
        forall|k: int| 0 <= k < s.len() && !on_path(k, at) ==> #[trigger] s2[k] == s[k],
        0 < at < s.len() && (r.lt)(s[at], s[parent(at)]) ==> s2[at] == s[parent(at)] && s2 != s,
    decreases at,
{
    if 0 < at < s.len() {
        lemma_order(r, s[parent(at)], s[at], s[at]);
        lemma_order(r, s[at], s[at], s[at]);
    }
    if !(s2 == s && (at <= 0 || at >= s.len() || (r.le)(s[parent(at)], s[at]))) {
        let up = swapped(s, at, parent(at));
        lemma_rises(r, up, s2, parent(at));
        assert forall|k: int| 0 <= k < s.len() && !on_path(k, at) implies #[trigger] s2[k]
            == s[k] by {
            assert(!on_path(k, parent(at)));
            assert(s2[k] == up[k]);
        }
        assert(!on_path(at, parent(at))) by {
            if on_path(at, parent(at)) {
                lemma_path_above(at, parent(at));
            }
        }
        assert(s2[at] == up[at]);
    }
}

/// The node at `at` changed places with its parent at `to`, which was strictly after it.
pub open spec fn went_up<T>(r: Relations<T>, s: Seq<T>, s2: Seq<T>, at: int, to: int) -> bool {
    &&& 0 <= to < at < s.len()
    &&& to == parent(at)
    &&& s2 == swapped(s, at, to)
    &&& (r.lt)(s[at], s[to])
}

/// A heap that is in order but for a node stays so, but for the child, when
/// the node changes places with the least of its children.
pub proof fn lemma_step_down<T>(r: Relations<T>, s: Seq<T>, s2: Seq<T>, at: int, to: int, from: int)
    requires
        is_order(r),
        heap_but_below(r, s, at, from),
        went_down(r, s, s2, at, to),
    ensures
        heap_but_below(r, s2, to, from),
{
    assert forall|i: int| 0 < i < s2.len() && parent(i) >= from && parent(i) != to implies (r.le)(
        s2[parent(i)],
        #[trigger] s2[i],
    ) by {
        if i == to {
            lemma_order(r, s[to], s[at], s[at]);
        } else if parent(i) == at {
            assert((r.le)(s[to], s[i]));
        } else if i == at {
            assert((r.le)(s[parent(at)], s[to]));
        } else {
            assert((r.le)(s[parent(i)], s[i]));
        }
    }
    if to > 0 && parent(to) >= from {
        assert forall|i: int| 0 < i < s2.len() && parent(i) == to implies (r.le)(
            s2[parent(to)],
            #[trigger] s2[i],
        ) by {
            assert((r.le)(s[to], s[i]));
        }
    }
}

/// A heap that is in order but for a node that is not after its children is in order.
pub proof fn lemma_settled_down<T>(r: Relations<T>, s: Seq<T>, at: int, from: int)
    requires
        heap_but_below(r, s, at, from),
        settled(r, s, at),
    ensures
        heap_from(r, s, from),
{
}

/// A heap that is in order but for a node stays so, but for the parent, when
/// the node changes places with its parent.
pub proof fn lemma_step_up<T>(r: Relations<T>, s: Seq<T>, s2: Seq<T>, at: int, to: int)
    requires
        is_order(r),
        heap_but_above(r, s, at),
        went_up(r, s, s2, at, to),
    ensures
        heap_but_above(r, s2, to),
{
    assert forall|i: int| 0 < i < s2.len() && i != to implies (r.le)(
        s2[parent(i)],
        #[trigger] s2[i],
    ) by {
        if i == at {
            lemma_order(r, s[at], s[to], s[to]);
        } else if parent(i) == to {
            assert((r.le)(s[to], s[i]));
            lemma_order(r, s[at], s[to], s[i]);
        } else if parent(i) == at {
            assert((r.le)(s[parent(at)], s[i]));
        } else {
            assert((r.le)(s[parent(i)], s[i]));
        }
    }
    if to > 0 {
        assert forall|i: int| 0 < i < s2.len() && parent(i) == to implies (r.le)(
            s2[parent(to)],
            #[trigger] s2[i],
        ) by {
            assert((r.le)(s[parent(to)], s[to]));
            if i != at {
                assert((r.le)(s[to], s[i]));
                lemma_order(r, s[parent(to)], s[to], s[i]);
            }
        }
    }
}

/// A heap that is in order but for a node that is not before its parent is in order.
pub proof fn lemma_settled_up<T>(r: Relations<T>, s: Seq<T>, at: int)
    requires
        heap_but_above(r, s, at),
        at <= 0 || at >= s.len() || (r.le)(s[parent(at)], s[at]),
    ensures
        heap_ordered(r, s),
{
}

/// Each element of `a` is an element of `b` where both hold the same elements.
pub proof fn lemma_same_elements<T>(a: Seq<T>, b: Seq<T>, i: int)
    requires
        a.to_multiset() == b.to_multiset(),
        0 <= i < a.len(),
    ensures
        exists|k: int| 0 <= k < b.len() && #[trigger] b[k] == a[i],
{
    broadcast use to_multiset_contains;

    assert(a.contains(a[i]));
    assert(a.to_multiset().count(a[i]) > 0);
    assert(b.contains(a[i]));
}

} // verus!
