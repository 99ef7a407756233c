//! Comparators and the orders they stand for.
//!
//! A comparator is an executable function from two elements to an `Ordering`.
//! Contracts never speak of its results directly: they speak of `le` and `lt`,
//! which hold of a pair when every total preorder that the comparator computes
//! puts the pair that way.

use vstd::prelude::*;
use core::cmp::Ordering;
use vstd::std_specs::cmp::OrdSpec;

verus! {

/// `ord` relates any two elements, consistently in both directions, and
/// "not greater" is transitive.
pub open spec fn total_preorder<T>(ord: spec_fn(T, T) -> Ordering) -> bool {
    &&& forall|a: T, b: T| #[trigger]
        ord(a, b) == Ordering::Less <==> ord(b, a) == Ordering::Greater
    &&& forall|a: T, b: T, c: T|
        #![trigger ord(a, b), ord(b, c)]
        ord(a, b) != Ordering::Greater && ord(b, c) != Ordering::Greater ==> ord(a, c)
            != Ordering::Greater
}

/// Whatever `compare` returns for a pair is what `ord` says of it.
pub open spec fn computes<T, F: Fn(&T, &T) -> Ordering>(
    compare: F,
    ord: spec_fn(T, T) -> Ordering,
) -> bool {
    forall|a: T, b: T, o: Ordering| #[trigger] call_ensures(compare, (&a, &b), o) ==> o == ord(a, b)
}

/// `compare` may be called on any pair, and there is a total preorder that it computes.
#[verifier::opaque]
pub open spec fn is_comparator<T, F: Fn(&T, &T) -> Ordering>(compare: F) -> bool {
    &&& forall|a: T, b: T| #[trigger] call_requires(compare, (&a, &b))
    &&& exists|ord: spec_fn(T, T) -> Ordering| #[trigger]
        computes(compare, ord) && total_preorder(ord)
}

/// `a` is before or level with `b` in every total preorder that `compare` computes.
#[verifier::opaque]
pub open spec fn le<T, F: Fn(&T, &T) -> Ordering>(compare: F, a: T, b: T) -> bool {
    forall|ord: spec_fn(T, T) -> Ordering| #[trigger]
        computes(compare, ord) && total_preorder(ord) ==> ord(a, b) != Ordering::Greater
}

/// `a` is strictly before `b` in every total preorder that `compare` computes.
#[verifier::opaque]
pub open spec fn lt<T, F: Fn(&T, &T) -> Ordering>(compare: F, a: T, b: T) -> bool {
    forall|ord: spec_fn(T, T) -> Ordering| #[trigger]
        computes(compare, ord) && total_preorder(ord) ==> ord(a, b) == Ordering::Less
}

/// `a` and `b` are level in every total preorder that `compare` computes.
pub open spec fn equivalent<T, F: Fn(&T, &T) -> Ordering>(compare: F, a: T, b: T) -> bool {
    le(compare, a, b) && le(compare, b, a)
}

/// No element is after itself.
pub proof fn lemma_le_refl<T, F: Fn(&T, &T) -> Ordering>(compare: F, a: T)
    ensures
        le(compare, a, a),
{
    reveal(le);
}

/// What is strictly before is not after.
pub proof fn lemma_lt_le<T, F: Fn(&T, &T) -> Ordering>(compare: F, a: T, b: T)
    requires
        lt(compare, a, b),
    ensures
        le(compare, a, b),
{
    reveal(le);
    reveal(lt);
}

/// "Not after" carries over from pair to pair.
pub proof fn lemma_le_trans<T, F: Fn(&T, &T) -> Ordering>(compare: F, a: T, b: T, c: T)
    requires
        le(compare, a, b),
        le(compare, b, c),
    ensures
        le(compare, a, c),
{
    reveal(le);
}

/// What is not after an element that is strictly before a third is strictly before the third.
pub proof fn lemma_le_lt_trans<T, F: Fn(&T, &T) -> Ordering>(compare: F, a: T, b: T, c: T)
    requires
        le(compare, a, b),
        lt(compare, b, c),
    ensures
        lt(compare, a, c),
{
    reveal(le);
    reveal(lt);
    assert forall|ord: spec_fn(T, T) -> Ordering| #[trigger]
        computes(compare, ord) && total_preorder(ord) implies ord(a, c) == Ordering::Less by {
        if ord(a, c) != Ordering::Less {
            assert(ord(c, a) != Ordering::Greater);
            assert(ord(c, b) != Ordering::Greater);
        }
    }
}

/// What is strictly before an element that is not after a third is strictly before the third.
pub proof fn lemma_lt_le_trans<T, F: Fn(&T, &T) -> Ordering>(compare: F, a: T, b: T, c: T)
    requires
        lt(compare, a, b),
        le(compare, b, c),
    ensures
        lt(compare, a, c),
{
    reveal(le);
    reveal(lt);
    assert forall|ord: spec_fn(T, T) -> Ordering| #[trigger]
        computes(compare, ord) && total_preorder(ord) implies ord(a, c) == Ordering::Less by {
        if ord(a, c) != Ordering::Less {
            assert(ord(c, a) != Ordering::Greater);
            assert(ord(b, a) != Ordering::Greater);
        }
    }
}

/// Under a comparator no pair is both `le` one way and `lt` the other way.
pub proof fn lemma_le_lt_exclusive<T, F: Fn(&T, &T) -> Ordering>(compare: F, a: T, b: T)
    requires
        is_comparator(compare),
        le(compare, a, b),
    ensures
        !lt(compare, b, a),
{
    reveal(le);
    reveal(lt);
    reveal(is_comparator);
    let ord = choose|ord: spec_fn(T, T) -> Ordering| #[trigger]
        computes(compare, ord) && total_preorder(ord);
    assert(ord(a, b) != Ordering::Greater);
}

/// What a result of `compare` tells of the pair it was called on.
pub proof fn lemma_result<T, F: Fn(&T, &T) -> Ordering>(compare: F, a: T, b: T, o: Ordering)
    requires
        call_ensures(compare, (&a, &b), o),
    ensures
        o == Ordering::Less ==> lt(compare, a, b) && le(compare, a, b),
        o == Ordering::Equal ==> le(compare, a, b) && le(compare, b, a),
        o == Ordering::Greater ==> lt(compare, b, a) && le(compare, b, a),
{
    reveal(le);
    reveal(lt);
    assert forall|ord: spec_fn(T, T) -> Ordering| #[trigger]
        computes(compare, ord) && total_preorder(ord) implies ord(a, b) == o && (o
        == Ordering::Equal ==> ord(b, a) != Ordering::Greater) && (o == Ordering::Greater ==> ord(
        b,
        a,
    ) == Ordering::Less) by {
        assert(ord(a, b) == o);
    }
}

/// A comparator that is lent computes the orders that the comparator itself computes.
proof fn lemma_lent_computes<T, F: Fn(&T, &T) -> Ordering>(compare: &F)
    ensures
        forall|ord: spec_fn(T, T) -> Ordering|
            #![trigger computes(compare, ord)]
            #![trigger computes(*compare, ord)]
            computes(compare, ord) == computes(*compare, ord),
{
    assert forall|ord: spec_fn(T, T) -> Ordering|
        #![trigger computes(compare, ord)]
        #![trigger computes(*compare, ord)]
        computes(compare, ord) == computes(*compare, ord) by {
        if computes(*compare, ord) {
            assert forall|a: T, b: T, o: Ordering| #[trigger]
                call_ensures(compare, (&a, &b), o) implies o == ord(a, b) by {
                assert(call_ensures(*compare, (&a, &b), o));
            }
        }
        if computes(compare, ord) {
            assert forall|a: T, b: T, o: Ordering| #[trigger]
                call_ensures(*compare, (&a, &b), o) implies o == ord(a, b) by {
                assert(call_ensures(compare, (&a, &b), o));
            }
        }
    }
}

/// A comparator that is lent stands for the same order as the comparator itself.
pub broadcast proof fn lemma_lent<T, F: Fn(&T, &T) -> Ordering>(compare: &F, a: T, b: T)
    ensures
        #![trigger le(compare, a, b)]
        #![trigger lt(compare, a, b)]
        le(compare, a, b) == le(*compare, a, b),
        lt(compare, a, b) == lt(*compare, a, b),
{
    reveal(le);
    reveal(lt);
    lemma_lent_computes(compare);
}

/// A comparator that is lent is a comparator where the comparator itself is one.
pub broadcast proof fn lemma_lent_comparator<T, F: Fn(&T, &T) -> Ordering>(compare: &F)
    ensures
        #[trigger] is_comparator(compare) == is_comparator(*compare),
{
    reveal(is_comparator);
    lemma_lent_computes(compare);
    if is_comparator(*compare) {
        let ord = choose|ord: spec_fn(T, T) -> Ordering| #[trigger]
            computes(*compare, ord) && total_preorder(ord);
        assert(computes(compare, ord));
        assert forall|a: T, b: T| #[trigger] call_requires(compare, (&a, &b)) by {
            assert(call_requires(*compare, (&a, &b)));
        }
    }
    if is_comparator(compare) {
        let ord = choose|ord: spec_fn(T, T) -> Ordering| #[trigger]
            computes(compare, ord) && total_preorder(ord);
        assert(computes(*compare, ord));
        assert forall|a: T, b: T| #[trigger] call_requires(*compare, (&a, &b)) by {
            assert(call_requires(compare, (&a, &b)));
        }
    }
}

/// A function that may be called on any pair and computes a total preorder is a comparator.
pub proof fn lemma_is_comparator<T, F: Fn(&T, &T) -> Ordering>(
    compare: F,
    ord: spec_fn(T, T) -> Ordering,
)
    requires
        forall|a: T, b: T| #[trigger] call_requires(compare, (&a, &b)),
        computes(compare, ord),
        total_preorder(ord),
    ensures
        is_comparator(compare),
{
    reveal(is_comparator);
}

/// What `le` and `lt` say of a pair holds in each total preorder that the comparator computes.
pub proof fn lemma_in_preorder<T, F: Fn(&T, &T) -> Ordering>(
    compare: F,
    ord: spec_fn(T, T) -> Ordering,
    a: T,
    b: T,
)
    requires
        computes(compare, ord),
        total_preorder(ord),
    ensures
        le(compare, a, b) ==> ord(a, b) != Ordering::Greater,
        lt(compare, a, b) ==> ord(a, b) == Ordering::Less,
{
    reveal(le);
    reveal(lt);
}

/// A comparator may be called on any pair.
pub proof fn lemma_callable<T, F: Fn(&T, &T) -> Ordering>(compare: F, a: T, b: T)
    requires
        is_comparator(compare),
    ensures
        call_requires(compare, (&a, &b)),
{
    reveal(is_comparator);
}

/// Calls `compare` and tells whether it put `a` before or level with `b`.
pub fn is_le<T, F: Fn(&T, &T) -> Ordering>(compare: &F, a: &T, b: &T) -> (r: bool)
    requires
        is_comparator(*compare),
    ensures
        r ==> le(*compare, *a, *b),
        !r ==> lt(*compare, *b, *a),
{
    proof {
        lemma_callable(*compare, *a, *b);
    }
    let o = compare(a, b);
    proof {
        lemma_result(*compare, *a, *b, o);
    }
    match o {
        Ordering::Greater => false,
        _ => true,
    }
}

/// Calls `compare` and tells whether it put `a` strictly before `b`.
pub fn is_lt<T, F: Fn(&T, &T) -> Ordering>(compare: &F, a: &T, b: &T) -> (r: bool)
    requires
        is_comparator(*compare),
    ensures
        r ==> lt(*compare, *a, *b),
        !r ==> le(*compare, *b, *a),
{
    proof {
        lemma_callable(*compare, *a, *b);
    }
    let o = compare(a, b);
    proof {
        lemma_result(*compare, *a, *b, o);
    }
    match o {
        Ordering::Less => true,
        _ => false,
    }
}

/// Calls `compare` and tells whether it put `a` after or level with `b`.
pub fn is_ge<T, F: Fn(&T, &T) -> Ordering>(compare: &F, a: &T, b: &T) -> (r: bool)
    requires
        is_comparator(*compare),
    ensures
        r ==> le(*compare, *b, *a),
        !r ==> lt(*compare, *a, *b),
{
    !is_lt(compare, a, b)
}

/// Calls `compare` and tells whether it put `a` strictly after `b`.
pub fn is_gt<T, F: Fn(&T, &T) -> Ordering>(compare: &F, a: &T, b: &T) -> (r: bool)
    requires
        is_comparator(*compare),
    ensures
        r ==> lt(*compare, *b, *a),
        !r ==> le(*compare, *a, *b),
{
    !is_le(compare, a, b)
}

/// The order of `T` is a total preorder, and `T::cmp` computes it.
pub open spec fn is_ordered<T: Ord>() -> bool {
    &&& T::obeys_cmp_spec()
    &&& total_preorder(|a: T, b: T| a.cmp_spec(&b))
}

/// For a type that is ordered, `T::cmp` is a comparator.
pub proof fn lemma_ordered<T: Ord>()
    requires
        is_ordered::<T>(),
    ensures
        is_comparator(T::cmp),
        computes(T::cmp, |a: T, b: T| a.cmp_spec(&b)),
{
    lemma_is_comparator(T::cmp, |a: T, b: T| a.cmp_spec(&b));
}

/// What a total preorder says of three elements.
pub proof fn lemma_preorder<T>(ord: spec_fn(T, T) -> Ordering, a: T, b: T, c: T)
    requires
        total_preorder(ord),
    ensures
        ord(a, a) == Ordering::Equal,
        ord(a, b) == Ordering::Less <==> ord(b, a) == Ordering::Greater,
        ord(a, b) == Ordering::Equal <==> ord(b, a) == Ordering::Equal,
        ord(a, b) != Ordering::Greater && ord(b, c) != Ordering::Greater ==> ord(a, c)
            != Ordering::Greater,
        ord(a, b) != Ordering::Greater && ord(b, c) == Ordering::Less ==> ord(a, c)
            == Ordering::Less,
        ord(a, b) == Ordering::Less && ord(b, c) != Ordering::Greater ==> ord(a, c)
            == Ordering::Less,
{
    assert(ord(a, a) == Ordering::Less <==> ord(a, a) == Ordering::Greater);
    assert(ord(b, a) == Ordering::Less <==> ord(a, b) == Ordering::Greater);
    if ord(a, b) != Ordering::Greater && ord(b, c) == Ordering::Less {
        if ord(a, c) != Ordering::Less {
            assert(ord(c, a) != Ordering::Greater);
            assert(ord(c, b) != Ordering::Greater);
        }
    }
    if ord(a, b) == Ordering::Less && ord(b, c) != Ordering::Greater {
        if ord(a, c) != Ordering::Less {
            assert(ord(c, a) != Ordering::Greater);
            assert(ord(b, a) != Ordering::Greater);
        }
    }
}

/// The result of a comparison, turned round.
pub open spec fn flipped(o: Ordering) -> Ordering {
    match o {
        Ordering::Less => Ordering::Greater,
        Ordering::Equal => Ordering::Equal,
        Ordering::Greater => Ordering::Less,
    }
}

/// Turns the result of a comparison round: `Less` becomes `Greater`,
/// `Greater` becomes `Less`, and `Equal` stays.
pub fn turned_round(o: Ordering) -> (turned: Ordering)
    ensures
        turned == flipped(o),
{
    match o {
        Ordering::Less => Ordering::Greater,
        Ordering::Equal => Ordering::Equal,
        Ordering::Greater => Ordering::Less,
    }
}

} // verus!
