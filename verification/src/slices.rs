//! Moves of elements inside a slice.

use vstd::prelude::*;
use vstd::set_lib::*;

verus! {

/// `<[T]>::swap`: the elements at `a` and `b` change places, the others stay.
/// It panics when an index is out of bounds, so both are required to be inside.
pub assume_specification<Item>[ <[Item]>::swap ](slice: &mut [Item], a: usize, b: usize)
    requires
        a < old(slice)@.len(),
        b < old(slice)@.len(),
    ensures
        final(slice)@ == old(slice)@.update(a as int, old(slice)@[b as int]).update(
            b as int,
            old(slice)@[a as int],
        ),
;

/// `<[T]>::reverse`: the elements come to stand in the opposite order.
pub assume_specification<Item>[ <[Item]>::reverse ](slice: &mut [Item])
    ensures
        final(slice)@ == old(slice)@.reverse(),
;

/// `<[T]>::rotate_right`: the last `k` elements move to the front, the others
/// follow them in their old order. It panics when `k` is more than the length.
pub assume_specification<Item>[ <[Item]>::rotate_right ](slice: &mut [Item], k: usize)
    requires
        k <= old(slice)@.len(),
    ensures
        final(slice)@ == old(slice)@.subrange(old(slice)@.len() - k, old(slice)@.len() as int)
            + old(slice)@.subrange(0, old(slice)@.len() - k),
;

/// The part of `slice` from `lo` up to `hi`, to be changed in place.
pub fn subslice_mut<T>(slice: &mut [T], lo: usize, hi: usize) -> (part: &mut [T])
    requires
        lo <= hi <= old(slice)@.len(),
    ensures
        part@ == old(slice)@.subrange(lo as int, hi as int),
        final(slice)@ == old(slice)@.subrange(0, lo as int) + final(part)@ + old(slice)@.subrange(
            hi as int,
            old(slice)@.len() as int,
        ),
{
    let (_, tail) = slice.split_at_mut(lo);
    let (part, _) = tail.split_at_mut(hi - lo);
    part
}

/// The index `i` as a mathematical integer.
pub open spec fn pos(i: usize) -> int {
    i as int
}

/// `x` shifted left by one bit: twice `x`.
pub fn doubled(x: usize) -> (twice: usize)
    requires
        2 * x <= usize::MAX,
    ensures
        twice == 2 * x,
{
    assert(x << 1 == (2 * x) as usize) by (bit_vector);
    x << 1
}

/// The part of `slice` from `lo` up to `hi`.
pub fn subslice<T>(slice: &[T], lo: usize, hi: usize) -> (part: &[T])
    requires
        lo <= hi <= slice@.len(),
    ensures
        part@ == slice@.subrange(lo as int, hi as int),
{
    let (_, tail) = slice.split_at(lo);
    let (part, _) = tail.split_at(hi - lo);
    part
}

/// Searches by halving for the place where `pred` turns from true to false.
///
/// Whatever `pred` does, the element before the place returned was tested and
/// found true, and the element at that place was tested and found false, as
/// far as there are such elements. Where all elements that `pred` accepts
/// stand before all that it rejects, that is the number of accepted elements.
pub fn partition_point<T, P: Fn(&T) -> bool>(slice: &[T], pred: P) -> (point: usize)
    requires
        forall|i: int| 0 <= i < slice@.len() ==> call_requires(pred, (&#[trigger] slice@[i],)),
    ensures
        point <= slice@.len(),
        point > 0 ==> call_ensures(pred, (&slice@[point - 1],), true),
        point < slice@.len() ==> call_ensures(pred, (&slice@[point as int],), false),
{
    let mut lo: usize = 0;
    let mut hi: usize = slice.len();
    while lo < hi
        invariant
            lo <= hi <= slice@.len(),
            forall|i: int| 0 <= i < slice@.len() ==> call_requires(pred, (&#[trigger] slice@[i],)),
            lo > 0 ==> call_ensures(pred, (&slice@[lo - 1],), true),
            hi < slice@.len() ==> call_ensures(pred, (&slice@[hi as int],), false),
        decreases hi - lo,
    {
        let mid: usize = lo + (hi - lo) / 2;
        if pred(&slice[mid]) {
            lo = mid + 1;
        } else {
            hi = mid;
        }
    }
    lo
}

/// From `lo` up to `hi`, `dest` holds each index of that range once.
pub open spec fn places_within(dest: Seq<usize>, lo: int, hi: int) -> bool {
    &&& 0 <= lo <= hi <= dest.len()
    &&& forall|a: int| lo <= a < hi ==> lo <= #[trigger] dest[a] < hi
    &&& forall|a: int, b: int| lo <= a < b < hi ==> #[trigger] dest[a] != #[trigger] dest[b]
}

/// The indices from `lo` up to `hi` whose element is not yet at its place.
pub open spec fn unsettled(dest: Seq<usize>, lo: int, hi: int) -> Set<int> {
    Set::new(|a: int| lo <= a < hi && dest[a] != a)
}

/// An exchange that brings an element to its place leaves fewer elements out of place.
proof fn lemma_settling(dest: Seq<usize>, lo: int, hi: int, a: int)
    requires
        places_within(dest, lo, hi),
        lo <= a < hi,
        dest[a] != a,
    ensures
        unsettled(dest, lo, hi).finite(),
        unsettled(
            dest.update(a, dest[dest[a] as int]).update(dest[a] as int, dest[a]),
            lo,
            hi,
        ).len() < unsettled(dest, lo, hi).len(),
        places_within(dest.update(a, dest[dest[a] as int]).update(dest[a] as int, dest[a]), lo, hi),
{
    let d = dest[a] as int;
    let dest2 = dest.update(a, dest[d]).update(d, dest[a]);
    let before = unsettled(dest, lo, hi);
    let after = unsettled(dest2, lo, hi);
    lemma_int_range(lo, hi);
    assert(before.subset_of(set_int_range(lo, hi)));
    lemma_len_subset(before, set_int_range(lo, hi));
    assert(dest[d] != d) by {
        if a < d {
            assert(dest[a] != dest[d]);
        } else {
            assert(dest[d] != dest[a]);
        }
    }
    assert(before.contains(d));
    assert(after.subset_of(before.remove(d))) by {
        assert forall|x: int| after.contains(x) implies before.remove(d).contains(x) by {
            if x == a {
                assert(dest[a] != a);
            }
        }
    }
    lemma_len_subset(after, before.remove(d));
    assert forall|x: int, y: int| lo <= x < y < hi implies #[trigger] dest2[x] != #[trigger] dest2[y] by {
        let x0 = if x == a { d } else if x == d { a } else { x };
        let y0 = if y == a { d } else if y == d { a } else { y };
        assert(dest2[x] == dest[x0]);
        assert(dest2[y] == dest[y0]);
        if x0 < y0 {
            assert(dest[x0] != dest[y0]);
        } else {
            assert(dest[y0] != dest[x0]);
        }
    }
}

/// `origin` tells for each place from `lo` up to `hi` where the element that
/// `after` holds there stood in `before`: at an index that `dest` sent to that place.
pub open spec fn placed_from<T>(
    before: Seq<T>,
    after: Seq<T>,
    dest: Seq<usize>,
    origin: Seq<int>,
    lo: int,
    hi: int,
) -> bool {
    &&& origin.len() == before.len()
    &&& forall|x: int|
        lo <= x < hi ==> lo <= #[trigger] origin[x] < hi && after[x] == before[origin[x]]
            && dest[origin[x]] == x
}

/// Moves each element of `slice` from `lo` up to `hi` to the place that
/// `dest` holds for it, by exchanges; `dest` then holds each index at itself.
pub fn settle<T>(slice: &mut [T], dest: &mut [usize], lo: usize, hi: usize)
    requires
        hi <= old(slice)@.len(),
        places_within(old(dest)@, lo as int, hi as int),
    ensures
        final(slice)@.len() == old(slice)@.len(),
        final(dest)@.len() == old(dest)@.len(),
        forall|a: int| lo <= a < hi ==> final(slice)@[#[trigger] old(dest)@[a] as int] == old(slice)@[a],
        forall|k: int|
            0 <= k < old(slice)@.len() && !(lo <= k < hi) ==> #[trigger] final(slice)@[k] == old(
                slice,
            )@[k],
        forall|k: int| lo <= k < hi ==> #[trigger] final(dest)@[k] == k,
        forall|k: int|
            0 <= k < old(dest)@.len() && !(lo <= k < hi) ==> #[trigger] final(dest)@[k] == old(
                dest,
            )@[k],
        exists|origin: Seq<int>|
            placed_from(old(slice)@, final(slice)@, old(dest)@, origin, lo as int, hi as int),
{
    let ghost slice0 = slice@;
    let ghost dest0 = dest@;
    let ghost mut origin: Seq<int> = Seq::new(slice@.len(), |k: int| k);
    let mut a: usize = lo;
    while a < hi
        invariant
            lo <= a <= hi <= slice@.len(),
            slice@.len() == slice0.len(),
            dest@.len() == dest0.len(),
            origin.len() == slice0.len(),
            places_within(dest0, lo as int, hi as int),
            places_within(dest@, lo as int, hi as int),
            forall|x: int|
                lo <= x < hi ==> lo <= #[trigger] origin[x] < hi && slice@[x] == slice0[origin[x]]
                    && dest@[x] == dest0[origin[x]],
            forall|x: int|
                0 <= x < slice0.len() && !(lo <= x < hi) ==> #[trigger] slice@[x] == slice0[x],
            forall|x: int|
                0 <= x < dest0.len() && !(lo <= x < hi) ==> #[trigger] dest@[x] == dest0[x],
            forall|x: int| lo <= x < a ==> #[trigger] dest@[x] == x,
        decreases hi - a,
    {
        while dest[a] != a
            invariant
                lo <= a < hi <= slice@.len(),
                slice@.len() == slice0.len(),
                dest@.len() == dest0.len(),
                origin.len() == slice0.len(),
                places_within(dest0, lo as int, hi as int),
                places_within(dest@, lo as int, hi as int),
                forall|x: int|
                    lo <= x < hi ==> lo <= #[trigger] origin[x] < hi && slice@[x]
                        == slice0[origin[x]] && dest@[x] == dest0[origin[x]],
                forall|x: int|
                    0 <= x < slice0.len() && !(lo <= x < hi) ==> #[trigger] slice@[x] == slice0[x],
                forall|x: int|
                    0 <= x < dest0.len() && !(lo <= x < hi) ==> #[trigger] dest@[x] == dest0[x],
                forall|x: int| lo <= x < a ==> #[trigger] dest@[x] == x,
            decreases unsettled(dest@, lo as int, hi as int).len(),
        {
            let d = dest[a];
            proof {
                lemma_settling(dest@, lo as int, hi as int, a as int);
                assert(d >= a) by {
                    if d < a {
                        assert(dest@[d as int] == d);
                        assert(dest@[d as int] != dest@[a as int]);
                    }
                }
                origin = origin.update(a as int, origin[d as int]).update(d as int, origin[a as int]);
            }
            slice.swap(a, d);
            dest.swap(a, d);
        }
        a += 1;
    }
    proof {
        assert forall|a0: int| lo <= a0 < hi implies slice@[#[trigger] dest0[a0] as int]
            == slice0[a0] by {
            let x = dest0[a0] as int;
            assert(dest@[x] == x);
            assert(dest0[origin[x]] == x);
            if origin[x] < a0 {
                assert(dest0[origin[x]] != dest0[a0]);
            } else if origin[x] > a0 {
                assert(dest0[a0] != dest0[origin[x]]);
            }
        }
        assert(placed_from(slice0, slice@, dest0, origin, lo as int, hi as int));
    }
}

} // verus!
