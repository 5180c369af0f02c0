//! The order in which a repack walks the rectangles: the taller first, among
//! equally tall ones the wider first, and equal ones as they came.

use vstd::prelude::*;

verus! {

/// A rectangle of size `a` (width, height) is packed strictly before one of
/// size `b`: it is taller, or as tall and wider.
pub open spec fn goes_before(a: (u32, u32), b: (u32, u32)) -> bool {
    a.1 > b.1 || (a.1 == b.1 && a.0 > b.0)
}

/// Where `item` enters `order`, a list of indices into `sizes`: behind every
/// index whose size does not come strictly after it.
pub open spec fn insertion_point(order: Seq<usize>, sizes: Seq<(u32, u32)>, item: (u32, u32)) -> int
    decreases order.len(),
{
    if order.len() == 0 {
        0
    } else if goes_before(item, sizes[order.last() as int]) {
        insertion_point(order.drop_last(), sizes, item)
    } else {
        order.len() as int
    }
}

/// The indices `0..n` of `sizes` in packing order: each index in turn enters
/// the order of those before it at its insertion point.
pub open spec fn pack_order(sizes: Seq<(u32, u32)>, n: nat) -> Seq<usize>
    decreases n,
{
    if n == 0 {
        Seq::empty()
    } else {
        let prev = pack_order(sizes, (n - 1) as nat);
        prev.insert(insertion_point(prev, sizes, sizes[n - 1]), (n - 1) as usize)
    }
}

/// The index `v` stands somewhere in `order`.
pub open spec fn occurs_in(order: Seq<usize>, v: int) -> bool {
    exists|j: int| 0 <= j < order.len() && #[trigger] order[j] == v
}

/// `order` holds each of the indices `0..n` exactly once.
pub open spec fn is_permutation(order: Seq<usize>, n: nat) -> bool {
    &&& order.len() == n
    &&& forall|j: int| 0 <= j < n ==> (#[trigger] order[j]) < n
    &&& forall|a: int, b: int| 0 <= a < n && 0 <= b < n && a != b ==> #[trigger] order[a] != #[trigger] order[b]
    &&& forall|v: int| 0 <= v < n ==> #[trigger] occurs_in(order, v)
}

/// `order` walks `sizes` from the tallest down, the wider first among equally
/// tall ones, and equal sizes by rising index.
pub open spec fn is_sorted(order: Seq<usize>, sizes: Seq<(u32, u32)>) -> bool {
    forall|a: int, b: int|
        0 <= a < b < order.len() ==> {
            let first = sizes[#[trigger] order[a] as int];
            let second = sizes[#[trigger] order[b] as int];
            goes_before(first, second) || (first == second && order[a] < order[b])
        }
}

pub proof fn lemma_insertion_point_in_range(order: Seq<usize>, sizes: Seq<(u32, u32)>, item: (u32, u32))
    ensures
        0 <= insertion_point(order, sizes, item) <= order.len(),
    decreases order.len(),
{
    if order.len() > 0 {
        lemma_insertion_point_in_range(order.drop_last(), sizes, item);
    }
}

/// Every index from the insertion point on has a size that comes strictly
/// after `item`, and the one just before it has not.
pub proof fn lemma_insertion_point_splits(order: Seq<usize>, sizes: Seq<(u32, u32)>, item: (u32, u32))
    ensures
        forall|j: int|
            insertion_point(order, sizes, item) <= j < order.len() ==> goes_before(
                item,
                sizes[#[trigger] order[j] as int],
            ),
        insertion_point(order, sizes, item) > 0 ==> !goes_before(
            item,
            sizes[order[insertion_point(order, sizes, item) - 1] as int],
        ),
    decreases order.len(),
{
    lemma_insertion_point_in_range(order, sizes, item);
    if order.len() > 0 {
        lemma_insertion_point_splits(order.drop_last(), sizes, item);
        lemma_insertion_point_in_range(order.drop_last(), sizes, item);
        if goes_before(item, sizes[order.last() as int]) {
            let p = insertion_point(order.drop_last(), sizes, item);
            assert forall|j: int| p <= j < order.len() implies goes_before(
                item,
                sizes[#[trigger] order[j] as int],
            ) by {
                if j < order.len() - 1 {
                    assert(order[j] == order.drop_last()[j]);
                }
            }
            if p > 0 {
                assert(order[p - 1] == order.drop_last()[p - 1]);
            }
        }
    }
}

/// The packing order of the first `n` sizes holds each index below `n` once.
pub proof fn lemma_pack_order_permutes(sizes: Seq<(u32, u32)>, n: nat)
    requires
        n <= usize::MAX,
    ensures
        is_permutation(pack_order(sizes, n), n),
    decreases n,
{
    if n > 0 {
        let prev = pack_order(sizes, (n - 1) as nat);
        lemma_pack_order_permutes(sizes, (n - 1) as nat);
        let p = insertion_point(prev, sizes, sizes[n - 1]);
        lemma_insertion_point_in_range(prev, sizes, sizes[n - 1]);
        let order = prev.insert(p, (n - 1) as usize);
        assert(order.len() == n);
        assert forall|j: int| 0 <= j < n implies (#[trigger] order[j]) < n by {
            if j < p {
                assert(order[j] == prev[j]);
            } else if j > p {
                assert(order[j] == prev[j - 1]);
            }
        }
        assert forall|a: int, b: int| 0 <= a < n && 0 <= b < n && a != b implies #[trigger] order[a]
            != #[trigger] order[b] by {
            let ia = if a < p { a } else { a - 1 };
            let ib = if b < p { b } else { b - 1 };
            if a != p {
                assert(order[a] == prev[ia]);
            }
            if b != p {
                assert(order[b] == prev[ib]);
            }
        }
        assert forall|v: int| 0 <= v < n implies #[trigger] occurs_in(order, v) by {
            if v == n - 1 {
                assert(order[p] == v);
            } else {
                assert(occurs_in(prev, v));
                let j = choose|j: int| 0 <= j < prev.len() && #[trigger] prev[j] == v;
                if j < p {
                    assert(order[j] == v);
                } else {
                    assert(order[j + 1] == prev[j]);
                }
            }
        }
    }
}

/// The packing order is sorted: taller first, then wider, then as they came.
pub proof fn lemma_pack_order_sorted(sizes: Seq<(u32, u32)>, n: nat)
    requires
        n <= usize::MAX,
    ensures
        is_sorted(pack_order(sizes, n), sizes),
    decreases n,
{
    if n > 0 {
        let prev = pack_order(sizes, (n - 1) as nat);
        lemma_pack_order_sorted(sizes, (n - 1) as nat);
        lemma_pack_order_permutes(sizes, (n - 1) as nat);
        let item = sizes[n - 1];
        let p = insertion_point(prev, sizes, item);
        lemma_insertion_point_in_range(prev, sizes, item);
        lemma_insertion_point_splits(prev, sizes, item);
        let order = prev.insert(p, (n - 1) as usize);
        assert forall|a: int, b: int| 0 <= a < b < order.len() implies {
            let first = sizes[#[trigger] order[a] as int];
            let second = sizes[#[trigger] order[b] as int];
            goes_before(first, second) || (first == second && order[a] < order[b])
        } by {
            if b < p {
                assert(order[a] == prev[a] && order[b] == prev[b]);
            } else if a > p {
                assert(order[a] == prev[a - 1] && order[b] == prev[b - 1]);
            } else if a < p && b > p {
                assert(order[a] == prev[a] && order[b] == prev[b - 1]);
            } else if a == p {
                assert(order[b] == prev[b - 1]);
            } else {
                // a < p == b: what stands before the insertion point is not
                // strictly after the item, and neither is anything before it.
                assert(order[a] == prev[a]);
                assert(order[b] == n - 1);
                assert(prev[a] < n - 1);
                let edge = sizes[prev[p - 1] as int];
                let first = sizes[prev[a] as int];
                assert(!goes_before(item, edge));
                if a < p - 1 {
                    assert(goes_before(first, edge) || first == edge);
                }
            }
        }
    }
}

/// Whether a rectangle of size `a` is packed strictly before one of size `b`.
pub fn size_goes_before(a: (u32, u32), b: (u32, u32)) -> (r: bool)
    ensures
        r == goes_before(a, b),
{
    a.1 > b.1 || (a.1 == b.1 && a.0 > b.0)
}

/// The indices of `sizes` in packing order.
pub fn packing_order(sizes: &Vec<(u32, u32)>) -> (order: Vec<usize>)
    ensures
        order@ == pack_order(sizes@, sizes@.len()),
        is_permutation(order@, sizes@.len()),
        is_sorted(order@, sizes@),
{
    let mut order: Vec<usize> = Vec::new();
    let mut i: usize = 0;
    while i < sizes.len()
        invariant
            i <= sizes.len(),
            order@ == pack_order(sizes@, i as nat),
        decreases sizes.len() - i,
    {
        proof {
            lemma_pack_order_permutes(sizes@, i as nat);
        }
        let item: (u32, u32) = sizes[i];
        let mut p: usize = order.len();
        let mut searching: bool = true;
        assert(order@.take(p as int) =~= order@);
        while searching && p > 0
            invariant
                p <= order.len(),
                order.len() == i,
                i < sizes.len(),
                item == sizes@[i as int],
                forall|j: int| 0 <= j < i ==> (#[trigger] order@[j]) < i,
                insertion_point(order@, sizes@, item) == insertion_point(
                    order@.take(p as int),
                    sizes@,
                    item,
                ),
                !searching ==> insertion_point(order@.take(p as int), sizes@, item) == p,
            decreases (if searching { p + 1 } else { 0 }),
        {
            let j: usize = order[p - 1];
            proof {
                assert(order@.take(p as int).last() == order@[p - 1]);
                assert(order@.take(p as int).drop_last() =~= order@.take(p - 1));
            }
            if size_goes_before(item, sizes[j]) {
                p = p - 1;
            } else {
                searching = false;
            }
        }
        order.insert(p, i);
        i += 1;
    }
    proof {
        lemma_pack_order_permutes(sizes@, sizes@.len());
        lemma_pack_order_sorted(sizes@, sizes@.len());
    }
    order
}

} // verus!
