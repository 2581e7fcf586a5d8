//! The order in which entries are handled: deepest first, and among entries
//! of one depth the earlier one first.

use vstd::prelude::*;

verus! {

/// Index `a` is handled before index `b`: it lies deeper, or as deep and
/// earlier.
pub open spec fn precedes(depths: Seq<usize>, a: int, b: int) -> bool {
    depths[a] > depths[b] || (depths[a] == depths[b] && a < b)
}

/// `order` lists the indices of `depths`, each one once, so that every index
/// precedes the ones listed after it.
pub open spec fn is_depth_order(depths: Seq<usize>, order: Seq<usize>) -> bool {
    &&& order.len() == depths.len()
    &&& forall|i: int| 0 <= i < order.len() ==> #[trigger] order[i] < depths.len()
    &&& forall|i: int, j: int|
        0 <= i < j < order.len() ==> precedes(
            depths,
            #[trigger] order[i] as int,
            #[trigger] order[j] as int,
        )
}

/// The one order that `is_depth_order` admits for `depths`.
pub open spec fn depth_order(depths: Seq<usize>) -> Seq<usize> {
    choose|order: Seq<usize>| is_depth_order(depths, order)
}

/// `items` rearranged: place `i` of the result holds item `order[i]`.
pub open spec fn permuted<T>(items: Seq<T>, order: Seq<usize>) -> Seq<T> {
    Seq::new(order.len(), |i: int| items[order[i] as int])
}

/// The order that leaves every item in its place.
pub open spec fn identity_order(n: nat) -> Seq<usize> {
    Seq::new(n, |i: int| i as usize)
}

/// An order that satisfies `is_depth_order` names no index twice.
pub proof fn lemma_order_is_one_to_one(depths: Seq<usize>, order: Seq<usize>)
    requires
        is_depth_order(depths, order),
    ensures
        forall|i: int, j: int|
            0 <= i < j < order.len() ==> #[trigger] order[i] != #[trigger] order[j],
{
    assert forall|i: int, j: int| 0 <= i < j < order.len() implies #[trigger] order[i]
        != #[trigger] order[j] by {
        assert(precedes(depths, order[i] as int, order[j] as int));
    }
}

/// An order that satisfies `is_depth_order` names every index.
proof fn lemma_order_is_onto(depths: Seq<usize>, order: Seq<usize>, a: int)
    requires
        is_depth_order(depths, order),
        0 <= a < depths.len(),
    ensures
        exists|i: int| 0 <= i < order.len() && order[i] == a,
{
    let n = depths.len() as int;
    let ints = Seq::new(order.len(), |i: int| order[i] as int);
    assert forall|i: int, j: int|
        0 <= i < ints.len() && 0 <= j < ints.len() && i != j implies ints[i] != ints[j] by {
        if i < j {
            assert(precedes(depths, order[i] as int, order[j] as int));
        } else {
            assert(precedes(depths, order[j] as int, order[i] as int));
        }
    }
    assert(ints.no_duplicates());
    ints.unique_seq_to_set();
    let range = vstd::set_lib::set_int_range(0, n);
    vstd::set_lib::lemma_int_range(0, n);
    assert forall|x: int| ints.to_set().contains(x) implies range.contains(x) by {
        let i = choose|i: int| 0 <= i < ints.len() && ints[i] == x;
        assert(order[i] < depths.len());
    }
    assert(ints.to_set().subset_of(range));
    vstd::set_lib::lemma_subset_equality(ints.to_set(), range);
    assert(range.contains(a));
    assert(ints.to_set().contains(a));
    let i = choose|i: int| 0 <= i < ints.len() && ints[i] == a;
    assert(order[i] == a);
}

/// Two orders of the same depths agree on their first `k` places.
proof fn lemma_orders_agree(depths: Seq<usize>, p: Seq<usize>, q: Seq<usize>, k: int)
    requires
        is_depth_order(depths, p),
        is_depth_order(depths, q),
        0 <= k <= depths.len(),
    ensures
        forall|i: int| 0 <= i < k ==> p[i] == q[i],
    decreases k,
{
    if k > 0 {
        lemma_orders_agree(depths, p, q, k - 1);
        let at = k - 1;
        let a = p[at] as int;
        let b = q[at] as int;
        assert(p[at] < depths.len());
        assert(q[at] < depths.len());
        lemma_order_is_onto(depths, q, a);
        lemma_order_is_onto(depths, p, b);
        let j = choose|j: int| 0 <= j < q.len() && q[j] == a;
        let l = choose|l: int| 0 <= l < p.len() && p[l] == b;
        if j < at {
            assert(precedes(depths, p[j] as int, p[at] as int));
        }
        if l < at {
            assert(precedes(depths, q[l] as int, q[at] as int));
        }
        if j > at && l > at {
            assert(precedes(depths, q[at] as int, q[j] as int));
            assert(precedes(depths, p[at] as int, p[l] as int));
        }
    }
}

/// The depths decide the order: no two orders satisfy `is_depth_order`.
pub proof fn lemma_depth_order_unique(depths: Seq<usize>, p: Seq<usize>, q: Seq<usize>)
    requires
        is_depth_order(depths, p),
        is_depth_order(depths, q),
    ensures
        p == q,
{
    lemma_orders_agree(depths, p, q, depths.len() as int);
    assert(p =~= q);
}

/// How many leading places of `order` hold an index that lies at least as
/// deep as `depth`, where `order` runs from deep to shallow.
spec fn places_at_least_as_deep(depths: Seq<usize>, order: Seq<usize>, depth: usize) -> int
    decreases order.len(),
{
    if order.len() == 0 {
        0
    } else if depths[order.last() as int] >= depth {
        order.len() as int
    } else {
        places_at_least_as_deep(depths, order.drop_last(), depth)
    }
}

proof fn lemma_places_at_least_as_deep(depths: Seq<usize>, order: Seq<usize>, depth: usize)
    requires
        forall|i: int, j: int|
            0 <= i < j < order.len() ==> depths[#[trigger] order[i] as int] >= depths[
            #[trigger] order[j] as int],
    ensures
        0 <= places_at_least_as_deep(depths, order, depth) <= order.len(),
        forall|k: int|
            0 <= k < places_at_least_as_deep(depths, order, depth) ==> depths[
            #[trigger] order[k] as int] >= depth,
        forall|k: int|
            places_at_least_as_deep(depths, order, depth) <= k < order.len() ==> depths[
            #[trigger] order[k] as int] < depth,
    decreases order.len(),
{
    if order.len() > 0 {
        let front = order.drop_last();
        assert forall|i: int, j: int| 0 <= i < j < front.len() implies depths[
        #[trigger] front[i] as int] >= depths[#[trigger] front[j] as int] by {
            assert(front[i] == order[i] && front[j] == order[j]);
        }
        lemma_places_at_least_as_deep(depths, front, depth);
        let last = order.len() - 1;
        if depths[order.last() as int] >= depth {
            assert forall|k: int| 0 <= k < order.len() implies depths[#[trigger] order[k] as int]
                >= depth by {
                if k < last {
                    assert(depths[order[k] as int] >= depths[order[last] as int]);
                }
            }
        } else {
            assert forall|k: int|
                places_at_least_as_deep(depths, order, depth) <= k < order.len() implies depths[
            #[trigger] order[k] as int] < depth by {
                if k < last {
                    assert(order[k] == front[k]);
                }
            }
            assert forall|k: int|
                0 <= k < places_at_least_as_deep(depths, order, depth) implies depths[
            #[trigger] order[k] as int] >= depth by {
                assert(order[k] == front[k]);
            }
        }
    }
}

/// Builds an order for `depths` from one for all but the last of them.
proof fn lemma_build_order(depths: Seq<usize>) -> (order: Seq<usize>)
    requires
        depths.len() <= usize::MAX,
    ensures
        is_depth_order(depths, order),
    decreases depths.len(),
{
    if depths.len() == 0 {
        let order = Seq::<usize>::empty();
        assert(is_depth_order(depths, order));
        order
    } else {
        let last = (depths.len() - 1) as usize;
        let front = depths.drop_last();
        let before = lemma_build_order(front);
        assert forall|i: int, j: int| 0 <= i < j < before.len() implies depths[
        #[trigger] before[i] as int] >= depths[#[trigger] before[j] as int] by {
            assert(precedes(front, before[i] as int, before[j] as int));
            assert(before[i] < front.len() && before[j] < front.len());
        }
        lemma_places_at_least_as_deep(depths, before, depths[last as int]);
        let at = places_at_least_as_deep(depths, before, depths[last as int]);
        let order = before.insert(at, last);
        assert forall|i: int| 0 <= i < order.len() implies #[trigger] order[i] < depths.len() by {
            if i < at {
                assert(order[i] == before[i]);
            } else if i > at {
                assert(order[i] == before[i - 1]);
            }
        }
        assert forall|i: int, j: int| 0 <= i < j < order.len() implies precedes(
            depths,
            #[trigger] order[i] as int,
            #[trigger] order[j] as int,
        ) by {
            if i != at {
                let k = if i < at { i } else { i - 1 };
                assert(order[i] == before[k]);
                assert(before[k] < front.len());
            }
            if j != at {
                let l = if j < at { j } else { j - 1 };
                assert(order[j] == before[l]);
                assert(before[l] < front.len());
            }
            if i != at && j != at {
                let k = if i < at { i } else { i - 1 };
                let l = if j < at { j } else { j - 1 };
                assert(precedes(front, before[k] as int, before[l] as int));
            }
        }
        order
    }
}

/// Every sequence of depths has its order.
pub proof fn lemma_depth_order_exists(depths: Seq<usize>)
    requires
        depths.len() <= usize::MAX,
    ensures
        is_depth_order(depths, depth_order(depths)),
{
    let order = lemma_build_order(depths);
}

/// Depths that never rise are already in order.
pub proof fn lemma_sorted_depths_keep_their_order(depths: Seq<usize>)
    requires
        depths.len() <= usize::MAX,
        forall|i: int, j: int| 0 <= i < j < depths.len() ==> depths[i] >= depths[j],
    ensures
        is_depth_order(depths, identity_order(depths.len())),
        depth_order(depths) == identity_order(depths.len()),
{
    let id = identity_order(depths.len());
    assert(is_depth_order(depths, id));
    lemma_depth_order_unique(depths, depth_order(depths), id);
}

/// Ordering by depth is idempotent: once the items stand in the order of
/// their depths, ordering them again by the depths they now have moves none.
pub proof fn lemma_depth_order_idempotent<T>(items: Seq<T>, depths: Seq<usize>)
    requires
        items.len() == depths.len(),
        depths.len() <= usize::MAX,
    ensures
        depth_order(permuted(depths, depth_order(depths))) == identity_order(depths.len()),
        permuted(
            permuted(items, depth_order(depths)),
            depth_order(permuted(depths, depth_order(depths))),
        ) == permuted(items, depth_order(depths)),
{
    lemma_depth_order_exists(depths);
    let first = depth_order(depths);
    let moved = permuted(depths, first);
    assert forall|i: int, j: int| 0 <= i < j < moved.len() implies moved[i] >= moved[j] by {
        assert(precedes(depths, first[i] as int, first[j] as int));
    }
    lemma_sorted_depths_keep_their_order(moved);
    assert(permuted(permuted(items, first), identity_order(depths.len())) =~= permuted(
        items,
        first,
    ));
}

/// Computes the order of `depths` by insertion: each index goes behind the
/// indices before it that lie at least as deep.
pub fn order_by_depth(depths: &Vec<usize>) -> (order: Vec<usize>)
    ensures
        is_depth_order(depths@, order@),
        order@ == depth_order(depths@),
{
    let n: usize = depths.len();
    let mut order: Vec<usize> = Vec::new();
    let mut i: usize = 0;
    while i < n
        invariant
            n == depths@.len(),
            i <= n,
            order@.len() == i,
            forall|k: int| 0 <= k < order@.len() ==> #[trigger] order@[k] < i,
            forall|k: int, l: int|
                0 <= k < l < order@.len() ==> precedes(
                    depths@,
                    #[trigger] order@[k] as int,
                    #[trigger] order@[l] as int,
                ),
        decreases n - i,
    {
        let mut at: usize = 0;
        while at < i && depths[order[at]] >= depths[i]
            invariant
                n == depths@.len(),
                i < n,
                order@.len() == i,
                at <= i,
                forall|k: int| 0 <= k < order@.len() ==> #[trigger] order@[k] < i,
                forall|k: int|
                    0 <= k < at ==> depths@[#[trigger] order@[k] as int] >= depths@[i as int],
            decreases i - at,
        {
            at = at + 1;
        }
        let ghost before = order@;
        order.insert(at, i);
        proof {
            let after = order@;
            assert forall|k: int, l: int| 0 <= k < l < after.len() implies precedes(
                depths@,
                #[trigger] after[k] as int,
                #[trigger] after[l] as int,
            ) by {
                if l < at {
                    assert(after[k] == before[k] && after[l] == before[l]);
                } else if l == at {
                    assert(after[k] == before[k]);
                } else if k < at {
                    assert(after[k] == before[k] && after[l] == before[l - 1]);
                } else if k == at {
                    assert(after[l] == before[l - 1]);
                    assert(at < i);
                    if l - 1 > at {
                        assert(precedes(depths@, before[at as int] as int, before[l - 1] as int));
                    }
                } else {
                    assert(after[k] == before[k - 1] && after[l] == before[l - 1]);
                }
            }
            assert forall|k: int| 0 <= k < after.len() implies #[trigger] after[k] < i + 1 by {
                if k < at {
                    assert(after[k] == before[k]);
                } else if k > at {
                    assert(after[k] == before[k - 1]);
                }
            }
        }
        i = i + 1;
    }
    proof {
        lemma_depth_order_unique(depths@, order@, depth_order(depths@));
    }
    order
}

/// Rearranges `items` by `order`.
pub fn apply_order<T: Copy>(items: &Vec<T>, order: &Vec<usize>) -> (moved: Vec<T>)
    requires
        forall|i: int| 0 <= i < order@.len() ==> #[trigger] order@[i] < items@.len(),
    ensures
        moved@ == permuted(items@, order@),
{
    let mut moved: Vec<T> = Vec::new();
    let mut i: usize = 0;
    while i < order.len()
        invariant
            i <= order@.len(),
            moved@.len() == i,
            forall|k: int| 0 <= k < order@.len() ==> #[trigger] order@[k] < items@.len(),
            forall|k: int| 0 <= k < i ==> moved@[k] == items@[order@[k] as int],
        decreases order@.len() - i,
    {
        moved.push(items[order[i]]);
        i = i + 1;
    }
    assert(moved@ =~= permuted(items@, order@));
    moved
}

} // verus!
