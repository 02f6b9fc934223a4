//! Stable ordering of items by an integer key.
//!
//! The standard library's `sort_by_key` is stable: items with equal keys keep
//! their relative order. This module computes that order as a permutation of
//! indices, so that callers can apply it to items of any type.

use vstd::prelude::*;

verus! {

/// Item `a` comes before item `b` in the stable order of `keys`.
pub open spec fn before(keys: Seq<u128>, a: int, b: int) -> bool {
    keys[a] < keys[b] || (keys[a] == keys[b] && a < b)
}

/// `order` lists every index of `keys` once, in the order that a stable sort
/// by key puts them.
pub open spec fn is_stable_order(order: Seq<usize>, keys: Seq<u128>) -> bool {
    &&& order.len() == keys.len()
    &&& forall|i: int| 0 <= i < order.len() ==> #[trigger] order[i] < keys.len()
    &&& forall|i: int, j: int|
        0 <= i < j < order.len() ==> before(keys, #[trigger] order[i] as int, #[trigger] order[j] as int)
    &&& forall|k: int| 0 <= k < keys.len() ==> #[trigger] order.contains(k as usize)
}

/// The permutation of indices that a stable sort by `keys` (ascending)
/// applies.
pub fn stable_order(keys: &Vec<u128>) -> (order: Vec<usize>)
    ensures
        is_stable_order(order@, keys@),
{
    let n = keys.len();
    let mut order: Vec<usize> = Vec::new();
    let mut i: usize = 0;
    while i < n
        invariant
            n == keys.len(),
            i <= n,
            order@.len() == i,
            forall|a: int| 0 <= a < order@.len() ==> #[trigger] order@[a] < i,
            forall|a: int, b: int|
                0 <= a < b < order@.len() ==> before(keys@, #[trigger] order@[a] as int, #[trigger] order@[b] as int),
            forall|k: int| 0 <= k < i ==> #[trigger] order@.contains(k as usize),
        decreases n - i,
    {
        let ki = keys[i];
        let mut p: usize = 0;
        while p < order.len() && keys[order[p]] <= ki
            invariant
                n == keys.len(),
                i < n,
                ki == keys@[i as int],
                p <= order@.len(),
                forall|a: int| 0 <= a < order@.len() ==> #[trigger] order@[a] < i,
                forall|a: int| 0 <= a < p ==> keys@[#[trigger] order@[a] as int] <= ki,
            decreases order@.len() - p,
        {
            p += 1;
        }
        let ghost old_order = order@;
        order.insert(p, i);
        proof {
            assert(order@ == old_order.insert(p as int, i));
            assert forall|a: int, b: int|
                0 <= a < b < order@.len() implies before(keys@, #[trigger] order@[a] as int, #[trigger] order@[b] as int) by {
                if b < p {
                    assert(order@[a] == old_order[a] && order@[b] == old_order[b]);
                } else if b == p {
                    assert(order@[a] == old_order[a]);
                    assert(keys@[old_order[a] as int] <= ki);
                } else if a < p {
                    assert(order@[a] == old_order[a] && order@[b] == old_order[b - 1]);
                    assert(before(keys@, old_order[a] as int, old_order[b - 1] as int));
                } else if a == p {
                    assert(order@[b] == old_order[b - 1]);
                    assert(!(keys@[old_order[p as int] as int] <= ki));
                    if b - 1 > p {
                        assert(before(keys@, old_order[p as int] as int, old_order[b - 1] as int));
                    }
                } else {
                    assert(order@[a] == old_order[a - 1] && order@[b] == old_order[b - 1]);
                    assert(before(keys@, old_order[a - 1] as int, old_order[b - 1] as int));
                }
            }
            assert forall|k: int| 0 <= k < i + 1 implies #[trigger] order@.contains(k as usize) by {
                if k == i {
                    assert(order@[p as int] == i);
                } else {
                    assert(old_order.contains(k as usize));
                    let w = choose|w: int| 0 <= w < old_order.len() && old_order[w] == k as usize;
                    if w < p {
                        assert(order@[w] == k as usize);
                    } else {
                        assert(order@[w + 1] == k as usize);
                    }
                }
            }
            assert forall|a: int| 0 <= a < order@.len() implies #[trigger] order@[a] < i + 1 by {
                if a < p {
                    assert(order@[a] == old_order[a]);
                } else if a > p {
                    assert(order@[a] == old_order[a - 1]);
                }
            }
        }
        i += 1;
    }
    order
}

/// Widens `u64` keys for `stable_order`.
pub fn keys_from_u64(keys: &Vec<u64>) -> (r: Vec<u128>)
    ensures
        r@.len() == keys@.len(),
        forall|i: int| 0 <= i < keys@.len() ==> #[trigger] r@[i] == keys@[i] as u128,
{
    let mut r: Vec<u128> = Vec::new();
    let mut i: usize = 0;
    while i < keys.len()
        invariant
            i <= keys.len(),
            r@.len() == i,
            forall|j: int| 0 <= j < i ==> #[trigger] r@[j] == keys@[j] as u128,
        decreases keys.len() - i,
    {
        r.push(keys[i] as u128);
        i += 1;
    }
    r
}

/// Applies an order of indices to `values`.
pub fn apply_order_u64(values: &Vec<u64>, order: &Vec<usize>) -> (r: Vec<u64>)
    requires
        forall|i: int| 0 <= i < order@.len() ==> #[trigger] order@[i] < values@.len(),
    ensures
        r@.len() == order@.len(),
        forall|i: int| 0 <= i < order@.len() ==> #[trigger] r@[i] == values@[order@[i] as int],
{
    let mut r: Vec<u64> = Vec::new();
    let mut i: usize = 0;
    while i < order.len()
        invariant
            forall|k: int| 0 <= k < order@.len() ==> #[trigger] order@[k] < values@.len(),
            i <= order.len(),
            r@.len() == i,
            forall|k: int| 0 <= k < i ==> #[trigger] r@[k] == values@[order@[k] as int],
        decreases order.len() - i,
    {
        r.push(values[order[i]]);
        i += 1;
    }
    r
}

/// `values` sorted ascending (`sort_unstable` on integers gives the same
/// result as a stable sort).
pub fn sorted_u64(values: &Vec<u64>) -> (r: Vec<u64>)
    ensures
        r@.len() == values@.len(),
        forall|i: int, j: int| 0 <= i <= j < r@.len() ==> #[trigger] r@[i] <= #[trigger] r@[j],
        r@.to_multiset() == values@.to_multiset(),
{
    let keys = keys_from_u64(values);
    let order = stable_order(&keys);
    let r = apply_order_u64(values, &order);
    proof {
        assert forall|i: int, j: int| 0 <= i <= j < r@.len() implies #[trigger] r@[i] <= #[trigger] r@[j] by {
            if i < j {
                assert(before(keys@, order@[i] as int, order@[j] as int));
            }
        }
        assert forall|i: int, j: int| 0 <= i < j < order@.len() implies #[trigger] order@[i] != #[trigger] order@[j] by {
            assert(before(keys@, order@[i] as int, order@[j] as int));
        }
        assert(values@.len() == values.len());
        lemma_permutation_multiset(values@, order@, r@);
    }
    r
}

/// Applying a permutation of indices keeps the multiset of values.
pub proof fn lemma_permutation_multiset<T>(values: Seq<T>, order: Seq<usize>, r: Seq<T>)
    requires
        values.len() <= usize::MAX,
        order.len() == values.len(),
        r.len() == order.len(),
        forall|i: int| 0 <= i < order.len() ==> #[trigger] order[i] < values.len(),
        forall|i: int| 0 <= i < order.len() ==> #[trigger] r[i] == values[order[i] as int],
        forall|i: int, j: int| 0 <= i < j < order.len() ==> #[trigger] order[i] != #[trigger] order[j],
        forall|k: int| 0 <= k < values.len() ==> #[trigger] order.contains(k as usize),
    ensures
        r.to_multiset() == values.to_multiset(),
    decreases values.len(),
{
    broadcast use vstd::seq_lib::group_to_multiset_ensures;
    if values.len() == 0 {
        assert(r =~= values);
    } else {
        // Remove the last value from `values` and its occurrence from `r`.
        let last = (values.len() - 1) as usize;
        assert(order.contains(last as int as usize));
        let pos = choose|p: int| 0 <= p < order.len() && order[p] == last;
        let order2 = Seq::new((order.len() - 1) as nat, |i: int| if i < pos { order[i] } else { order[i + 1] });
        let r2 = r.remove(pos);
        let values2 = values.drop_last();
        assert forall|i: int| 0 <= i < order2.len() implies #[trigger] order2[i] < values2.len() by {
            if i < pos {
                assert(order[i] != order[pos]);
            } else {
                assert(order[i + 1] != order[pos]);
            }
        }
        assert forall|i: int| 0 <= i < order2.len() implies #[trigger] r2[i] == values2[order2[i] as int] by {
            if i < pos {
                assert(order[i] != order[pos]);
            } else {
                assert(order[i + 1] != order[pos]);
            }
        }
        assert forall|i: int, j: int| 0 <= i < j < order2.len() implies #[trigger] order2[i] != #[trigger] order2[j] by {
            if j < pos {
            } else if i < pos {
                assert(order[i] != order[j + 1]);
            } else {
                assert(order[i + 1] != order[j + 1]);
            }
        }
        assert forall|k: int| 0 <= k < values2.len() implies #[trigger] order2.contains(k as usize) by {
            assert(order.contains(k as usize));
            let w = choose|w: int| 0 <= w < order.len() && order[w] == k as usize;
            if w < pos {
                assert(order2[w] == k as usize);
            } else {
                assert(w != pos);
                assert(order2[w - 1] == k as usize);
            }
        }
        lemma_permutation_multiset(values2, order2, r2);
        assert(values =~= values2.push(values.last()));
        assert(r2.to_multiset() == r.to_multiset().remove(r[pos]));
        assert(r[pos] == values.last());
        assert(r.to_multiset().count(r[pos]) > 0);
    }
}

} // verus!
