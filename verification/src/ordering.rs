//! Stable ordering of positions by an integer key.

use crate::numbers::{lemma_total_insert, picked, total};
use vstd::prelude::*;

verus! {

/// The keys of a vector, as mathematical integers.
pub open spec fn key_values(keys: Seq<i128>) -> Seq<int> {
    keys.map_values(|k: i128| k as int)
}

/// The positions held by a vector, as mathematical integers.
pub open spec fn positions(order: Seq<usize>) -> Seq<int> {
    order.map_values(|p: usize| p as int)
}

/// `order` with position `x` put behind the last position whose key is not
/// greater than that of `x`.
pub open spec fn insert_by_key(keys: Seq<int>, order: Seq<int>, x: int) -> Seq<int>
    decreases order.len(),
{
    if order.len() == 0 {
        seq![x]
    } else if keys[order.last()] <= keys[x] {
        order.push(x)
    } else {
        insert_by_key(keys, order.drop_last(), x).push(order.last())
    }
}

/// The positions `0 .. keys.len()` by ascending key; positions with equal keys
/// stay in ascending order.
pub open spec fn stable_order(keys: Seq<int>) -> Seq<int>
    decreases keys.len(),
{
    if keys.len() == 0 {
        Seq::empty()
    } else {
        insert_by_key(keys, stable_order(keys.drop_last()), keys.len() - 1)
    }
}

/// Whether `order` holds each of the positions `0 .. n` exactly once.
pub open spec fn is_permutation(order: Seq<int>, n: int) -> bool {
    &&& order.len() == n
    &&& forall|k: int| 0 <= k < n ==> 0 <= #[trigger] order[k] < n
    &&& forall|a: int, b: int| 0 <= a < b < n ==> order[a] != order[b]
}

/// Whether position `i` comes before position `j`: by key, then by position.
pub open spec fn comes_before(keys: Seq<int>, i: int, j: int) -> bool {
    keys[i] < keys[j] || (keys[i] == keys[j] && i < j)
}

/// Whether `order` lists its positions so that each comes before the next.
pub open spec fn ascending(keys: Seq<int>, order: Seq<int>) -> bool {
    forall|a: int, b: int| 0 <= a < b < order.len() ==> comes_before(keys, order[a], order[b])
}

/// Inserting the next position into an ascending order of the positions
/// before it gives an ascending order of them all.
proof fn lemma_insert_by_key(keys: Seq<int>, order: Seq<int>, x: int)
    requires
        0 <= x < keys.len(),
        is_permutation(order, x),
        ascending(keys, order),
    ensures
        is_permutation(insert_by_key(keys, order, x), x + 1),
        ascending(keys, insert_by_key(keys, order, x)),
{
    lemma_insert_shape(keys, order, x);
    let at = insert_point(keys, order, x);
    let out = insert_by_key(keys, order, x);
    assert(out =~= order.insert(at, x));
    assert forall|a: int, b: int| 0 <= a < b < out.len() implies comes_before(
        keys,
        out[a],
        out[b],
    ) && out[a] != out[b] by {
        if b < at {
            assert(out[a] == order[a] && out[b] == order[b]);
        } else if b == at {
            assert(out[a] == order[a] && out[b] == x);
            assert(comes_before(keys, order[a], order[at - 1]) || a == at - 1);
            assert(keys[order[at - 1]] <= keys[x]);
        } else if a < at {
            assert(out[a] == order[a] && out[b] == order[b - 1]);
        } else if a == at {
            assert(out[a] == x && out[b] == order[b - 1]);
            assert(keys[order[b - 1]] > keys[x]);
        } else {
            assert(out[a] == order[a - 1] && out[b] == order[b - 1]);
        }
    }
    assert forall|k: int| 0 <= k < x + 1 implies 0 <= #[trigger] out[k] < x + 1 by {
        if k < at {
            assert(out[k] == order[k]);
        } else if k > at {
            assert(out[k] == order[k - 1]);
        }
    }
}

/// Where `insert_by_key` puts `x`: behind the last position whose key is not
/// greater.
pub open spec fn insert_point(keys: Seq<int>, order: Seq<int>, x: int) -> int
    decreases order.len(),
{
    if order.len() == 0 {
        0
    } else if keys[order.last()] <= keys[x] {
        order.len() as int
    } else {
        insert_point(keys, order.drop_last(), x)
    }
}

/// `insert_by_key` inserts at `insert_point`: the position before it has a key
/// that is not greater, every position from it on a greater one.
pub proof fn lemma_insert_shape(keys: Seq<int>, order: Seq<int>, x: int)
    ensures
        0 <= insert_point(keys, order, x) <= order.len(),
        insert_by_key(keys, order, x) == order.insert(insert_point(keys, order, x), x),
        insert_point(keys, order, x) > 0 ==> keys[order[insert_point(keys, order, x) - 1]]
            <= keys[x],
        forall|k: int|
            insert_point(keys, order, x) <= k < order.len() ==> keys[#[trigger] order[k]] > keys[x],
    decreases order.len(),
{
    if order.len() == 0 {
        assert(seq![x] =~= order.insert(0, x));
    } else if keys[order.last()] <= keys[x] {
        assert(order.push(x) =~= order.insert(order.len() as int, x));
    } else {
        let front = order.drop_last();
        lemma_insert_shape(keys, front, x);
        let at = insert_point(keys, front, x);
        assert(front.insert(at, x).push(order.last()) =~= order.insert(at, x));
        assert forall|k: int| at <= k < order.len() implies keys[#[trigger] order[k]] > keys[x] by {
            if k < front.len() {
                assert(order[k] == front[k]);
            }
        }
        if at > 0 {
            assert(order[at - 1] == front[at - 1]);
        }
    }
}

/// `stable_order` lists every position once, by ascending key, and positions
/// with equal keys in ascending order.
pub proof fn lemma_stable_order(keys: Seq<int>)
    ensures
        is_permutation(stable_order(keys), keys.len() as int),
        ascending(keys, stable_order(keys)),
    decreases keys.len(),
{
    if keys.len() > 0 {
        let front = keys.drop_last();
        lemma_stable_order(front);
        let order = stable_order(front);
        assert(ascending(keys, order)) by {
            assert forall|a: int, b: int| 0 <= a < b < order.len() implies comes_before(
                keys,
                order[a],
                order[b],
            ) by {
                assert(comes_before(front, order[a], order[b]));
            }
        }
        lemma_insert_by_key(keys, order, keys.len() - 1);
    }
}

/// Summed up in the order of `stable_order`, values sum to what they sum to
/// in their own order.
pub proof fn lemma_stable_order_total(keys: Seq<int>, s: Seq<int>)
    requires
        s.len() == keys.len(),
    ensures
        total(picked(s, stable_order(keys))) == total(s),
    decreases keys.len(),
{
    if keys.len() > 0 {
        let n = keys.len() as int;
        let front = keys.drop_last();
        let before = stable_order(front);
        lemma_stable_order(front);
        lemma_stable_order_total(front, s.drop_last());
        assert(ascending(keys, before)) by {
            assert forall|a: int, b: int| 0 <= a < b < before.len() implies comes_before(
                keys,
                before[a],
                before[b],
            ) by {
                assert(comes_before(front, before[a], before[b]));
            }
        }
        lemma_insert_shape(keys, before, n - 1);
        let at = insert_point(keys, before, n - 1);
        assert(picked(s, stable_order(keys)) =~= picked(s.drop_last(), before).insert(
            at,
            s[n - 1],
        ));
        lemma_total_insert(picked(s.drop_last(), before), at, s[n - 1]);
    } else {
        assert(picked(s, stable_order(keys)) =~= Seq::<int>::empty());
    }
}

/// Sorts the positions of `keys` by ascending key, keeping positions with equal
/// keys in their order. One pass from the back per position: linear when the
/// keys already ascend.
pub fn sort_indices(keys: &Vec<i128>) -> (order: Vec<usize>)
    ensures
        order@.len() == keys@.len(),
        positions(order@) == stable_order(key_values(keys@)),
        forall|k: int| 0 <= k < order@.len() ==> #[trigger] order@[k] < keys@.len(),
{
    let n = keys.len();
    let mut order: Vec<usize> = Vec::new();
    let ghost all = key_values(keys@);
    let mut i: usize = 0;
    while i < n
        invariant
            n == keys@.len(),
            all == key_values(keys@),
            0 <= i <= n,
            order@.len() == i,
            positions(order@) == stable_order(all.take(i as int)),
            forall|k: int| 0 <= k < order@.len() ==> #[trigger] order@[k] < i,
        decreases n - i,
    {
        let ghost upto = all.take(i as int + 1);
        let ghost before = positions(order@);
        let mut j: usize = order.len();
        proof {
            assert(before.take(j as int) =~= before);
            assert(insert_by_key(upto, before, i as int) + before.skip(j as int)
                =~= insert_by_key(upto, before, i as int));
        }
        while j > 0 && keys[order[j - 1]] > keys[i]
            invariant
                n == keys@.len(),
                all == key_values(keys@),
                upto == all.take(i as int + 1),
                before == positions(order@),
                i < n,
                0 <= j <= order@.len(),
                order@.len() == i,
                forall|k: int| 0 <= k < order@.len() ==> #[trigger] order@[k] < i,
                insert_by_key(upto, before, i as int) == insert_by_key(
                    upto,
                    before.take(j as int),
                    i as int,
                ) + before.skip(j as int),
            decreases j,
        {
            proof {
                let head = before.take(j as int);
                assert(head.last() == order@[j - 1] as int);
                assert(upto[head.last()] == keys@[order@[j - 1] as int] as int);
                assert(upto[i as int] == keys@[i as int] as int);
                assert(head.drop_last() =~= before.take(j - 1));
                assert(insert_by_key(upto, before.take(j - 1), i as int).push(head.last())
                    + before.skip(j as int) =~= insert_by_key(
                    upto,
                    before.take(j - 1),
                    i as int,
                ) + before.skip(j - 1));
            }
            j -= 1;
        }
        proof {
            assert(before.take(before.len() as int) =~= before);
            let head = before.take(j as int);
            if j > 0 {
                assert(head.last() == order@[j - 1] as int);
                assert(upto[head.last()] == keys@[order@[j - 1] as int] as int);
                assert(upto[i as int] == keys@[i as int] as int);
            }
            assert(insert_by_key(upto, head, i as int) == head.push(i as int));
            assert(upto.drop_last() =~= all.take(i as int));
            assert(head.push(i as int) + before.skip(j as int) =~= before.insert(
                j as int,
                i as int,
            ));
            assert(positions(order@.insert(j as int, i)) =~= before.insert(j as int, i as int));
        }
        order.insert(j, i);
        i += 1;
    }
    proof {
        assert(all.take(n as int) =~= all);
    }
    order
}

} // verus!
