//! Stable ordering by a key.

use vstd::prelude::*;

verus! {

/// A list of machine integers as mathematical ones.
pub open spec fn ints(v: Seq<usize>) -> Seq<int> {
    Seq::new(v.len(), |i: int| v[i] as int)
}

/// Keys as mathematical integers.
pub open spec fn int_keys(v: Seq<u64>) -> Seq<int> {
    Seq::new(v.len(), |i: int| v[i] as int)
}

/// `order` with the item `k` put in by its key, behind those with the same key.
pub open spec fn insert_by_key(keys: Seq<int>, order: Seq<int>, k: int) -> Seq<int>
    decreases order.len(),
{
    if order.len() == 0 || keys[order.last()] <= keys[k] {
        order.push(k)
    } else {
        insert_by_key(keys, order.drop_last(), k).push(order.last())
    }
}

/// The first `n` items in the order of their keys; items with the same key in
/// the order in which they are listed.
pub open spec fn stable_order(keys: Seq<int>, n: nat) -> Seq<int>
    decreases n,
{
    if n == 0 {
        Seq::empty()
    } else {
        insert_by_key(keys, stable_order(keys, (n - 1) as nat), n - 1)
    }
}

/// Whether one item comes before another: its key is lower, or the same with a
/// lower index.
pub open spec fn precedes(keys: Seq<int>, a: int, b: int) -> bool {
    keys[a] < keys[b] || (keys[a] == keys[b] && a < b)
}

/// The order lists each of `n` items once, by key and then by index.
pub open spec fn is_stable_order(keys: Seq<int>, order: Seq<int>, n: nat) -> bool {
    &&& order.len() == n
    &&& forall|i: int| 0 <= i < order.len() ==> 0 <= #[trigger] order[i] < n
    &&& forall|i: int, j: int|
        0 <= i < j < order.len() ==> precedes(keys, #[trigger] order[i], #[trigger] order[j])
}

/// Insertion by key is insertion behind the last item whose key is not higher.
proof fn lemma_insert_at(keys: Seq<int>, order: Seq<int>, k: int, j: int)
    requires
        0 <= j <= order.len(),
        forall|t: int| j <= t < order.len() ==> keys[#[trigger] order[t]] > keys[k],
        j > 0 ==> keys[order[j - 1]] <= keys[k],
    ensures
        insert_by_key(keys, order, k) == order.insert(j, k),
    decreases order.len(),
{
    if j == order.len() {
        assert(order.push(k) == order.insert(j, k));
    } else {
        let front = order.drop_last();
        assert(keys[order[order.len() - 1]] > keys[k]);
        assert forall|t: int| j <= t < front.len() implies keys[#[trigger] front[t]]
            > keys[k] by {
            assert(front[t] == order[t]);
        }
        lemma_insert_at(keys, front, k, j);
        assert(front.insert(j, k).push(order.last()) == order.insert(j, k));
    }
}

/// There is a last item whose key is not higher, or none.
proof fn lemma_insert_position(keys: Seq<int>, order: Seq<int>, k: int) -> (j: int)
    ensures
        0 <= j <= order.len(),
        forall|t: int| j <= t < order.len() ==> keys[#[trigger] order[t]] > keys[k],
        j > 0 ==> keys[order[j - 1]] <= keys[k],
    decreases order.len(),
{
    if order.len() == 0 || keys[order.last()] <= keys[k] {
        order.len() as int
    } else {
        let front = order.drop_last();
        let j = lemma_insert_position(keys, front, k);
        assert forall|t: int| j <= t < order.len() implies keys[#[trigger] order[t]]
            > keys[k] by {
            if t < front.len() {
                assert(front[t] == order[t]);
            }
        }
        j
    }
}

proof fn lemma_insert_by_key(keys: Seq<int>, order: Seq<int>, k: nat)
    requires
        is_stable_order(keys, order, k),
    ensures
        is_stable_order(keys, insert_by_key(keys, order, k as int), (k + 1) as nat),
{
    let j = lemma_insert_position(keys, order, k as int);
    lemma_insert_at(keys, order, k as int, j);
    let all = order.insert(j, k as int);
    assert forall|a: int, b: int| 0 <= a < b < all.len() implies precedes(
        keys,
        #[trigger] all[a],
        #[trigger] all[b],
    ) by {
        let x = if a < j {
            a
        } else {
            a - 1
        };
        let y = if b < j {
            b
        } else {
            b - 1
        };
        if a != j && b != j {
            assert(all[a] == order[x] && all[b] == order[y]);
        } else if a == j {
            assert(all[b] == order[y]);
        } else {
            assert(all[a] == order[x]);
            if a < j - 1 {
                assert(precedes(keys, order[a], order[j - 1]));
            }
        }
    }
    assert forall|i: int| 0 <= i < all.len() implies 0 <= #[trigger] all[i] < k + 1 by {
        if i < j {
            assert(all[i] == order[i]);
        } else if i > j {
            assert(all[i] == order[i - 1]);
        }
    }
}

/// The stable order lists every item once, by key and then by index.
pub proof fn order_is_stable(keys: Seq<int>, n: nat)
    ensures
        is_stable_order(keys, stable_order(keys, n), n),
    decreases n,
{
    if n > 0 {
        order_is_stable(keys, (n - 1) as nat);
        lemma_insert_by_key(keys, stable_order(keys, (n - 1) as nat), (n - 1) as nat);
    }
}

/// A stable order of `n` items holds every index below `n`.
pub proof fn order_covers(keys: Seq<int>, order: Seq<int>, n: nat, a: int)
    requires
        is_stable_order(keys, order, n),
        0 <= a < n,
    ensures
        exists|i: int| 0 <= i < order.len() && order[i] == a,
{
    assert forall|i: int, j: int| 0 <= i < j < order.len() implies order[i] != order[j] by {
        assert(precedes(keys, order[i], order[j]));
    }
    assert(order.no_duplicates());
    order.unique_seq_to_set();
    vstd::set_lib::lemma_int_range(0, n as int);
    assert(order.to_set().subset_of(vstd::set_lib::set_int_range(0, n as int)));
    vstd::set_lib::lemma_subset_equality(
        order.to_set(),
        vstd::set_lib::set_int_range(0, n as int),
    );
    assert(order.to_set().contains(a));
}

/// The items in the order of their keys.
pub fn order_by_key(keys: &[u64]) -> (r: Vec<usize>)
    ensures
        ints(r@) == stable_order(int_keys(keys@), keys@.len()),
        r@.len() == keys@.len(),
        forall|i: int| 0 <= i < r@.len() ==> #[trigger] r@[i] < keys@.len(),
{
    let n: usize = keys.len();
    let ghost all = int_keys(keys@);
    let mut order: Vec<usize> = Vec::new();
    let mut k: usize = 0;
    while k < n
        invariant
            n == keys@.len(),
            all == int_keys(keys@),
            k <= n,
            order@.len() == k,
            ints(order@) == stable_order(all, k as nat),
            forall|i: int| 0 <= i < order@.len() ==> #[trigger] order@[i] < n,
        decreases n - k,
    {
        let mut j: usize = k;
        while j > 0 && keys[order[j - 1]] > keys[k]
            invariant
                n == keys@.len(),
                all == int_keys(keys@),
                k < n,
                order@.len() == k,
                j <= k,
                forall|i: int| 0 <= i < order@.len() ==> #[trigger] order@[i] < n,
                forall|t: int| j <= t < k ==> all[#[trigger] ints(order@)[t]] > all[k as int],
            decreases j,
        {
            j = j - 1;
        }
        let ghost before = ints(order@);
        order.insert(j, k);
        proof {
            lemma_insert_at(all, before, k as int, j as int);
            assert(ints(order@) == before.insert(j as int, k as int));
        }
        k = k + 1;
    }
    order
}

// ---------------------------------------------------------------------------
// Sums over items
// ---------------------------------------------------------------------------

/// The sum of the weights of those of the first `n` items that `p` picks.
pub open spec fn sum_where(weights: Seq<int>, p: spec_fn(int) -> bool, n: nat) -> int
    decreases n,
{
    if n == 0 {
        0
    } else {
        sum_where(weights, p, (n - 1) as nat) + if p(n - 1) {
            weights[n - 1]
        } else {
            0
        }
    }
}

/// The sum of the weights of the first `n` items.
pub open spec fn sum_of(weights: Seq<int>, n: nat) -> int
    decreases n,
{
    if n == 0 {
        0
    } else {
        sum_of(weights, (n - 1) as nat) + weights[n - 1]
    }
}

/// Picking every item gives the sum of all weights.
pub proof fn lemma_sum_every(weights: Seq<int>, p: spec_fn(int) -> bool, n: nat)
    requires
        forall|i: int| 0 <= i < n ==> #[trigger] p(i),
    ensures
        sum_where(weights, p, n) == sum_of(weights, n),
    decreases n,
{
    if n > 0 {
        lemma_sum_every(weights, p, (n - 1) as nat);
        assert(p(n - 1));
    }
}

/// The sum of the weights of the first `k` items of an order.
pub open spec fn sum_along(weights: Seq<int>, order: Seq<int>, k: int) -> int
    decreases k,
{
    if k <= 0 {
        0
    } else {
        sum_along(weights, order, k - 1) + weights[order[k - 1]]
    }
}

/// Which items are picked decides the sum.
pub proof fn lemma_sum_same(
    weights: Seq<int>,
    p: spec_fn(int) -> bool,
    q: spec_fn(int) -> bool,
    n: nat,
)
    requires
        forall|i: int| 0 <= i < n ==> (#[trigger] p(i) <==> q(i)),
    ensures
        sum_where(weights, p, n) == sum_where(weights, q, n),
    decreases n,
{
    if n > 0 {
        lemma_sum_same(weights, p, q, (n - 1) as nat);
        assert(p(n - 1) <==> q(n - 1));
    }
}

/// Picking nothing sums up to nothing.
pub proof fn lemma_sum_none(weights: Seq<int>, p: spec_fn(int) -> bool, n: nat)
    requires
        forall|i: int| 0 <= i < n ==> !#[trigger] p(i),
    ensures
        sum_where(weights, p, n) == 0,
    decreases n,
{
    if n > 0 {
        lemma_sum_none(weights, p, (n - 1) as nat);
        assert(!p(n - 1));
    }
}

/// Picking one more item adds its weight.
pub proof fn lemma_sum_more(
    weights: Seq<int>,
    p: spec_fn(int) -> bool,
    q: spec_fn(int) -> bool,
    x: int,
    n: nat,
)
    requires
        0 <= x < n,
        !p(x),
        q(x),
        forall|i: int| 0 <= i < n && i != x ==> (#[trigger] p(i) <==> q(i)),
    ensures
        sum_where(weights, q, n) == sum_where(weights, p, n) + weights[x],
    decreases n,
{
    if x == n - 1 {
        lemma_sum_same(weights, p, q, (n - 1) as nat);
    } else {
        lemma_sum_more(weights, p, q, x, (n - 1) as nat);
        assert(p(n - 1) <==> q(n - 1));
    }
}

/// The items that an order lists before its place `k` are those that come
/// before the item there.
pub proof fn lemma_sum_before(keys: Seq<int>, weights: Seq<int>, order: Seq<int>, n: nat, k: int)
    requires
        is_stable_order(keys, order, n),
        0 <= k <= n,
    ensures
        k < n ==> sum_along(weights, order, k) == sum_where(
            weights,
            |i: int| keys[i] < keys[order[k]] || (keys[i] == keys[order[k]] && i < order[k]),
            n,
        ),
        k == n ==> sum_along(weights, order, k) == sum_of(weights, n),
    decreases k,
{
    let listed = |i: int| exists|t: int| 0 <= t < k && order[t] == i;
    lemma_sum_listed(keys, weights, order, n, k);
    assert(sum_along(weights, order, k) == sum_where(weights, listed, n));
    if k < n {
        let x = order[k];
        let before = |i: int| keys[i] < keys[x] || (keys[i] == keys[x] && i < x);
        assert forall|i: int| 0 <= i < n implies (#[trigger] listed(i) <==> before(i)) by {
            order_covers(keys, order, n, i);
            let t = choose|t: int| 0 <= t < order.len() && order[t] == i;
            if listed(i) {
                let u = choose|u: int| 0 <= u < k && order[u] == i;
                assert(precedes(keys, order[u], order[k]));
            }
            if before(i) {
                if t >= k {
                    if t > k {
                        assert(precedes(keys, order[k], order[t]));
                    }
                    assert(false);
                }
                assert(listed(i));
            }
        }
        lemma_sum_same(weights, listed, before, n);
    } else {
        assert forall|i: int| 0 <= i < n implies #[trigger] listed(i) by {
            order_covers(keys, order, n, i);
            let t = choose|t: int| 0 <= t < order.len() && order[t] == i;
            assert(0 <= t < k && order[t] == i);
        }
        lemma_sum_every(weights, listed, n);
    }
}

proof fn lemma_sum_listed(keys: Seq<int>, weights: Seq<int>, order: Seq<int>, n: nat, k: int)
    requires
        is_stable_order(keys, order, n),
        0 <= k <= n,
    ensures
        sum_along(weights, order, k) == sum_where(
            weights,
            |i: int| exists|t: int| 0 <= t < k && order[t] == i,
            n,
        ),
    decreases k,
{
    let listed = |i: int| exists|t: int| 0 <= t < k && order[t] == i;
    if k == 0 {
        lemma_sum_none(weights, listed, n);
    } else {
        let x = order[k - 1];
        let fewer = |i: int| exists|t: int| 0 <= t < k - 1 && order[t] == i;
        lemma_sum_listed(keys, weights, order, n, k - 1);
        if fewer(x) {
            let t = choose|t: int| 0 <= t < k - 1 && order[t] == x;
            assert(precedes(keys, order[t], order[k - 1]));
            assert(false);
        }
        assert(listed(x)) by {
            assert(0 <= k - 1 < k && order[k - 1] == x);
        }
        assert forall|i: int| 0 <= i < n && i != x implies (#[trigger] fewer(i) <==> listed(
            i,
        )) by {
            if listed(i) {
                let t = choose|t: int| 0 <= t < k && order[t] == i;
                assert(0 <= t < k - 1 && order[t] == i);
            }
            if fewer(i) {
                let t = choose|t: int| 0 <= t < k - 1 && order[t] == i;
                assert(0 <= t < k && order[t] == i);
            }
        }
        lemma_sum_more(weights, fewer, listed, x, n);
    }
}

/// The stable order holds each index once; of two items the one with the lower
/// key comes first, and of two with the same key the one listed first.
pub proof fn lower_keys_come_first(keys: Seq<int>, n: nat)
    ensures
        stable_order(keys, n).len() == n,
        forall|a: int| 0 <= a < n ==> #[trigger] stable_order(keys, n).contains(a),
        forall|i: int, j: int|
            0 <= i < j < n ==> {
                let a = #[trigger] stable_order(keys, n)[i];
                let b = #[trigger] stable_order(keys, n)[j];
                &&& 0 <= a < n
                &&& 0 <= b < n
                &&& keys[a] <= keys[b]
                &&& keys[a] == keys[b] ==> a < b
            },
{
    let order = stable_order(keys, n);
    order_is_stable(keys, n);
    assert forall|a: int| 0 <= a < n implies #[trigger] order.contains(a) by {
        order_covers(keys, order, n, a);
    }
    assert forall|i: int, j: int| 0 <= i < j < n implies {
        let a = #[trigger] order[i];
        let b = #[trigger] order[j];
        &&& 0 <= a < n
        &&& 0 <= b < n
        &&& keys[a] <= keys[b]
        &&& keys[a] == keys[b] ==> a < b
    } by {
        assert(precedes(keys, order[i], order[j]));
    }
}

} // verus!
