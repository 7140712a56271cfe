//! Stable ordering of positions by key, largest key first.
//!
//! Sorting is done on positions rather than on values: given the keys of a
//! sequence, `descending_order` lists the positions `0..keys.len()` so that
//! keys never increase, positions with equal keys staying in increasing
//! order. Callers then read their values in that order.

use vstd::prelude::*;

verus! {

/// `order` with position `i` put in: behind every position whose key is at
/// least that of `i`, before the others.
pub open spec fn insert_by_key(order: Seq<int>, keys: Seq<int>, i: int) -> Seq<int>
    decreases order.len(),
{
    if order.len() == 0 || keys[order.last()] >= keys[i] {
        order.push(i)
    } else {
        insert_by_key(order.drop_last(), keys, i).push(order.last())
    }
}

/// The first `n` positions of `keys`, ordered by key, largest first.
pub open spec fn order_of_first(keys: Seq<int>, n: nat) -> Seq<int>
    decreases n,
{
    if n == 0 {
        Seq::empty()
    } else {
        insert_by_key(order_of_first(keys, (n - 1) as nat), keys, n - 1)
    }
}

/// All positions of `keys`, ordered by key, largest first; positions with
/// equal keys stay in increasing order.
pub open spec fn descending_order(keys: Seq<int>) -> Seq<int> {
    order_of_first(keys, keys.len())
}

/// `order` lists each of the first `n` positions of `keys` once, keys never
/// increasing and equal keys in increasing position.
pub open spec fn is_stable_descending(keys: Seq<int>, n: nat, order: Seq<int>) -> bool {
    &&& order.len() == n
    &&& forall|a: int| 0 <= a < order.len() ==> 0 <= #[trigger] order[a] < n
    &&& forall|i: int| 0 <= i < n ==> order.contains(i)
    &&& forall|a: int, b: int|
        0 <= a < b < order.len() ==> keys[#[trigger] order[a]] > keys[#[trigger] order[b]] || (
        keys[order[a]] == keys[order[b]] && order[a] < order[b])
}

/// The integer keys of a vector of machine integers.
pub open spec fn key_view(keys: Seq<i128>) -> Seq<int> {
    keys.map_values(|k: i128| k as int)
}

/// The positions held by a vector of indices.
pub open spec fn position_view(order: Seq<usize>) -> Seq<int> {
    order.map_values(|i: usize| i as int)
}

/// Where `insert_by_key` puts a position: at `p`, if every position from `p`
/// on has a smaller key and the one before `p` has not.
pub proof fn lemma_insert_position(order: Seq<int>, keys: Seq<int>, i: int, p: int)
    requires
        0 <= p <= order.len(),
        forall|j: int| p <= j < order.len() ==> keys[#[trigger] order[j]] < keys[i],
        p > 0 ==> keys[order[p - 1]] >= keys[i],
    ensures
        insert_by_key(order, keys, i) == order.insert(p, i),
    decreases order.len(),
{
    if p == order.len() {
        assert(order.push(i) =~= order.insert(p, i));
    } else {
        let rest = order.drop_last();
        assert(keys[order[order.len() - 1]] < keys[i]);
        assert forall|j: int| p <= j < rest.len() implies keys[#[trigger] rest[j]] < keys[i] by {
            assert(rest[j] == order[j]);
        }
        lemma_insert_position(rest, keys, i, p);
        assert(rest.insert(p, i).push(order.last()) =~= order.insert(p, i));
    }
}

/// `insert_by_key` puts the position somewhere that `lemma_insert_position`
/// describes.
proof fn lemma_insert_by_key(order: Seq<int>, keys: Seq<int>, i: int) -> (p: int)
    ensures
        0 <= p <= order.len(),
        forall|j: int| p <= j < order.len() ==> keys[#[trigger] order[j]] < keys[i],
        p > 0 ==> keys[order[p - 1]] >= keys[i],
        insert_by_key(order, keys, i) == order.insert(p, i),
    decreases order.len(),
{
    if order.len() == 0 || keys[order.last()] >= keys[i] {
        let p = order.len() as int;
        lemma_insert_position(order, keys, i, p);
        p
    } else {
        let rest = order.drop_last();
        let p = lemma_insert_by_key(rest, keys, i);
        assert forall|j: int| p <= j < order.len() implies keys[#[trigger] order[j]] < keys[i] by {
            if j < rest.len() {
                assert(rest[j] == order[j]);
            }
        }
        lemma_insert_position(order, keys, i, p);
        p
    }
}

/// `order_of_first` is a stable descending order of the first `n` positions.
pub proof fn lemma_order_of_first(keys: Seq<int>, n: nat)
    requires
        n <= keys.len(),
    ensures
        is_stable_descending(keys, n, order_of_first(keys, n)),
    decreases n,
{
    if n > 0 {
        let m = (n - 1) as nat;
        let before = order_of_first(keys, m);
        lemma_order_of_first(keys, m);
        let p = lemma_insert_by_key(before, keys, n - 1);
        let after = before.insert(p, n - 1);
        assert(after == order_of_first(keys, n));
        assert forall|a: int| 0 <= a < after.len() implies 0 <= #[trigger] after[a] < n by {
            if a < p {
                assert(after[a] == before[a]);
            } else if a > p {
                assert(after[a] == before[a - 1]);
            }
        }
        assert forall|i: int| 0 <= i < n implies after.contains(i) by {
            if i == n - 1 {
                assert(after[p] == i);
            } else {
                assert(before.contains(i));
                let a = choose|a: int| 0 <= a < before.len() && before[a] == i;
                if a < p {
                    assert(after[a] == i);
                } else {
                    assert(after[a + 1] == i);
                }
            }
        }
        assert forall|a: int, b: int| 0 <= a < b < after.len() implies keys[#[trigger] after[a]]
            > keys[#[trigger] after[b]] || (keys[after[a]] == keys[after[b]] && after[a]
            < after[b]) by {
            let a0 = if a < p { a } else { a - 1 };
            let b0 = if b < p { b } else { b - 1 };
            if a != p {
                assert(after[a] == before[a0]);
            }
            if b != p {
                assert(after[b] == before[b0]);
            }
            if a == p {
                assert(keys[before[b0]] < keys[n - 1]);
            } else if b == p {
                assert(keys[before[p - 1]] >= keys[n - 1]);
                assert(before[a0] < n - 1);
                if a0 < p - 1 {
                    assert(keys[before[a0]] > keys[before[p - 1]] || (keys[before[a0]]
                        == keys[before[p - 1]] && before[a0] < before[p - 1]));
                }
            } else {
                assert(a0 < b0);
            }
        }
    }
}

/// `descending_order` is a stable descending order of all positions.
pub proof fn lemma_descending_order(keys: Seq<int>)
    ensures
        is_stable_descending(keys, keys.len(), descending_order(keys)),
{
    lemma_order_of_first(keys, keys.len());
}

/// Two stable descending orders of the same positions agree on their first
/// `j` places.
proof fn lemma_orders_agree(keys: Seq<int>, n: nat, a: Seq<int>, b: Seq<int>, j: int)
    requires
        is_stable_descending(keys, n, a),
        is_stable_descending(keys, n, b),
        0 <= j <= n,
    ensures
        forall|i: int| 0 <= i < j ==> a[i] == b[i],
    decreases j,
{
    if j > 0 {
        lemma_orders_agree(keys, n, a, b, j - 1);
        let at = j - 1;
        let x = a[at];
        let y = b[at];
        assert(0 <= x < n);
        assert(0 <= y < n);
        assert(b.contains(x));
        assert(a.contains(y));
        let t = choose|t: int| 0 <= t < b.len() && b[t] == x;
        let s = choose|s: int| 0 <= s < a.len() && a[s] == y;
        if t < at {
            assert(a[t] == b[t]);
            assert(keys[a[t]] > keys[a[at]] || (keys[a[t]] == keys[a[at]] && a[t] < a[at]));
        } else if t > at {
            assert(keys[b[at]] > keys[b[t]] || (keys[b[at]] == keys[b[t]] && b[at] < b[t]));
            if s < at {
                assert(a[s] == b[s]);
                assert(keys[b[s]] > keys[b[at]] || (keys[b[s]] == keys[b[at]] && b[s] < b[at]));
            } else if s > at {
                assert(keys[a[at]] > keys[a[s]] || (keys[a[at]] == keys[a[s]] && a[at] < a[s]));
            }
        }
        assert(x == y);
    }
}

/// There is one stable descending order only: `descending_order`.
pub proof fn lemma_stable_descending_unique(keys: Seq<int>, order: Seq<int>)
    requires
        is_stable_descending(keys, keys.len(), order),
    ensures
        order == descending_order(keys),
{
    lemma_descending_order(keys);
    lemma_orders_agree(keys, keys.len(), order, descending_order(keys), keys.len() as int);
    assert(order =~= descending_order(keys));
}

/// The positions of `keys`, largest key first, positions with equal keys in
/// increasing order.
pub fn sort_descending(keys: &Vec<i128>) -> (order: Vec<usize>)
    ensures
        position_view(order@) == descending_order(key_view(keys@)),
        is_stable_descending(key_view(keys@), keys@.len(), position_view(order@)),
{
    let ghost k = key_view(keys@);
    let mut order: Vec<usize> = Vec::new();
    let mut i: usize = 0;
    while i < keys.len()
        invariant
            i <= keys.len(),
            k == key_view(keys@),
            position_view(order@) =~= order_of_first(k, i as nat),
        decreases keys.len() - i,
    {
        proof {
            lemma_order_of_first(k, i as nat);
            assert forall|j: int| 0 <= j < order@.len() implies #[trigger] order@[j] < i by {
                assert(0 <= position_view(order@)[j] < i);
            }
        }
        let mut p: usize = order.len();
        while p > 0 && keys[order[p - 1]] < keys[i]
            invariant
                p <= order.len(),
                i < keys.len(),
                k == key_view(keys@),
                forall|j: int| 0 <= j < order@.len() ==> #[trigger] order@[j] < i,
                forall|j: int|
                    p <= j < order@.len() ==> k[#[trigger] position_view(order@)[j]] < k[i as int],
            decreases p,
        {
            p -= 1;
        }
        proof {
            lemma_insert_position(position_view(order@), k, i as int, p as int);
        }
        let ghost before = position_view(order@);
        order.insert(p, i);
        assert(position_view(order@) =~= before.insert(p as int, i as int));
        i += 1;
    }
    proof {
        lemma_descending_order(k);
    }
    order
}

/// The positions at which `flags` holds, in increasing order.
pub open spec fn positions_where(flags: Seq<bool>) -> Seq<int>
    decreases flags.len(),
{
    if flags.len() == 0 {
        Seq::empty()
    } else {
        let rest = positions_where(flags.drop_last());
        if flags.last() {
            rest.push(flags.len() - 1)
        } else {
            rest
        }
    }
}

/// `positions` read in the order that `order` gives.
pub open spec fn arranged(positions: Seq<int>, order: Seq<int>) -> Seq<int> {
    Seq::new(order.len(), |j: int| positions[order[j]])
}

/// The first `limit` of `positions`, or all of them if there are fewer.
pub open spec fn top(positions: Seq<int>, limit: nat) -> Seq<int> {
    if positions.len() <= limit {
        positions
    } else {
        positions.take(limit as int)
    }
}

/// Every position lies within a sequence of `n` items.
pub open spec fn in_range(positions: Seq<usize>, n: nat) -> bool {
    forall|j: int| 0 <= j < positions.len() ==> #[trigger] positions[j] < n
}

/// `positions_where` lists exactly the positions at which `flags` holds, each
/// once and in increasing order.
pub proof fn lemma_positions_where(flags: Seq<bool>)
    ensures
        forall|j: int|
            0 <= j < positions_where(flags).len() ==> 0 <= #[trigger] positions_where(flags)[j]
                < flags.len() && flags[positions_where(flags)[j]],
        forall|i: int|
            0 <= i < flags.len() && flags[i] ==> #[trigger] positions_where(flags).contains(i),
        forall|a: int, b: int|
            0 <= a < b < positions_where(flags).len() ==> #[trigger] positions_where(flags)[a]
                < #[trigger] positions_where(flags)[b],
        positions_where(flags).len() <= flags.len(),
    decreases flags.len(),
{
    if flags.len() > 0 {
        let rest = positions_where(flags.drop_last());
        lemma_positions_where(flags.drop_last());
        let all = positions_where(flags);
        assert forall|i: int| 0 <= i < flags.len() && flags[i] implies #[trigger] all.contains(
            i,
        ) by {
            if i < flags.len() - 1 {
                assert(flags.drop_last()[i]);
                assert(rest.contains(i));
                let j = choose|j: int| 0 <= j < rest.len() && rest[j] == i;
                assert(all[j] == i);
            } else {
                assert(all[all.len() - 1] == i);
            }
        }
        assert forall|j: int| 0 <= j < all.len() implies 0 <= #[trigger] all[j] < flags.len()
            && flags[all[j]] by {
            if j < rest.len() {
                assert(all[j] == rest[j]);
                assert(flags.drop_last()[rest[j]]);
            }
        }
        assert forall|a: int, b: int| 0 <= a < b < all.len() implies #[trigger] all[a]
            < #[trigger] all[b] by {
            assert(all[a] == rest[a]);
            if b < rest.len() {
                assert(all[b] == rest[b]);
            }
        }
    }
}

/// The positions at which `flags` holds, in increasing order.
pub(crate) fn select(flags: &Vec<bool>) -> (positions: Vec<usize>)
    ensures
        position_view(positions@) == positions_where(flags@),
        in_range(positions@, flags@.len()),
{
    let mut positions: Vec<usize> = Vec::new();
    let mut i: usize = 0;
    while i < flags.len()
        invariant
            i <= flags.len(),
            position_view(positions@) =~= positions_where(flags@.take(i as int)),
            in_range(positions@, i as nat),
        decreases flags.len() - i,
    {
        assert(flags@.take(i + 1).drop_last() =~= flags@.take(i as int));
        if flags[i] {
            positions.push(i);
        }
        i += 1;
    }
    assert(flags@.take(flags@.len() as int) =~= flags@);
    positions
}

/// `positions` read in the order that `order` gives.
pub(crate) fn arrange(positions: &Vec<usize>, order: &Vec<usize>) -> (r: Vec<usize>)
    requires
        in_range(order@, positions@.len()),
    ensures
        position_view(r@) == arranged(position_view(positions@), position_view(order@)),
        r@.len() == order@.len(),
        forall|j: int| 0 <= j < r@.len() ==> #[trigger] r@[j] == positions@[order@[j] as int],
{
    let mut r: Vec<usize> = Vec::new();
    let mut j: usize = 0;
    while j < order.len()
        invariant
            j <= order.len(),
            in_range(order@, positions@.len()),
            r@.len() == j,
            forall|t: int| 0 <= t < j ==> #[trigger] r@[t] == positions@[order@[t] as int],
        decreases order.len() - j,
    {
        r.push(positions[order[j]]);
        j += 1;
    }
    assert(position_view(r@) =~= arranged(position_view(positions@), position_view(order@)));
    r
}

} // verus!
