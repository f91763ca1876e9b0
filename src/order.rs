//! Stable ordering of items by an integer key (a start or a due time).

use vstd::prelude::*;

verus! {

/// Where an item of key `key` goes in `order` (indices into `keys`): before
/// the first index whose key is greater, so that equal keys keep their order.
pub open spec fn insert_pos(order: Seq<int>, keys: Seq<i64>, key: i64) -> int
    decreases order.len(),
{
    if order.len() == 0 {
        0
    } else if keys[order[0]] > key {
        0
    } else {
        1 + insert_pos(order.drop_first(), keys, key)
    }
}

/// The indices `0..n` of `keys`, ordered by key; equal keys stay in index
/// order (insertion sort).
pub open spec fn stable_order(keys: Seq<i64>, n: nat) -> Seq<int>
    decreases n,
{
    if n == 0 {
        Seq::empty()
    } else {
        let prev = stable_order(keys, (n - 1) as nat);
        prev.insert(insert_pos(prev, keys, keys[n - 1]), n - 1)
    }
}

pub open spec fn ordered_by(order: Seq<int>, keys: Seq<i64>) -> bool {
    forall|a: int, b: int| 0 <= a < b < order.len() ==> keys[order[a]] <= keys[order[b]]
}

proof fn lemma_insert_pos_found(order: Seq<int>, keys: Seq<i64>, key: i64, p: int)
    requires
        0 <= p <= order.len(),
        forall|q: int| 0 <= q < p ==> keys[#[trigger] order[q]] <= key,
        p < order.len() ==> keys[order[p]] > key,
    ensures
        insert_pos(order, keys, key) == p,
    decreases order.len(),
{
    if order.len() > 0 && p > 0 {
        let rest = order.drop_first();
        assert forall|q: int| 0 <= q < p - 1 implies keys[#[trigger] rest[q]] <= key by {
            assert(rest[q] == order[q + 1]);
        }
        assert(keys[order[0]] <= key);
        lemma_insert_pos_found(rest, keys, key, p - 1);
    }
}

pub proof fn lemma_stable_order_indices(keys: Seq<i64>, n: nat)
    requires
        n <= keys.len(),
    ensures
        stable_order(keys, n).len() == n,
        forall|j: int| 0 <= j < n ==> 0 <= #[trigger] stable_order(keys, n)[j] < n,
        ordered_by(stable_order(keys, n), keys),
    decreases n,
{
    if n > 0 {
        let prev = stable_order(keys, (n - 1) as nat);
        lemma_stable_order_indices(keys, (n - 1) as nat);
        let key = keys[n - 1];
        let p = insert_pos(prev, keys, key);
        lemma_insert_pos_bounds(prev, keys, key);
        let cur = prev.insert(p, n - 1);
        assert(cur == stable_order(keys, n));
        assert forall|j: int| 0 <= j < n implies 0 <= #[trigger] cur[j] < n by {
            if j < p {
                assert(cur[j] == prev[j]);
            } else if j > p {
                assert(cur[j] == prev[j - 1]);
            }
        }
        assert forall|a: int, b: int| 0 <= a < b < cur.len() implies keys[cur[a]] <= keys[cur[b]] by {
            if b < p {
                assert(cur[a] == prev[a] && cur[b] == prev[b]);
            } else if b == p {
                assert(cur[a] == prev[a]);
            } else if a > p {
                assert(cur[a] == prev[a - 1] && cur[b] == prev[b - 1]);
            } else if a == p {
                assert(cur[b] == prev[b - 1]);
                assert(keys[prev[p]] > key);
                if b - 1 > p {
                    assert(keys[prev[p]] <= keys[prev[b - 1]]);
                }
            } else {
                assert(cur[a] == prev[a] && cur[b] == prev[b - 1]);
            }
        }
    }
}

proof fn lemma_insert_pos_bounds(order: Seq<int>, keys: Seq<i64>, key: i64)
    requires
        ordered_by(order, keys),
    ensures
        0 <= insert_pos(order, keys, key) <= order.len(),
        forall|q: int|
            0 <= q < insert_pos(order, keys, key) ==> keys[#[trigger] order[q]] <= key,
        insert_pos(order, keys, key) < order.len() ==> keys[order[insert_pos(order, keys, key)]]
            > key,
    decreases order.len(),
{
    if order.len() > 0 && keys[order[0]] <= key {
        let rest = order.drop_first();
        assert(ordered_by(rest, keys)) by {
            assert forall|a: int, b: int| 0 <= a < b < rest.len() implies keys[rest[a]]
                <= keys[rest[b]] by {
                assert(rest[a] == order[a + 1] && rest[b] == order[b + 1]);
            }
        }
        lemma_insert_pos_bounds(rest, keys, key);
        let p = insert_pos(order, keys, key);
        assert forall|q: int| 0 <= q < p implies keys[#[trigger] order[q]] <= key by {
            if q > 0 {
                assert(order[q] == rest[q - 1]);
            }
        }
        if p < order.len() {
            assert(order[p] == rest[p - 1]);
        }
    }
}

/// The stable order lists each index once: it is a permutation.
pub proof fn lemma_stable_order_distinct(keys: Seq<i64>, n: nat)
    requires
        n <= keys.len(),
    ensures
        forall|a: int, b: int|
            0 <= a < b < n ==> stable_order(keys, n)[a] != stable_order(keys, n)[b],
    decreases n,
{
    if n > 0 {
        let prev = stable_order(keys, (n - 1) as nat);
        lemma_stable_order_distinct(keys, (n - 1) as nat);
        lemma_stable_order_indices(keys, (n - 1) as nat);
        let p = insert_pos(prev, keys, keys[n - 1]);
        lemma_stable_order_indices(keys, n);
        lemma_insert_pos_bounds(prev, keys, keys[n - 1]);
        let cur = prev.insert(p, n - 1);
        assert(cur == stable_order(keys, n));
        assert forall|a: int, b: int| 0 <= a < b < n implies cur[a] != cur[b] by {
            if b < p {
                assert(cur[a] == prev[a] && cur[b] == prev[b]);
            } else if b == p {
                assert(cur[a] == prev[a]);
            } else if a > p {
                assert(cur[a] == prev[a - 1] && cur[b] == prev[b - 1]);
            } else if a == p {
                assert(cur[b] == prev[b - 1]);
            } else {
                assert(cur[a] == prev[a] && cur[b] == prev[b - 1]);
            }
        }
    }
}

/// The indices of `keys` ordered by key, equal keys in index order.
pub fn sort_order(keys: &Vec<i64>) -> (r: Vec<usize>)
    ensures
        r@.len() == keys@.len(),
        forall|j: int| 0 <= j < r@.len() ==> r@[j] as int == stable_order(keys@, keys@.len())[j],
        forall|j: int| 0 <= j < r@.len() ==> #[trigger] r@[j] < keys@.len(),
        forall|a: int, b: int| 0 <= a < b < r@.len() ==> keys@[r@[a] as int] <= keys@[r@[b] as int],
{
    let mut out: Vec<usize> = Vec::new();
    let mut i: usize = 0;
    while i < keys.len()
        invariant
            i <= keys.len(),
            out@.len() == i,
            forall|j: int| 0 <= j < i ==> out@[j] as int == stable_order(keys@, i as nat)[j],
        decreases keys.len() - i,
    {
        proof {
            lemma_stable_order_indices(keys@, i as nat);
        }
        let ghost prev = stable_order(keys@, i as nat);
        let key = keys[i];
        assert forall|j: int| 0 <= j < i implies #[trigger] out@[j] < i by {
            assert(out@[j] as int == prev[j]);
        }
        let mut p: usize = 0;
        while p < out.len() && keys[out[p]] <= key
            invariant
                i < keys.len(),
                out@.len() == i,
                p <= out@.len(),
                prev == stable_order(keys@, i as nat),
                prev.len() == i,
                forall|j: int| 0 <= j < i ==> 0 <= #[trigger] prev[j] < i,
                forall|j: int| 0 <= j < i ==> out@[j] as int == prev[j],
                forall|j: int| 0 <= j < i ==> #[trigger] out@[j] < i,
                forall|q: int| 0 <= q < p ==> keys@[#[trigger] prev[q]] <= key,
            decreases out@.len() - p,
        {
            p = p + 1;
        }
        proof {
            lemma_insert_pos_found(prev, keys@, key, p as int);
        }
        out.insert(p, i);
        proof {
            let cur = stable_order(keys@, (i + 1) as nat);
            assert(cur == prev.insert(p as int, i as int));
            assert forall|j: int| 0 <= j < i + 1 implies out@[j] as int == cur[j] by {
                if j < p {
                    assert(out@[j] as int == prev[j]);
                } else if j > p {
                    assert(out@[j] as int == prev[j - 1]);
                }
            }
        }
        i = i + 1;
    }
    proof {
        lemma_stable_order_indices(keys@, keys@.len());
    }
    out
}

} // verus!
