//! Dealing a permutation: tiles leave a pool one by one, each chosen by a pick.

use vstd::prelude::*;
use crate::board::is_permutation;

verus! {

/// The picks can be followed: pick `k` points into a pool that lost `k` tiles.
pub open spec fn picks_fit(count: int, picks: Seq<usize>) -> bool {
    &&& picks.len() == count
    &&& forall|k: int| 0 <= k < picks.len() ==> (#[trigger] picks[k]) < count - k
}

/// The pool after the first `k` picks were taken out of it.
pub open spec fn pool_after(pool: Seq<usize>, picks: Seq<usize>, k: int) -> Seq<usize>
    decreases k,
{
    if k <= 0 {
        pool
    } else {
        pool_after(pool, picks, k - 1).remove(picks[k - 1] as int)
    }
}

/// The tiles that the first `k` picks took, in the order in which they left.
pub open spec fn dealt(pool: Seq<usize>, picks: Seq<usize>, k: int) -> Seq<usize>
    decreases k,
{
    if k <= 0 {
        Seq::empty()
    } else {
        dealt(pool, picks, k - 1).push(pool_after(pool, picks, k - 1)[picks[k - 1] as int])
    }
}

/// The pool that holds `0 .. count` in rising order.
pub open spec fn full_pool(count: int) -> Seq<usize> {
    Seq::new(count as nat, |i: int| i as usize)
}

/// The permutation of `0 .. count` that the picks deal.
pub open spec fn shuffled(count: int, picks: Seq<usize>) -> Seq<usize> {
    dealt(full_pool(count), picks, count)
}

/// Moving one tile from the pool to the end of the row keeps every tile once.
pub proof fn lemma_deal_one(row: Seq<usize>, pool: Seq<usize>, pick: int)
    requires
        0 <= pick < pool.len(),
        is_permutation(row + pool),
    ensures
        is_permutation(row.push(pool[pick]) + pool.remove(pick)),
{
    let before = row + pool;
    let after = row.push(pool[pick]) + pool.remove(pick);
    let from = |t: int|
        if t < row.len() {
            t
        } else if t == row.len() {
            row.len() + pick
        } else if t <= row.len() + pick {
            t - 1
        } else {
            t
        };
    assert(after.len() == before.len());
    assert forall|t: int| 0 <= t < after.len() implies after[t] == before[#[trigger] from(t)]
        && 0 <= from(t) < before.len() by {}
    assert forall|t: int| 0 <= t < after.len() implies (#[trigger] after[t]) < after.len() by {
        assert(after[t] == before[from(t)]);
    }
    assert forall|s: int, t: int|
        0 <= s < after.len() && 0 <= t < after.len() && s != t implies after[s] != after[t] by {
        assert(after[s] == before[from(s)]);
        assert(after[t] == before[from(t)]);
        assert(from(s) != from(t));
    }
}

/// The full pool is a permutation.
pub proof fn lemma_full_pool(count: int)
    requires
        0 <= count <= usize::MAX,
    ensures
        is_permutation(full_pool(count)),
        full_pool(count).len() == count,
{
}

} // verus!
