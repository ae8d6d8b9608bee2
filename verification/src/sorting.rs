//! A stable order of things by their keys.

use vstd::prelude::*;

verus! {

/// `order` lists the numbers below `n`, by their keys from the lowest up, and
/// those with equal keys as they stand.
pub open spec fn is_stable_order(keys: Seq<i64>, order: Seq<usize>, n: int) -> bool {
    &&& order.len() == n
    &&& forall|i: int| 0 <= i < n ==> #[trigger] order[i] < n
    &&& forall|i: int, j: int|
        0 <= i < j < n ==> #[trigger] comes_before(
            keys,
            order[i] as int,
            order[j] as int,
        )
    &&& forall|k: int| 0 <= k < n ==> #[trigger] listed(order, k)
}

/// Thing `a` comes before thing `b`.
pub open spec fn comes_before(keys: Seq<i64>, a: int, b: int) -> bool {
    keys[a] < keys[b] || keys[a] == keys[b] && a < b
}

/// The order lists `k`.
pub open spec fn listed(order: Seq<usize>, k: int) -> bool {
    exists|i: int| 0 <= i < order.len() && #[trigger] order[i] == k
}

/// The stable order of the things with these keys.
pub fn stable_order(keys: &Vec<i64>) -> (order: Vec<usize>)
    ensures
        is_stable_order(keys@, order@, keys@.len() as int),
{
    let mut order: Vec<usize> = Vec::new();
    let mut t: usize = 0;
    while t < keys.len()
        invariant
            t <= keys@.len(),
            is_stable_order(keys@, order@, t as int),
        decreases keys@.len() - t,
    {
        let ghost before = order@;
        let mut at: usize = t;
        let key: i64 = keys[t];
        while at > 0 && keys[order[at - 1]] > key
            invariant
                at <= t < keys@.len(),
                key == keys@[t as int],
                order@ == before,
                is_stable_order(keys@, before, t as int),
                forall|j: int| at <= j < t ==> keys@[#[trigger] before[j] as int] > key,
            decreases at,
        {
            at = at - 1;
        }
        order.insert(at, t);
        proof {
            lemma_inserted(keys@, before, t as int, at as int, order@);
        }
        t = t + 1;
    }
    order
}

proof fn lemma_inserted(keys: Seq<i64>, before: Seq<usize>, t: int, at: int, after: Seq<usize>)
    requires
        0 <= at <= t < keys.len(),
        t <= usize::MAX,
        is_stable_order(keys, before, t),
        forall|j: int| at <= j < t ==> keys[#[trigger] before[j] as int] > keys[t],
        at > 0 ==> keys[before[at - 1] as int] <= keys[t],
        after == before.insert(at, t as usize),
    ensures
        is_stable_order(keys, after, t + 1),
{
    assert forall|i: int| 0 <= i < t + 1 implies #[trigger] after[i] < t + 1 by {
        if i < at {
            assert(before[i] < t);
        } else if i > at {
            assert(before[i - 1] < t);
        }
    }
    assert forall|i: int| 0 <= i < at implies keys[#[trigger] before[i] as int] <= keys[t] by {
        if i < at - 1 {
            assert(comes_before(keys, before[i] as int, before[at - 1] as int));
        }
    }
    assert forall|i: int, j: int| 0 <= i < j < t + 1 implies #[trigger] comes_before(
        keys,
        after[i] as int,
        after[j] as int,
    ) by {
        if j < at {
            assert(comes_before(keys, before[i] as int, before[j] as int));
        } else if i > at {
            assert(comes_before(keys, before[i - 1] as int, before[j - 1] as int));
        } else if i < at && j > at {
            assert(comes_before(keys, before[i] as int, before[j - 1] as int));
        } else if j == at {
            assert(before[i] < t);
            assert(after[j] == t);
            assert(after[i] == before[i]);
        } else {
            assert(after[i] == t);
            assert(after[j] == before[j - 1]);
            assert(keys[before[j - 1] as int] > keys[t]);
        }
    }
    assert forall|k: int| 0 <= k < t + 1 implies #[trigger] listed(after, k) by {
        if k == t {
            assert(after[at] == k);
        } else {
            assert(listed(before, k));
            let i = choose|i: int| 0 <= i < before.len() && #[trigger] before[i] == k;
            if i < at {
                assert(after[i] == k);
            } else {
                assert(after[i + 1] == k);
            }
        }
    }
}

} // verus!
