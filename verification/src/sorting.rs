//! Stable ordering of chosen positions by a numeric key.

use vstd::prelude::*;

verus! {

/// Position `a` goes before position `b`: a smaller key, or the same key
/// and an earlier position.
pub open spec fn key_before(keys: Seq<u64>, a: int, b: int) -> bool {
    keys[a] < keys[b] || (keys[a] == keys[b] && a < b)
}

/// `order` lists each chosen position exactly once, by key and, for equal
/// keys, by position: the order of a stable sort of the chosen positions.
pub open spec fn is_stable_order(keys: Seq<u64>, chosen: Seq<bool>, order: Seq<usize>) -> bool {
    &&& forall|i: int|
        0 <= i < order.len() ==> (#[trigger] order[i]) < keys.len() && chosen[order[i] as int]
    &&& forall|i: int, j: int|
        0 <= i < j < order.len() ==> key_before(keys, #[trigger] order[i] as int, #[trigger] order[j] as int)
    &&& forall|k: int|
        0 <= k < keys.len() && #[trigger] chosen[k] ==> exists|i: int|
            0 <= i < order.len() && order[i] == k
}

/// The chosen positions, stably ordered by key (see [`is_stable_order`]).
pub fn stable_order(keys: &Vec<u64>, chosen: &Vec<bool>) -> (order: Vec<usize>)
    requires
        keys@.len() == chosen@.len(),
    ensures
        is_stable_order(keys@, chosen@, order@),
{
    let n = keys.len();
    let mut order: Vec<usize> = Vec::new();
    let mut k: usize = 0;
    while k < n
        invariant
            n == keys@.len(),
            n == chosen@.len(),
            k <= n,
            forall|i: int| 0 <= i < order@.len() ==> (#[trigger] order@[i]) < k && chosen@[order@[i] as int],
            forall|i: int, j: int|
                0 <= i < j < order@.len() ==> key_before(
                    keys@,
                    #[trigger] order@[i] as int,
                    #[trigger] order@[j] as int,
                ),
            forall|m: int|
                0 <= m < k && #[trigger] chosen@[m] ==> exists|i: int|
                    0 <= i < order@.len() && order@[i] == m,
        decreases n - k,
    {
        if chosen[k] {
            let key = keys[k];
            let mut p = order.len();
            while p > 0 && keys[order[p - 1]] > key
                invariant
                    n == keys@.len(),
                    k < n,
                    key == keys@[k as int],
                    p <= order@.len(),
                    forall|i: int| 0 <= i < order@.len() ==> (#[trigger] order@[i]) < k,
                    forall|q: int| p <= q < order@.len() ==> keys@[(#[trigger] order@[q]) as int] > key,
                decreases p,
            {
                p = p - 1;
            }
            let ghost old_order = order@;
            proof {
                assert forall|q: int| 0 <= q < p implies keys@[(#[trigger] old_order[q]) as int] <= key by {
                    if q < p - 1 {
                        assert(key_before(keys@, old_order[q] as int, old_order[p - 1] as int));
                    }
                }
            }
            order.insert(p, k);
            proof {
                let new_order = order@;
                assert(new_order == old_order.insert(p as int, k));
                assert forall|i: int| 0 <= i < new_order.len() implies (#[trigger] new_order[i]) < k + 1
                    && chosen@[new_order[i] as int] by {
                    if i < p {
                        assert(new_order[i] == old_order[i]);
                    } else if i > p {
                        assert(new_order[i] == old_order[i - 1]);
                    }
                }
                assert forall|i: int, j: int|
                    0 <= i < j < new_order.len() implies key_before(
                    keys@,
                    #[trigger] new_order[i] as int,
                    #[trigger] new_order[j] as int,
                ) by {
                    if j < p {
                        assert(new_order[i] == old_order[i] && new_order[j] == old_order[j]);
                    } else if j == p {
                        assert(new_order[i] == old_order[i]);
                    } else if i < p {
                        assert(new_order[i] == old_order[i] && new_order[j] == old_order[j - 1]);
                        assert(keys@[old_order[i] as int] <= key);
                    } else if i == p {
                        assert(new_order[j] == old_order[j - 1]);
                    } else {
                        assert(new_order[i] == old_order[i - 1] && new_order[j] == old_order[j - 1]);
                    }
                }
                assert forall|m: int| 0 <= m < k + 1 && #[trigger] chosen@[m] implies exists|i: int|
                    0 <= i < new_order.len() && new_order[i] == m by {
                    if m == k {
                        assert(new_order[p as int] == k);
                    } else {
                        let i0 = choose|i: int| 0 <= i < old_order.len() && old_order[i] == m;
                        if i0 < p {
                            assert(new_order[i0] == m);
                        } else {
                            assert(new_order[i0 + 1] == m);
                        }
                    }
                }
            }
        }
        k = k + 1;
    }
    order
}

} // verus!
