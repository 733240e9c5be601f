//! Ordering rows by a key while keeping ties in their input order.
use vstd::prelude::*;

verus! {

/// Row `a` comes before row `b`: smaller key first, ties in input order.
pub open spec fn key_before(keys: Seq<u64>, a: int, b: int) -> bool {
    keys[a] < keys[b] || (keys[a] == keys[b] && a < b)
}

/// `order` lists every row index below `n` exactly once.
pub open spec fn is_index_permutation(order: Seq<usize>, n: int) -> bool {
    &&& order.len() == n
    &&& forall|k: int| 0 <= k < order.len() ==> (#[trigger] order[k]) < n
    &&& forall|a: int, b: int| 0 <= a < b < order.len() ==> order[a] != order[b]
    &&& forall|j: usize| j < n ==> #[trigger] order.contains(j)
}

/// `order` is ascending by key, ties by input position.
pub open spec fn ordered_by_key(keys: Seq<u64>, order: Seq<usize>) -> bool {
    forall|x: int, y: int|
        0 <= x < y < order.len() ==> key_before(keys, #[trigger] order[x] as int, #[trigger] order[y] as int)
}

/// The row indices of `keys`, ordered by key; rows with equal keys keep their
/// input order (a stable sort).
pub fn stable_order_by_key(keys: &Vec<u64>) -> (order: Vec<usize>)
    ensures
        is_index_permutation(order@, keys@.len() as int),
        ordered_by_key(keys@, order@),
{
    let n: usize = keys.len();
    let mut order: Vec<usize> = Vec::new();
    let mut i: usize = 0;
    while i < n
        invariant
            n == keys@.len(),
            i <= n,
            is_index_permutation(order@, i as int),
            ordered_by_key(keys@, order@),
        decreases n - i,
    {
        // the first position whose row sorts after row i
        let ki: u64 = keys[i];
        let len: usize = order.len();
        let mut p: usize = 0;
        while p < len && keys[order[p]] <= ki
            invariant
                n == keys@.len(),
                i < n,
                ki == keys@[i as int],
                len == order@.len(),
                p <= len,
                is_index_permutation(order@, i as int),
                forall|k: int| 0 <= k < p ==> keys@[#[trigger] order@[k] as int] <= ki,
            decreases len - p,
        {
            p = p + 1;
        }
        let ghost prev = order@;
        order.insert(p, i);
        proof {
            assert(order@ =~= prev.subrange(0, p as int).push(i) + prev.subrange(p as int, len as int));
            assert forall|k: int| 0 <= k < order@.len() implies #[trigger] order@[k] == if k < p {
                prev[k]
            } else if k == p {
                i
            } else {
                prev[k - 1]
            } by {}
            // rows after position p sort after row i
            assert forall|k: int| p <= k < prev.len() implies keys@[#[trigger] prev[k] as int] > ki by {
                if k > p {
                    // the scan stopped at a row with a larger key, which sorts before prev[k]
                    assert(key_before(keys@, prev[p as int] as int, prev[k] as int));
                }
            }
            assert forall|x: int, y: int| 0 <= x < y < order@.len() implies key_before(
                keys@,
                #[trigger] order@[x] as int,
                #[trigger] order@[y] as int,
            ) by {
                if y < p {
                    assert(order@[x] == prev[x] && order@[y] == prev[y]);
                } else if y == p {
                    assert(order@[x] == prev[x]);
                    assert(keys@[prev[x] as int] <= ki);
                    assert(prev[x] < i);
                } else if x < p {
                    assert(order@[x] == prev[x] && order@[y] == prev[y - 1]);
                } else if x == p {
                    assert(order@[y] == prev[y - 1]);
                    assert(keys@[prev[y - 1] as int] > ki);
                } else {
                    assert(order@[x] == prev[x - 1] && order@[y] == prev[y - 1]);
                }
            }
            assert forall|a: int, b: int| 0 <= a < b < order@.len() implies order@[a] != order@[b] by {
                if a < p && b < p {
                } else if a < p && b == p {
                } else if a < p {
                    assert(order@[b] == prev[b - 1]);
                } else if a == p {
                    assert(order@[b] == prev[b - 1]);
                } else {
                    assert(order@[a] == prev[a - 1] && order@[b] == prev[b - 1]);
                }
            }
            assert forall|j: usize| j < i + 1 implies #[trigger] order@.contains(j) by {
                if j == i {
                    assert(order@[p as int] == j);
                } else {
                    assert(prev.contains(j));
                    let k = choose|k: int| 0 <= k < prev.len() && prev[k] == j;
                    if k < p {
                        assert(order@[k] == j);
                    } else {
                        assert(order@[k + 1] == j);
                    }
                }
            }
        }
        i = i + 1;
    }
    order
}

} // verus!
