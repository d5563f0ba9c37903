use vstd::prelude::*;

verus! {

/// Whether key `a` comes before key `b` or is equal to it: by the number
/// first, and then `false` before `true`.
pub open spec fn key_le(a: (usize, bool), b: (usize, bool)) -> bool {
    a.0 < b.0 || (a.0 == b.0 && (!a.1 || b.1))
}

/// Whether `order` lists each index below `n` at most once.
pub open spec fn distinct_indices(order: Seq<usize>, n: int) -> bool {
    &&& forall|i: int| 0 <= i < order.len() ==> (#[trigger] order[i]) < n
    &&& forall|i: int, j: int| 0 <= i < j < order.len() ==> #[trigger] order[i] != #[trigger] order[j]
}

/// Whether `order` is the stable sorted order of `keys`: it lists every
/// index once, the keys do not decrease along it, and of two indices with
/// the same key the smaller comes first.
pub open spec fn is_sorted_order(keys: Seq<(usize, bool)>, order: Seq<usize>) -> bool {
    &&& order.len() == keys.len()
    &&& distinct_indices(order, keys.len() as int)
    &&& forall|i: int, j: int|
        0 <= i < j < order.len() ==> key_le(
            keys[#[trigger] order[i] as int],
            keys[#[trigger] order[j] as int],
        )
    &&& forall|i: int, j: int|
        0 <= i < j < order.len() && keys[#[trigger] order[i] as int] == keys[#[trigger] order[j] as int]
            ==> order[i] < order[j]
}

fn le(a: (usize, bool), b: (usize, bool)) -> (r: bool)
    ensures
        r == key_le(a, b),
{
    a.0 < b.0 || (a.0 == b.0 && (!a.1 || b.1))
}

/// The stable sorted order of `keys`: the indices of `keys`, arranged so
/// that the keys do not decrease.
pub fn sorted_order(keys: &Vec<(usize, bool)>) -> (r: Vec<usize>)
    ensures
        is_sorted_order(keys@, r@),
{
    let mut order: Vec<usize> = Vec::new();
    let mut n: usize = 0;
    while n < keys.len()
        invariant
            n <= keys@.len(),
            order@.len() == n,
            distinct_indices(order@, n as int),
            forall|i: int, j: int|
                0 <= i < j < order@.len() ==> key_le(
                    keys@[#[trigger] order@[i] as int],
                    keys@[#[trigger] order@[j] as int],
                ),
            forall|i: int, j: int|
                0 <= i < j < order@.len() && keys@[#[trigger] order@[i] as int] == keys@[
                #[trigger] order@[j] as int] ==> order@[i] < order@[j],
        decreases keys@.len() - n,
    {
        let key = keys[n];
        let mut k: usize = order.len();
        while k > 0 && !le(keys[order[k - 1]], key)
            invariant
                k <= order@.len(),
                order@.len() == n,
                n < keys@.len(),
                key == keys@[n as int],
                distinct_indices(order@, n as int),
                forall|j: int|
                    k <= j < order@.len() ==> !key_le(keys@[#[trigger] order@[j] as int], key),
            decreases k,
        {
            k = k - 1;
        }
        let ghost before = order@;
        order.insert(k, n);
        proof {
            let after = order@;
            assert(after =~= before.insert(k as int, n));
            assert forall|i: int| 0 <= i < after.len() implies (#[trigger] after[i]) < n + 1 by {
                if i < k {
                    assert(after[i] == before[i]);
                } else if i > k {
                    assert(after[i] == before[i - 1]);
                }
            }
            assert forall|i: int, j: int| 0 <= i < j < after.len() implies #[trigger] after[i]
                != #[trigger] after[j] by {
                let a = if i < k {
                    i
                } else {
                    i - 1
                };
                let b = if j < k {
                    j
                } else {
                    j - 1
                };
                if i != k && j != k {
                    assert(after[i] == before[a] && after[j] == before[b]);
                } else if i == k {
                    assert(after[j] == before[b]);
                } else {
                    assert(after[i] == before[a]);
                }
            }
            assert forall|i: int, j: int| 0 <= i < j < after.len() implies key_le(
                keys@[#[trigger] after[i] as int],
                keys@[#[trigger] after[j] as int],
            ) by {
                let a = if i < k {
                    i
                } else {
                    i - 1
                };
                let b = if j < k {
                    j
                } else {
                    j - 1
                };
                if i != k && j != k {
                    assert(after[i] == before[a] && after[j] == before[b]);
                } else if i == k {
                    assert(after[j] == before[b]);
                    assert(!key_le(keys@[before[b] as int], key));
                } else {
                    assert(after[i] == before[a]);
                    if k > 0 {
                        assert(key_le(keys@[before[k - 1] as int], key));
                        if a < k - 1 {
                            assert(key_le(keys@[before[a] as int], keys@[before[k - 1] as int]));
                        }
                    }
                }
            }
            assert forall|i: int, j: int|
                0 <= i < j < after.len() && keys@[#[trigger] after[i] as int] == keys@[
                #[trigger] after[j] as int] implies after[i] < after[j] by {
                let a = if i < k {
                    i
                } else {
                    i - 1
                };
                let b = if j < k {
                    j
                } else {
                    j - 1
                };
                if i != k && j != k {
                    assert(after[i] == before[a] && after[j] == before[b]);
                } else if i == k {
                    assert(after[j] == before[b]);
                    assert(!key_le(keys@[before[b] as int], key));
                } else {
                    assert(after[i] == before[a]);
                }
            }
        }
        n = n + 1;
    }
    order
}

} // verus!
