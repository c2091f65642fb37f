use vstd::prelude::*;

verus! {

/// Index `a` comes before index `b` in the stable order by key: a smaller
/// key first, and among equal keys the smaller index first.
pub open spec fn key_before(keys: Seq<u32>, a: int, b: int) -> bool {
    keys[a] < keys[b] || (keys[a] == keys[b] && a < b)
}

/// Index `j` occurs somewhere in `perm`.
pub open spec fn lists(perm: Seq<usize>, j: int) -> bool {
    exists|p: int| 0 <= p < perm.len() && #[trigger] perm[p] == j
}

/// `perm` lists every index below `n` exactly once.
pub open spec fn is_permutation(perm: Seq<usize>, n: int) -> bool {
    &&& perm.len() == n
    &&& forall|p: int| 0 <= p < n ==> #[trigger] perm[p] < n
    &&& forall|p: int, q: int| 0 <= p < n && 0 <= q < n && p != q ==> #[trigger] perm[p] != #[trigger] perm[q]
    &&& forall|j: int| 0 <= j < n ==> #[trigger] lists(perm, j)
}

/// `perm` lists every index of `keys` once, in the stable order by key.
pub open spec fn is_stable_order(keys: Seq<u32>, perm: Seq<usize>) -> bool {
    &&& is_permutation(perm, keys.len() as int)
    &&& forall|p: int, q: int|
        0 <= p < q < perm.len() ==> key_before(keys, #[trigger] perm[p] as int, #[trigger] perm[q] as int)
}

/// Along a stable order the keys never decrease.
pub proof fn lemma_stable_order_sorted(keys: Seq<u32>, perm: Seq<usize>, p: int, q: int)
    requires
        is_stable_order(keys, perm),
        0 <= p <= q < perm.len(),
    ensures
        keys[perm[p] as int] <= keys[perm[q] as int],
{
    if p < q {
        assert(key_before(keys, perm[p] as int, perm[q] as int));
    }
}

/// The indices `0..keys.len()` in the order of their keys, equal keys
/// keeping their relative order (a stable sort of the indices by key).
pub fn stable_order(keys: &Vec<u32>) -> (perm: Vec<usize>)
    ensures
        is_stable_order(keys@, perm@),
{
    let n = keys.len();
    let mut perm: Vec<usize> = Vec::new();
    let mut i: usize = 0;
    while i < n
        invariant
            i <= n,
            n == keys.len(),
            perm.len() == i,
            forall|p: int| 0 <= p < i ==> #[trigger] perm@[p] < i,
            forall|p: int, q: int|
                0 <= p < q < i ==> key_before(keys@, #[trigger] perm@[p] as int, #[trigger] perm@[q] as int),
            forall|j: int| 0 <= j < i ==> #[trigger] lists(perm@, j),
        decreases n - i,
    {
        let k = keys[i];
        let mut pos: usize = 0;
        while pos < perm.len() && keys[perm[pos]] <= k
            invariant
                pos <= perm.len(),
                perm.len() == i,
                i < n,
                n == keys.len(),
                k == keys@[i as int],
                forall|p: int| 0 <= p < i ==> #[trigger] perm@[p] < i,
                forall|p: int| 0 <= p < pos ==> keys@[#[trigger] perm@[p] as int] <= k,
            decreases perm.len() - pos,
        {
            pos += 1;
        }
        let ghost old_perm = perm@;
        proof {
            assert forall|q: int| pos <= q < i implies keys@[#[trigger] old_perm[q] as int] > k by {
                assert(keys@[old_perm[pos as int] as int] > k);
                if q > pos {
                    assert(key_before(keys@, old_perm[pos as int] as int, old_perm[q] as int));
                }
            }
        }
        perm.insert(pos, i);
        proof {
            let np = perm@;
            assert(np == old_perm.insert(pos as int, i));
            assert forall|p: int| 0 <= p < i + 1 implies #[trigger] np[p] < i + 1 by {
                if p < pos {
                    assert(np[p] == old_perm[p]);
                } else if p > pos {
                    assert(np[p] == old_perm[p - 1]);
                }
            }
            assert forall|p: int, q: int| 0 <= p < q < i + 1 implies key_before(
                keys@,
                #[trigger] np[p] as int,
                #[trigger] np[q] as int,
            ) by {
                if q < pos {
                    assert(np[p] == old_perm[p] && np[q] == old_perm[q]);
                } else if q == pos {
                    assert(np[p] == old_perm[p]);
                    assert(keys@[old_perm[p] as int] <= k);
                } else if p < pos {
                    assert(np[p] == old_perm[p] && np[q] == old_perm[q - 1]);
                    assert(key_before(keys@, old_perm[p] as int, old_perm[q - 1] as int));
                } else if p == pos {
                    assert(np[q] == old_perm[q - 1]);
                    assert(keys@[old_perm[q - 1] as int] > k);
                } else {
                    assert(np[p] == old_perm[p - 1] && np[q] == old_perm[q - 1]);
                    assert(key_before(keys@, old_perm[p - 1] as int, old_perm[q - 1] as int));
                }
            }
            assert forall|j: int| 0 <= j < i + 1 implies #[trigger] lists(np, j) by {
                if j == i {
                    assert(np[pos as int] == j);
                } else {
                    assert(lists(old_perm, j));
                    let p0 = choose|p: int| 0 <= p < old_perm.len() && #[trigger] old_perm[p] == j;
                    if p0 < pos {
                        assert(np[p0] == j);
                    } else {
                        assert(np[p0 + 1] == j);
                    }
                }
            }
        }
        i += 1;
    }
    proof {
        assert forall|p: int, q: int| 0 <= p < n && 0 <= q < n && p != q implies #[trigger] perm@[p]
            != #[trigger] perm@[q] by {
            if p < q {
                assert(key_before(keys@, perm@[p] as int, perm@[q] as int));
            } else {
                assert(key_before(keys@, perm@[q] as int, perm@[p] as int));
            }
        }
    }
    perm
}

/// `inv` undoes `perm`: each index sits at the position that `perm` gives it.
pub open spec fn is_inverse(perm: Seq<usize>, inv: Seq<usize>) -> bool {
    &&& inv.len() == perm.len()
    &&& forall|p: int| 0 <= p < perm.len() ==> inv[#[trigger] perm[p] as int] == p
    &&& forall|j: int| 0 <= j < perm.len() ==> perm[#[trigger] inv[j] as int] == j
}

/// For each index, its position in `perm`.
pub fn inverse(perm: &Vec<usize>) -> (inv: Vec<usize>)
    requires
        is_permutation(perm@, perm.len() as int),
    ensures
        is_inverse(perm@, inv@),
{
    let n = perm.len();
    let mut inv: Vec<usize> = vec![0; n];
    let mut i: usize = 0;
    while i < n
        invariant
            i <= n,
            n == perm.len(),
            inv.len() == n,
            is_permutation(perm@, n as int),
            forall|p: int| 0 <= p < i ==> inv@[#[trigger] perm@[p] as int] == p,
        decreases n - i,
    {
        let p = perm[i];
        inv.set(p, i);
        proof {
            assert forall|q: int| 0 <= q < i + 1 implies inv@[#[trigger] perm@[q] as int] == q by {
                if q < i {
                    assert(perm@[q] != perm@[i as int]);
                }
            }
        }
        i += 1;
    }
    proof {
        assert forall|j: int| 0 <= j < n implies perm@[#[trigger] inv@[j] as int] == j by {
            assert(lists(perm@, j));
            let p0 = choose|p: int| 0 <= p < perm@.len() && #[trigger] perm@[p] == j;
            assert(inv@[perm@[p0] as int] == p0);
        }
    }
    inv
}

/// A permutation and its inverse compose to the identity both ways round.
pub proof fn lemma_inverse_round_trip(perm: Seq<usize>, inv: Seq<usize>, p: int, j: int)
    requires
        is_inverse(perm, inv),
        0 <= p < perm.len(),
        0 <= j < perm.len(),
    ensures
        inv[perm[p] as int] == p,
        perm[inv[j] as int] == j,
{
}

/// Two stable orders of the same keys agree on their first `k + 1` positions.
proof fn lemma_stable_order_prefix(keys: Seq<u32>, p1: Seq<usize>, p2: Seq<usize>, k: int)
    requires
        is_stable_order(keys, p1),
        is_stable_order(keys, p2),
        0 <= k < p1.len(),
    ensures
        forall|j: int| 0 <= j <= k ==> p1[j] == p2[j],
    decreases k,
{
    if k > 0 {
        lemma_stable_order_prefix(keys, p1, p2, k - 1);
    }
    let n = keys.len() as int;
    let u = p1[k];
    let v = p2[k];
    if u != v {
        assert(p1[k] < n);
        assert(p2[k] < n);
        assert(lists(p2, u as int));
        let q = choose|p: int| 0 <= p < p2.len() && #[trigger] p2[p] == u as int;
        assert(lists(p1, v as int));
        let r = choose|p: int| 0 <= p < p1.len() && #[trigger] p1[p] == v as int;
        if q < k {
            assert(p1[q] == p2[q]);
            assert(p1[q] != p1[k]);
        } else if r < k {
            assert(p1[r] == p2[r]);
            assert(p2[r] != p2[k]);
        } else {
            assert(key_before(keys, p2[k] as int, p2[q] as int));
            assert(key_before(keys, p1[k] as int, p1[r] as int));
        }
    }
}

/// The stable order of a list of keys is unique: any two agree.
pub proof fn lemma_stable_order_unique(keys: Seq<u32>, p1: Seq<usize>, p2: Seq<usize>)
    requires
        is_stable_order(keys, p1),
        is_stable_order(keys, p2),
    ensures
        p1 == p2,
{
    if p1.len() > 0 {
        lemma_stable_order_prefix(keys, p1, p2, p1.len() - 1);
    }
    assert(p1 =~= p2);
}

} // verus!
