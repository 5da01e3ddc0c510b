//! The Eytzinger layout engine: a sorted sequence is permuted into the
//! breadth-first order of an implicit binary tree (root at index 0, children
//! of node `k` at `2k+1` and `2k+2`), so that a bound query walks one
//! root-to-leaf path of consecutive tree levels instead of jumping across the
//! array.
//!
//! The layout is characterized by its in-order traversal: visiting the
//! implicit tree in order (left child, node, right child, recursing while the
//! index is in range) yields exactly the original sequence.

use crate::bounds::{bound_rank, exceeds, lemma_bound_rank_unique, sorted};
use vstd::prelude::*;

verus! {

/// How far ahead of the current node the search touches the layout so that
/// the memory it will need next is already on its way.
const PREFETCH_OFFSET: usize = 9;

/// The indices of the implicit binary tree over `[0, n)` rooted at `k`, in
/// in-order traversal order: left subtree, then `k`, then right subtree.
/// Nodes at or past `n` do not exist.
pub open spec fn inorder_idx(n: int, k: int) -> Seq<int>
    decreases (if 0 <= k < n {
        n - k
    } else {
        0
    }),
{
    if k < 0 || k >= n {
        Seq::empty()
    } else {
        inorder_idx(n, 2 * k + 1) + seq![k] + inorder_idx(n, 2 * k + 2)
    }
}

/// Node `j` lies in the subtree rooted at node `k` of the unbounded implicit
/// binary tree: following parent links `j -> (j-1)/2` from `j` reaches `k`.
pub open spec fn in_subtree(k: int, j: int) -> bool
    decreases j,
{
    if j < k || k < 0 {
        false
    } else if j == k {
        true
    } else {
        in_subtree(k, (j - 1) / 2)
    }
}

/// The values of an Eytzinger layout read back in in-order traversal order.
/// A sequence `l` is the Eytzinger layout of `s` exactly when
/// `inorder_seq(l) == s`.
pub open spec fn inorder_seq(l: Seq<i32>) -> Seq<i32> {
    inorder_idx(l.len() as int, 0).map_values(|j: int| l[j])
}

/// Both children of a node lie in its subtree.
proof fn lemma_children_in_subtree(k: int)
    requires
        0 <= k,
    ensures
        in_subtree(k, 2 * k + 1),
        in_subtree(k, 2 * k + 2),
{
    assert((2 * k + 1 - 1) / 2 == k);
    assert((2 * k + 2 - 1) / 2 == k);
    assert(in_subtree(k, k));
}

/// Subtree membership is transitive: a node of the subtree of `c` is a node
/// of the subtree of any ancestor `k` of `c`.
proof fn lemma_in_subtree_trans(k: int, c: int, j: int)
    requires
        0 <= k,
        in_subtree(k, c),
        in_subtree(c, j),
    ensures
        in_subtree(k, j),
    decreases j,
{
    if j != c {
        lemma_in_subtree_trans(k, c, (j - 1) / 2);
    }
}

/// A node strictly below `k` lies in `k`'s subtree exactly when it lies in
/// the subtree of one of `k`'s two children.
proof fn lemma_subtree_children(k: int, j: int)
    requires
        0 <= k < j,
    ensures
        in_subtree(k, j) <==> (in_subtree(2 * k + 1, j) || in_subtree(2 * k + 2, j)),
    decreases j,
{
    let p = (j - 1) / 2;
    lemma_children_in_subtree(k);
    if in_subtree(2 * k + 1, j) {
        lemma_in_subtree_trans(k, 2 * k + 1, j);
    }
    if in_subtree(2 * k + 2, j) {
        lemma_in_subtree_trans(k, 2 * k + 2, j);
    }
    if in_subtree(k, j) {
        assert(in_subtree(k, p));
        if p == k {
            assert(j == 2 * k + 1 || j == 2 * k + 2);
        } else {
            lemma_subtree_children(k, p);
            if in_subtree(2 * k + 1, p) {
                assert(p >= 2 * k + 1);
                assert(in_subtree(2 * k + 1, j));
            } else {
                assert(p >= 2 * k + 2);
                assert(in_subtree(2 * k + 2, j));
            }
        }
    }
}

/// The two subtrees under a node share no nodes.
proof fn lemma_sibling_disjoint(k: int, j: int)
    requires
        0 <= k,
    ensures
        !(in_subtree(2 * k + 1, j) && in_subtree(2 * k + 2, j)),
    decreases j,
{
    if j == 2 * k + 2 {
        assert((j - 1) / 2 == k);
        assert(!in_subtree(2 * k + 1, k));
    } else if j > 2 * k + 2 {
        lemma_sibling_disjoint(k, (j - 1) / 2);
    }
}

/// Every node lies in the subtree of the root.
proof fn lemma_root_reaches_all(j: int)
    requires
        0 <= j,
    ensures
        in_subtree(0, j),
    decreases j,
{
    if j > 0 {
        lemma_root_reaches_all((j - 1) / 2);
    }
}

/// Every index listed by the traversal of the subtree at `k` is a valid
/// array index and a node of that subtree.
proof fn lemma_inorder_idx_elems(n: int, k: int)
    requires
        0 <= k,
    ensures
        forall|p: int|
            0 <= p < inorder_idx(n, k).len() ==> k <= #[trigger] inorder_idx(n, k)[p] < n
                && in_subtree(k, inorder_idx(n, k)[p]),
    decreases (if 0 <= k < n {
        n - k
    } else {
        0
    }),
{
    if 0 <= k < n {
        let left = inorder_idx(n, 2 * k + 1);
        let right = inorder_idx(n, 2 * k + 2);
        lemma_inorder_idx_elems(n, 2 * k + 1);
        lemma_inorder_idx_elems(n, 2 * k + 2);
        assert forall|p: int|
            0 <= p < inorder_idx(n, k).len() implies k <= #[trigger] inorder_idx(n, k)[p] < n
            && in_subtree(k, inorder_idx(n, k)[p]) by {
            lemma_children_in_subtree(k);
            if p < left.len() {
                assert(inorder_idx(n, k)[p] == left[p]);
                lemma_in_subtree_trans(k, 2 * k + 1, left[p]);
            } else if p == left.len() {
                assert(inorder_idx(n, k)[p] == k);
            } else {
                assert(inorder_idx(n, k)[p] == right[p - left.len() - 1]);
                lemma_in_subtree_trans(k, 2 * k + 2, right[p - left.len() - 1]);
            }
        };
    }
}

/// Every node of the subtree at `k` that is a valid array index is listed by
/// the traversal of that subtree.
proof fn lemma_inorder_idx_complete(n: int, k: int, j: int)
    requires
        0 <= k,
        in_subtree(k, j),
        j < n,
    ensures
        exists|p: int| 0 <= p < inorder_idx(n, k).len() && inorder_idx(n, k)[p] == j,
    decreases (if 0 <= k < n {
        n - k
    } else {
        0
    }),
{
    let left = inorder_idx(n, 2 * k + 1);
    let right = inorder_idx(n, 2 * k + 2);
    if j == k {
        assert(inorder_idx(n, k)[left.len() as int] == j);
    } else {
        lemma_subtree_children(k, j);
        if in_subtree(2 * k + 1, j) {
            lemma_inorder_idx_complete(n, 2 * k + 1, j);
            let p = choose|p: int| 0 <= p < left.len() && left[p] == j;
            assert(inorder_idx(n, k)[p] == j);
        } else {
            lemma_inorder_idx_complete(n, 2 * k + 2, j);
            let p = choose|p: int| 0 <= p < right.len() && right[p] == j;
            assert(inorder_idx(n, k)[left.len() + 1 + p] == j);
        }
    }
}

/// Growing the tree from `n` to `n + 1` nodes adds the new node `n` to the
/// traversal of exactly the subtrees it belongs to.
proof fn lemma_inorder_idx_grow(n: int, k: int)
    requires
        0 <= k,
        0 <= n,
    ensures
        inorder_idx(n + 1, k).len() == inorder_idx(n, k).len() + (if in_subtree(k, n) {
            1int
        } else {
            0int
        }),
    decreases (if 0 <= k <= n {
        n + 1 - k
    } else {
        0
    }),
{
    if k > n {
        assert(!in_subtree(k, n));
    } else if k == n {
        assert(inorder_idx(n + 1, n).len() == 1) by {
            assert(inorder_idx(n + 1, 2 * n + 1).len() == 0);
            assert(inorder_idx(n + 1, 2 * n + 2).len() == 0);
        }
    } else {
        lemma_inorder_idx_grow(n, 2 * k + 1);
        lemma_inorder_idx_grow(n, 2 * k + 2);
        lemma_subtree_children(k, n);
        lemma_sibling_disjoint(k, n);
    }
}

/// The traversal of the whole tree over `[0, n)` lists exactly `n` indices.
pub proof fn lemma_inorder_idx_len(n: int)
    requires
        0 <= n,
    ensures
        inorder_idx(n, 0).len() == n,
    decreases n,
{
    if n > 0 {
        lemma_inorder_idx_len(n - 1);
        lemma_inorder_idx_grow(n - 1, 0);
        lemma_root_reaches_all(n - 1);
    }
}

/// The layout is determined by its in-order sequence: two layouts of the same
/// length whose in-order traversals agree are identical. In particular,
/// building the layout twice from the same input yields identical arrays.
pub proof fn lemma_eytzinger_layout_unique(s: Seq<i32>, l1: Seq<i32>, l2: Seq<i32>)
    requires
        l1.len() == s.len(),
        l2.len() == s.len(),
        inorder_seq(l1) == s,
        inorder_seq(l2) == s,
    ensures
        l1 == l2,
{
    let n = s.len() as int;
    let idxs = inorder_idx(n, 0);
    lemma_inorder_idx_len(n);
    assert forall|j: int| 0 <= j < n implies l1[j] == l2[j] by {
        lemma_root_reaches_all(j);
        lemma_inorder_idx_complete(n, 0, j);
        let p = choose|p: int| 0 <= p < idxs.len() && idxs[p] == j;
        assert(inorder_seq(l1)[p] == l1[j]);
        assert(inorder_seq(l2)[p] == l2[j]);
    };
    assert(l1 =~= l2);
}

/// Writes the elements `source[i], source[i+1], ...` into the subtree rooted
/// at `k`, in in-order position order, and returns the cursor past the last
/// element consumed. Slots outside the subtree keep their old values.
fn eytz_fill(source: &Vec<i32>, dest: &mut Vec<i32>, k: usize, i: usize) -> (i2: usize)
    requires
        old(dest).len() == source.len(),
        source.len() < usize::MAX / 2,
        i + inorder_idx(source.len() as int, k as int).len() <= source.len(),
    ensures
        final(dest).len() == source.len(),
        i2 == i + inorder_idx(source.len() as int, k as int).len(),
        forall|p: int|
            0 <= p < inorder_idx(source.len() as int, k as int).len() ==> final(dest)@[#[trigger] inorder_idx(
                source.len() as int,
                k as int,
            )[p]] == source@[i + p],
        forall|j: int|
            0 <= j < source.len() && !in_subtree(k as int, j) ==> final(dest)@[j] == old(
                dest,
            )@[j],
    decreases (if k < source.len() {
        source.len() - k
    } else {
        0
    }),
{
    let n = source.len();
    if k >= n {
        return i;
    }
    let ghost nn = n as int;
    let ghost idxs = inorder_idx(nn, k as int);
    let ghost left = inorder_idx(nn, 2 * (k as int) + 1);
    let ghost right = inorder_idx(nn, 2 * (k as int) + 2);
    proof {
        assert(idxs == left + seq![k as int] + right);
        lemma_inorder_idx_elems(nn, 2 * (k as int) + 1);
        lemma_inorder_idx_elems(nn, 2 * (k as int) + 2);
    }
    let i1 = eytz_fill(source, dest, 2 * k + 1, i);
    dest[k] = source[i1];
    let ghost mid = dest@;
    let i2 = eytz_fill(source, dest, 2 * k + 2, i1 + 1);
    proof {
        assert forall|p: int|
            0 <= p < idxs.len() implies final(dest)@[#[trigger] idxs[p]] == source@[i + p] by {
            if p < left.len() {
                assert(idxs[p] == left[p]);
                assert(left[p] > k as int);
                assert(mid[left[p]] == source@[i + p]);
                lemma_sibling_disjoint(k as int, left[p]);
                assert(!in_subtree(2 * (k as int) + 2, left[p]));
            } else if p == left.len() {
                assert(idxs[p] == k as int);
                assert(mid[k as int] == source@[i1 as int]);
                assert(!in_subtree(2 * (k as int) + 2, k as int));
            } else {
                assert(idxs[p] == right[p - left.len() - 1]);
            }
        };
        assert forall|j: int|
            0 <= j < n && !in_subtree(k as int, j) implies final(dest)@[j] == old(dest)@[j] by {
            if j != k as int {
                if j > k as int {
                    lemma_subtree_children(k as int, j);
                }
                assert(!in_subtree(2 * (k as int) + 1, j));
                assert(!in_subtree(2 * (k as int) + 2, j));
            }
        };
    }
    i2
}

/// Permutes a sorted sequence into Eytzinger order. The in-order traversal of
/// the result is exactly the input, for any input; sortedness only matters to
/// the searches.
pub fn create_layout_eytzinger(data: &Vec<i32>) -> (r: Vec<i32>)
    requires
        data.len() < usize::MAX / 2,
    ensures
        r.len() == data.len(),
        inorder_seq(r@) == data@,
{
    let n = data.len();
    let mut dest: Vec<i32> = Vec::new();
    if n == 0 {
        proof {
            assert(inorder_seq(dest@) =~= data@);
        }
        return dest;
    }
    let first = data[0];
    while dest.len() < n
        invariant
            dest.len() <= n,
        decreases n - dest.len(),
    {
        dest.push(first);
    }
    proof {
        lemma_inorder_idx_len(n as int);
    }
    let _end = eytz_fill(data, &mut dest, 0, 0);
    proof {
        assert(inorder_seq(dest@) =~= data@);
    }
    dest
}

/// The result a bound query must produce against an Eytzinger layout: absent
/// when no element satisfies the bound predicate, else the layout position of
/// the element at the query's rank in sorted order.
pub open spec fn eytz_result(l: Seq<i32>, target: i32, strict: bool) -> Option<int> {
    let s = inorder_seq(l);
    let rank = bound_rank(s, target, strict);
    if rank == s.len() {
        None
    } else {
        Some(inorder_idx(l.len() as int, 0)[rank])
    }
}

/// A bound query against a layout agrees with the scalar oracle against the
/// sorted sequence the layout was built from: both are absent together, and
/// otherwise the layout slot the query names holds the very element at the
/// oracle's rank.
pub proof fn lemma_eytz_result_matches_oracle(
    sorted_data: Seq<i32>,
    layout: Seq<i32>,
    target: i32,
    strict: bool,
)
    requires
        inorder_seq(layout) == sorted_data,
    ensures
        eytz_result(layout, target, strict) is None <==> bound_rank(sorted_data, target, strict)
            == sorted_data.len(),
        eytz_result(layout, target, strict) matches Some(i) ==> 0 <= i < layout.len()
            && layout[i] == sorted_data[bound_rank(sorted_data, target, strict)],
{
    crate::bounds::lemma_bound_rank_props(sorted_data, target, strict);
    lemma_inorder_idx_elems(layout.len() as int, 0);
}

/// Shared traversal for all Eytzinger bound queries: walk from the root,
/// recording the node and turning left whenever its key satisfies the bound
/// predicate, turning right otherwise; the last recorded node is the answer.
fn eytz_search(data: &Vec<i32>, target: i32, strict: bool, prefetch: bool) -> (r: Option<usize>)
    requires
        sorted(inorder_seq(data@)),
        data.len() < usize::MAX / 64,
    ensures
        match r {
            None => eytz_result(data@, target, strict) is None,
            Some(i) => eytz_result(data@, target, strict) == Some(i as int) && i < data.len()
                && data@[i as int] == inorder_seq(data@)[bound_rank(
                inorder_seq(data@),
                target,
                strict,
            )],
        },
{
    let n = data.len();
    let ghost nn = n as int;
    let ghost idxs0 = inorder_idx(nn, 0);
    let ghost s = inorder_seq(data@);
    let mut res: Option<usize> = None;
    let mut cur: usize = 0;
    let ghost mut lo: int = 0;
    let ghost mut hi: int = idxs0.len() as int;

    while cur < n
        invariant
            n == data.len(),
            n < usize::MAX / 64,
            nn == n as int,
            idxs0 == inorder_idx(nn, 0),
            s == inorder_seq(data@),
            s.len() == idxs0.len(),
            sorted(s),
            0 <= lo <= hi <= s.len(),
            inorder_idx(nn, cur as int) == idxs0.subrange(lo, hi),
            forall|p: int| 0 <= p < lo ==> !exceeds(s[p], target, strict),
            forall|p: int| hi <= p < s.len() ==> exceeds(s[p], target, strict),
            res is None <==> hi == s.len(),
            res matches Some(v) ==> hi < s.len() && v as int == idxs0[hi],
        decreases (if cur < n {
            n - cur
        } else {
            0
        }),
    {
        let ghost left = inorder_idx(nn, 2 * (cur as int) + 1);
        let ghost right = inorder_idx(nn, 2 * (cur as int) + 2);
        let ghost m = lo + left.len();
        proof {
            assert(idxs0.subrange(lo, hi) == left + seq![cur as int] + right);
            assert(idxs0.subrange(lo, hi)[m - lo] == cur as int);
            assert(idxs0[m] == cur as int);
            assert(s[m] == data@[cur as int]);
            assert forall|q: int| 0 <= q < left.len() implies left[q] == idxs0[lo + q] by {
                assert((left + seq![cur as int] + right)[q] == left[q]);
                assert(idxs0.subrange(lo, hi)[q] == idxs0[lo + q]);
            };
            assert(left =~= idxs0.subrange(lo, m));
            assert forall|q: int| 0 <= q < right.len() implies right[q] == idxs0[m + 1 + q] by {
                assert((left + seq![cur as int] + right)[left.len() + 1 + q] == right[q]);
                assert(idxs0.subrange(lo, hi)[left.len() + 1 + q] == idxs0[lo + left.len() + 1
                    + q]);
            };
            assert(right.len() == hi - m - 1);
            assert(right =~= idxs0.subrange(m + 1, hi));
        }
        if prefetch {
            let look = (2 * cur + PREFETCH_OFFSET) * 4;
            if look < n {
                let _hint = data[look];
            }
        }
        let go_left = if strict {
            data[cur] > target
        } else {
            data[cur] >= target
        };
        if go_left {
            res = Some(cur);
            proof {
                let ghost old_hi = hi;
                hi = m;
                assert forall|p: int| hi <= p < s.len() implies exceeds(s[p], target, strict) by {
                    if p < old_hi {
                        assert(s[m] <= s[p]);
                    }
                };
            }
            cur = 2 * cur + 1;
        } else {
            proof {
                lo = m + 1;
                assert forall|p: int| 0 <= p < lo implies !exceeds(s[p], target, strict) by {
                    if p <= m {
                        assert(s[p] <= s[m]);
                    }
                };
            }
            cur = 2 * cur + 2;
        }
    }
    proof {
        assert(inorder_idx(nn, cur as int).len() == 0);
        assert(lo == hi);
        lemma_bound_rank_unique(s, target, strict, lo);
        lemma_inorder_idx_elems(nn, 0);
    }
    res
}

/// Position of the leftmost in-order element `>= target`, or `None` when
/// every element is smaller.
pub fn lower_bound(data: &Vec<i32>, target: &i32) -> (r: Option<usize>)
    requires
        sorted(inorder_seq(data@)),
        data.len() < usize::MAX / 64,
    ensures
        match r {
            None => eytz_result(data@, *target, false) is None,
            Some(i) => eytz_result(data@, *target, false) == Some(i as int) && i < data.len()
                && data@[i as int] == inorder_seq(data@)[bound_rank(
                inorder_seq(data@),
                *target,
                false,
            )],
        },
{
    eytz_search(data, *target, false, false)
}

/// Position of the leftmost in-order element `> target`, or `None` when
/// every element is `<= target`.
pub fn upper_bound(data: &Vec<i32>, target: &i32) -> (r: Option<usize>)
    requires
        sorted(inorder_seq(data@)),
        data.len() < usize::MAX / 64,
    ensures
        match r {
            None => eytz_result(data@, *target, true) is None,
            Some(i) => eytz_result(data@, *target, true) == Some(i as int) && i < data.len()
                && data@[i as int] == inorder_seq(data@)[bound_rank(
                inorder_seq(data@),
                *target,
                true,
            )],
        },
{
    eytz_search(data, *target, true, false)
}

/// Same result as `lower_bound`; additionally touches a slot a few levels
/// down the presumed search path so its cache line is fetched early.
pub fn lower_bound_prefetched(data: &Vec<i32>, target: &i32) -> (r: Option<usize>)
    requires
        sorted(inorder_seq(data@)),
        data.len() < usize::MAX / 64,
    ensures
        match r {
            None => eytz_result(data@, *target, false) is None,
            Some(i) => eytz_result(data@, *target, false) == Some(i as int) && i < data.len()
                && data@[i as int] == inorder_seq(data@)[bound_rank(
                inorder_seq(data@),
                *target,
                false,
            )],
        },
{
    eytz_search(data, *target, false, true)
}

/// Same result as `upper_bound`, with the early cache-line touch of
/// `lower_bound_prefetched`.
pub fn upper_bound_prefetched(data: &Vec<i32>, target: &i32) -> (r: Option<usize>)
    requires
        sorted(inorder_seq(data@)),
        data.len() < usize::MAX / 64,
    ensures
        match r {
            None => eytz_result(data@, *target, true) is None,
            Some(i) => eytz_result(data@, *target, true) == Some(i as int) && i < data.len()
                && data@[i as int] == inorder_seq(data@)[bound_rank(
                inorder_seq(data@),
                *target,
                true,
            )],
        },
{
    eytz_search(data, *target, true, true)
}

/// Same result as `lower_bound_prefetched`. The descent direction is the
/// arithmetic `2*cur + 1 + right` of the comparison outcome rather than a
/// separate branch per direction, which spares branch mispredictions on
/// unpredictable query mixes; the answer is identical.
pub fn lower_bound_prefetched_branchless(data: &Vec<i32>, target: &i32) -> (r: Option<usize>)
    requires
        sorted(inorder_seq(data@)),
        data.len() < usize::MAX / 64,
    ensures
        match r {
            None => eytz_result(data@, *target, false) is None,
            Some(i) => eytz_result(data@, *target, false) == Some(i as int) && i < data.len()
                && data@[i as int] == inorder_seq(data@)[bound_rank(
                inorder_seq(data@),
                *target,
                false,
            )],
        },
{
    eytz_search(data, *target, false, true)
}

/// Same result as `upper_bound_prefetched`, computed with the branch-free
/// descent of `lower_bound_prefetched_branchless`.
pub fn upper_bound_prefetched_branchless(data: &Vec<i32>, target: &i32) -> (r: Option<usize>)
    requires
        sorted(inorder_seq(data@)),
        data.len() < usize::MAX / 64,
    ensures
        match r {
            None => eytz_result(data@, *target, true) is None,
            Some(i) => eytz_result(data@, *target, true) == Some(i as int) && i < data.len()
                && data@[i as int] == inorder_seq(data@)[bound_rank(
                inorder_seq(data@),
                *target,
                true,
            )],
        },
{
    eytz_search(data, *target, true, true)
}

} // verus!
