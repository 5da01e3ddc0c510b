//! The S-tree layout engine: a sorted sequence is repacked into a flat array
//! of 16-key blocks forming a 17-ary tree. Block `idx` occupies slots
//! `[idx*16, idx*16+16)` and its child `i` lives at block `idx*17 + i + 1`;
//! slots that hold no key carry the maximum sentinel. A bound query inspects
//! one whole block at a time — a cache line of 16 keys compared against the
//! target in one sweep — and descends to the child the comparison count
//! selects.
//!
//! The construction distributes elements over the children one level at a
//! time, filling children left to right up to each level's capacity. That
//! exact policy is part of the layout's definition: the flat array it
//! produces is pinned bit for bit.

use crate::bounds::exceeds;
use vstd::prelude::*;

verus! {

/// How many blocks ahead of the current one a search touches the layout so
/// that the memory it will need next is already on its way.
const PREFETCH_OFFSET: usize = 9;

/// Sum of the first `i` entries of a sequence of counts.
pub open spec fn sum_prefix(s: Seq<int>, i: int) -> int
    decreases i,
{
    if i <= 0 {
        0
    } else {
        sum_prefix(s, i - 1) + s[i - 1]
    }
}

/// One pass of the distribution over the 17 children, starting at child `i`:
/// each child in turn takes up to `cap` more elements until `rem` runs out.
/// Returns the grown counts and what is left of `rem`.
pub open spec fn fill_level(sizes: Seq<int>, rem: int, cap: int, i: int) -> (Seq<int>, int)
    decreases 17 - i,
{
    if i < 0 || i >= 17 || rem <= 0 {
        (sizes, rem)
    } else {
        let take = if rem < cap {
            rem
        } else {
            cap
        };
        fill_level(sizes.update(i, sizes[i] + take), rem - take, cap, i + 1)
    }
}

/// What a pass leaves of `rem` never grows, and strictly shrinks whenever a
/// pass with room and capacity starts on a positive remainder.
pub proof fn lemma_fill_level_rem(sizes: Seq<int>, rem: int, cap: int, i: int)
    requires
        0 <= i <= 17,
    ensures
        (rem >= 0 && cap >= 0) ==> 0 <= fill_level(sizes, rem, cap, i).1 <= rem,
        (i < 17 && rem > 0 && cap > 0) ==> fill_level(sizes, rem, cap, i).1 < rem,
    decreases 17 - i,
{
    if i < 17 && rem > 0 {
        let take = if rem < cap {
            rem
        } else {
            cap
        };
        lemma_fill_level_rem(sizes.update(i, sizes[i] + take), rem - take, cap, i + 1);
    }
}

/// The distribution proper: levels of geometrically growing per-child
/// capacity (`cap`, then `17*cap`, ...) are poured into the counts until the
/// remainder is gone.
pub open spec fn distribute_levels(sizes: Seq<int>, rem: int, cap: int) -> Seq<int>
    decreases rem,
{
    if rem <= 0 || cap <= 0 {
        sizes
    } else {
        proof {
            lemma_fill_level_rem(sizes, rem, cap, 0);
        }
        let passed = fill_level(sizes, rem, cap, 0);
        distribute_levels(passed.0, passed.1, 17 * cap)
    }
}

/// Seventeen zero counts.
pub open spec fn zero_sizes() -> Seq<int> {
    Seq::new(17, |i: int| 0)
}

/// How many of `n` elements go to each of the 17 children of a block: none
/// when the block is a leaf (`n <= 16`), else the `n - 16` elements that the
/// block's own pivots do not consume, poured level by level starting with
/// leaf capacity 16 per child.
pub open spec fn child_sizes(n: int) -> Seq<int> {
    if n <= 16 {
        zero_sizes()
    } else {
        distribute_levels(zero_sizes(), n - 16, 16)
    }
}

/// A pass adds exactly what it takes from the remainder to the total count,
/// keeps every count it grew non-negative, and keeps the length at 17.
proof fn lemma_fill_level_sum(sizes: Seq<int>, rem: int, cap: int, i: int)
    requires
        sizes.len() == 17,
        0 <= i <= 17,
        rem >= 0,
        cap >= 0,
        forall|p: int| 0 <= p < 17 ==> sizes[p] >= 0,
    ensures
        fill_level(sizes, rem, cap, i).0.len() == 17,
        forall|p: int| 0 <= p < 17 ==> fill_level(sizes, rem, cap, i).0[p] >= 0,
        sum_prefix(fill_level(sizes, rem, cap, i).0, 17) == sum_prefix(sizes, 17) + rem
            - fill_level(sizes, rem, cap, i).1,
    decreases 17 - i,
{
    if i < 17 && rem > 0 {
        let take = if rem < cap {
            rem
        } else {
            cap
        };
        let grown = sizes.update(i, sizes[i] + take);
        assert(forall|p: int| 0 <= p < 17 ==> grown[p] >= 0);
        lemma_sum_prefix_update(sizes, i, sizes[i] + take, 17);
        lemma_fill_level_sum(grown, rem - take, cap, i + 1);
    }
}

/// Replacing one entry shifts every prefix sum that covers it by the change
/// in that entry.
proof fn lemma_sum_prefix_update(s: Seq<int>, j: int, v: int, k: int)
    requires
        0 <= j < s.len(),
        k <= s.len(),
    ensures
        sum_prefix(s.update(j, v), k) == sum_prefix(s, k) + (if j < k {
            v - s[j]
        } else {
            0int
        }),
    decreases k,
{
    if k > 0 {
        lemma_sum_prefix_update(s, j, v, k - 1);
    }
}

/// Prefix sums of non-negative counts grow with the prefix.
pub proof fn lemma_sum_prefix_mono(s: Seq<int>, i: int, j: int)
    requires
        0 <= i <= j <= s.len(),
        forall|p: int| 0 <= p < s.len() ==> s[p] >= 0,
    ensures
        sum_prefix(s, i) <= sum_prefix(s, j),
        sum_prefix(s, i) >= 0,
    decreases i + j,
{
    if i > 0 {
        lemma_sum_prefix_mono(s, i - 1, i - 1);
    }
    if j > i {
        lemma_sum_prefix_mono(s, i, j - 1);
    }
}

/// The distribution hands out the whole remainder: the counts stay
/// non-negative and total exactly `rem` more than they started with.
proof fn lemma_distribute_levels_sum(sizes: Seq<int>, rem: int, cap: int)
    requires
        sizes.len() == 17,
        rem >= 0,
        forall|p: int| 0 <= p < 17 ==> sizes[p] >= 0,
    ensures
        distribute_levels(sizes, rem, cap).len() == 17,
        forall|p: int| 0 <= p < 17 ==> distribute_levels(sizes, rem, cap)[p] >= 0,
        cap > 0 ==> sum_prefix(distribute_levels(sizes, rem, cap), 17) == sum_prefix(sizes, 17)
            + rem,
    decreases rem,
{
    if rem > 0 && cap > 0 {
        lemma_fill_level_rem(sizes, rem, cap, 0);
        lemma_fill_level_sum(sizes, rem, cap, 0);
        let passed = fill_level(sizes, rem, cap, 0);
        lemma_distribute_levels_sum(passed.0, passed.1, 17 * cap);
    }
}

/// The 17 child counts of a block over `n > 16` elements are non-negative
/// and account for every element the block's 16 pivots do not consume.
pub proof fn lemma_child_sizes_props(n: int)
    requires
        n > 16,
    ensures
        child_sizes(n).len() == 17,
        forall|p: int| 0 <= p < 17 ==> child_sizes(n)[p] >= 0,
        sum_prefix(child_sizes(n), 17) == n - 16,
{
    assert(sum_prefix(zero_sizes(), 17) == 0) by {
        lemma_sum_prefix_zero(17);
    }
    lemma_distribute_levels_sum(zero_sizes(), n - 16, 16);
}

/// The prefix sums of the all-zero counts vanish.
proof fn lemma_sum_prefix_zero(k: int)
    requires
        k <= 17,
    ensures
        sum_prefix(zero_sizes(), k) == 0,
    decreases k,
{
    if k > 0 {
        lemma_sum_prefix_zero(k - 1);
    }
}

/// View of executable counts as the mathematical counts.
pub open spec fn sizes_view(v: Seq<usize>) -> Seq<int> {
    v.map_values(|x: usize| x as int)
}

/// Computes how many elements each of the 17 children of a block receives
/// when `n` elements are laid out under it. A leaf (`n <= 16`) has no
/// children; otherwise the `n - 16` elements left after the block's pivots
/// are filled in left to right, each level of the tree multiplying the
/// per-child capacity by 17.
pub fn distribute_child_sizes(n: usize) -> (r: Vec<usize>)
    ensures
        r.len() == 17,
        sizes_view(r@) == child_sizes(n as int),
{
    let mut sizes: Vec<usize> = Vec::new();
    let mut z: usize = 0;
    while z < 17
        invariant
            z <= 17,
            sizes.len() == z,
            forall|p: int| 0 <= p < z ==> sizes@[p] == 0,
        decreases 17 - z,
    {
        sizes.push(0);
        z += 1;
    }
    proof {
        assert(sizes_view(sizes@) =~= zero_sizes());
    }
    if n <= 16 {
        return sizes;
    }

    let total: usize = n - 16;
    let mut rem: usize = total;
    let mut cap: usize = 16;

    while rem > 0
        invariant
            sizes.len() == 17,
            cap >= 1,
            rem <= total,
            forall|p: int| 0 <= p < 17 ==> sizes@[p] <= total - rem,
            distribute_levels(sizes_view(sizes@), rem as int, cap as int) == child_sizes(n as int),
        decreases rem,
    {
        let ghost entry_sizes = sizes_view(sizes@);
        let ghost rem_start = rem as int;
        proof {
            lemma_fill_level_rem(entry_sizes, rem_start, cap as int, 0);
        }
        let mut i: usize = 0;
        while i < 17 && rem > 0
            invariant
                sizes.len() == 17,
                i <= 17,
                cap >= 1,
                rem as int <= rem_start,
                rem_start <= total,
                forall|p: int| 0 <= p < 17 ==> sizes@[p] <= total - rem,
                rem > 0 ==> rem as int + i * (cap as int) == rem_start,
                fill_level(sizes_view(sizes@), rem as int, cap as int, i as int) == fill_level(
                    entry_sizes,
                    rem_start,
                    cap as int,
                    0,
                ),
            decreases 17 - i,
        {
            let take = if rem < cap {
                rem
            } else {
                cap
            };
            let ghost pre = sizes_view(sizes@);
            let grown = sizes[i] + take;
            sizes[i] = grown;
            proof {
                assert(sizes_view(sizes@) =~= pre.update(i as int, pre[i as int] + take as int));
                assert((i + 1) * (cap as int) == i * (cap as int) + (cap as int))
                    by (nonlinear_arith);
            }
            rem = rem - take;
            i += 1;
        }
        proof {
            let now = sizes_view(sizes@);
            let passed = fill_level(entry_sizes, rem_start, cap as int, 0);
            assert(fill_level(now, rem as int, cap as int, i as int) == (now, rem as int));
            assert(passed.0 == now && passed.1 == rem as int);
            assert(distribute_levels(entry_sizes, rem_start, cap as int) == distribute_levels(
                passed.0,
                passed.1,
                17 * (cap as int),
            ));
        }
        if rem > 0 {
            proof {
                assert(i == 17);
                assert(17 * (cap as int) == i * (cap as int));
                assert(17 * (cap as int) == rem_start - rem as int);
            }
            cap = cap * 17;
        }
    }
    sizes
}

/// Length of the S-tree array for `n` input keys: `n` rounded up to a whole
/// number of blocks.
pub open spec fn stree_padded_len(n: int) -> int {
    if n % 16 == 0 {
        n
    } else {
        n + (16 - n % 16)
    }
}

/// A leaf block: `src` (at most one block's worth) copied into consecutive
/// slots of block `idx`, starting at slot `i`.
pub open spec fn copy_block(dest: Seq<i32>, src: Seq<i32>, idx: int, i: int) -> Seq<i32>
    decreases src.len() - i,
{
    if i >= src.len() {
        dest
    } else {
        copy_block(dest.update(16 * idx + i, src[i]), src, idx, i + 1)
    }
}

/// The 16 pivots of an interior block `idx`: pivot `i` is the source element
/// just past the run of `sizes[i]` elements that child `i` receives. Returns
/// the updated array and the source cursor past pivot 15.
pub open spec fn write_pivots(
    dest: Seq<i32>,
    src: Seq<i32>,
    sizes: Seq<int>,
    idx: int,
    i: int,
    cur: int,
) -> (Seq<i32>, int)
    decreases 16 - i,
{
    if i < 0 || i >= 16 {
        (dest, cur)
    } else {
        write_pivots(
            dest.update(16 * idx + i, src[cur + sizes[i]]),
            src,
            sizes,
            idx,
            i + 1,
            cur + sizes[i] + 1,
        )
    }
}

/// The subtrees of an interior block `idx`, laid out left to right: child `i`
/// receives the `sizes[i]` elements starting at `start`, in its own block
/// `idx*17 + i + 1`. A child without elements, or whose block would fall past
/// the end of the array (which only happens to empty children at the fringe),
/// is skipped.
pub open spec fn fill_children(
    dest: Seq<i32>,
    src: Seq<i32>,
    sizes: Seq<int>,
    idx: int,
    i: int,
    start: int,
) -> Seq<i32>
    decreases src.len(), 17 - i,
{
    if i < 0 || i >= 17 {
        dest
    } else {
        let c = sizes[i];
        let d2 = if 0 < c && c < src.len() && 0 <= start && start + c <= src.len() && 16 * (17
            * idx + i + 1) < dest.len() {
            stree_fill_spec(dest, src.subrange(start, start + c), 17 * idx + i + 1)
        } else {
            dest
        };
        fill_children(d2, src, sizes, idx, i + 1, start + c + 1)
    }
}

/// The array after the subtree holding `src` is laid out at block `idx`: a
/// leaf block is the source copied in, an interior block is its 16 pivots
/// followed by its children's subtrees.
pub open spec fn stree_fill_spec(dest: Seq<i32>, src: Seq<i32>, idx: int) -> Seq<i32>
    decreases src.len(), 18int,
{
    if src.len() == 0 {
        dest
    } else if src.len() <= 16 {
        copy_block(dest, src, idx, 0)
    } else {
        let sizes = child_sizes(src.len() as int);
        let d2 = write_pivots(dest, src, sizes, idx, 0, 0).0;
        fill_children(d2, src, sizes, idx, 0, 0)
    }
}

/// The whole layout: an empty input gives an empty array; otherwise a
/// sentinel-filled array of a whole number of blocks receives the input's
/// subtree from the root block on.
pub open spec fn stree_layout(s: Seq<i32>) -> Seq<i32> {
    if s.len() == 0 {
        Seq::empty()
    } else {
        stree_fill_spec(
            Seq::new(stree_padded_len(s.len() as int) as nat, |j: int| i32::MAX),
            s,
            0,
        )
    }
}

/// Lays out `source[start..end]` as the subtree rooted at block `idx`.
fn stree_fill(source: &Vec<i32>, start: usize, end: usize, dest: &mut Vec<i32>, idx: usize)
    requires
        start <= end && end <= source.len(),
        end - start <= old(dest).len(),
        old(dest).len() % 16 == 0,
        old(dest).len() <= usize::MAX / 64,
        end > start ==> 16 * idx < old(dest).len(),
    ensures
        final(dest).len() == old(dest).len(),
        final(dest)@ == stree_fill_spec(
            old(dest)@,
            source@.subrange(start as int, end as int),
            idx as int,
        ),
    decreases end - start,
{
    let ghost orig = dest@;
    let ghost srcv = source@.subrange(start as int, end as int);
    let n = end - start;
    if n == 0 {
        return ;
    }
    if n <= 16 {
        let mut i: usize = 0;
        while i < n
            invariant
                i <= n,
                n == end - start,
                1 <= n <= 16,
                start <= end <= source.len(),
                dest.len() == orig.len(),
                dest.len() % 16 == 0,
                16 * idx < dest.len(),
                srcv == source@.subrange(start as int, end as int),
                copy_block(dest@, srcv, idx as int, i as int) == copy_block(
                    orig,
                    srcv,
                    idx as int,
                    0,
                ),
            decreases n - i,
        {
            let v = source[start + i];
            let ghost pre = dest@;
            dest[16 * idx + i] = v;
            proof {
                assert(srcv[i as int] == v);
                assert(dest@ == pre.update(16 * (idx as int) + i as int, v));
            }
            i += 1;
        }
        proof {
            assert(copy_block(dest@, srcv, idx as int, n as int) == dest@);
        }
        return ;
    }

    let sizes = distribute_child_sizes(n);
    let ghost szv = sizes_view(sizes@);
    proof {
        lemma_child_sizes_props(n as int);
        assert(forall|p: int| 0 <= p < 17 ==> szv[p] >= 0);
    }

    let mut cur: usize = 0;
    let mut i: usize = 0;
    while i < 16
        invariant
            i <= 16,
            n == end - start,
            16 < n,
            start <= end <= source.len(),
            sizes.len() == 17,
            szv == sizes_view(sizes@),
            szv == child_sizes(n as int),
            sum_prefix(szv, 17) == n - 16,
            forall|p: int| 0 <= p < 17 ==> szv[p] >= 0,
            dest.len() == orig.len(),
            dest.len() % 16 == 0,
            16 * idx < dest.len(),
            srcv == source@.subrange(start as int, end as int),
            cur as int == i + sum_prefix(szv, i as int),
            write_pivots(dest@, srcv, szv, idx as int, i as int, cur as int) == write_pivots(
                orig,
                srcv,
                szv,
                idx as int,
                0,
                0,
            ),
        decreases 16 - i,
    {
        proof {
            lemma_sum_prefix_mono(szv, i as int, i as int + 1);
            lemma_sum_prefix_mono(szv, i as int + 1, 17);
        }
        let c = sizes[i];
        let pivot = source[start + cur + c];
        let ghost pre = dest@;
        dest[16 * idx + i] = pivot;
        proof {
            assert(srcv[cur as int + szv[i as int]] == pivot);
            assert(dest@ == pre.update(16 * (idx as int) + i as int, pivot));
        }
        cur = cur + c + 1;
        i += 1;
    }
    let ghost dest1 = dest@;
    proof {
        assert(write_pivots(dest1, srcv, szv, idx as int, 16, cur as int) == (
            dest1,
            cur as int,
        ));
        assert(dest1 == write_pivots(orig, srcv, szv, idx as int, 0, 0).0);
    }

    let mut child: usize = 0;
    let mut sstart: usize = 0;
    while child < 17
        invariant
            child <= 17,
            n == end - start,
            16 < n,
            start <= end <= source.len(),
            sizes.len() == 17,
            szv == sizes_view(sizes@),
            sum_prefix(szv, 17) == n - 16,
            forall|p: int| 0 <= p < 17 ==> szv[p] >= 0,
            dest.len() == orig.len(),
            dest.len() % 16 == 0,
            dest.len() <= usize::MAX / 64,
            n <= dest.len(),
            16 * idx < dest.len(),
            srcv == source@.subrange(start as int, end as int),
            sstart as int == child + sum_prefix(szv, child as int),
            fill_children(dest@, srcv, szv, idx as int, child as int, sstart as int)
                == fill_children(dest1, srcv, szv, idx as int, 0, 0),
        decreases 17 - child,
    {
        proof {
            lemma_sum_prefix_mono(szv, child as int, child as int + 1);
            lemma_sum_prefix_mono(szv, child as int + 1, 17);
        }
        let c = sizes[child];
        let ghost pre = dest@;
        if c > 0 {
            let child_idx = idx * 17 + child + 1;
            if child_idx * 16 < dest.len() {
                stree_fill(source, start + sstart, start + sstart + c, dest, child_idx);
                proof {
                    assert(srcv.subrange(sstart as int, sstart as int + c as int)
                        =~= source@.subrange(
                        start as int + sstart as int,
                        start as int + sstart as int + c as int,
                    ));
                }
            }
        }
        proof {
            assert(fill_children(pre, srcv, szv, idx as int, child as int, sstart as int)
                == fill_children(
                dest@,
                srcv,
                szv,
                idx as int,
                child as int + 1,
                sstart as int + szv[child as int] + 1,
            ));
        }
        sstart = sstart + c + 1;
        child += 1;
    }
    proof {
        assert(fill_children(dest@, srcv, szv, idx as int, 17, sstart as int) == dest@);
    }
}

/// Repacks a sorted sequence into the S-tree layout: the input padded with
/// the maximum sentinel up to a whole number of 16-key blocks, the blocks
/// forming the 17-ary tree that `stree_layout` describes.
pub fn create_layout_stree(data: &Vec<i32>) -> (r: Vec<i32>)
    requires
        data.len() <= usize::MAX / 128,
    ensures
        r@ == stree_layout(data@),
        r.len() == stree_padded_len(data@.len() as int),
        r.len() % 16 == 0,
{
    let n = data.len();
    let mut stree_arr: Vec<i32> = Vec::new();
    if n == 0 {
        proof {
            assert(stree_arr@ =~= stree_layout(data@));
        }
        return stree_arr;
    }
    let rem16 = n % 16;
    let pad = if rem16 == 0 {
        0
    } else {
        16 - rem16
    };
    let total = n + pad;
    while stree_arr.len() < total
        invariant
            stree_arr.len() <= total,
            stree_arr@ == Seq::new(stree_arr.len() as nat, |j: int| i32::MAX),
        decreases total - stree_arr.len(),
    {
        let ghost pre = stree_arr@;
        stree_arr.push(i32::MAX);
        proof {
            assert(stree_arr@ =~= Seq::new(stree_arr.len() as nat, |j: int| i32::MAX));
        }
    }
    proof {
        assert(total as int == stree_padded_len(n as int));
        assert(total % 16 == 0);
    }
    stree_fill(data, 0, n, &mut stree_arr, 0);
    proof {
        assert(data@.subrange(0, n as int) =~= data@);
    }
    stree_arr
}

/// How many keys of the block at `off` the target has passed: keys
/// `< target` for a lower-bound query, `<= target` for an upper-bound query,
/// counted from lane `j` on.
pub open spec fn block_rank(l: Seq<i32>, off: int, target: i32, strict: bool, j: int) -> int
    decreases 16 - j,
{
    if j < 0 || j >= 16 {
        0
    } else {
        (if !exceeds(l[off + j], target, strict) {
            1int
        } else {
            0int
        }) + block_rank(l, off, target, strict, j + 1)
    }
}

/// The lane count of a block never leaves `[0, 16]`.
pub proof fn lemma_block_rank_bounds(l: Seq<i32>, off: int, target: i32, strict: bool, j: int)
    requires
        0 <= j <= 16,
    ensures
        0 <= block_rank(l, off, target, strict, j) <= 16 - j,
    decreases 16 - j,
{
    if j < 16 {
        lemma_block_rank_bounds(l, off, target, strict, j + 1);
    }
}

/// One descent of the S-tree search from block `cur` carrying the best
/// recorded answer so far: count the passed keys of the block, record the
/// first non-sentinel key the target has not passed (if the block has one),
/// and descend into the child the count selects, until the child block falls
/// past the end of the array.
pub open spec fn stree_step(
    l: Seq<i32>,
    target: i32,
    strict: bool,
    cur: int,
    res: Option<int>,
) -> Option<int>
    decreases (if 0 <= cur && 16 * cur < l.len() {
        l.len() - cur
    } else {
        0
    }),
{
    if cur < 0 || 16 * cur >= l.len() {
        res
    } else {
        let off = 16 * cur;
        let i = block_rank(l, off, target, strict, 0);
        let res2 = if i < 16 && l[off + i] != i32::MAX {
            Some(off + i)
        } else {
            res
        };
        proof {
            lemma_block_rank_bounds(l, off, target, strict, 0);
        }
        stree_step(l, target, strict, 17 * cur + i + 1, res2)
    }
}

/// The result an S-tree bound query must produce: the whole descent from the
/// root block with nothing recorded yet.
pub open spec fn stree_result(l: Seq<i32>, target: i32, strict: bool) -> Option<int> {
    stree_step(l, target, strict, 0, None)
}

/// An executable answer viewed as the mathematical one.
pub open spec fn opt_index(r: Option<usize>) -> Option<int> {
    match r {
        None => None,
        Some(v) => Some(v as int),
    }
}

/// Counts the keys of one 16-key block that the target has passed: the
/// portable form of the 16-lane vector compare-and-count primitive.
fn block_lane_count(data: &Vec<i32>, off: usize, target: i32, strict: bool) -> (r: usize)
    requires
        off + 16 <= data.len(),
    ensures
        r as int == block_rank(data@, off as int, target, strict, 0),
        r <= 16,
{
    let mut count: usize = 0;
    let mut j: usize = 0;
    while j < 16
        invariant
            j <= 16,
            count <= j,
            off + 16 <= data.len(),
            count as int + block_rank(data@, off as int, target, strict, j as int) == block_rank(
                data@,
                off as int,
                target,
                strict,
                0,
            ),
        decreases 16 - j,
    {
        let passed = if strict {
            data[off + j] <= target
        } else {
            data[off + j] < target
        };
        if passed {
            count += 1;
        }
        j += 1;
    }
    proof {
        lemma_block_rank_bounds(data@, off as int, target, strict, 0);
    }
    count
}

/// Shared descent for both S-tree bound queries.
fn stree_search(data: &Vec<i32>, target: i32, strict: bool) -> (r: Option<usize>)
    requires
        data.len() % 16 == 0,
        data.len() <= usize::MAX / 64,
    ensures
        opt_index(r) == stree_result(data@, target, strict),
        r matches Some(i) ==> i < data.len() && data@[i as int] != i32::MAX,
{
    let n = data.len();
    let mut res: Option<usize> = None;
    let mut cur: usize = 0;

    while cur * 16 < n
        invariant
            n == data.len(),
            n % 16 == 0,
            n <= usize::MAX / 64,
            cur <= usize::MAX / 32,
            stree_step(data@, target, strict, cur as int, opt_index(res)) == stree_result(
                data@,
                target,
                strict,
            ),
            res matches Some(v) ==> v < n && data@[v as int] != i32::MAX,
        decreases (if cur * 16 < n {
            n - cur
        } else {
            0
        }),
    {
        let off = cur * 16;
        proof {
            assert(off + 16 <= n);
        }
        let look = (cur * 17 + PREFETCH_OFFSET) * 16;
        if look < n {
            let _hint = data[look];
        }
        let i = block_lane_count(data, off, target, strict);
        if i < 16 {
            let candidate = data[off + i];
            if candidate != i32::MAX {
                res = Some(off + i);
            }
        }
        proof {
            lemma_block_rank_bounds(data@, off as int, target, strict, 0);
        }
        cur = cur * 17 + i + 1;
    }
    res
}

/// Position in the layout of the first key `>= target` in sorted order, or
/// `None` when every key is smaller. The layout must be a whole number of
/// blocks, as `create_layout_stree` produces it.
pub fn lower_bound(data: &Vec<i32>, target: &i32) -> (r: Option<usize>)
    requires
        data.len() % 16 == 0,
        data.len() <= usize::MAX / 64,
    ensures
        opt_index(r) == stree_result(data@, *target, false),
        r matches Some(i) ==> i < data.len() && data@[i as int] != i32::MAX,
{
    stree_search(data, *target, false)
}

/// Position in the layout of the first key `> target` in sorted order, or
/// `None` when every key is `<= target`. The layout must be a whole number of
/// blocks, as `create_layout_stree` produces it.
pub fn upper_bound(data: &Vec<i32>, target: &i32) -> (r: Option<usize>)
    requires
        data.len() % 16 == 0,
        data.len() <= usize::MAX / 64,
    ensures
        opt_index(r) == stree_result(data@, *target, true),
        r matches Some(i) ==> i < data.len() && data@[i as int] != i32::MAX,
{
    stree_search(data, *target, true)
}

/// Copying a short run into a block writes exactly the slots it names and
/// nothing else.
proof fn lemma_copy_block_slots(dest: Seq<i32>, src: Seq<i32>, idx: int, i: int)
    requires
        0 <= idx,
        0 <= i <= src.len() <= 16,
        16 * idx + 16 <= dest.len(),
    ensures
        copy_block(dest, src, idx, i).len() == dest.len(),
        forall|p: int|
            i <= p < src.len() ==> copy_block(dest, src, idx, i)[16 * idx + p] == src[p],
        forall|q: int|
            0 <= q < dest.len() && !(16 * idx + i <= q < 16 * idx + src.len())
                ==> copy_block(dest, src, idx, i)[q] == dest[q],
    decreases src.len() - i,
{
    if i < src.len() {
        let stepped = dest.update(16 * idx + i, src[i]);
        lemma_copy_block_slots(stepped, src, idx, i + 1);
        assert(copy_block(dest, src, idx, i) == copy_block(stepped, src, idx, i + 1));
        assert forall|p: int|
            i <= p < src.len() implies copy_block(dest, src, idx, i)[16 * idx + p]
            == src[p] by {
            if p == i {
                assert(copy_block(stepped, src, idx, i + 1)[16 * idx + i] == stepped[16 * idx
                    + i]);
                assert(stepped[16 * idx + i] == src[i]);
            } else {
                assert(copy_block(stepped, src, idx, i + 1)[16 * idx + p] == src[p]);
            }
        };
        assert forall|q: int|
            0 <= q < dest.len() && !(16 * idx + i <= q < 16 * idx + src.len()) implies copy_block(
            dest,
            src,
            idx,
            i,
        )[q] == dest[q] by {
            assert(copy_block(stepped, src, idx, i + 1)[q] == stepped[q]);
            assert(stepped[q] == dest[q]);
        };
    }
}

/// When the lanes a block passes to the target form a prefix of length `r`,
/// the lane count from lane `j` on is what is left of that prefix.
proof fn lemma_block_rank_prefix(
    l: Seq<i32>,
    off: int,
    target: i32,
    strict: bool,
    r: int,
    j: int,
)
    requires
        0 <= j <= 16,
        0 <= r <= 16,
        forall|p: int| j <= p < 16 ==> (!#[trigger] exceeds(l[off + p], target, strict) <==> p < r),
    ensures
        block_rank(l, off, target, strict, j) == if j < r {
            r - j
        } else {
            0int
        },
    decreases 16 - j,
{
    if j < 16 {
        lemma_block_rank_prefix(l, off, target, strict, r, j + 1);
    }
}

/// Block `j` lies in the block subtree rooted at block `k` of the 17-ary
/// block tree: following parent links `j -> (j-1)/17` from `j` reaches `k`.
pub open spec fn in_block_subtree(k: int, j: int) -> bool
    decreases j,
{
    if j < k || k < 0 {
        false
    } else if j == k {
        true
    } else {
        in_block_subtree(k, (j - 1) / 17)
    }
}

/// Block-subtree membership is transitive.
proof fn lemma_block_subtree_trans(k: int, c: int, j: int)
    requires
        0 <= k,
        in_block_subtree(k, c),
        in_block_subtree(c, j),
    ensures
        in_block_subtree(k, j),
    decreases j,
{
    if j != c {
        lemma_block_subtree_trans(k, c, (j - 1) / 17);
    }
}

/// Every child block of `k` lies in `k`'s block subtree.
proof fn lemma_block_child_in_subtree(k: int, i: int)
    requires
        0 <= k,
        0 <= i < 17,
    ensures
        in_block_subtree(k, 17 * k + i + 1),
{
    assert((17 * k + i + 1 - 1) / 17 == k);
    assert(in_block_subtree(k, k));
}

/// Every in-range slot of every block in the block subtree at `b` holds the
/// sentinel.
pub open spec fn sentinel_subtree(l: Seq<i32>, b: int) -> bool {
    forall|q: int| 0 <= q < l.len() && in_block_subtree(b, #[trigger] (q / 16)) ==> l[q] == i32::MAX
}

/// The subtree of a child of `b` is all-sentinel whenever `b`'s subtree is.
proof fn lemma_sentinel_child(l: Seq<i32>, b: int, i: int)
    requires
        0 <= b,
        0 <= i < 17,
        sentinel_subtree(l, b),
    ensures
        sentinel_subtree(l, 17 * b + i + 1),
{
    let child = 17 * b + i + 1;
    lemma_block_child_in_subtree(b, i);
    assert forall|q: int|
        0 <= q < l.len() && in_block_subtree(child, #[trigger] (q / 16)) implies l[q]
        == i32::MAX by {
        lemma_block_subtree_trans(b, child, q / 16);
    };
}

/// A search that enters an all-sentinel subtree records nothing there and
/// comes back with the answer it carried: sentinel slots never satisfy a
/// query that a real key could.
proof fn lemma_sentinel_step(l: Seq<i32>, target: i32, strict: bool, b: int, res: Option<int>)
    requires
        l.len() % 16 == 0,
        0 <= b,
        sentinel_subtree(l, b),
    ensures
        stree_step(l, target, strict, b, res) == res,
    decreases (if 16 * b < l.len() {
        l.len() - b
    } else {
        0
    }),
{
    if 16 * b < l.len() {
        let off = 16 * b;
        assert(in_block_subtree(b, b));
        assert forall|p: int| 0 <= p < 16 implies #[trigger] l[off + p] == i32::MAX by {
            assert((off + p) / 16 == b);
        };
        let r: int = if strict && target == i32::MAX {
            16
        } else {
            0
        };
        assert forall|p: int| 0 <= p < 16 implies (!#[trigger] exceeds(l[off + p], target, strict)
            <==> p < r) by {
            assert(l[off + p] == i32::MAX);
        };
        lemma_block_rank_prefix(l, off, target, strict, r, 0);
        let i0 = block_rank(l, off, target, strict, 0);
        if i0 < 16 {
            assert((off + i0) / 16 == b);
            assert(l[off + i0] == i32::MAX);
        }
        lemma_sentinel_child(l, b, i0);
        lemma_sentinel_step(l, target, strict, 17 * b + i0 + 1, res);
    }
}

/// Source position of pivot `i` of a block whose children receive `sizes`:
/// just past run `i`.
pub open spec fn pivot_pos(sizes: Seq<int>, i: int) -> int {
    i + sum_prefix(sizes, i + 1)
}

/// Source position where run `i` (the elements of child `i`) starts.
pub open spec fn run_start(sizes: Seq<int>, i: int) -> int {
    i + sum_prefix(sizes, i)
}

/// Child `i` of block `idx` has the S-tree shape over its run of `s`: a
/// non-empty child sits in its own in-range block as a valid subtree; an
/// empty child either has no block at all or an all-sentinel one.
pub open spec fn stree_child_ok(l: Seq<i32>, s: Seq<i32>, sizes: Seq<int>, idx: int, i: int) -> bool
    decreases s.len(), 0int,
{
    let c = sizes[i];
    let child = 17 * idx + i + 1;
    let start = run_start(sizes, i);
    if 0 < c && c < s.len() && 0 <= start && start + c <= s.len() {
        &&& 16 * child < l.len()
        &&& stree_valid(l, s.subrange(start, start + c), child)
    } else {
        &&& c == 0
        &&& (16 * child < l.len() ==> sentinel_subtree(l, child))
    }
}

/// All children of block `idx` from child `i` on have the S-tree shape.
pub open spec fn stree_children_ok(
    l: Seq<i32>,
    s: Seq<i32>,
    sizes: Seq<int>,
    idx: int,
    i: int,
) -> bool
    decreases s.len(), 18 - i,
{
    if i < 0 || i >= 17 {
        true
    } else {
        stree_child_ok(l, s, sizes, idx, i) && stree_children_ok(l, s, sizes, idx, i + 1)
    }
}

/// The subtree at block `idx` holds exactly the sequence `s`, in the S-tree
/// shape: a leaf block is `s` followed by sentinel padding, with nothing but
/// sentinel below it; an interior block holds as pivot `i` the element just
/// past run `i`, each run in the child the pivots separate. This is the
/// separation invariant of the layout: every key of child `i` precedes pivot
/// `i` in sorted order, and every key of child `i+1` follows it.
pub open spec fn stree_valid(l: Seq<i32>, s: Seq<i32>, idx: int) -> bool
    decreases s.len(), 19int,
{
    &&& 0 <= idx
    &&& 16 * idx + 16 <= l.len()
    &&& if s.len() <= 16 {
        &&& (forall|p: int| 0 <= p < s.len() ==> l[16 * idx + p] == s[p])
        &&& (forall|q: int| 16 * idx + s.len() <= q < 16 * idx + 16 ==> #[trigger] l[q] == i32::MAX)
        &&& (forall|q: int|
            0 <= q < l.len() && in_block_subtree(idx, #[trigger] (q / 16)) && q / 16 != idx
                ==> l[q] == i32::MAX)
    } else {
        &&& (forall|i: int|
            0 <= i < 16 ==> l[16 * idx + i] == s[#[trigger] pivot_pos(
                child_sizes(s.len() as int),
                i,
            )])
        &&& stree_children_ok(l, s, child_sizes(s.len() as int), idx, 0)
    }
}

/// Each single child's shape follows from the shape of all of them.
proof fn lemma_children_ok_at(l: Seq<i32>, s: Seq<i32>, sizes: Seq<int>, idx: int, i: int, j: int)
    requires
        0 <= i <= j < 17,
        stree_children_ok(l, s, sizes, idx, i),
    ensures
        stree_child_ok(l, s, sizes, idx, j),
    decreases j - i,
{
    if i < j {
        lemma_children_ok_at(l, s, sizes, idx, i + 1, j);
    }
}

/// Pivot separation at work: over a valid subtree holding the sorted run
/// `s`, a bound query returns the position of the first key of `s` the
/// target has not passed, or hands back the answer it carried when `s` has
/// no such key. Keys equal to the sentinel cannot be stored, so they are
/// excluded.
#[verifier::rlimit(100)]
proof fn lemma_stree_descend(
    l: Seq<i32>,
    target: i32,
    strict: bool,
    s: Seq<i32>,
    idx: int,
    res: Option<int>,
)
    requires
        l.len() % 16 == 0,
        stree_valid(l, s, idx),
        crate::bounds::sorted(s),
        forall|j: int| 0 <= j < s.len() ==> s[j] != i32::MAX,
    ensures
        crate::bounds::bound_rank(s, target, strict) < s.len() ==> (stree_step(
            l,
            target,
            strict,
            idx,
            res,
        ) matches Some(j) && 0 <= j < l.len() && l[j] == s[crate::bounds::bound_rank(
            s,
            target,
            strict,
        )]),
        crate::bounds::bound_rank(s, target, strict) == s.len() ==> stree_step(
            l,
            target,
            strict,
            idx,
            res,
        ) == res,
    decreases s.len(),
{
    let rank = crate::bounds::bound_rank(s, target, strict);
    crate::bounds::lemma_bound_rank_props(s, target, strict);
    let off = 16 * idx;
    let n = s.len() as int;

    if n <= 16 {
        if strict && target == i32::MAX {
            crate::bounds::lemma_rank_after_all(s, target, strict);
            assert forall|p: int| 0 <= p < 16 implies (!#[trigger] exceeds(
                l[off + p],
                target,
                strict,
            ) <==> p < 16) by {
                if p < n {
                    assert(l[off + p] == s[p]);
                } else {
                    assert(l[off + p] == i32::MAX);
                }
            };
            lemma_block_rank_prefix(l, off, target, strict, 16, 0);
        } else {
            assert forall|p: int| 0 <= p < 16 implies (!#[trigger] exceeds(
                l[off + p],
                target,
                strict,
            ) <==> p < rank) by {
                if p < n {
                    assert(l[off + p] == s[p]);
                    if rank <= p {
                        assert(s[rank] <= s[p]);
                    }
                } else {
                    assert(l[off + p] == i32::MAX);
                }
            };
            lemma_block_rank_prefix(l, off, target, strict, rank, 0);
        }
        let i0 = block_rank(l, off, target, strict, 0);
        let child = 17 * idx + i0 + 1;
        lemma_block_child_in_subtree(idx, i0);
        assert forall|q: int|
            0 <= q < l.len() && in_block_subtree(child, #[trigger] (q / 16)) implies l[q]
            == i32::MAX by {
            lemma_block_subtree_trans(idx, child, q / 16);
        };
        if i0 < 16 && l[off + i0] != i32::MAX {
            assert(i0 < n);
            lemma_sentinel_step(l, target, strict, child, Some(off + i0));
        } else {
            lemma_sentinel_step(l, target, strict, child, res);
        }
    } else {
        let sizes = child_sizes(n);
        lemma_child_sizes_props(n);
        assert forall|i: int|
            0 <= i < 16 implies 0 <= run_start(sizes, i) && run_start(sizes, i) + sizes[i]
            == #[trigger] pivot_pos(sizes, i) && pivot_pos(sizes, i) < n && sizes[i] <= n
            - 16 by {
            lemma_sum_prefix_mono(sizes, i, i);
            lemma_sum_prefix_mono(sizes, i + 1, 17);
            lemma_sum_prefix_mono(sizes, i, i + 1);
        };
        let pivotseq = Seq::new(16, |i: int| s[pivot_pos(sizes, i)]);
        assert forall|a: int, b: int| 0 <= a <= b < 16 implies pivotseq[a] <= pivotseq[b] by {
            lemma_sum_prefix_mono(sizes, a + 1, b + 1);
            assert(pivot_pos(sizes, a) <= pivot_pos(sizes, b));
            assert(s[pivot_pos(sizes, a)] <= s[pivot_pos(sizes, b)]);
        };
        assert(crate::bounds::sorted(pivotseq));
        let r = crate::bounds::bound_rank(pivotseq, target, strict);
        crate::bounds::lemma_bound_rank_props(pivotseq, target, strict);
        assert forall|p: int| 0 <= p < 16 implies (!#[trigger] exceeds(l[off + p], target, strict)
            <==> p < r) by {
            assert(l[off + p] == s[pivot_pos(sizes, p)]);
            assert(l[off + p] == pivotseq[p]);
            if r <= p && r < 16 {
                assert(pivotseq[r] <= pivotseq[p]);
            }
        };
        lemma_block_rank_prefix(l, off, target, strict, r, 0);
        let i0 = block_rank(l, off, target, strict, 0);
        assert(i0 == r);
        let c = sizes[r];
        let start = run_start(sizes, r);
        lemma_children_ok_at(l, s, sizes, idx, 0, r);
        // Everything before run `r` is passed: the pivot just before the run
        // already is.
        if r > 0 {
            assert(run_start(sizes, r) == pivot_pos(sizes, r - 1) + 1);
            assert(!exceeds(pivotseq[r - 1], target, strict));
        }
        if rank < n {
            assert(start <= rank) by {
                if r > 0 && rank < start {
                    assert(s[rank] <= s[pivot_pos(sizes, r - 1)]);
                    assert(exceeds(s[rank], target, strict));
                }
            };
        }
        if r < 16 {
            assert(exceeds(pivotseq[r], target, strict));
            assert(l[off + r] == s[pivot_pos(sizes, r)]);
            assert(l[off + r] != i32::MAX);
            let pp = pivot_pos(sizes, r);
            assert(rank <= pp);
            let res2 = Some(off + r);
            if rank < pp {
                // The answer lies inside run `r`.
                assert(0 < c);
                let run = s.subrange(start, start + c);
                assert(crate::bounds::sorted(run));
                assert(forall|j: int| 0 <= j < run.len() ==> run[j] != i32::MAX);
                crate::bounds::lemma_bound_rank_unique(run, target, strict, rank - start);
                lemma_stree_descend(l, target, strict, run, 17 * idx + r + 1, res2);
                assert(run[rank - start] == s[rank]);
            } else {
                // The answer is pivot `r` itself: nothing in run `r` exceeds.
                if c > 0 {
                    let run = s.subrange(start, start + c);
                    assert(crate::bounds::sorted(run));
                    assert(forall|j: int| 0 <= j < run.len() ==> run[j] != i32::MAX);
                    crate::bounds::lemma_bound_rank_unique(run, target, strict, c);
                    lemma_stree_descend(l, target, strict, run, 17 * idx + r + 1, res2);
                } else {
                    let child = 17 * idx + r + 1;
                    if 16 * child < l.len() {
                        lemma_sentinel_step(l, target, strict, child, res2);
                    }
                }
                assert(rank == pp);
            }
        } else {
            // Every pivot is passed: only the last child can hold the answer.
            assert(start + c == n) by {
                assert(run_start(sizes, 16) + sizes[16] == 16 + sum_prefix(sizes, 17));
            };
            if c > 0 {
                let run = s.subrange(start, start + c);
                assert(crate::bounds::sorted(run));
                assert(forall|j: int| 0 <= j < run.len() ==> run[j] != i32::MAX);
                if rank < n {
                    crate::bounds::lemma_bound_rank_unique(run, target, strict, rank - start);
                    lemma_stree_descend(l, target, strict, run, 17 * idx + 17, res);
                    assert(run[rank - start] == s[rank]);
                } else {
                    crate::bounds::lemma_bound_rank_unique(run, target, strict, c);
                    lemma_stree_descend(l, target, strict, run, 17 * idx + 17, res);
                }
            } else {
                assert(rank == n);
                let child = 17 * idx + 17;
                if 16 * child < l.len() {
                    lemma_sentinel_step(l, target, strict, child, res);
                }
            }
        }
    }
}

/// Equivalence with the scalar oracle for any array of the S-tree shape: a
/// bound query is absent exactly when the oracle's rank is past the end of
/// the sorted sequence, and otherwise the slot it returns holds the very key
/// at the oracle's rank.
pub proof fn lemma_stree_valid_matches_oracle(l: Seq<i32>, s: Seq<i32>, target: i32, strict: bool)
    requires
        l.len() % 16 == 0,
        s.len() == 0 ==> l.len() == 0,
        s.len() > 0 ==> stree_valid(l, s, 0),
        crate::bounds::sorted(s),
        forall|j: int| 0 <= j < s.len() ==> s[j] != i32::MAX,
    ensures
        stree_result(l, target, strict) is None <==> crate::bounds::bound_rank(s, target, strict)
            == s.len(),
        stree_result(l, target, strict) matches Some(j) ==> 0 <= j < l.len() && l[j]
            == s[crate::bounds::bound_rank(s, target, strict)],
{
    crate::bounds::lemma_bound_rank_props(s, target, strict);
    if s.len() > 0 {
        lemma_stree_descend(l, target, strict, s, 0, None);
    }
}

/// Distinct children of a block root disjoint block subtrees.
proof fn lemma_block_sibling_disjoint(k: int, i1: int, i2: int, j: int)
    requires
        0 <= k,
        0 <= i1 < i2 < 17,
    ensures
        !(in_block_subtree(17 * k + i1 + 1, j) && in_block_subtree(17 * k + i2 + 1, j)),
    decreases j,
{
    let c1 = 17 * k + i1 + 1;
    let c2 = 17 * k + i2 + 1;
    if j > 17 * k + 17 {
        lemma_block_sibling_disjoint(k, i1, i2, (j - 1) / 17);
    } else if c1 < j {
        assert((j - 1) / 17 == k);
        assert(!in_block_subtree(c1, k));
        assert(!in_block_subtree(c2, k));
    }
}

/// The pivot pass writes each remaining pivot slot of block `idx` with the
/// source element just past its run, touches nothing else, and leaves the
/// cursor at the start of the last run.
proof fn lemma_write_pivots_slots(
    dest: Seq<i32>,
    src: Seq<i32>,
    sizes: Seq<int>,
    idx: int,
    i: int,
    cur: int,
)
    requires
        0 <= idx,
        16 * idx + 16 <= dest.len(),
        0 <= i <= 16,
        cur == run_start(sizes, i),
    ensures
        write_pivots(dest, src, sizes, idx, i, cur).0.len() == dest.len(),
        forall|j: int|
            i <= j < 16 ==> write_pivots(dest, src, sizes, idx, i, cur).0[16 * idx + j] == src[
                #[trigger] pivot_pos(sizes, j)
            ],
        forall|q: int|
            0 <= q < dest.len() && !(16 * idx + i <= q < 16 * idx + 16) ==> write_pivots(
                dest,
                src,
                sizes,
                idx,
                i,
                cur,
            ).0[q] == dest[q],
    decreases 16 - i,
{
    if i < 16 {
        let stepped = dest.update(16 * idx + i, src[cur + sizes[i]]);
        assert(cur + sizes[i] == pivot_pos(sizes, i));
        assert(run_start(sizes, i + 1) == pivot_pos(sizes, i) + 1);
        lemma_write_pivots_slots(stepped, src, sizes, idx, i + 1, cur + sizes[i] + 1);
        assert(write_pivots(dest, src, sizes, idx, i, cur) == write_pivots(
            stepped,
            src,
            sizes,
            idx,
            i + 1,
            cur + sizes[i] + 1,
        ));
        assert forall|j: int|
            i <= j < 16 implies write_pivots(dest, src, sizes, idx, i, cur).0[16 * idx + j]
            == src[#[trigger] pivot_pos(sizes, j)] by {
            if j == i {
                assert(write_pivots(stepped, src, sizes, idx, i + 1, cur + sizes[i] + 1).0[16 * idx
                    + i] == stepped[16 * idx + i]);
                assert(stepped[16 * idx + i] == src[pivot_pos(sizes, i)]);
            }
        };
        assert forall|q: int|
            0 <= q < dest.len() && !(16 * idx + i <= q < 16 * idx + 16) implies write_pivots(
            dest,
            src,
            sizes,
            idx,
            i,
            cur,
        ).0[q] == dest[q] by {
            assert(write_pivots(stepped, src, sizes, idx, i + 1, cur + sizes[i] + 1).0[q]
                == stepped[q]);
            assert(stepped[q] == dest[q]);
        };
    }
}

/// An all-sentinel subtree stays all-sentinel in any array that agrees with
/// it on the subtree's slots.
proof fn lemma_sentinel_subtree_local(l1: Seq<i32>, l2: Seq<i32>, b: int)
    requires
        l1.len() == l2.len(),
        sentinel_subtree(l1, b),
        forall|q: int| 0 <= q < l1.len() && in_block_subtree(b, #[trigger] (q / 16)) ==> l1[q]
            == l2[q],
    ensures
        sentinel_subtree(l2, b),
{
    assert forall|q: int|
        0 <= q < l2.len() && in_block_subtree(b, #[trigger] (q / 16)) implies l2[q]
        == i32::MAX by {
        assert(l1[q] == i32::MAX);
    };
}

/// A valid subtree reads only its own slots: any array that agrees with a
/// valid one on the subtree's slots is valid over the same run.
proof fn lemma_stree_valid_local(l1: Seq<i32>, l2: Seq<i32>, s: Seq<i32>, b: int)
    requires
        l1.len() == l2.len(),
        stree_valid(l1, s, b),
        forall|q: int| 0 <= q < l1.len() && in_block_subtree(b, #[trigger] (q / 16)) ==> l1[q]
            == l2[q],
    ensures
        stree_valid(l2, s, b),
    decreases s.len(), 19int,
{
    assert(in_block_subtree(b, b));
    assert forall|q: int| 16 * b <= q < 16 * b + 16 implies #[trigger] l2[q] == l1[q] by {
        assert(q / 16 == b);
    };
    if s.len() <= 16 {
        assert forall|q: int|
            0 <= q < l2.len() && in_block_subtree(b, #[trigger] (q / 16)) && q / 16 != b implies l2[q]
            == i32::MAX by {
            assert(l1[q] == i32::MAX);
        };
    } else {
        lemma_children_ok_local(l1, l2, s, child_sizes(s.len() as int), b, 0);
    }
}

/// The children's part of the locality argument.
proof fn lemma_children_ok_local(
    l1: Seq<i32>,
    l2: Seq<i32>,
    s: Seq<i32>,
    sizes: Seq<int>,
    idx: int,
    i: int,
)
    requires
        l1.len() == l2.len(),
        0 <= idx,
        stree_children_ok(l1, s, sizes, idx, i),
        forall|q: int| 0 <= q < l1.len() && in_block_subtree(idx, #[trigger] (q / 16)) ==> l1[q]
            == l2[q],
    ensures
        stree_children_ok(l2, s, sizes, idx, i),
    decreases s.len(), 18 - i,
{
    if 0 <= i < 17 {
        let child = 17 * idx + i + 1;
        lemma_block_child_in_subtree(idx, i);
        assert forall|q: int|
            0 <= q < l1.len() && in_block_subtree(child, #[trigger] (q / 16)) implies l1[q]
            == l2[q] by {
            lemma_block_subtree_trans(idx, child, q / 16);
        };
        let c = sizes[i];
        let start = run_start(sizes, i);
        assert(stree_child_ok(l1, s, sizes, idx, i));
        if 0 < c && c < s.len() && 0 <= start && start + c <= s.len() {
            assert(stree_valid(l1, s.subrange(start, start + c), child));
            lemma_stree_valid_local(l1, l2, s.subrange(start, start + c), child);
        } else {
            if 16 * child < l1.len() {
                assert(sentinel_subtree(l1, child));
                lemma_sentinel_subtree_local(l1, l2, child);
            }
        }
        lemma_children_ok_local(l1, l2, s, sizes, idx, i + 1);
        assert(stree_child_ok(l2, s, sizes, idx, i));
    }
}

/// Laying out a subtree changes no slot outside the blocks of that subtree.
proof fn lemma_stree_fill_frame(dest: Seq<i32>, src: Seq<i32>, idx: int)
    requires
        0 <= idx,
        16 * idx + 16 <= dest.len(),
        dest.len() % 16 == 0,
    ensures
        stree_fill_spec(dest, src, idx).len() == dest.len(),
        forall|q: int|
            0 <= q < dest.len() && !in_block_subtree(idx, #[trigger] (q / 16))
                ==> stree_fill_spec(dest, src, idx)[q] == dest[q],
    decreases src.len(), 19int,
{
    assert(in_block_subtree(idx, idx));
    if src.len() == 0 {
    } else if src.len() <= 16 {
        lemma_copy_block_slots(dest, src, idx, 0);
        assert forall|q: int|
            0 <= q < dest.len() && !in_block_subtree(idx, #[trigger] (q / 16)) implies stree_fill_spec(
            dest,
            src,
            idx,
        )[q] == dest[q] by {
            assert(q / 16 != idx);
            assert(!(16 * idx <= q < 16 * idx + 16));
        };
    } else {
        let sizes = child_sizes(src.len() as int);
        assert(run_start(sizes, 0) == 0);
        lemma_write_pivots_slots(dest, src, sizes, idx, 0, 0);
        let d1 = write_pivots(dest, src, sizes, idx, 0, 0).0;
        lemma_fill_children_frame(d1, src, sizes, idx, 0, 0);
        assert forall|q: int|
            0 <= q < dest.len() && !in_block_subtree(idx, #[trigger] (q / 16)) implies stree_fill_spec(
            dest,
            src,
            idx,
        )[q] == dest[q] by {
            assert(q / 16 != idx);
            assert(!(16 * idx <= q < 16 * idx + 16));
            assert(d1[q] == dest[q]);
        };
    }
}

/// The children's passes change no slot outside the subtree, and none of the
/// parent block itself.
proof fn lemma_fill_children_frame(
    dest: Seq<i32>,
    src: Seq<i32>,
    sizes: Seq<int>,
    idx: int,
    i: int,
    start: int,
)
    requires
        0 <= idx,
        0 <= i,
        dest.len() % 16 == 0,
    ensures
        fill_children(dest, src, sizes, idx, i, start).len() == dest.len(),
        forall|q: int|
            0 <= q < dest.len() && (q / 16 == idx || !in_block_subtree(idx, #[trigger] (q / 16)))
                ==> fill_children(dest, src, sizes, idx, i, start)[q] == dest[q],
    decreases src.len(), 18 - i,
{
    if 0 <= i < 17 {
        let c = sizes[i];
        let child = 17 * idx + i + 1;
        lemma_block_child_in_subtree(idx, i);
        let d2 = if 0 < c && c < src.len() && 0 <= start && start + c <= src.len() && 16 * child
            < dest.len() {
            stree_fill_spec(dest, src.subrange(start, start + c), child)
        } else {
            dest
        };
        if 0 < c && c < src.len() && 0 <= start && start + c <= src.len() && 16 * child
            < dest.len() {
            lemma_stree_fill_frame(dest, src.subrange(start, start + c), child);
            assert forall|q: int|
                0 <= q < dest.len() && (q / 16 == idx || !in_block_subtree(
                    idx,
                    #[trigger] (q / 16),
                )) implies d2[q] == dest[q] by {
                if in_block_subtree(child, q / 16) {
                    lemma_block_subtree_trans(idx, child, q / 16);
                    assert(q / 16 >= child);
                }
            };
        }
        lemma_fill_children_frame(d2, src, sizes, idx, i + 1, start + c + 1);
    }
}

/// Every non-empty child in the subtree over `m` elements at block `idx`
/// gets a block inside an array of `len` slots. The padding of the layout is
/// sized so that this holds of the root; `lemma_stree_fits_shallow` proves it
/// for trees of at most two levels, and the build lemmas take it as an
/// explicit hypothesis beyond that.
pub open spec fn stree_fits(len: int, m: int, idx: int) -> bool
    decreases m, 19int,
{
    if m <= 16 {
        true
    } else {
        stree_fits_children(len, m, child_sizes(m), idx, 0)
    }
}

/// The children's part of `stree_fits`.
pub open spec fn stree_fits_children(len: int, m: int, sizes: Seq<int>, idx: int, i: int) -> bool
    decreases m, 18 - i,
{
    if i < 0 || i >= 17 {
        true
    } else {
        let c = sizes[i];
        let child = 17 * idx + i + 1;
        let start = run_start(sizes, i);
        &&& (if 0 < c && c < m && 0 <= start && start + c <= m {
            16 * child < len && stree_fits(len, c, child)
        } else {
            true
        })
        &&& stree_fits_children(len, m, sizes, idx, i + 1)
    }
}

/// The children's passes from child `i` on change nothing outside the block
/// subtrees of those very children.
proof fn lemma_fill_children_frame_fine(
    dest: Seq<i32>,
    src: Seq<i32>,
    sizes: Seq<int>,
    idx: int,
    i: int,
    start: int,
    q: int,
)
    requires
        0 <= idx,
        0 <= i,
        dest.len() % 16 == 0,
        0 <= q < dest.len(),
        forall|j: int| i <= j < 17 ==> !#[trigger] in_block_subtree(17 * idx + j + 1, q / 16),
    ensures
        fill_children(dest, src, sizes, idx, i, start)[q] == dest[q],
    decreases src.len(), 18 - i,
{
    if 0 <= i < 17 {
        let c = sizes[i];
        let child = 17 * idx + i + 1;
        let d2 = if 0 < c && c < src.len() && 0 <= start && start + c <= src.len() && 16 * child
            < dest.len() {
            stree_fill_spec(dest, src.subrange(start, start + c), child)
        } else {
            dest
        };
        if 0 < c && c < src.len() && 0 <= start && start + c <= src.len() && 16 * child
            < dest.len() {
            lemma_stree_fill_frame(dest, src.subrange(start, start + c), child);
            assert(!in_block_subtree(child, q / 16));
            assert(d2[q] == dest[q]);
        }
        lemma_fill_children_frame_fine(d2, src, sizes, idx, i + 1, start + c + 1, q);
    }
}

/// The construction establishes the S-tree shape: filling a sequence into an
/// all-sentinel subtree region yields a valid subtree, as long as every
/// non-empty child receives an in-range block.
proof fn lemma_stree_fill_valid(dest: Seq<i32>, src: Seq<i32>, idx: int)
    requires
        dest.len() % 16 == 0,
        0 <= idx,
        16 * idx + 16 <= dest.len(),
        0 < src.len(),
        sentinel_subtree(dest, idx),
        stree_fits(dest.len() as int, src.len() as int, idx),
    ensures
        stree_fill_spec(dest, src, idx).len() == dest.len(),
        stree_valid(stree_fill_spec(dest, src, idx), src, idx),
    decreases src.len(), 19int,
{
    let n = src.len() as int;
    let result = stree_fill_spec(dest, src, idx);
    assert(in_block_subtree(idx, idx));
    if n <= 16 {
        lemma_copy_block_slots(dest, src, idx, 0);
        assert forall|q: int|
            16 * idx + n <= q < 16 * idx + 16 implies #[trigger] result[q] == i32::MAX by {
            assert(result[q] == dest[q]);
            assert(q / 16 == idx);
        };
        assert forall|q: int|
            0 <= q < result.len() && in_block_subtree(idx, #[trigger] (q / 16)) && q / 16 != idx
            implies result[q] == i32::MAX by {
            assert(!(16 * idx <= q < 16 * idx + 16));
            assert(result[q] == dest[q]);
        };
    } else {
        let sizes = child_sizes(n);
        lemma_child_sizes_props(n);
        assert(run_start(sizes, 0) == 0);
        lemma_write_pivots_slots(dest, src, sizes, idx, 0, 0);
        let d1 = write_pivots(dest, src, sizes, idx, 0, 0).0;
        lemma_fill_children_frame(d1, src, sizes, idx, 0, 0);
        assert(result == fill_children(d1, src, sizes, idx, 0, 0));
        assert forall|i: int|
            0 <= i < 16 implies result[16 * idx + i] == src[#[trigger] pivot_pos(sizes, i)] by {
            assert((16 * idx + i) / 16 == idx);
            assert(result[16 * idx + i] == d1[16 * idx + i]);
        };
        assert forall|j: int|
            0 <= j < 17 implies #[trigger] sentinel_subtree(d1, 17 * idx + j + 1) by {
            let child = 17 * idx + j + 1;
            lemma_block_child_in_subtree(idx, j);
            assert forall|q: int|
                0 <= q < d1.len() && in_block_subtree(child, #[trigger] (q / 16)) implies d1[q]
                == i32::MAX by {
                lemma_block_subtree_trans(idx, child, q / 16);
                assert(q / 16 >= child);
                assert(!(16 * idx <= q < 16 * idx + 16));
                assert(d1[q] == dest[q]);
            };
        };
        lemma_fill_children_valid(d1, src, sizes, idx, 0, 0);
    }
}

/// The children's passes lay every non-empty child out as a valid subtree
/// and leave every empty child's block, where it exists at all, all-sentinel.
proof fn lemma_fill_children_valid(
    dest: Seq<i32>,
    src: Seq<i32>,
    sizes: Seq<int>,
    idx: int,
    i: int,
    start: int,
)
    requires
        dest.len() % 16 == 0,
        0 <= idx,
        0 <= i <= 17,
        16 < src.len(),
        sizes == child_sizes(src.len() as int),
        start == run_start(sizes, i),
        forall|j: int| i <= j < 17 ==> #[trigger] sentinel_subtree(dest, 17 * idx + j + 1),
        stree_fits_children(dest.len() as int, src.len() as int, sizes, idx, i),
    ensures
        fill_children(dest, src, sizes, idx, i, start).len() == dest.len(),
        stree_children_ok(fill_children(dest, src, sizes, idx, i, start), src, sizes, idx, i),
    decreases src.len(), 18 - i,
{
    let n = src.len() as int;
    if i < 17 {
        let c = sizes[i];
        let child = 17 * idx + i + 1;
        lemma_child_sizes_props(n);
        lemma_sum_prefix_mono(sizes, i, i);
        lemma_sum_prefix_mono(sizes, i + 1, 17);
        lemma_sum_prefix_mono(sizes, i, i + 1);
        assert(0 <= start && 0 <= c && start + c <= n && c <= n - 16);
        assert(start + c + 1 == run_start(sizes, i + 1));
        let final_arr = fill_children(dest, src, sizes, idx, i, start);
        if 0 < c {
            assert(16 * child < dest.len() && stree_fits(dest.len() as int, c, child));
            let run = src.subrange(start, start + c);
            let d2 = stree_fill_spec(dest, run, child);
            assert(sentinel_subtree(dest, child));
            lemma_stree_fill_valid(dest, run, child);
            lemma_stree_fill_frame(dest, run, child);
            assert forall|j: int|
                i + 1 <= j < 17 implies #[trigger] sentinel_subtree(d2, 17 * idx + j + 1) by {
                let sib = 17 * idx + j + 1;
                assert(sentinel_subtree(dest, sib));
                assert forall|q: int|
                    0 <= q < d2.len() && in_block_subtree(sib, #[trigger] (q / 16)) implies d2[q]
                    == i32::MAX by {
                    lemma_block_sibling_disjoint(idx, i, j, q / 16);
                    assert(!in_block_subtree(child, q / 16));
                    assert(d2[q] == dest[q]);
                };
            };
            lemma_fill_children_valid(d2, src, sizes, idx, i + 1, start + c + 1);
            assert(final_arr == fill_children(d2, src, sizes, idx, i + 1, start + c + 1));
            assert forall|q: int|
                0 <= q < d2.len() && in_block_subtree(child, #[trigger] (q / 16)) implies d2[q]
                == final_arr[q] by {
                assert forall|j: int|
                    i + 1 <= j < 17 implies !#[trigger] in_block_subtree(
                    17 * idx + j + 1,
                    q / 16,
                ) by {
                    lemma_block_sibling_disjoint(idx, i, j, q / 16);
                };
                lemma_fill_children_frame_fine(d2, src, sizes, idx, i + 1, start + c + 1, q);
            };
            lemma_stree_valid_local(d2, final_arr, run, child);
            assert(stree_child_ok(final_arr, src, sizes, idx, i));
        } else {
            assert(c == 0);
            assert(final_arr == fill_children(dest, src, sizes, idx, i + 1, start + 1));
            lemma_fill_children_valid(dest, src, sizes, idx, i + 1, start + 1);
            if 16 * child < dest.len() {
                assert(sentinel_subtree(dest, child));
                assert forall|q: int|
                    0 <= q < dest.len() && in_block_subtree(child, #[trigger] (q / 16)) implies dest[q]
                    == final_arr[q] by {
                    assert forall|j: int|
                        i + 1 <= j < 17 implies !#[trigger] in_block_subtree(
                        17 * idx + j + 1,
                        q / 16,
                    ) by {
                        lemma_block_sibling_disjoint(idx, i, j, q / 16);
                    };
                    lemma_fill_children_frame_fine(dest, src, sizes, idx, i + 1, start + 1, q);
                };
                lemma_sentinel_subtree_local(dest, final_arr, child);
            }
            assert(stree_child_ok(final_arr, src, sizes, idx, i));
        }
    }
}

/// The built layout is a valid S-tree over its input, provided every
/// non-empty child of the construction receives an in-range block — the
/// arithmetic fact the padding is sized to guarantee.
pub proof fn lemma_stree_layout_valid(s: Seq<i32>)
    requires
        0 < s.len(),
        stree_fits(stree_padded_len(s.len() as int), s.len() as int, 0),
    ensures
        stree_layout(s).len() == stree_padded_len(s.len() as int),
        stree_layout(s).len() % 16 == 0,
        stree_valid(stree_layout(s), s, 0),
{
    let n = s.len() as int;
    let total = stree_padded_len(n);
    let filled = Seq::new(total as nat, |j: int| i32::MAX);
    assert(total % 16 == 0);
    assert(16 <= total);
    assert(sentinel_subtree(filled, 0));
    lemma_stree_fill_valid(filled, s, 0);
}

/// End-to-end equivalence with the scalar oracle: a bound query against the
/// built S-tree layout is absent exactly when the oracle's rank runs past
/// the sorted input, and otherwise the slot it returns holds the very key at
/// the oracle's rank. Keys equal to the sentinel value cannot be stored, and
/// the capacity of the padded array (`stree_fits`) is assumed.
pub proof fn lemma_stree_layout_matches_oracle(s: Seq<i32>, target: i32, strict: bool)
    requires
        crate::bounds::sorted(s),
        forall|j: int| 0 <= j < s.len() ==> s[j] != i32::MAX,
        s.len() > 0 ==> stree_fits(stree_padded_len(s.len() as int), s.len() as int, 0),
    ensures
        stree_result(stree_layout(s), target, strict) is None <==> crate::bounds::bound_rank(
            s,
            target,
            strict,
        ) == s.len(),
        stree_result(stree_layout(s), target, strict) matches Some(j) ==> 0 <= j < stree_layout(
            s,
        ).len() && stree_layout(s)[j] == s[crate::bounds::bound_rank(s, target, strict)],
{
    if s.len() > 0 {
        lemma_stree_layout_valid(s);
    }
    lemma_stree_valid_matches_oracle(stree_layout(s), s, target, strict);
}

/// A pass leaves every count below its starting child untouched.
proof fn lemma_fill_level_frame(sizes: Seq<int>, rem: int, cap: int, i: int, j: int)
    requires
        sizes.len() == 17,
        0 <= j < i <= 17,
    ensures
        fill_level(sizes, rem, cap, i).0[j] == sizes[j],
    decreases 17 - i,
{
    if i < 17 && rem > 0 {
        let take = if rem < cap {
            rem
        } else {
            cap
        };
        lemma_fill_level_frame(sizes.update(i, sizes[i] + take), rem - take, cap, i + 1, j);
    }
}

/// Closed form of one pass: child `j` gains the slice of the remainder
/// between its own offset and its capacity.
proof fn lemma_fill_level_take(sizes: Seq<int>, rem: int, cap: int, i: int, j: int)
    requires
        sizes.len() == 17,
        0 <= i <= j < 17,
        rem >= 0,
        cap >= 0,
    ensures
        ({
            let slice = rem - (j - i) * cap;
            let gain = if slice < 0 {
                0int
            } else if slice < cap {
                slice
            } else {
                cap
            };
            fill_level(sizes, rem, cap, i).0[j] == sizes[j] + gain
        }),
    decreases j - i,
{
    if rem == 0 {
        assert((j - i) * cap >= 0) by (nonlinear_arith)
            requires
                j - i >= 0 && cap >= 0,
        ;
    } else {
        let take = if rem < cap {
            rem
        } else {
            cap
        };
        let grown = sizes.update(i, sizes[i] + take);
        if j == i {
            lemma_fill_level_frame(grown, rem - take, cap, i + 1, j);
        } else {
            lemma_fill_level_take(grown, rem - take, cap, i + 1, j);
            assert((j - i) * cap == (j - i - 1) * cap + cap) by (nonlinear_arith);
            if rem < cap {
                assert((j - i - 1) * cap >= 0) by (nonlinear_arith)
                    requires
                        j - i - 1 >= 0 && cap >= 0,
                ;
            }
        }
    }
}

/// Closed form of what one pass leaves of the remainder.
proof fn lemma_fill_level_rem_exact(sizes: Seq<int>, rem: int, cap: int, i: int)
    requires
        0 <= i <= 17,
        rem >= 0,
        cap >= 0,
    ensures
        ({
            let left = rem - (17 - i) * cap;
            fill_level(sizes, rem, cap, i).1 == if left < 0 {
                0int
            } else {
                left
            }
        }),
    decreases 17 - i,
{
    if i == 17 || rem == 0 {
        assert((17 - i) * cap >= 0) by (nonlinear_arith)
            requires
                17 - i >= 0 && cap >= 0,
        ;
        if i == 17 {
            assert((17 - i) * cap == 0) by (nonlinear_arith)
                requires
                    i == 17,
            ;
        }
    } else {
        let take = if rem < cap {
            rem
        } else {
            cap
        };
        lemma_fill_level_rem_exact(sizes.update(i, sizes[i] + take), rem - take, cap, i + 1);
        assert((17 - i) * cap == (17 - i - 1) * cap + cap) by (nonlinear_arith);
        if rem < cap {
            assert((17 - i - 1) * cap >= 0) by (nonlinear_arith)
                requires
                    17 - i - 1 >= 0 && cap >= 0,
            ;
        }
    }
}

/// For a tree of at most two levels — up to `16 + 17*16` elements — the
/// children's counts in closed form: one pass of capacity 16 hands child `i`
/// the slice of `n - 16` between `16*i` and `16*(i+1)`.
proof fn lemma_child_sizes_shallow(n: int, i: int)
    requires
        16 < n <= 16 + 17 * 16,
        0 <= i < 17,
    ensures
        ({
            let slice = n - 16 - 16 * i;
            child_sizes(n)[i] == if slice < 0 {
                0int
            } else if slice < 16 {
                slice
            } else {
                16int
            }
        }),
{
    lemma_fill_level_rem_exact(zero_sizes(), n - 16, 16, 0);
    let passed = fill_level(zero_sizes(), n - 16, 16, 0);
    assert(passed.1 == 0);
    assert(child_sizes(n) == distribute_levels(passed.0, passed.1, 17int * 16));
    assert(distribute_levels(passed.0, 0, 17int * 16) == passed.0);
    assert(child_sizes(n) == passed.0);
    lemma_fill_level_take(zero_sizes(), n - 16, 16, 0, i);
    assert(zero_sizes()[i] == 0);
}

/// The padding guarantees the capacity hypothesis for trees of at most two
/// levels: every non-empty child of the root receives an in-range block.
pub proof fn lemma_stree_fits_shallow(n: int)
    requires
        0 < n <= 16 + 17 * 16,
    ensures
        stree_fits(stree_padded_len(n), n, 0),
{
    if n > 16 {
        lemma_child_sizes_props(n);
        lemma_stree_fits_shallow_children(n, 0);
    }
}

/// The children's part of the shallow capacity argument, from child `i` on.
proof fn lemma_stree_fits_shallow_children(n: int, i: int)
    requires
        16 < n <= 16 + 17 * 16,
        0 <= i <= 17,
    ensures
        stree_fits_children(stree_padded_len(n), n, child_sizes(n), 0, i),
    decreases 17 - i,
{
    let len = stree_padded_len(n);
    let sizes = child_sizes(n);
    lemma_child_sizes_props(n);
    if i < 17 {
        lemma_child_sizes_shallow(n, i);
        let c = sizes[i];
        lemma_sum_prefix_mono(sizes, i, i);
        lemma_sum_prefix_mono(sizes, i + 1, 17);
        lemma_sum_prefix_mono(sizes, i, i + 1);
        if 0 < c {
            assert(n > 16 + 16 * i);
            assert(len >= n);
            assert(16 * (17 * 0 + i + 1) < len);
            assert(c <= 16);
            assert(stree_fits(len, c, i + 1));
        }
        lemma_stree_fits_shallow_children(n, i + 1);
    }
}

/// Pivot separation, spelled out over the keys: in a valid interior block
/// over a strictly increasing sequence, every key that child `i` holds is
/// strictly below pivot `i`, and every key of child `i + 1` is at or above
/// it. (With duplicate keys the first bound weakens to `<=`: a run of equal
/// keys may span a pivot.)
pub proof fn lemma_stree_pivot_separation(l: Seq<i32>, s: Seq<i32>, idx: int, i: int)
    requires
        stree_valid(l, s, idx),
        16 < s.len(),
        forall|a: int, b: int| 0 <= a < b < s.len() ==> s[a] < s[b],
        0 <= i < 16,
    ensures
        forall|p: int|
            run_start(child_sizes(s.len() as int), i) <= p < pivot_pos(
                child_sizes(s.len() as int),
                i,
            ) ==> s[p] < l[16 * idx + i],
        forall|p: int|
            pivot_pos(child_sizes(s.len() as int), i) < p < pivot_pos(
                child_sizes(s.len() as int),
                i,
            ) + 1 + child_sizes(s.len() as int)[i + 1] ==> s[p] >= l[16 * idx + i],
{
    let n = s.len() as int;
    let sizes = child_sizes(n);
    lemma_child_sizes_props(n);
    lemma_sum_prefix_mono(sizes, i, i);
    lemma_sum_prefix_mono(sizes, i + 1, 17);
    lemma_sum_prefix_mono(sizes, i + 2, 17);
    assert(l[16 * idx + i] == s[pivot_pos(sizes, i)]);
    assert(run_start(sizes, i) + sizes[i] == pivot_pos(sizes, i));
    assert(pivot_pos(sizes, i) + 1 == run_start(sizes, i + 1));
    assert(run_start(sizes, i + 1) + sizes[i + 1] == pivot_pos(sizes, i + 1));
    assert(pivot_pos(sizes, i + 1) <= n);
}

} // verus!
