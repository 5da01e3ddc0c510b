//! The common vocabulary of bound queries: sortedness, the bound predicate,
//! and the rank (index) at which a bound query lands in a sorted sequence.

use vstd::prelude::*;

verus! {

/// The sequence is sorted in non-decreasing order.
pub open spec fn sorted(s: Seq<i32>) -> bool {
    forall|i: int, j: int| 0 <= i <= j < s.len() ==> s[i] <= s[j]
}

/// The bound predicate: `x >= target` for lower-bound queries (`strict`
/// false), `x > target` for upper-bound queries (`strict` true).
pub open spec fn exceeds(x: i32, target: i32, strict: bool) -> bool {
    if strict {
        x > target
    } else {
        x >= target
    }
}

/// The rank of a bound query: the index of the leftmost element satisfying
/// the bound predicate, or `s.len()` when no element does.
pub open spec fn bound_rank(s: Seq<i32>, target: i32, strict: bool) -> int
    decreases s.len(),
{
    if s.len() == 0 {
        0
    } else if exceeds(s[0], target, strict) {
        0
    } else {
        1 + bound_rank(s.subrange(1, s.len() as int), target, strict)
    }
}

/// Every element left of the rank fails the bound predicate, and the element
/// at the rank (when one exists) satisfies it.
pub proof fn lemma_bound_rank_props(s: Seq<i32>, target: i32, strict: bool)
    ensures
        0 <= bound_rank(s, target, strict) <= s.len(),
        forall|j: int| 0 <= j < bound_rank(s, target, strict) ==> !exceeds(s[j], target, strict),
        bound_rank(s, target, strict) < s.len() ==> exceeds(
            s[bound_rank(s, target, strict)],
            target,
            strict,
        ),
    decreases s.len(),
{
    if s.len() == 0 {
    } else if exceeds(s[0], target, strict) {
    } else {
        let tail = s.subrange(1, s.len() as int);
        lemma_bound_rank_props(tail, target, strict);
        assert forall|j: int| 0 <= j < bound_rank(s, target, strict) implies !exceeds(
            s[j],
            target,
            strict,
        ) by {
            if j > 0 {
                assert(tail[j - 1] == s[j]);
                assert(!exceeds(tail[j - 1], target, strict));
            }
        };
    }
}

/// The rank is the only index that splits the sequence into a prefix failing
/// the bound predicate and (when inside the sequence) an element meeting it.
pub proof fn lemma_bound_rank_unique(s: Seq<i32>, target: i32, strict: bool, r: int)
    requires
        0 <= r <= s.len(),
        forall|j: int| 0 <= j < r ==> !exceeds(s[j], target, strict),
        r < s.len() ==> exceeds(s[r], target, strict),
    ensures
        r == bound_rank(s, target, strict),
    decreases s.len(),
{
    if s.len() == 0 {
    } else if exceeds(s[0], target, strict) {
        assert(r == 0);
    } else {
        assert(r > 0);
        let tail = s.subrange(1, s.len() as int);
        assert(forall|j: int| 0 <= j < tail.len() ==> tail[j] == s[j + 1]);
        lemma_bound_rank_unique(tail, target, strict, r - 1);
    }
}

/// A target that every element satisfies lands on the first element: in
/// particular a lower-bound query below the whole sequence returns index 0.
pub proof fn lemma_rank_before_all(s: Seq<i32>, target: i32, strict: bool)
    requires
        s.len() > 0,
        exceeds(s[0], target, strict),
    ensures
        bound_rank(s, target, strict) == 0,
{
}

/// A target that no element satisfies is absent: in particular a lower-bound
/// query above the whole sequence, or an upper-bound query at or above it,
/// returns the length.
pub proof fn lemma_rank_after_all(s: Seq<i32>, target: i32, strict: bool)
    requires
        forall|j: int| 0 <= j < s.len() ==> !exceeds(s[j], target, strict),
    ensures
        bound_rank(s, target, strict) == s.len(),
{
    lemma_bound_rank_unique(s, target, strict, s.len() as int);
}

/// A target present as a run of `k` equal elements: the lower bound returns
/// the first element of the run, the upper bound the index just past its
/// last element.
pub proof fn lemma_rank_on_run(s: Seq<i32>, target: i32, first: int, k: int)
    requires
        0 <= first,
        k > 0,
        first + k <= s.len(),
        forall|j: int| first <= j < first + k ==> s[j] == target,
        forall|j: int| 0 <= j < first ==> s[j] < target,
        forall|j: int| first + k <= j < s.len() ==> s[j] > target,
    ensures
        bound_rank(s, target, false) == first,
        bound_rank(s, target, true) == first + k,
{
    lemma_bound_rank_unique(s, target, false, first);
    lemma_bound_rank_unique(s, target, true, first + k);
}

} // verus!
