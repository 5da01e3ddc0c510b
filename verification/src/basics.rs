//! The scalar oracle: ordinary binary search over a contiguous sorted
//! sequence. It fixes the meaning of lower-bound and upper-bound queries that
//! the optimized layouts must reproduce.

use crate::bounds::{bound_rank, exceeds, lemma_bound_rank_unique, sorted};
use vstd::prelude::*;

verus! {

/// Binary search shared by both bound variants: the index of the leftmost
/// element satisfying the bound predicate, or `data.len()` when none does.
fn bound_search(data: &Vec<i32>, target: i32, strict: bool) -> (r: usize)
    requires
        sorted(data@),
    ensures
        r == bound_rank(data@, target, strict),
{
    let mut left: usize = 0;
    let mut right: usize = data.len();

    while left < right
        invariant
            left <= right <= data.len(),
            sorted(data@),
            forall|j: int| 0 <= j < left ==> !exceeds(data@[j], target, strict),
            forall|j: int| right <= j < data.len() ==> exceeds(data@[j], target, strict),
        decreases right - left,
    {
        let mid = left + (right - left) / 2;
        let go_left = if strict {
            data[mid] > target
        } else {
            data[mid] >= target
        };

        if go_left {
            right = mid;
        } else {
            left = mid + 1;
        }
    }

    proof {
        lemma_bound_rank_unique(data@, target, strict, left as int);
    }
    left
}

/// Index of the leftmost element `>= target`, or `data.len()` when every
/// element is smaller.
pub fn lower_bound(data: &Vec<i32>, target: &i32) -> (r: usize)
    requires
        sorted(data@),
    ensures
        r == bound_rank(data@, *target, false),
        r <= data.len(),
        forall|j: int| 0 <= j < r ==> data@[j] < *target,
        r < data.len() ==> data@[r as int] >= *target,
{
    let r = bound_search(data, *target, false);
    proof {
        crate::bounds::lemma_bound_rank_props(data@, *target, false);
    }
    r
}

/// Index of the leftmost element `> target`, or `data.len()` when every
/// element is `<= target`.
pub fn upper_bound(data: &Vec<i32>, target: &i32) -> (r: usize)
    requires
        sorted(data@),
    ensures
        r == bound_rank(data@, *target, true),
        r <= data.len(),
        forall|j: int| 0 <= j < r ==> data@[j] <= *target,
        r < data.len() ==> data@[r as int] > *target,
{
    let r = bound_search(data, *target, true);
    proof {
        crate::bounds::lemma_bound_rank_props(data@, *target, true);
    }
    r
}

} // verus!
