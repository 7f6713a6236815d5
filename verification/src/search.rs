//! Binary search over a slice sorted in non-decreasing order.

use vstd::prelude::*;

verus! {

/// A sequence is sorted in non-decreasing order.
pub open spec fn sorted(s: Seq<i32>) -> bool {
    forall|i: int, j: int| 0 <= i <= j < s.len() ==> s[i] <= s[j]
}

/// Locate `target` in a slice sorted in non-decreasing order.
///
/// Returns the index of some element equal to `target`; when duplicates are
/// present, which matching index is returned is left open. Returns `None`
/// exactly when `target` does not occur.
pub fn binary_search(arr: &[i32], target: i32) -> (r: Option<usize>)
    requires
        sorted(arr@),
    ensures
        match r {
            Some(i) => i < arr@.len() && arr@[i as int] == target,
            None => forall|i: int| 0 <= i < arr@.len() ==> arr@[i] != target,
        },
{
    let mut low: usize = 0;
    let mut high: usize = arr.len();
    while low < high
        invariant
            sorted(arr@),
            low <= high <= arr@.len(),
            forall|i: int| 0 <= i < low ==> arr@[i] != target,
            forall|i: int| high <= i < arr@.len() ==> arr@[i] != target,
        decreases high - low,
    {
        let mid = low + (high - low) / 2;
        let mid_val = arr[mid];
        if mid_val == target {
            return Some(mid);
        } else if mid_val < target {
            assert(forall|i: int| 0 <= i <= mid ==> arr@[i] <= arr@[mid as int]);
            low = mid + 1;
        } else {
            assert(forall|i: int| mid <= i < arr@.len() ==> arr@[mid as int] <= arr@[i]);
            high = mid;
        }
    }
    None
}

} // verus!
