//! Kadane's linear scan for the maximum-sum contiguous subarray.

use vstd::prelude::*;

verus! {

/// Sum of the elements `s[a], ..., s[b - 1]` (empty when `a >= b`).
pub open spec fn range_sum(s: Seq<i32>, a: int, b: int) -> int
    decreases b - a,
{
    if a >= b {
        0
    } else {
        range_sum(s, a, b - 1) + s[b - 1]
    }
}

/// Every contiguous subarray of `s` has a sum representable as an `i32`.
pub open spec fn sums_fit_i32(s: Seq<i32>) -> bool {
    forall|a: int, b: int|
        0 <= a <= b < s.len() ==> i32::MIN <= #[trigger] range_sum(s, a, b + 1) <= i32::MAX
}

/// Find the contiguous subarray with the largest sum.
///
/// Returns `(sum, start, end)` where `sum` is the maximum over all contiguous
/// subarray sums of `nums` and `nums[start..=end]` is the subarray achieving
/// it first: every run ending before `end` sums to strictly less, as does
/// every run over `start..=end`'s positions that starts earlier, so ties keep
/// the first-encountered bounds. The input must be non-empty, and every
/// contiguous subarray sum must fit in an `i32` so that the scan's running
/// totals cannot overflow.
pub fn max_subarray(nums: Vec<i32>) -> (r: (i32, usize, usize))
    requires
        nums@.len() > 0,
        sums_fit_i32(nums@),
    ensures
        r.1 <= r.2 < nums@.len(),
        r.0 == range_sum(nums@, r.1 as int, r.2 + 1),
        forall|a: int, b: int|
            0 <= a <= b < nums@.len() ==> #[trigger] range_sum(nums@, a, b + 1) <= r.0,
        forall|a: int, b: int| 0 <= a <= b < r.2 ==> #[trigger] range_sum(nums@, a, b + 1) < r.0,
        forall|a: int| 0 <= a < r.1 ==> #[trigger] range_sum(nums@, a, r.2 + 1) < r.0,
{
    let ghost s = nums@;
    let mut max_current = nums[0];
    let mut max_global = nums[0];
    let mut start: usize = 0;
    let mut end: usize = 0;
    let mut temp_start: usize = 0;

    proof {
        assert(range_sum(s, 0, 0) == 0);
        assert(range_sum(s, 0, 1) == s[0]);
    }
    let mut i: usize = 1;
    while i < nums.len()
        invariant
            1 <= i <= s.len(),
            s == nums@,
            sums_fit_i32(s),
            temp_start < i,
            max_current == range_sum(s, temp_start as int, i as int),
            forall|a: int| 0 <= a < i ==> #[trigger] range_sum(s, a, i as int) <= max_current,
            forall|a: int| 0 <= a < temp_start ==> #[trigger] range_sum(s, a, i as int)
                < max_current,
            start <= end < i,
            max_global == range_sum(s, start as int, end + 1),
            forall|a: int, b: int|
                0 <= a <= b < i ==> #[trigger] range_sum(s, a, b + 1) <= max_global,
            forall|a: int, b: int|
                0 <= a <= b < end ==> #[trigger] range_sum(s, a, b + 1) < max_global,
            forall|a: int| 0 <= a < start ==> #[trigger] range_sum(s, a, end + 1) < max_global,
        decreases s.len() - i,
    {
        let num = nums[i];
        assert(range_sum(s, temp_start as int, i + 1) == max_current + num);
        if num > max_current + num {
            // Starting fresh at `i` beats extending: the old run sum is negative,
            // so every run reaching back before `i` is strictly worse.
            assert forall|a: int| 0 <= a < i implies #[trigger] range_sum(s, a, i + 1) < num by {
                assert(range_sum(s, a, i + 1) == range_sum(s, a, i as int) + s[i as int]);
            }
            max_current = num;
            temp_start = i;
            assert(range_sum(s, i as int, i as int) == 0);
            assert(range_sum(s, i as int, i + 1) == num);
        } else {
            assert forall|a: int| 0 <= a < temp_start implies #[trigger] range_sum(s, a, i + 1)
                < max_current + num by {
                assert(range_sum(s, a, i + 1) == range_sum(s, a, i as int) + s[i as int]);
            }
            max_current = max_current + num;
        }
        // `max_current` is now the largest sum of a run ending at position `i`,
        // and `temp_start` the earliest start achieving it.
        assert forall|a: int| 0 <= a < i + 1 implies #[trigger] range_sum(s, a, i + 1)
            <= max_current by {
            if a < i {
                assert(range_sum(s, a, i + 1) == range_sum(s, a, i as int) + s[i as int]);
            } else {
                assert(range_sum(s, a, a) == 0);
                assert(range_sum(s, a, i + 1) == s[i as int]);
            }
        }
        if max_current > max_global {
            max_global = max_current;
            start = temp_start;
            end = i;
        }
        assert forall|a: int, b: int| 0 <= a <= b < i + 1 implies #[trigger] range_sum(s, a, b + 1)
            <= max_global by {
            if b == i {
                assert(range_sum(s, a, i + 1) <= max_current);
            }
        }
        i = i + 1;
    }
    (max_global, start, end)
}

} // verus!
