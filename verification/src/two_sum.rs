//! Two-sum: find two elements of a sequence adding up to a target.

use std::collections::HashMap;
use vstd::prelude::*;

verus! {

broadcast use vstd::std_specs::hash::group_hash_axioms;

/// No two positions before `m` (in order) sum to `target`.
pub open spec fn no_pair_in_prefix(s: Seq<i32>, target: int, m: int) -> bool {
    forall|a: int, b: int| 0 <= a < b < m ==> s[a] + s[b] != target
}

/// Find two elements that sum to `target`, scanning left to right.
///
/// Returns the pair of element values `(target - nums[b], nums[b])` for the
/// first position `b` that completes a pair, or `None` when no two positions
/// sum to `target`. The precondition only rules out overflow in the
/// complement `target - nums[k]`.
pub fn two_sum(nums: Vec<i32>, target: i32) -> (r: Option<(i32, i32)>)
    requires
        forall|k: int|
            0 <= k < nums@.len() ==> i32::MIN <= target - #[trigger] nums@[k] <= i32::MAX,
    ensures
        match r {
            Some(pair) => exists|b: int|
                {
                    &&& 0 <= b < nums@.len()
                    &&& #[trigger] no_pair_in_prefix(nums@, target as int, b)
                    &&& exists|a: int| 0 <= a < b && nums@[a] + nums@[b] == target
                    &&& pair.0 == target - nums@[b]
                    &&& pair.1 == nums@[b]
                },
            None => no_pair_in_prefix(nums@, target as int, nums@.len() as int),
        },
{
    let ghost s = nums@;
    let mut map: HashMap<i32, usize> = HashMap::new();
    let mut i: usize = 0;
    while i < nums.len()
        invariant
            s == nums@,
            i <= s.len(),
            forall|k: int| 0 <= k < s.len() ==> i32::MIN <= target - #[trigger] s[k] <= i32::MAX,
            forall|v: i32| #[trigger] map@.contains_key(v) ==> map@[v] < i && s[map@[v] as int] == v,
            forall|j: int| 0 <= j < i ==> map@.contains_key(#[trigger] s[j]),
            no_pair_in_prefix(s, target as int, i as int),
        decreases s.len() - i,
    {
        let num = nums[i];
        let complement = target - num;
        if let Some(index) = map.get(&complement) {
            let idx = *index;
            let found = nums[idx];
            proof {
                assert(s[idx as int] == complement);
                assert(s[idx as int] + s[i as int] == target);
                assert(no_pair_in_prefix(s, target as int, i as int));
            }
            return Some((found, num));
        }
        proof {
            assert forall|a: int| 0 <= a < i implies s[a] != complement by {
                assert(map@.contains_key(s[a]));
            }
            assert forall|a: int, b: int| 0 <= a < b < i + 1 implies s[a] + s[b] != target by {
                if b == i as int {
                    assert(s[a] != complement);
                }
            }
        }
        map.insert(num, i);
        i = i + 1;
    }
    None
}

} // verus!
