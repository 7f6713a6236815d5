//! Counting helpers: duplicate detection, a frequency table, and a count of
//! one value's occurrences.

use std::collections::HashMap;
use std::collections::HashSet;
use vstd::prelude::*;

verus! {

broadcast use vstd::std_specs::hash::group_hash_axioms;

/// How many entries of `s` equal `v`.
pub open spec fn count_of(s: Seq<i32>, v: i32) -> int
    decreases s.len(),
{
    if s.len() == 0 {
        0
    } else {
        count_of(s.drop_last(), v) + if s.last() == v {
            1int
        } else {
            0int
        }
    }
}

/// The values that repeat an earlier occurrence, one entry for each repeat,
/// in scan order.
pub open spec fn dups_of(s: Seq<i32>) -> Seq<i32>
    decreases s.len(),
{
    if s.len() == 0 {
        Seq::empty()
    } else if s.drop_last().contains(s.last()) {
        dups_of(s.drop_last()).push(s.last())
    } else {
        dups_of(s.drop_last())
    }
}

/// A count never goes below zero nor above the sequence length.
proof fn lemma_count_le_len(s: Seq<i32>, v: i32)
    ensures
        0 <= count_of(s, v) <= s.len(),
    decreases s.len(),
{
    if s.len() > 0 {
        lemma_count_le_len(s.drop_last(), v);
    }
}

/// Appending an element extends the membership of a sequence by just it.
proof fn lemma_contains_push(s: Seq<i32>, x: i32)
    ensures
        forall|v: i32| #[trigger] s.push(x).contains(v) <==> s.contains(v) || v == x,
{
    let t = s.push(x);
    assert forall|v: i32| #[trigger] t.contains(v) implies s.contains(v) || v == x by {
        let k = choose|k: int| 0 <= k < t.len() && t[k] == v;
        if k < s.len() {
            assert(s[k] == v);
        }
    }
    assert forall|v: i32| s.contains(v) || v == x implies #[trigger] t.contains(v) by {
        if s.contains(v) {
            let k = choose|k: int| 0 <= k < s.len() && s[k] == v;
            assert(t[k] == v);
        } else {
            assert(t[s.len() as int] == v);
        }
    }
}

/// Collect each value at the moment it repeats an earlier occurrence.
///
/// The result is exactly `dups_of(nums@)`: one entry per repeated occurrence,
/// in scan order.
pub fn find_duplicates(nums: &Vec<i32>) -> (r: Vec<i32>)
    ensures
        r@ == dups_of(nums@),
{
    let ghost s = nums@;
    let mut seen: HashSet<i32> = HashSet::new();
    let mut duplicates: Vec<i32> = Vec::new();
    let mut i: usize = 0;
    while i < nums.len()
        invariant
            s == nums@,
            i <= s.len(),
            forall|v: i32| #[trigger] seen@.contains(v) <==> s.take(i as int).contains(v),
            duplicates@ == dups_of(s.take(i as int)),
        decreases s.len() - i,
    {
        let num = nums[i];
        proof {
            assert(s.take(i + 1).drop_last() =~= s.take(i as int));
            assert(s.take(i + 1).last() == s[i as int]);
            lemma_contains_push(s.take(i as int), num);
            assert(s.take(i + 1) =~= s.take(i as int).push(num));
        }
        if !seen.insert(num) {
            duplicates.push(num);
        }
        i = i + 1;
    }
    proof {
        assert(s.take(s.len() as int) =~= s);
    }
    duplicates
}

/// Tally how often each value occurs.
///
/// The map holds exactly the values that occur in `nums`, each bound to its
/// number of occurrences. The length bound keeps every tally inside `i32`.
pub fn find_duplicates_frequency(nums: Vec<i32>) -> (r: HashMap<i32, i32>)
    requires
        nums@.len() <= i32::MAX,
    ensures
        forall|v: i32| #[trigger] r@.contains_key(v) <==> nums@.contains(v),
        forall|v: i32| #[trigger] r@.contains_key(v) ==> r@[v] == count_of(nums@, v),
{
    let ghost s = nums@;
    let mut frequency: HashMap<i32, i32> = HashMap::new();
    let mut i: usize = 0;
    while i < nums.len()
        invariant
            s == nums@,
            i <= s.len() <= i32::MAX,
            forall|v: i32| #[trigger] frequency@.contains_key(v) <==> s.take(i as int).contains(v),
            forall|v: i32|
                #[trigger] frequency@.contains_key(v) ==> frequency@[v] == count_of(
                    s.take(i as int),
                    v,
                ),
        decreases s.len() - i,
    {
        let num = nums[i];
        proof {
            assert(s.take(i + 1).drop_last() =~= s.take(i as int));
            assert(s.take(i + 1).last() == s[i as int]);
            lemma_contains_push(s.take(i as int), num);
            assert(s.take(i + 1) =~= s.take(i as int).push(num));
            lemma_count_le_len(s.take(i as int), num);
            assert forall|v: i32| v != num implies count_of(s.take(i + 1), v) == count_of(
                s.take(i as int),
                v,
            ) by {
            }
        }
        let count = match frequency.get(&num) {
            Some(c) => *c,
            None => 0,
        };
        proof {
            if !frequency@.contains_key(num) {
                assert(!s.take(i as int).contains(num));
                assert(count_of(s.take(i as int), num) == 0) by {
                    lemma_count_zero_when_absent(s.take(i as int), num);
                }
            }
        }
        frequency.insert(num, count + 1);
        i = i + 1;
    }
    proof {
        assert(s.take(s.len() as int) =~= s);
    }
    frequency
}

/// A value that never occurs has count zero.
proof fn lemma_count_zero_when_absent(s: Seq<i32>, v: i32)
    requires
        !s.contains(v),
    ensures
        count_of(s, v) == 0,
    decreases s.len(),
{
    if s.len() > 0 {
        assert(s[s.len() - 1] != v);
        assert forall|k: int| 0 <= k < s.drop_last().len() implies s.drop_last()[k] != v by {
            assert(s[k] != v);
        }
        lemma_count_zero_when_absent(s.drop_last(), v);
    }
}

/// How many entries of `list` equal `value`.
pub fn frequency(list: &Vec<i32>, value: &i32) -> (r: usize)
    ensures
        r == count_of(list@, *value),
{
    let ghost s = list@;
    let mut count: usize = 0;
    let mut i: usize = 0;
    while i < list.len()
        invariant
            s == list@,
            i <= s.len(),
            count == count_of(s.take(i as int), *value),
            count <= i,
        decreases s.len() - i,
    {
        proof {
            assert(s.take(i + 1).drop_last() =~= s.take(i as int));
            assert(s.take(i + 1).last() == s[i as int]);
        }
        if list[i] == *value {
            count = count + 1;
        }
        i = i + 1;
    }
    proof {
        assert(s.take(s.len() as int) =~= s);
    }
    count
}

} // verus!
