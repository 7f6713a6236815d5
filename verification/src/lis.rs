//! Length of the longest strictly increasing subsequence, by patience
//! sorting: a `tails` buffer keeps, for each subsequence length reached so
//! far, the smallest value such a subsequence can end with.

use vstd::prelude::*;

verus! {

/// `idx` lists positions of `s`, all below `bound`, that pick out a strictly
/// increasing subsequence: both the positions and the values at them grow.
pub open spec fn increasing_subseq(s: Seq<i32>, bound: int, idx: Seq<int>) -> bool {
    &&& forall|k: int| 0 <= k < idx.len() ==> 0 <= #[trigger] idx[k] < bound
    &&& forall|k1: int, k2: int|
        0 <= k1 < k2 < idx.len() ==> #[trigger] idx[k1] < #[trigger] idx[k2] && s[idx[k1]]
            < s[idx[k2]]
}

/// A sequence that never goes up again.
pub open spec fn non_increasing(s: Seq<i32>) -> bool {
    forall|i: int, j: int| 0 <= i <= j < s.len() ==> s[i] >= s[j]
}

/// Positions of an increasing subsequence grow at least as fast as their rank.
proof fn lemma_subseq_index_lb(s: Seq<i32>, bound: int, idx: Seq<int>, k: int)
    requires
        increasing_subseq(s, bound, idx),
        0 <= k < idx.len(),
    ensures
        idx[k] >= k,
    decreases k,
{
    if k > 0 {
        lemma_subseq_index_lb(s, bound, idx, k - 1);
        assert(idx[k - 1] < idx[k]);
    }
}

/// An increasing subsequence drawn from the first `bound` positions has at
/// most `bound` elements, so no LIS is longer than the sequence itself.
pub proof fn lemma_subseq_len_le_bound(s: Seq<i32>, bound: int, idx: Seq<int>)
    requires
        increasing_subseq(s, bound, idx),
        bound >= 0,
    ensures
        idx.len() <= bound,
{
    if idx.len() > 0 {
        lemma_subseq_index_lb(s, bound, idx, idx.len() - 1);
    }
}

/// Appending an element keeps every increasing subsequence of the original
/// sequence valid, so the LIS length is monotonic under appends: whatever
/// length `length_of_lis` certifies for `s`, at least that length is still
/// witnessed in `s.push(x)`.
pub proof fn lemma_subseq_of_push(s: Seq<i32>, x: i32, idx: Seq<int>)
    requires
        increasing_subseq(s, s.len() as int, idx),
    ensures
        increasing_subseq(s.push(x), s.push(x).len() as int, idx),
{
    let t = s.push(x);
    assert forall|k1: int, k2: int| 0 <= k1 < k2 < idx.len() implies #[trigger] idx[k1]
        < #[trigger] idx[k2] && t[idx[k1]] < t[idx[k2]] by {
        assert(t[idx[k1]] == s[idx[k1]]);
        assert(t[idx[k2]] == s[idx[k2]]);
    }
}

/// A wider position bound admits the same subsequences.
proof fn lemma_subseq_relax(s: Seq<i32>, b1: int, b2: int, idx: Seq<int>)
    requires
        increasing_subseq(s, b1, idx),
        b1 <= b2,
    ensures
        increasing_subseq(s, b2, idx),
{
}

/// A chain whose values stay below `s[pos]` extends by the position `pos`.
proof fn lemma_subseq_extend(s: Seq<i32>, bound: int, idx: Seq<int>, pos: int)
    requires
        increasing_subseq(s, bound, idx),
        0 <= bound <= pos < s.len(),
        idx.len() > 0 ==> s[idx[idx.len() - 1]] < s[pos],
    ensures
        increasing_subseq(s, pos + 1, idx.push(pos)),
{
    let t = idx.push(pos);
    assert forall|k1: int, k2: int| 0 <= k1 < k2 < t.len() implies #[trigger] t[k1] < #[trigger] t[k2]
        && s[t[k1]] < s[t[k2]] by {
        if k2 == idx.len() {
            assert(t[k1] == idx[k1]);
            if k1 < idx.len() - 1 {
                assert(idx[k1] < idx[idx.len() - 1] && s[idx[k1]] < s[idx[idx.len() - 1]]);
            }
        } else {
            assert(t[k1] == idx[k1] && t[k2] == idx[k2]);
        }
    }
}

/// Removing the last pick leaves a chain among the positions before it.
proof fn lemma_subseq_drop_last(s: Seq<i32>, bound: int, idx: Seq<int>)
    requires
        increasing_subseq(s, bound, idx),
        idx.len() > 0,
    ensures
        increasing_subseq(s, idx[idx.len() - 1], idx.drop_last()),
{
    let t = idx.drop_last();
    assert forall|k: int| 0 <= k < t.len() implies 0 <= #[trigger] t[k] < idx[idx.len() - 1] by {
        assert(idx[k] < idx[idx.len() - 1]);
    }
}

/// First position of `tails` holding a value that is at least `x`, or the
/// length when every entry is below `x`.
fn lower_bound(tails: &Vec<i32>, x: i32) -> (p: usize)
    requires
        forall|a: int, b: int| 0 <= a < b < tails@.len() ==> tails@[a] < tails@[b],
    ensures
        p <= tails@.len(),
        forall|k: int| 0 <= k < p ==> tails@[k] < x,
        forall|k: int| p <= k < tails@.len() ==> tails@[k] >= x,
{
    let mut low: usize = 0;
    let mut high: usize = tails.len();
    while low < high
        invariant
            low <= high <= tails@.len(),
            forall|a: int, b: int| 0 <= a < b < tails@.len() ==> tails@[a] < tails@[b],
            forall|k: int| 0 <= k < low ==> tails@[k] < x,
            forall|k: int| high <= k < tails@.len() ==> tails@[k] >= x,
        decreases high - low,
    {
        let mid = low + (high - low) / 2;
        if tails[mid] < x {
            assert(forall|k: int| 0 <= k <= mid ==> tails@[k] <= tails@[mid as int]);
            low = mid + 1;
        } else {
            assert(forall|k: int| mid <= k < tails@.len() ==> tails@[mid as int] <= tails@[k]);
            high = mid;
        }
    }
    low
}

/// Length of the longest strictly increasing subsequence of `nums`.
///
/// The result is witnessed by some increasing subsequence of that length,
/// and bounds the length of every increasing subsequence, so it is exactly
/// the LIS length. It never exceeds the input length, and a non-empty input
/// that never increases has LIS length 1.
pub fn length_of_lis(nums: Vec<i32>) -> (r: usize)
    ensures
        r <= nums@.len(),
        exists|idx: Seq<int>|
            #[trigger] increasing_subseq(nums@, nums@.len() as int, idx) && idx.len() == r,
        forall|idx: Seq<int>|
            #[trigger] increasing_subseq(nums@, nums@.len() as int, idx) ==> idx.len() <= r,
        nums@.len() > 0 ==> r >= 1,
        nums@.len() > 0 && non_increasing(nums@) ==> r == 1,
{
    let ghost s = nums@;
    let n = nums.len();
    let mut tails: Vec<i32> = Vec::new();
    let ghost mut wits: Seq<Seq<int>> = Seq::empty();
    proof {
        assert forall|idx: Seq<int>| #![trigger increasing_subseq(s, 0, idx)] increasing_subseq(
            s,
            0,
            idx,
        ) implies idx.len() == 0 by {
            if idx.len() > 0 {
                assert(idx[0] < 0);
            }
        }
    }
    let mut i: usize = 0;
    while i < n
        invariant
            i <= n == s.len(),
            s == nums@,
            forall|a: int, b: int| 0 <= a < b < tails@.len() ==> tails@[a] < tails@[b],
            wits.len() == tails@.len(),
            forall|p: int|
                0 <= p < tails@.len() ==> {
                    &&& increasing_subseq(s, i as int, #[trigger] wits[p])
                    &&& wits[p].len() == p + 1
                    &&& s[wits[p][p]] == tails@[p]
                },
            forall|idx: Seq<int>|
                #[trigger] increasing_subseq(s, i as int, idx) ==> idx.len() <= tails@.len() && (
                idx.len() > 0 ==> s[idx[idx.len() - 1]] >= tails@[idx.len() - 1]),
        decreases n - i,
    {
        let x = nums[i];
        let p = lower_bound(&tails, x);
        let ghost old_tails = tails@;
        let ghost newchain = if p == 0 {
            Seq::<int>::empty().push(i as int)
        } else {
            wits[p - 1].push(i as int)
        };
        proof {
            if p == 0 {
                assert(increasing_subseq(s, 0, Seq::<int>::empty()));
                lemma_subseq_extend(s, 0, Seq::<int>::empty(), i as int);
            } else {
                assert(s[wits[p - 1][p - 1]] == tails@[p - 1]);
                assert(tails@[p - 1] < x);
                lemma_subseq_extend(s, i as int, wits[p - 1], i as int);
            }
            assert(increasing_subseq(s, i + 1, newchain));
            assert(newchain.len() == p + 1);
            assert(newchain[p as int] == i as int);
        }
        if p == tails.len() {
            tails.push(x);
            proof {
                wits = wits.push(newchain);
            }
        } else {
            tails[p] = x;
            proof {
                wits = wits.update(p as int, newchain);
            }
        }
        assert forall|q: int| 0 <= q < tails@.len() implies (increasing_subseq(
            s,
            i + 1,
            #[trigger] wits[q],
        ) && wits[q].len() == q + 1 && s[wits[q][q]] == tails@[q]) by {
            if q != p {
                lemma_subseq_relax(s, i as int, i + 1, wits[q]);
            }
        }
        assert forall|idx: Seq<int>|
            #![trigger increasing_subseq(s, i + 1, idx)]
            increasing_subseq(s, i + 1, idx) implies idx.len() <= tails@.len() && (idx.len() > 0
            ==> s[idx[idx.len() - 1]] >= tails@[idx.len() - 1]) by {
            if idx.len() > 0 {
                let lastpos = idx[idx.len() - 1];
                if lastpos == i {
                    let pre = idx.drop_last();
                    lemma_subseq_drop_last(s, i + 1, idx);
                    assert(increasing_subseq(s, i as int, pre));
                    if pre.len() > 0 {
                        assert(pre[pre.len() - 1] == idx[idx.len() - 2]);
                        assert(idx[idx.len() - 2] < idx[idx.len() - 1] && s[idx[idx.len() - 2]]
                            < s[idx[idx.len() - 1]]);
                        assert(s[pre[pre.len() - 1]] < s[lastpos]);
                        assert(s[pre[pre.len() - 1]] >= old_tails[pre.len() - 1]);
                        assert(pre.len() - 1 < p) by {
                            if pre.len() - 1 >= p {
                                assert(old_tails[pre.len() - 1] >= x);
                            }
                        }
                    }
                    assert(idx.len() <= p + 1);
                } else {
                    assert forall|k: int| 0 <= k < idx.len() implies 0 <= #[trigger] idx[k]
                        < i as int by {
                        if k < idx.len() - 1 {
                            assert(idx[k] < idx[idx.len() - 1]);
                        }
                    }
                    assert(increasing_subseq(s, i as int, idx));
                }
            }
        }
        i = i + 1;
    }
    let r = tails.len();
    proof {
        if r == 0 {
            assert(increasing_subseq(s, n as int, Seq::<int>::empty()));
        } else {
            assert(increasing_subseq(s, n as int, wits[r - 1]) && wits[r - 1].len() == r);
            lemma_subseq_len_le_bound(s, n as int, wits[r - 1]);
        }
        if n > 0 {
            let single = Seq::<int>::empty().push(0);
            assert(increasing_subseq(s, n as int, single));
            assert(single.len() <= r);
            if non_increasing(s) && r >= 2 {
                let c = wits[r - 1];
                assert(c[0] < c[1] && s[c[0]] < s[c[1]]);
                assert(s[c[0]] >= s[c[1]]);
            }
        }
    }
    r
}

} // verus!
