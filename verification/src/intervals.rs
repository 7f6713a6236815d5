//! Merging a collection of closed integer intervals into disjoint ones.

use vstd::prelude::*;

verus! {

/// The closed interval `iv` contains the point `p`.
pub open spec fn covers(iv: (i32, i32), p: int) -> bool {
    iv.0 <= p <= iv.1
}

/// Some interval of `s` contains the point `p`.
pub open spec fn covered(s: Seq<(i32, i32)>, p: int) -> bool {
    exists|k: int| 0 <= k < s.len() && covers(s[k], p)
}

/// Intervals are ordered by non-decreasing start.
pub open spec fn sorted_by_start(s: Seq<(i32, i32)>) -> bool {
    forall|p: int, q: int| 0 <= p <= q < s.len() ==> s[p].0 <= s[q].0
}

/// Any earlier interval ends strictly before any later one starts, so no two
/// intervals overlap or touch.
pub open spec fn pairwise_disjoint(s: Seq<(i32, i32)>) -> bool {
    forall|p: int, q: int| 0 <= p < q < s.len() ==> s[p].1 < s[q].0
}

/// The shape `merge_intervals` guarantees of its result.
pub open spec fn is_merged(s: Seq<(i32, i32)>) -> bool {
    sorted_by_start(s) && pairwise_disjoint(s)
}

/// The merge pass as a fold over a sequence already sorted by start: each
/// interval either extends the last merged one (when it starts no later than
/// that interval's end) or opens a new one.
pub open spec fn merge_sorted(s: Seq<(i32, i32)>) -> Seq<(i32, i32)>
    decreases s.len(),
{
    if s.len() == 0 {
        Seq::empty()
    } else {
        let prev = merge_sorted(s.drop_last());
        let cur = s.last();
        if prev.len() == 0 {
            prev.push(cur)
        } else {
            let open = prev.last();
            if cur.0 <= open.1 {
                prev.drop_last().push(
                    (
                        open.0,
                        if open.1 >= cur.1 {
                            open.1
                        } else {
                            cur.1
                        },
                    ),
                )
            } else {
                prev.push(cur)
            }
        }
    }
}

/// Insert `x` into a sequence behind every element whose start does not
/// exceed `x`'s, as one round of a stable insertion sort by start does.
pub open spec fn insert_by_start(s: Seq<(i32, i32)>, x: (i32, i32)) -> Seq<(i32, i32)>
    decreases s.len(),
{
    if s.len() == 0 {
        seq![x]
    } else if s.last().0 <= x.0 {
        s.push(x)
    } else {
        insert_by_start(s.drop_last(), x).push(s.last())
    }
}

/// Stable insertion sort by interval start: the arrangement the merge pass
/// runs over, which pins `merge_intervals` down to a function of its input.
pub open spec fn sort_intervals(s: Seq<(i32, i32)>) -> Seq<(i32, i32)>
    decreases s.len(),
{
    if s.len() == 0 {
        Seq::empty()
    } else {
        insert_by_start(sort_intervals(s.drop_last()), s.last())
    }
}

/// Where the stable insertion lands: right after position `j - 1`, when
/// everything before `j` starts no later than `x` and everything from `j` on
/// starts strictly later.
proof fn lemma_insert_by_start_at(s: Seq<(i32, i32)>, x: (i32, i32), j: int)
    requires
        0 <= j <= s.len(),
        j == 0 || s[j - 1].0 <= x.0,
        forall|k: int| j <= k < s.len() ==> #[trigger] s[k].0 > x.0,
    ensures
        insert_by_start(s, x) == s.take(j) + seq![x] + s.skip(j),
    decreases s.len(),
{
    if j == s.len() {
        if s.len() == 0 {
            assert(insert_by_start(s, x) =~= s.take(j) + seq![x] + s.skip(j));
        } else {
            assert(s.last().0 <= x.0);
            assert(s.push(x) =~= s.take(j) + seq![x] + s.skip(j));
        }
    } else {
        assert(s[s.len() - 1].0 > x.0);
        let d = s.drop_last();
        assert forall|k: int| j <= k < d.len() implies #[trigger] d[k].0 > x.0 by {
            assert(s[k].0 > x.0);
        }
        lemma_insert_by_start_at(d, x, j);
        assert(insert_by_start(s, x) =~= s.take(j) + seq![x] + s.skip(j));
    }
}

/// Swapping two positions of a sequence preserves which elements occur in it.
proof fn lemma_swap_contains(s: Seq<(i32, i32)>, i: int, j: int)
    requires
        0 <= i < s.len(),
        0 <= j < s.len(),
    ensures
        forall|x: (i32, i32)|
            #[trigger] s.update(i, s[j]).update(j, s[i]).contains(x) <==> s.contains(x),
{
    let t = s.update(i, s[j]).update(j, s[i]);
    assert forall|x: (i32, i32)| #[trigger] t.contains(x) implies s.contains(x) by {
        let k = choose|k: int| 0 <= k < t.len() && t[k] == x;
        if k == j {
            assert(s[i] == x);
        } else if k == i {
            assert(s[j] == x);
        } else {
            assert(s[k] == x);
        }
    }
    assert forall|x: (i32, i32)| s.contains(x) implies #[trigger] t.contains(x) by {
        let k = choose|k: int| 0 <= k < s.len() && s[k] == x;
        if k == i {
            assert(t[j] == x);
        } else if k == j && i != j {
            assert(t[i] == x);
        } else {
            assert(t[k] == x);
        }
    }
}

/// Appending an interval extends the covered points by exactly that interval.
proof fn lemma_covered_push(s: Seq<(i32, i32)>, x: (i32, i32))
    ensures
        forall|p: int| #[trigger] covered(s.push(x), p) <==> covered(s, p) || covers(x, p),
{
    let t = s.push(x);
    assert forall|p: int| #[trigger] covered(t, p) implies covered(s, p) || covers(x, p) by {
        let k = choose|k: int| 0 <= k < t.len() && covers(t[k], p);
        if k < s.len() {
            assert(covers(s[k], p));
        }
    }
    assert forall|p: int| covered(s, p) || covers(x, p) implies #[trigger] covered(t, p) by {
        if covered(s, p) {
            let k = choose|k: int| 0 <= k < s.len() && covers(s[k], p);
            assert(covers(t[k], p));
        } else {
            assert(covers(t[s.len() as int], p));
        }
    }
}

/// Two sequences made of the same intervals cover the same points.
proof fn lemma_covered_same_elements(s: Seq<(i32, i32)>, t: Seq<(i32, i32)>)
    requires
        forall|x: (i32, i32)| s.contains(x) <==> t.contains(x),
    ensures
        forall|p: int| #[trigger] covered(s, p) <==> covered(t, p),
{
    assert forall|p: int| #[trigger] covered(s, p) implies covered(t, p) by {
        let k = choose|k: int| 0 <= k < s.len() && covers(s[k], p);
        assert(s.contains(s[k]));
        let m = choose|m: int| 0 <= m < t.len() && t[m] == s[k];
        assert(covers(t[m], p));
    }
    assert forall|p: int| #[trigger] covered(t, p) implies covered(s, p) by {
        let k = choose|k: int| 0 <= k < t.len() && covers(t[k], p);
        assert(t.contains(t[k]));
        let m = choose|m: int| 0 <= m < s.len() && s[m] == t[k];
        assert(covers(s[m], p));
    }
}

/// Insertion sort by interval start. The result is exactly the stable
/// arrangement `sort_intervals` names; it keeps the elements of the input
/// and leaves a sequence that is already sorted untouched.
fn sort_by_start(v: &mut Vec<(i32, i32)>)
    ensures
        sorted_by_start(final(v)@),
        final(v)@.len() == old(v)@.len(),
        forall|x: (i32, i32)| final(v)@.contains(x) <==> old(v)@.contains(x),
        sorted_by_start(old(v)@) ==> final(v)@ == old(v)@,
        final(v)@ == sort_intervals(old(v)@),
{
    let ghost orig = old(v)@;
    if v.len() < 2 {
        proof {
            if orig.len() == 1 {
                assert(orig.drop_last() =~= Seq::<(i32, i32)>::empty());
                assert(sort_intervals(Seq::<(i32, i32)>::empty()) == Seq::<(i32, i32)>::empty());
                assert(insert_by_start(Seq::<(i32, i32)>::empty(), orig.last()) == seq![orig.last()]);
                assert(v@ =~= seq![orig.last()]);
            }
        }
        return ;
    }
    let n = v.len();
    proof {
        assert(orig.take(1).drop_last() =~= Seq::<(i32, i32)>::empty());
        assert(sort_intervals(Seq::<(i32, i32)>::empty()) == Seq::<(i32, i32)>::empty());
        assert(insert_by_start(Seq::<(i32, i32)>::empty(), orig.take(1).last()) == seq![orig[0]]);
        assert(v@.take(1) =~= seq![orig[0]]);
        assert(v@.take(1) == sort_intervals(orig.take(1)));
        assert(v@.skip(1) =~= orig.skip(1));
    }
    let mut i: usize = 1;
    while i < n
        invariant
            1 <= i <= n,
            n == v@.len() == orig.len(),
            forall|p: int, q: int| 0 <= p <= q < i ==> v@[p].0 <= v@[q].0,
            forall|x: (i32, i32)| v@.contains(x) <==> orig.contains(x),
            sorted_by_start(orig) ==> v@ == orig,
            v@.take(i as int) == sort_intervals(orig.take(i as int)),
            v@.skip(i as int) == orig.skip(i as int),
        decreases n - i,
    {
        let ghost pfx = v@.take(i as int);
        let ghost xg = v@[i as int];
        proof {
            assert(v@[i as int] == v@.skip(i as int)[0]);
            assert(xg == orig[i as int]);
        }
        let mut j: usize = i;
        proof {
            let shape = pfx.take(i as int) + seq![xg] + pfx.skip(i as int);
            assert(shape.len() == i + 1);
            assert forall|m: int| 0 <= m < i + 1 implies v@.take(i + 1)[m] == shape[m] by {
                if m < i {
                    assert(shape[m] == pfx[m]);
                    assert(pfx[m] == v@[m]);
                } else {
                    assert(shape[m] == xg);
                }
            }
            assert(v@.take(i + 1) =~= shape);
            assert forall|m: int|
                #![trigger v@.skip(i + 1)[m]]
                0 <= m < v@.len() - (i + 1) implies v@.skip(i + 1)[m] == orig.skip(i + 1)[m] by {
                assert(v@.skip(i as int)[m + 1] == orig.skip(i as int)[m + 1]);
            }
            assert(v@.skip(i + 1) =~= orig.skip(i + 1));
        }
        while j > 0 && v[j - 1].0 > v[j].0
            invariant
                0 <= j <= i < n,
                n == v@.len() == orig.len(),
                pfx.len() == i,
                forall|p: int, q: int| 0 <= p <= q <= i && q != j ==> v@[p].0 <= v@[q].0,
                forall|x: (i32, i32)| v@.contains(x) <==> orig.contains(x),
                sorted_by_start(orig) ==> v@ == orig,
                v@.take(i + 1) == pfx.take(j as int) + seq![xg] + pfx.skip(j as int),
                v@.skip(i + 1) == orig.skip(i + 1),
                forall|k: int| j <= k < i ==> #[trigger] pfx[k].0 > xg.0,
            decreases j,
        {
            proof {
                if sorted_by_start(orig) {
                    assert(v@[j - 1].0 <= v@[j as int].0);
                }
                lemma_swap_contains(v@, j - 1, j as int);
                assert(v@[j - 1] == v@.take(i + 1)[j - 1]);
                assert(v@[j as int] == v@.take(i + 1)[j as int]);
                assert(v@[j - 1] == pfx[j - 1]);
                assert(v@[j as int] == xg);
            }
            let ghost before = v@;
            let x = v[j - 1];
            let y = v[j];
            v[j - 1] = y;
            v[j] = x;
            proof {
                let shape = pfx.take(j - 1) + seq![xg] + pfx.skip(j - 1);
                assert(shape.len() == i + 1);
                assert forall|m: int| 0 <= m < i + 1 implies v@.take(i + 1)[m] == shape[m] by {
                    let old_shape = pfx.take(j as int) + seq![xg] + pfx.skip(j as int);
                    if m == j - 1 {
                        assert(shape[m] == xg);
                    } else if m == j {
                        assert(shape[m] == pfx.skip(j - 1)[0]);
                        assert(shape[m] == pfx[j - 1]);
                    } else {
                        assert(v@[m] == before[m]);
                        assert(before.take(i + 1)[m] == old_shape[m]);
                        if m < j - 1 {
                            assert(old_shape[m] == pfx[m]);
                            assert(shape[m] == pfx[m]);
                        } else {
                            assert(old_shape[m] == pfx.skip(j as int)[m - j - 1]);
                            assert(shape[m] == pfx.skip(j - 1)[m - j]);
                        }
                    }
                }
                assert(v@.take(i + 1) =~= shape);
                assert forall|m: int|
                    #![trigger v@.skip(i + 1)[m]]
                    0 <= m < v@.len() - (i + 1) implies v@.skip(i + 1)[m] == orig.skip(i + 1)[m] by {
                    assert(v@[i + 1 + m] == before[i + 1 + m]);
                    assert(before.skip(i + 1)[m] == orig.skip(i + 1)[m]);
                }
                assert(v@.skip(i + 1) =~= orig.skip(i + 1));
            }
            j = j - 1;
        }
        proof {
            assert(j == 0 || pfx[j - 1].0 <= xg.0) by {
                if j > 0 {
                    assert(v@[j - 1] == v@.take(i + 1)[j - 1]);
                    assert(v@[j as int] == v@.take(i + 1)[j as int]);
                }
            }
            lemma_insert_by_start_at(pfx, xg, j as int);
            assert(orig.take(i + 1).drop_last() =~= orig.take(i as int));
            assert(orig.take(i + 1).last() == orig[i as int]);
            assert(v@.take(i + 1) == sort_intervals(orig.take(i + 1)));
        }
        i = i + 1;
    }
    proof {
        assert(v@.take(n as int) =~= v@);
        assert(orig.take(n as int) =~= orig);
    }
}

/// Coalesce overlapping or touching intervals.
///
/// The result covers exactly the points the input covers, as a sorted sequence
/// of intervals in which every earlier interval ends strictly before the next
/// one starts. An input already in that shape comes back unchanged, so merging
/// is idempotent. The final clause pins the result as a function of the input
/// alone — the fold `merge_sorted` over the stable arrangement
/// `sort_intervals` — so equal inputs provably yield equal outputs.
pub fn merge_intervals(intervals: Vec<(i32, i32)>) -> (r: Vec<(i32, i32)>)
    ensures
        is_merged(r@),
        forall|p: int| #[trigger] covered(r@, p) <==> covered(intervals@, p),
        r@.len() == 0 <==> intervals@.len() == 0,
        is_merged(intervals@) ==> r@ == intervals@,
        r@ == merge_sorted(sort_intervals(intervals@)),
{
    let ghost input = intervals@;
    let mut v = intervals;
    if v.len() == 0 {
        let r: Vec<(i32, i32)> = Vec::new();
        proof {
            assert(r@ =~= input);
            assert(sort_intervals(input) == Seq::<(i32, i32)>::empty());
            assert(r@ == merge_sorted(sort_intervals(input)));
        }
        return r;
    }
    sort_by_start(&mut v);
    let ghost sv = v@;
    proof {
        lemma_covered_same_elements(sv, input);
    }
    let mut merged: Vec<(i32, i32)> = Vec::new();
    merged.push(v[0]);
    proof {
        lemma_covered_push(Seq::<(i32, i32)>::empty(), sv[0]);
        assert(merged@ =~= Seq::<(i32, i32)>::empty().push(sv[0]));
        assert(sv.take(1) =~= Seq::<(i32, i32)>::empty().push(sv[0]));
        assert(sv.take(1).drop_last() =~= Seq::<(i32, i32)>::empty());
        assert(sv.take(1).last() == sv[0]);
        assert(merge_sorted(Seq::<(i32, i32)>::empty()) == Seq::<(i32, i32)>::empty());
        assert(merged@ == merge_sorted(sv.take(1)));
        if is_merged(sv) {
            assert(merged@ =~= sv.take(1));
        }
    }
    let mut k: usize = 1;
    while k < v.len()
        invariant
            1 <= k <= sv.len(),
            v@ == sv,
            sorted_by_start(sv),
            merged@.len() >= 1,
            is_merged(merged@),
            merged@.last().0 <= sv[k - 1].0,
            forall|p: int| #[trigger] covered(merged@, p) <==> covered(sv.take(k as int), p),
            is_merged(sv) ==> merged@ == sv.take(k as int),
            merged@ == merge_sorted(sv.take(k as int)),
        decreases sv.len() - k,
    {
        let ghost m_old = merged@;
        let cur = v[k];
        let last = merged[merged.len() - 1];
        proof {
            assert(sv.take(k + 1) =~= sv.take(k as int).push(sv[k as int]));
            assert(sv.take(k + 1).drop_last() =~= sv.take(k as int));
            assert(sv.take(k + 1).last() == sv[k as int]);
            lemma_covered_push(sv.take(k as int), sv[k as int]);
            assert(last == m_old.last());
            assert(sv[k - 1].0 <= sv[k as int].0);
            assert(last.0 <= cur.0);
        }
        if cur.0 <= last.1 {
            proof {
                if is_merged(sv) {
                    assert(sv[k - 1].1 < sv[k as int].0);
                    assert(merged@[k - 1] == sv[k - 1]);
                    assert(false);
                }
            }
            let new_end = if last.1 >= cur.1 {
                last.1
            } else {
                cur.1
            };
            merged.pop();
            merged.push((last.0, new_end));
            proof {
                let m_pre = m_old.drop_last();
                assert(m_old =~= m_pre.push(last));
                lemma_covered_push(m_pre, last);
                lemma_covered_push(m_pre, (last.0, new_end));
                assert forall|p: int| #[trigger] covered(merged@, p) <==> covered(
                    sv.take(k + 1),
                    p,
                ) by {
                    assert(covers((last.0, new_end), p) <==> covers(last, p) || covers(cur, p));
                    assert(merged@ == m_pre.push((last.0, new_end)));
                    assert(covered(m_pre.push((last.0, new_end)), p) <==> covered(m_pre, p)
                        || covers((last.0, new_end), p));
                    assert(covered(m_pre.push(last), p) <==> covered(m_pre, p) || covers(last, p));
                    assert(covered(m_old, p) <==> covered(sv.take(k as int), p));
                    assert(covered(sv.take(k + 1), p) <==> covered(sv.take(k as int), p) || covers(
                        cur,
                        p,
                    ));
                }
                assert(merged@ == merge_sorted(sv.take(k + 1)));
            }
        } else {
            merged.push(cur);
            proof {
                lemma_covered_push(m_old, cur);
                if is_merged(sv) {
                    assert(merged@ =~= sv.take(k + 1));
                }
                assert(merged@ == merge_sorted(sv.take(k + 1)));
            }
        }
        k = k + 1;
    }
    proof {
        assert(sv.take(sv.len() as int) =~= sv);
        assert(sv == sort_intervals(input));
    }
    merged
}

} // verus!
