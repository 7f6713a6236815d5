//! Fibonacci numbers with a memo table.

use std::collections::HashMap;
use vstd::prelude::*;

verus! {

broadcast use vstd::std_specs::hash::group_hash_axioms;

/// The Fibonacci sequence: 0, 1, 1, 2, 3, 5, ...
pub open spec fn fib(n: nat) -> nat
    decreases n,
{
    if n == 0 {
        0
    } else if n == 1 {
        1
    } else {
        fib((n - 1) as nat) + fib((n - 2) as nat)
    }
}

/// Every entry of the memo table is a correct Fibonacci value.
pub open spec fn memo_valid(m: Map<u32, u64>) -> bool {
    forall|k: u32| #[trigger] m.contains_key(k) ==> m[k] == fib(k as nat)
}

/// Fibonacci numbers never decrease.
proof fn lemma_fib_monotonic(i: nat, j: nat)
    requires
        i <= j,
    ensures
        fib(i) <= fib(j),
    decreases j,
{
    if i < j && j >= 2 {
        lemma_fib_monotonic(i, (j - 1) as nat);
    }
}

/// The `n`th Fibonacci number, memoized in `memo`.
///
/// The table may come in holding any correct entries and leaves with only
/// correct entries, so one table can serve many calls: entries are only
/// added, never removed or altered, and the base cases touch nothing. The
/// result must fit in a `u64`, which keeps the additions free of overflow.
pub fn fibonacci(n: u32, memo: &mut HashMap<u32, u64>) -> (r: u64)
    requires
        fib(n as nat) <= u64::MAX,
        memo_valid(old(memo)@),
    ensures
        r == fib(n as nat),
        memo_valid(final(memo)@),
        forall|k: u32| old(memo)@.contains_key(k) ==> #[trigger] final(memo)@.contains_key(k)
            && final(memo)@[k] == old(memo)@[k],
        n <= 1 ==> final(memo)@ == old(memo)@,
    decreases n,
{
    if n <= 1 {
        return n as u64;
    }
    if let Some(result) = memo.get(&n) {
        return *result;
    }
    proof {
        lemma_fib_monotonic((n - 1) as nat, n as nat);
        lemma_fib_monotonic((n - 2) as nat, (n - 1) as nat);
    }
    let a = fibonacci(n - 1, memo);
    let b = fibonacci(n - 2, memo);
    let result = a + b;
    memo.insert(n, result);
    result
}

} // verus!
