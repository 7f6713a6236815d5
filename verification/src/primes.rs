//! An iterator over the primes up to a fixed limit, with trial division up
//! to the square root.

use vstd::arithmetic::div_mod::lemma_fundamental_div_mod;
use vstd::arithmetic::div_mod::lemma_mod_multiples_basic;
use vstd::prelude::*;

verus! {

/// `n` is prime: at least 2 and divisible by nothing strictly between 1 and
/// itself.
pub open spec fn prime(n: int) -> bool {
    n >= 2 && forall|d: int| 2 <= d < n ==> #[trigger] (n % d) != 0
}

/// A number with a proper divisor has one no larger than its square root.
proof fn lemma_divisor_below_sqrt(n: int, d: int) -> (e: int)
    requires
        2 <= d < n,
        n % d == 0,
    ensures
        2 <= e < n,
        e * e <= n,
        n % e == 0,
{
    let q = n / d;
    lemma_fundamental_div_mod(n, d);
    assert(n == d * q);
    assert(q >= 2) by (nonlinear_arith)
        requires
            n == d * q,
            2 <= d < n,
    ;
    if d * d <= n {
        d
    } else {
        assert(q * q <= n && q < n) by (nonlinear_arith)
            requires
                n == d * q,
                d * d > n,
                2 <= d,
                2 <= q,
        ;
        lemma_mod_multiples_basic(d, q);
        assert(n % q == 0);
        q
    }
}

/// Iterates the primes from 2 up to `limit`, inclusive.
pub struct PrimeIterator {
    pub current: u32,
    pub limit: u32,
}

impl PrimeIterator {
    /// A fresh iterator positioned before the first prime.
    pub fn new(limit: u32) -> (r: PrimeIterator)
        ensures
            r.current == 2,
            r.limit == limit,
    {
        PrimeIterator { current: 2, limit }
    }

    /// Trial division primality test.
    pub fn is_prime(n: u32) -> (r: bool)
        ensures
            r == prime(n as int),
    {
        if n <= 1 {
            return false;
        }
        let mut i: u32 = 2;
        while (i as u64) * (i as u64) <= n as u64
            invariant
                2 <= i,
                n >= 2,
                i <= n,
                (i as int) * (i as int) <= u64::MAX,
                forall|d: int| 2 <= d < i ==> #[trigger] ((n as int) % d) != 0,
            decreases n - i,
        {
            if n % i == 0 {
                proof {
                    assert(2 * i <= i * i) by (nonlinear_arith)
                        requires
                            i >= 2,
                    ;
                    assert(2 <= i < n);
                    assert((n as int) % (i as int) == 0);
                }
                return false;
            }
            proof {
                assert(i + 1 <= n) by (nonlinear_arith)
                    requires
                        i >= 2,
                        i * i <= n,
                ;
                assert(((i + 1) as int) * ((i + 1) as int) <= u64::MAX) by (nonlinear_arith)
                    requires
                        i >= 2,
                        (i as int) * (i as int) <= n as int,
                        n <= u32::MAX,
                ;
            }
            i = i + 1;
        }
        proof {
            assert forall|d: int| 2 <= d < n implies #[trigger] ((n as int) % d) != 0 by {
                if (n as int) % d == 0 {
                    let e = lemma_divisor_below_sqrt(n as int, d);
                    assert(e < i) by (nonlinear_arith)
                        requires
                            e * e <= n,
                            (i as int) * (i as int) > n,
                            e >= 2,
                            i >= 2,
                    ;
                }
            }
        }
        true
    }

    /// The next prime at or after `current`, advancing past it; `None` once
    /// no prime remains up to `limit`.
    pub fn next(&mut self) -> (r: Option<u32>)
        requires
            old(self).limit < u32::MAX,
        ensures
            final(self).limit == old(self).limit,
            match r {
                Some(p) => {
                    &&& prime(p as int)
                    &&& old(self).current <= p <= old(self).limit
                    &&& forall|q: int| old(self).current <= q < p ==> !prime(q)
                    &&& final(self).current == p + 1
                },
                None => {
                    &&& forall|q: int| old(self).current <= q <= old(self).limit ==> !prime(q)
                    &&& final(self).current == if old(self).current > old(self).limit {
                        old(self).current as int
                    } else {
                        old(self).limit + 1
                    }
                },
            },
    {
        while self.current <= self.limit
            invariant
                self.limit == old(self).limit < u32::MAX,
                self.current >= old(self).current,
                forall|q: int| old(self).current <= q < self.current ==> !prime(q),
                self.current <= self.limit + 1 || self.current == old(self).current,
            decreases self.limit + 1 - self.current,
        {
            let n = self.current;
            self.current = self.current + 1;
            if PrimeIterator::is_prime(n) {
                return Some(n);
            }
        }
        None
    }
}

} // verus!
