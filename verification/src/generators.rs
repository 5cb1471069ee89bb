//! Generators written as explicit state machines: the first ten Fibonacci
//! numbers, and the primes in increasing order.
use vstd::prelude::*;
use crate::capstone::{spec_fib, lemma_fib_monotonic};

verus! {

/// How many values a `FibGenerator` yields.
pub const FIB_COUNT: i32 = 10;

/// Yields `fib(0), fib(1), ..., fib(9)`, then nothing.
pub struct FibGenerator {
    a: i32,
    b: i32,
    count: i32,
}

impl FibGenerator {
    /// How many values have been yielded.
    pub closed spec fn yielded(&self) -> int {
        self.count as int
    }

    /// The internal state matches the count: `a` and `b` are the next two
    /// Fibonacci numbers.
    pub closed spec fn wf(&self) -> bool {
        &&& 0 <= self.count <= FIB_COUNT
        &&& self.a == spec_fib(self.count as nat)
        &&& self.b == spec_fib(self.count as nat + 1)
    }

    /// A generator that has yielded nothing.
    pub fn new() -> (r: Self)
        ensures
            r.wf(),
            r.yielded() == 0,
    {
        proof {
            reveal_with_fuel(spec_fib, 2);
        }
        FibGenerator { a: 0, b: 1, count: 0 }
    }

    /// The next Fibonacci number, or `None` once ten have been yielded.
    pub fn next(&mut self) -> (r: Option<i32>)
        requires
            old(self).wf(),
        ensures
            final(self).wf(),
            old(self).yielded() < FIB_COUNT ==> r == Some(spec_fib(old(self).yielded() as nat) as i32)
                && final(self).yielded() == old(self).yielded() + 1,
            old(self).yielded() >= FIB_COUNT ==> r is None && final(self).yielded() == old(
                self,
            ).yielded(),
    {
        if self.count >= FIB_COUNT {
            return None;
        }
        proof {
            reveal_with_fuel(spec_fib, 12);
            lemma_fib_monotonic(self.count as nat + 2, 11);
        }
        let val = self.a;
        let tmp = self.a;
        self.a = self.b;
        self.b = tmp + self.b;
        self.count = self.count + 1;
        Some(val)
    }
}

/// Whether `n` is prime.
pub open spec fn is_prime(n: int) -> bool {
    n > 1 && forall|d: int| 2 <= d < n ==> #[trigger] (n % d) != 0
}

/// Whether a prime lies in `[lo, hi)`.
pub open spec fn prime_between(lo: int, hi: int) -> bool {
    exists|p: int| lo <= p < hi && is_prime(p)
}

/// The candidates past which the trial division's `d * d` would overflow:
/// `46339 * 46339`.
pub const PRIME_LIMIT: i32 = 2147302921;

/// Yields the primes in increasing order: 2, 3, 5, 7, 11, ...
pub struct PrimeGenerator {
    current: i32,
}

proof fn lemma_small_factor(n: int, a: int)
    requires
        n >= 2,
        2 <= a < n,
        n % a == 0,
    ensures
        exists|f: int| 2 <= f && f * f <= n && #[trigger] (n % f) == 0 && f <= a,
{
    let b = n / a;
    assert(n == a * b) by {
        vstd::arithmetic::div_mod::lemma_fundamental_div_mod(n, a);
    }
    assert(b >= 1) by (nonlinear_arith)
        requires
            n == a * b,
            a >= 2,
            n >= 2,
    ;
    if a * a <= n {
        assert(n % a == 0);
    } else {
        assert(b < a) by (nonlinear_arith)
            requires
                n == a * b,
                a * a > n,
                a > 0,
        ;
        assert(b >= 2) by (nonlinear_arith)
            requires
                n == a * b,
                a < n,
                b >= 1,
        ;
        assert(b * b <= n) by (nonlinear_arith)
            requires
                n == a * b,
                b < a,
                b >= 0,
        ;
        assert(n % b == 0) by {
            vstd::arithmetic::div_mod::lemma_mod_multiples_basic(a, b);
            assert(a * b == b * a) by (nonlinear_arith);
        }
    }
}

proof fn lemma_odd_factor(n: int, f: int)
    requires
        n % 2 == 1,
        f >= 2,
        n % f == 0,
    ensures
        f % 2 == 1,
{
    if f % 2 == 0 {
        let q = n / f;
        let h = f / 2;
        assert(n == f * q) by {
            vstd::arithmetic::div_mod::lemma_fundamental_div_mod(n, f);
        }
        assert(f == 2 * h);
        assert(n == 2 * (h * q)) by (nonlinear_arith)
            requires
                n == f * q,
                f == 2 * h,
        ;
        assert((2 * (h * q)) % 2 == 0) by {
            vstd::arithmetic::div_mod::lemma_mod_multiples_basic(h * q, 2);
        }
    }
}

/// Trial division by the odd numbers below `d`, all failing, with
/// `d * d > n`, proves an odd `n >= 3` prime.
proof fn lemma_trial_division(n: int, d: int)
    requires
        n >= 3,
        n % 2 == 1,
        d * d > n,
        d >= 3,
        forall|k: int| 3 <= k < d && k % 2 == 1 ==> #[trigger] (n % k) != 0,
    ensures
        is_prime(n),
{
    assert forall|a: int| 2 <= a < n implies #[trigger] (n % a) != 0 by {
        if n % a == 0 {
            lemma_small_factor(n, a);
            let f = choose|f: int| 2 <= f && f * f <= n && #[trigger] (n % f) == 0 && f <= a;
            lemma_odd_factor(n, f);
            assert(f < d) by (nonlinear_arith)
                requires
                    f * f <= n,
                    d * d > n,
                    f >= 0,
                    d >= 0,
            ;
            assert(n % f != 0);
        }
    }
}

impl PrimeGenerator {
    /// The smallest number that may be yielded next.
    pub closed spec fn next_candidate(&self) -> int {
        self.current as int
    }

    /// The candidate is 2, or odd and at least 3.
    pub closed spec fn wf(&self) -> bool {
        self.current == 2 || (self.current >= 3 && self.current % 2 == 1)
    }

    /// A generator that starts at 2.
    pub fn new() -> (r: Self)
        ensures
            r.wf(),
            r.next_candidate() == 2,
    {
        PrimeGenerator { current: 2 }
    }

    /// The least prime at or above the candidate; afterwards no prime lies
    /// between it and the new candidate. It is called while a prime lies
    /// between the candidate and `PRIME_LIMIT`; past that the trial division
    /// would overflow.
    pub fn next(&mut self) -> (r: Option<i32>)
        requires
            old(self).wf(),
            prime_between(old(self).next_candidate(), PRIME_LIMIT as int),
        ensures
            final(self).wf(),
            r matches Some(p) && is_prime(p as int) && old(self).next_candidate() <= p
                && !prime_between(old(self).next_candidate(), p as int) && p
                < final(self).next_candidate() && !prime_between(
                p as int + 1,
                final(self).next_candidate(),
            ),
    {
        if self.current == 2 {
            self.current = 3;
            assert(is_prime(2));
            assert(!prime_between(3, 3));
            assert(!prime_between(2, 2));
            return Some(2);
        }
        let ghost start = self.current as int;
        let ghost target = choose|p: int| start <= p < PRIME_LIMIT as int && is_prime(p);
        assert(target % 2 == 1) by {
            if target % 2 == 0 {
                assert(target % 2 != 0);
            }
        }
        loop
            invariant
                start == old(self).next_candidate(),
                start <= self.current <= target,
                self.current % 2 == 1,
                start >= 3,
                start <= target < PRIME_LIMIT,
                target % 2 == 1,
                is_prime(target),
                !prime_between(start, self.current as int),
            decreases target - self.current,
        {
            let n = self.current;
            self.current = self.current + 2;
            let mut is_prime_n = true;
            let mut d: i32 = 3;
            while d * d <= n
                invariant_except_break
                    is_prime_n,
                    3 <= d,
                    d % 2 == 1,
                    forall|k: int| 3 <= k < d && k % 2 == 1 ==> #[trigger] (n as int % k) != 0,
                invariant
                    3 <= n <= target < PRIME_LIMIT,
                    n % 2 == 1,
                    3 <= d <= 46339,
                    d * d <= 2147302921,
                ensures
                    is_prime_n ==> d * d > n && forall|k: int|
                        3 <= k < d && k % 2 == 1 ==> #[trigger] (n as int % k) != 0,
                    !is_prime_n ==> !is_prime(n as int),
                decreases 46339 - d,
            {
                if n % d == 0 {
                    assert(d < n) by (nonlinear_arith)
                        requires
                            d * d <= n,
                            d >= 3,
                    ;
                    assert(!is_prime(n as int)) by {
                        assert(n as int % d as int == 0);
                    }
                    is_prime_n = false;
                    break;
                }
                assert(d <= 46337) by (nonlinear_arith)
                    requires
                        d * d <= n,
                        n < 2147302921,
                        d % 2 == 1,
                        d >= 0,
                ;
                assert((d + 2) * (d + 2) <= 2147302921) by (nonlinear_arith)
                    requires
                        d + 2 <= 46339,
                        d >= 0,
                ;
                d = d + 2;
            }
            if is_prime_n {
                proof {
                    lemma_trial_division(n as int, d as int);
                }
                assert(!prime_between(n as int + 1, self.current as int)) by {
                    if prime_between(n as int + 1, self.current as int) {
                        let q = choose|q: int| n + 1 <= q < self.current && is_prime(q);
                        assert(q == n + 1);
                        assert(q % 2 == 0);
                        assert(q % 2 != 0);
                    }
                }
                return Some(n);
            }
            assert(!prime_between(start, self.current as int)) by {
                if prime_between(start, self.current as int) {
                    let q = choose|q: int| start <= q < self.current && is_prime(q);
                    if q == n + 1 {
                        assert(q % 2 != 0);
                    } else {
                        assert(prime_between(start, n as int));
                    }
                }
            }
        }
    }
}

/// Successive calls yield consecutive primes: a prime yielded, and the next
/// one yielded after it, have no prime between them.
pub proof fn lemma_primes_consecutive(p: int, c: int, q: int)
    requires
        !prime_between(p + 1, c),
        !prime_between(c, q),
        p < c <= q,
    ensures
        !prime_between(p + 1, q),
{
    if prime_between(p + 1, q) {
        let r = choose|r: int| p + 1 <= r < q && is_prime(r);
        if r < c {
            assert(prime_between(p + 1, c));
        } else {
            assert(prime_between(c, q));
        }
    }
}

} // verus!
