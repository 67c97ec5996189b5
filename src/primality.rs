//! What a prime is, the integer square root, and the facts about divisors
//! that make trial division by small primes a complete test.

use vstd::arithmetic::div_mod::{lemma_fundamental_div_mod, lemma_mod_multiples_basic};
use vstd::prelude::*;

verus! {

/// `n` is prime: at least 2 and with no divisor strictly between 1 and itself.
pub open spec fn is_prime_number(n: int) -> bool {
    n >= 2 && forall|d: int| 2 <= d < n ==> #[trigger] (n % d) != 0
}

/// `n` is a prime other than 2, the only primes this library produces.
pub open spec fn is_odd_prime(n: int) -> bool {
    n >= 3 && is_prime_number(n)
}

/// `r` is the integer square root of `n`: the largest value whose square is at most `n`.
pub open spec fn is_floor_sqrt(r: int, n: int) -> bool {
    0 <= r && r * r <= n < (r + 1) * (r + 1)
}

proof fn lemma_divides_trans(n: int, m: int, q: int)
    requires
        n > 0,
        m > 0,
        q > 0,
        n % m == 0,
        m % q == 0,
    ensures
        n % q == 0,
{
    lemma_fundamental_div_mod(n, m);
    lemma_fundamental_div_mod(m, q);
    let a = n / m;
    let b = m / q;
    assert(n == (b * a) * q) by (nonlinear_arith)
        requires
            n == m * a,
            m == q * b,
    ;
    lemma_mod_multiples_basic(b * a, q);
}

/// Every integer of at least 2 has a prime divisor no larger than itself.
proof fn lemma_prime_divisor(m: int) -> (q: int)
    requires
        m >= 2,
    ensures
        2 <= q <= m,
        m % q == 0,
        is_prime_number(q),
    decreases m,
{
    if is_prime_number(m) {
        lemma_mod_multiples_basic(1, m);
        m
    } else {
        let e = choose|e: int| 2 <= e < m && #[trigger] (m % e) == 0;
        let q = lemma_prime_divisor(e);
        lemma_divides_trans(m, e, q);
        q
    }
}

/// An integer of at least 2 that is not prime has a prime divisor whose
/// square is at most the integer.
pub proof fn lemma_small_prime_divisor(n: int) -> (p: int)
    requires
        n >= 2,
        !is_prime_number(n),
    ensures
        is_prime_number(p),
        p * p <= n,
        n % p == 0,
{
    let d = choose|d: int| 2 <= d < n && #[trigger] (n % d) == 0;
    lemma_fundamental_div_mod(n, d);
    let k = n / d;
    assert(k >= 2) by (nonlinear_arith)
        requires
            n == d * k,
            2 <= d < n,
    ;
    lemma_mod_multiples_basic(d, k);
    let m = if d <= k {
        d
    } else {
        k
    };
    assert(m * m <= n) by (nonlinear_arith)
        requires
            n == d * k,
            m == d || m == k,
            m <= d,
            m <= k,
            m >= 2,
    ;
    let q = lemma_prime_divisor(m);
    lemma_divides_trans(n, m, q);
    assert(q * q <= m * m) by (nonlinear_arith)
        requires
            2 <= q <= m,
    ;
    q
}

/// An odd `n` of at least 3 that no odd prime with square at most `n`
/// divides is prime: trial division by odd primes up to the square root is
/// a complete test for odd candidates.
pub proof fn lemma_prime_by_trial_division(n: int)
    requires
        n >= 3,
        n % 2 == 1,
        forall|p: int| #[trigger] is_odd_prime(p) && p * p <= n ==> n % p != 0,
    ensures
        is_prime_number(n),
{
    if !is_prime_number(n) {
        let p = lemma_small_prime_divisor(n);
        assert(p != 2);
        assert(is_odd_prime(p));
    }
}

/// A prime is divisible by no value `d` with `2 <= d` and `d * d <= n`.
pub proof fn lemma_prime_has_no_small_divisor(n: int, d: int)
    requires
        is_prime_number(n),
        2 <= d,
        d * d <= n,
    ensures
        n % d != 0,
{
    assert(d < n) by (nonlinear_arith)
        requires
            2 <= d,
            d * d <= n,
    ;
}

/// The integer square root of `n`.
pub fn floor_sqrt(n: u32) -> (r: u32)
    ensures
        is_floor_sqrt(r as int, n as int),
{
    let mut r: u32 = 0;
    loop
        invariant
            r * r <= n,
            r <= 65535,
        ensures
            r * r <= n < (r + 1) * (r + 1),
        decreases 65535 - r,
    {
        let next: u64 = r as u64 + 1;
        assert(next * next <= 0x1_0000_0000) by (nonlinear_arith)
            requires
                next <= 65536,
        ;
        if next * next > n as u64 {
            break;
        }
        assert(r + 1 <= 65535) by (nonlinear_arith)
            requires
                (r + 1) * (r + 1) <= n,
                n <= 0xffff_ffff,
        ;
        r = r + 1;
    }
    r
}

} // verus!
