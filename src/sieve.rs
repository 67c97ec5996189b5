//! The seed primes: a single-threaded search for every odd prime up to a
//! limit, each candidate tested by trial division against the primes
//! already accepted.

use crate::primality::{
    is_odd_prime, is_prime_number, lemma_prime_by_trial_division,
    lemma_prime_has_no_small_divisor,
};
use vstd::prelude::*;

verus! {

/// The primes in `[3, m]`, ascending.
pub open spec fn primes_upto(m: int) -> Seq<int>
    decreases m,
{
    if m < 3 {
        Seq::empty()
    } else if is_odd_prime(m) {
        primes_upto(m - 1).push(m)
    } else {
        primes_upto(m - 1)
    }
}

/// The values of `s` as mathematical integers.
pub open spec fn as_ints(s: Seq<u32>) -> Seq<int> {
    s.map_values(|x: u32| x as int)
}

/// `s` rises strictly from each position to the next.
pub open spec fn strictly_ascending(s: Seq<int>) -> bool {
    forall|i: int, j: int| 0 <= i < j < s.len() ==> s[i] < s[j]
}

/// `s` never falls from one position to a later one.
pub open spec fn ascending(s: Seq<int>) -> bool {
    forall|a: int, b: int| 0 <= a < b < s.len() ==> s[a] <= s[b]
}

/// `s` is an ascending list of divisors, each at least 2, that holds every
/// odd prime whose square is at most `n`: enough to decide whether an odd
/// `n` is prime.
pub open spec fn covers_divisors(s: Seq<int>, n: int) -> bool {
    &&& ascending(s)
    &&& forall|k: int| 0 <= k < s.len() ==> #[trigger] s[k] >= 2
    &&& forall|p: int| #[trigger] is_odd_prime(p) && p * p <= n ==> s.contains(p)
}

/// Trial division of `i` by the leading entries of `s` whose square is at
/// most `i`: true when none of them divides `i`. The first entry whose
/// square exceeds `i` ends the search.
pub open spec fn trial_passes(i: int, s: Seq<int>) -> bool
    decreases s.len(),
{
    if s.len() == 0 {
        true
    } else if s[0] * s[0] > i {
        true
    } else if i % s[0] == 0 {
        false
    } else {
        trial_passes(i, s.drop_first())
    }
}

/// A failed trial division has found a divisor whose square is at most `i`.
proof fn lemma_trial_fails_witness(i: int, s: Seq<int>)
    requires
        !trial_passes(i, s),
    ensures
        exists|k: int| 0 <= k < s.len() && s[k] * s[k] <= i && #[trigger] (i % s[k]) == 0,
    decreases s.len(),
{
    if s[0] * s[0] <= i && i % s[0] == 0 {
        assert(i % s[0] == 0);
    } else {
        let t = s.drop_first();
        lemma_trial_fails_witness(i, t);
        let k = choose|k: int| 0 <= k < t.len() && t[k] * t[k] <= i && #[trigger] (i % t[k]) == 0;
        assert(s[k + 1] == t[k]);
        assert(i % s[k + 1] == 0);
    }
}

/// On an ascending list of non-negative entries, a passed trial division
/// means that no entry whose square is at most `i` divides `i`.
proof fn lemma_trial_passes_all(i: int, s: Seq<int>)
    requires
        trial_passes(i, s),
        ascending(s),
        forall|k: int| 0 <= k < s.len() ==> #[trigger] s[k] >= 0,
    ensures
        forall|k: int| 0 <= k < s.len() && s[k] * s[k] <= i ==> #[trigger] (i % s[k]) != 0,
    decreases s.len(),
{
    if s.len() > 0 {
        if s[0] * s[0] > i {
            assert forall|k: int| 0 <= k < s.len() && s[k] * s[k] <= i implies #[trigger] (i
                % s[k]) != 0 by {
                assert(s[0] <= s[k]);
                assert(s[0] * s[0] <= s[k] * s[k]) by (nonlinear_arith)
                    requires
                        0 <= s[0] <= s[k],
                ;
            }
        } else {
            let t = s.drop_first();
            assert forall|k: int| 0 <= k < t.len() implies #[trigger] t[k] >= 0 by {
                assert(t[k] == s[k + 1]);
            }
            lemma_trial_passes_all(i, t);
            assert forall|k: int| 0 <= k < s.len() && s[k] * s[k] <= i implies #[trigger] (i
                % s[k]) != 0 by {
                if k > 0 {
                    assert(s[k] == t[k - 1]);
                }
            }
        }
    }
}

/// A "not prime" answer of trial division by entries of at least 2 is right.
pub proof fn lemma_trial_fails_not_prime(i: int, s: Seq<int>)
    requires
        !trial_passes(i, s),
        forall|k: int| 0 <= k < s.len() ==> #[trigger] s[k] >= 2,
    ensures
        !is_prime_number(i),
{
    lemma_trial_fails_witness(i, s);
    let k = choose|k: int| 0 <= k < s.len() && s[k] * s[k] <= i && #[trigger] (i % s[k]) == 0;
    if is_prime_number(i) {
        lemma_prime_has_no_small_divisor(i, s[k]);
    }
}

/// With divisors that cover `i`, trial division decides whether the odd
/// `i` is prime.
pub proof fn lemma_trial_decides(i: int, s: Seq<int>)
    requires
        i >= 3,
        i % 2 == 1,
        covers_divisors(s, i),
    ensures
        trial_passes(i, s) == is_prime_number(i),
{
    if trial_passes(i, s) {
        lemma_trial_passes_all(i, s);
        assert forall|p: int| #[trigger] is_odd_prime(p) && p * p <= i implies i % p != 0 by {
            let k = choose|k: int| 0 <= k < s.len() && s[k] == p;
            assert(s[k] * s[k] <= i);
        }
        lemma_prime_by_trial_division(i);
    } else {
        lemma_trial_fails_not_prime(i, s);
    }
}

/// More divisors can only turn a passed trial division into a failed one:
/// where `s` passes, so does each of its prefixes.
pub proof fn lemma_trial_prefix(i: int, s: Seq<int>, q: Seq<int>)
    requires
        q.len() <= s.len(),
        q == s.subrange(0, q.len() as int),
        trial_passes(i, s),
    ensures
        trial_passes(i, q),
    decreases q.len(),
{
    if q.len() > 0 && s[0] * s[0] <= i {
        assert(q[0] == s[0]);
        assert(q.drop_first() =~= s.drop_first().subrange(0, q.len() - 1));
        lemma_trial_prefix(i, s.drop_first(), q.drop_first());
    }
}

/// Entries whose square exceeds `i`, placed after the others, are never
/// consulted.
pub proof fn lemma_trial_ignores_large(i: int, s: Seq<int>, e: Seq<int>)
    requires
        forall|k: int| 0 <= k < e.len() ==> #[trigger] e[k] * e[k] > i,
    ensures
        trial_passes(i, s + e) == trial_passes(i, s),
    decreases s.len(),
{
    if s.len() == 0 {
        assert(s + e =~= e);
        if e.len() > 0 {
            assert(e[0] * e[0] > i);
        }
    } else {
        assert((s + e)[0] == s[0]);
        assert((s + e).drop_first() =~= s.drop_first() + e);
        lemma_trial_ignores_large(i, s.drop_first(), e);
    }
}

/// `primes_upto(m)` holds exactly the odd primes up to `m`, strictly ascending.
pub proof fn lemma_primes_upto(m: int)
    ensures
        strictly_ascending(primes_upto(m)),
        forall|i: int|
            0 <= i < primes_upto(m).len() ==> #[trigger] primes_upto(m)[i] <= m && is_odd_prime(
                primes_upto(m)[i],
            ),
        forall|x: int| #[trigger] is_odd_prime(x) && x <= m ==> primes_upto(m).contains(x),
    decreases m,
{
    if m >= 3 {
        lemma_primes_upto(m - 1);
        let s = primes_upto(m);
        let t = primes_upto(m - 1);
        if is_odd_prime(m) {
            assert(s[s.len() - 1] == m);
            assert forall|x: int| #[trigger] is_odd_prime(x) && x <= m implies s.contains(x) by {
                if x == m {
                    assert(s[s.len() - 1] == x);
                } else {
                    let k = choose|k: int| 0 <= k < t.len() && t[k] == x;
                    assert(s[k] == x);
                }
            }
        }
    }
}

/// An even value of at least 4 is not prime.
pub proof fn lemma_even_not_prime(n: int)
    requires
        n >= 4,
        n % 2 == 0,
    ensures
        !is_prime_number(n),
{
    assert(n % 2 == 0);
}

/// Trial division of `i` by the leading entries of `primes` whose square
/// is at most `i`, stopping at the first larger one. With divisors that
/// cover the odd `i`, the answer is whether `i` is prime.
pub fn is_prime(i: u32, primes: &Vec<u32>) -> (r: bool)
    requires
        forall|k: int| 0 <= k < primes@.len() ==> #[trigger] primes@[k] != 0,
    ensures
        r == trial_passes(i as int, as_ints(primes@)),
        (forall|k: int| 0 <= k < primes@.len() ==> #[trigger] primes@[k] >= 2) && !r
            ==> !is_prime_number(i as int),
        i >= 3 && i % 2 == 1 && covers_divisors(as_ints(primes@), i as int) ==> r
            == is_prime_number(i as int),
{
    let ghost s = as_ints(primes@);
    let mut j: usize = 0;
    assert(s.subrange(0, s.len() as int) =~= s);
    while j < primes.len()
        invariant
            j <= primes.len(),
            s == as_ints(primes@),
            forall|k: int| 0 <= k < primes@.len() ==> #[trigger] primes@[k] != 0,
            trial_passes(i as int, s) == trial_passes(i as int, s.subrange(j as int, s.len() as int)),
        ensures
            trial_passes(i as int, s) == trial_passes(i as int, s.subrange(j as int, s.len() as int)),
            j == primes.len() || s[j as int] * s[j as int] > i,
        decreases primes.len() - j,
    {
        let p = primes[j];
        assert(p * p <= 0xffff_fffe_0000_0001) by (nonlinear_arith)
            requires
                p <= 0xffff_ffff,
        ;
        let sq: u64 = p as u64 * p as u64;
        let ghost rest = s.subrange(j as int, s.len() as int);
        assert(rest[0] == p);
        if sq > i as u64 {
            break;
        }
        if i % p == 0 {
            proof {
                if forall|k: int| 0 <= k < primes@.len() ==> #[trigger] primes@[k] >= 2 {
                    assert forall|k: int| 0 <= k < s.len() implies #[trigger] s[k] >= 2 by {
                        assert(s[k] == primes@[k] as int);
                    }
                    lemma_trial_fails_not_prime(i as int, s);
                }
                if i >= 3 && i % 2 == 1 && covers_divisors(s, i as int) {
                    lemma_trial_decides(i as int, s);
                }
            }
            return false;
        }
        assert(rest.drop_first() =~= s.subrange(j + 1, s.len() as int));
        j = j + 1;
    }
    proof {
        if i >= 3 && i % 2 == 1 && covers_divisors(s, i as int) {
            lemma_trial_decides(i as int, s);
        }
    }
    true
}

/// Every odd prime in `[3, max_prime]`, ascending.
pub fn find_prime_vec(max_prime: u32) -> (r: Vec<u32>)
    ensures
        as_ints(r@) == primes_upto(max_prime as int),
{
    let mut ret: Vec<u32> = Vec::new();
    let mut i: u64 = 3;
    while i <= max_prime as u64
        invariant
            3 <= i,
            i <= max_prime + 2 || i == 3,
            i % 2 == 1,
            as_ints(ret@) == primes_upto(i - 1),
        decreases max_prime + 3 - i,
    {
        proof {
            lemma_primes_upto(i - 1);
            assert forall|p: int| #[trigger] is_odd_prime(p) && p * p <= i implies as_ints(
                ret@,
            ).contains(p) by {
                assert(p <= i - 1) by (nonlinear_arith)
                    requires
                        p >= 3,
                        p * p <= i,
                ;
            }
            assert forall|k: int| 0 <= k < ret@.len() implies #[trigger] ret@[k] >= 3 by {
                assert(as_ints(ret@)[k] == ret@[k] as int);
            }
            assert(covers_divisors(as_ints(ret@), i as int));
        }
        let c = i as u32;
        if is_prime(c, &ret) {
            ret.push(c);
            assert(as_ints(ret@) =~= primes_upto(i - 1).push(i as int));
        }
        assert(as_ints(ret@) == primes_upto(i as int));
        proof {
            lemma_even_not_prime(i + 1);
            assert(primes_upto(i + 1) == primes_upto(i as int));
        }
        i = i + 2;
    }
    proof {
        if i - 1 > max_prime && i - 1 >= 4 {
            lemma_even_not_prime(i - 1);
        }
    }
    ret
}

/// The seed primes: every odd prime up to a limit, ascending, computed
/// once and read by every worker.
pub struct SeedPrimeSet {
    limit: u32,
    primes: Vec<u32>,
}

impl View for SeedPrimeSet {
    type V = Seq<int>;

    closed spec fn view(&self) -> Seq<int> {
        as_ints(self.primes@)
    }
}

impl SeedPrimeSet {
    /// The set holds exactly the odd primes up to its limit.
    #[verifier::type_invariant]
    spec fn inv(self) -> bool {
        as_ints(self.primes@) == primes_upto(self.limit as int)
    }

    /// The largest value the set was computed up to.
    pub closed spec fn limit_spec(&self) -> int {
        self.limit as int
    }

    /// Computes the odd primes in `[3, limit]`.
    pub fn new(limit: u32) -> (r: Self)
        ensures
            r.limit_spec() == limit,
            r@ == primes_upto(limit as int),
    {
        let primes = find_prime_vec(limit);
        SeedPrimeSet { limit, primes }
    }

    /// The largest value the set was computed up to.
    pub fn limit(&self) -> (r: u32)
        ensures
            r == self.limit_spec(),
    {
        self.limit
    }

    /// The primes, ascending.
    pub fn primes(&self) -> (r: &Vec<u32>)
        ensures
            as_ints(r@) == self@,
            self@ == primes_upto(self.limit_spec()),
            0 <= self.limit_spec() <= u32::MAX,
    {
        proof {
            use_type_invariant(self);
        }
        &self.primes
    }
}

} // verus!
