//! The work of one task: every prime among a block's candidates, found by
//! trial division against the seed primes.

use crate::partition::Block;
use crate::primality::is_odd_prime;
use crate::sieve::{
    as_ints, covers_divisors, is_prime, lemma_even_not_prime, lemma_primes_upto,
    lemma_trial_decides, primes_upto, trial_passes, SeedPrimeSet,
};
use vstd::prelude::*;

verus! {

/// The odd primes in `[lo, hi]`, ascending.
pub open spec fn primes_between(lo: int, hi: int) -> Seq<int>
    decreases hi - lo + 1,
{
    if hi < lo {
        Seq::empty()
    } else if is_odd_prime(hi) {
        primes_between(lo, hi - 1).push(hi)
    } else {
        primes_between(lo, hi - 1)
    }
}

/// The primes up to `hi` are those up to `lo - 1` followed by those in `[lo, hi]`.
pub proof fn lemma_primes_split(lo: int, hi: int)
    requires
        1 <= lo <= hi + 1,
    ensures
        primes_upto(hi) == primes_upto(lo - 1) + primes_between(lo, hi),
    decreases hi - lo + 1,
{
    if hi < lo {
        assert(primes_upto(lo - 1) + primes_between(lo, hi) =~= primes_upto(lo - 1));
    } else {
        lemma_primes_split(lo, hi - 1);
        if is_odd_prime(hi) {
            assert(primes_upto(hi) == primes_upto(hi - 1).push(hi));
            assert(primes_upto(lo - 1) + primes_between(lo, hi-1).push(hi) =~= (primes_upto(lo - 1)
                + primes_between(lo, hi - 1)).push(hi));
        } else {
            assert(primes_upto(hi) == primes_upto(hi - 1));
        }
    }
}

/// The odd values of at least 3 in `[lo, hi]` that pass trial division by
/// `s`, ascending.
pub open spec fn passing_between(lo: int, hi: int, s: Seq<int>) -> Seq<int>
    decreases hi - lo + 1,
{
    if hi < lo {
        Seq::empty()
    } else if hi >= 3 && hi % 2 == 1 && trial_passes(hi, s) {
        passing_between(lo, hi - 1, s).push(hi)
    } else {
        passing_between(lo, hi - 1, s)
    }
}

/// Divisors that cover `n` cover every value below it too.
proof fn lemma_covers_below(s: Seq<int>, n: int, c: int)
    requires
        covers_divisors(s, n),
        c <= n,
    ensures
        covers_divisors(s, c),
{
    assert forall|p: int| #[trigger] is_odd_prime(p) && p * p <= c implies s.contains(p) by {
        assert(p * p <= n);
    }
}

/// The seed primes up to `l` cover every value below `(l + 1)^2`.
pub proof fn lemma_seeds_cover(l: int, n: int)
    requires
        0 <= l,
        n < (l + 1) * (l + 1),
    ensures
        covers_divisors(primes_upto(l), n),
{
    lemma_primes_upto(l);
    let s = primes_upto(l);
    assert forall|p: int| #[trigger] is_odd_prime(p) && p * p <= n implies s.contains(p) by {
        if p > l {
            assert((l + 1) * (l + 1) <= p * p) by (nonlinear_arith)
                requires
                    l + 1 <= p,
                    0 <= l + 1,
            ;
        }
    }
}

/// With divisors that cover the block's end, the values that pass trial
/// division are exactly the primes.
pub proof fn lemma_passing_are_primes(lo: int, hi: int, s: Seq<int>)
    requires
        covers_divisors(s, hi),
    ensures
        passing_between(lo, hi, s) == primes_between(lo, hi),
    decreases hi - lo + 1,
{
    if hi >= lo {
        lemma_covers_below(s, hi, hi - 1);
        lemma_passing_are_primes(lo, hi - 1, s);
        if hi >= 3 && hi % 2 == 1 {
            lemma_trial_decides(hi, s);
        } else if hi >= 4 {
            lemma_even_not_prime(hi);
        }
    }
}

/// The block's odd candidates of at least 3 that pass trial division by
/// the seed primes, ascending: the primes of the block wherever the seeds
/// reach the square root of its end.
pub fn check_block(block: &Block, seeds: &SeedPrimeSet) -> (r: Vec<u32>)
    ensures
        as_ints(r@) == passing_between(block.low as int, block.hi as int, seeds@),
        block.hi < (seeds.limit_spec() + 1) * (seeds.limit_spec() + 1) ==> as_ints(r@)
            == primes_between(block.low as int, block.hi as int),
{
    let primes = seeds.primes();
    let ghost s = seeds@;
    proof {
        lemma_primes_upto(seeds.limit_spec());
        assert forall|k: int| 0 <= k < primes@.len() implies #[trigger] primes@[k] != 0 by {
            assert(s[k] == primes@[k] as int);
        }
    }
    let lo = block.low as u64;
    let hi = block.hi as u64;
    let mut found: Vec<u32> = Vec::new();
    let mut c: u64 = if lo % 2 == 0 {
        lo + 1
    } else {
        lo
    };
    proof {
        if lo % 2 == 0 {
            assert(passing_between(lo as int, c - 1, s) == passing_between(lo as int, lo - 1, s));
        }
    }
    while c <= hi
        invariant
            c % 2 == 1,
            lo <= c,
            c <= hi + 2 || c == lo || c == lo + 1,
            hi <= u32::MAX,
            s == as_ints(primes@),
            forall|k: int| 0 <= k < primes@.len() ==> #[trigger] primes@[k] != 0,
            as_ints(found@) == passing_between(lo as int, c - 1, s),
        decreases hi + 3 - c,
    {
        if c >= 3 {
            if is_prime(c as u32, primes) {
                found.push(c as u32);
            }
        }
        assert(as_ints(found@) =~= passing_between(lo as int, c as int, s));
        assert(passing_between(lo as int, c + 1, s) == passing_between(lo as int, c as int, s));
        c = c + 2;
    }
    assert(passing_between(lo as int, c - 1, s) == passing_between(lo as int, hi as int, s)) by {
        if c - 1 > hi {
            assert(passing_between(lo as int, c - 1, s) == passing_between(lo as int, c - 2, s));
        }
    }
    proof {
        if block.hi < (seeds.limit_spec() + 1) * (seeds.limit_spec() + 1) {
            lemma_seeds_cover(seeds.limit_spec(), hi as int);
            lemma_passing_are_primes(lo as int, hi as int, s);
        }
    }
    found
}

} // verus!
