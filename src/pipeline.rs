//! The whole search run in order on one thread: seed primes, every block
//! in turn, the seed primes handed in after the blocks as the collector
//! receives them, then the collector's sort. Also the facts about the
//! result that hold for every bound.

use crate::collect::{collect, is_ascending, lemma_ascending_unique};
use crate::partition::{
    block_count, boundary, lemma_boundary_monotone, lemma_end_boundaries,
    next_odd_after, WorkPartitioner,
};
use crate::primality::{is_floor_sqrt, is_odd_prime, is_prime_number};
use crate::sieve::{
    as_ints, lemma_even_not_prime, lemma_primes_upto, primes_upto, strictly_ascending,
    SeedPrimeSet,
};
use crate::worker::{check_block, lemma_primes_split, primes_between};
use vstd::prelude::*;
use vstd::seq_lib::lemma_multiset_commutative;

verus! {

/// The primes up to one boundary, followed by those of the block after it
/// (from the first odd value above it), are the primes up to the next
/// boundary: the blocks' primes, in block order after the seed primes, are
/// the result.
pub proof fn lemma_block_extends(b1: int, b2: int)
    requires
        0 <= b1 <= b2,
    ensures
        primes_upto(b2) == primes_upto(b1) + primes_between(next_odd_after(b1), b2),
{
    let low = next_odd_after(b1);
    if b1 == b2 {
        assert(primes_upto(b1) + primes_between(low, b2) =~= primes_upto(b1));
    } else {
        lemma_primes_split(low, b2);
        if b1 % 2 == 1 {
            if b1 + 1 >= 4 {
                lemma_even_not_prime(b1 + 1);
            }
            assert(primes_upto(b1 + 1) == primes_upto(b1));
        }
    }
}

/// Every odd prime in `[3, max]`, ascending.
pub fn find_primes(max: u32) -> (r: Vec<u32>)
    ensures
        as_ints(r@) == primes_upto(max as int),
{
    let mut parts = WorkPartitioner::new(max);
    let ghost l = parts.limit_spec();
    let ghost m = max as int;
    let seeds = SeedPrimeSet::new(parts.limit());
    let mut arrived: Vec<u32> = Vec::new();
    proof {
        lemma_end_boundaries(l, m);
        assert(primes_upto(l) + as_ints(arrived@) =~= primes_upto(l));
    }
    loop
        invariant
            parts.limit_spec() == l,
            parts.max_spec() == m,
            is_floor_sqrt(l, m),
            0 <= m <= u32::MAX,
            seeds.limit_spec() == l,
            1 <= parts.next_index() <= block_count(l, m) + 1,
            parts.is_done() == (parts.next_index() == block_count(l, m) + 1),
            primes_upto(l) + as_ints(arrived@) == primes_upto(boundary(l, m, parts.next_index())),
        ensures
            parts.is_done(),
            primes_upto(l) + as_ints(arrived@) == primes_upto(boundary(l, m, parts.next_index())),
        decreases block_count(l, m) + 1 - parts.next_index(),
    {
        let ghost i = parts.next_index();
        match parts.next_block() {
            Some(block) => {
                assert(block.hi <= m);
                let found = check_block(&block, &seeds);
                proof {
                    lemma_boundary_monotone(l, m, i, i + 1);
                    lemma_block_extends(boundary(l, m, i), boundary(l, m, i + 1));
                    assert(as_ints(arrived@ + found@) =~= as_ints(arrived@) + as_ints(found@));
                    assert(primes_upto(l) + (as_ints(arrived@) + as_ints(found@)) =~= (primes_upto(
                        l,
                    ) + as_ints(arrived@)) + as_ints(found@));
                }
                let mut found = found;
                arrived.append(&mut found);
            },
            None => {
                break ;
            },
        }
    }
    let ghost from_blocks = arrived@;
    let primes = seeds.primes();
    let mut j: usize = 0;
    while j < primes.len()
        invariant
            j <= primes.len(),
            arrived@ == from_blocks + primes@.subrange(0, j as int),
        decreases primes.len() - j,
    {
        arrived.push(primes[j]);
        assert(arrived@ =~= from_blocks + primes@.subrange(0, j + 1));
        j = j + 1;
    }
    let ghost in_order = primes@ + from_blocks;
    proof {
        assert(primes@.subrange(0, j as int) =~= primes@);
        lemma_multiset_commutative(from_blocks, primes@);
        lemma_multiset_commutative(primes@, from_blocks);
        assert(arrived@.to_multiset() =~= in_order.to_multiset());
        assert(as_ints(in_order) =~= as_ints(primes@) + as_ints(from_blocks));
    }
    let ghost arrived_all = arrived@;
    let r = collect(arrived);
    proof {
        lemma_result_any_arrival_order(m, in_order, arrived_all, r@);
    }
    r
}

/// Whatever order the primes reach the collector in, from the workers and
/// the seed set, its result is the primes in `[3, m]`, ascending.
pub proof fn lemma_result_any_arrival_order(
    m: int,
    found: Seq<u32>,
    arrived: Seq<u32>,
    r: Seq<u32>,
)
    requires
        as_ints(found) == primes_upto(m),
        arrived.to_multiset() == found.to_multiset(),
        r.to_multiset() == arrived.to_multiset(),
        is_ascending(r),
    ensures
        as_ints(r) == primes_upto(m),
{
    lemma_primes_upto(m);
    assert forall|a: int, b: int| 0 <= a < b < found.len() implies found[a] <= found[b] by {
        assert(as_ints(found)[a] == found[a] as int);
        assert(as_ints(found)[b] == found[b] as int);
    }
    lemma_ascending_unique(r, found);
}

/// The result holds each prime once, in strictly ascending order.
pub proof fn lemma_result_strictly_ascending(m: int)
    ensures
        strictly_ascending(primes_upto(m)),
        primes_upto(m).no_duplicates(),
{
    lemma_primes_upto(m);
}

/// The result has as many values as there are primes in `[3, m]`.
pub proof fn lemma_result_count(m: int)
    ensures
        primes_upto(m).len() == Set::new(|x: int| 3 <= x <= m && is_prime_number(x)).len(),
{
    lemma_primes_upto(m);
    let s = primes_upto(m);
    assert(s.to_set() =~= Set::new(|x: int| 3 <= x <= m && is_prime_number(x))) by {
        assert forall|x: int| 3 <= x <= m && is_prime_number(x) implies s.to_set().contains(x) by {
            assert(is_odd_prime(x));
        }
    }
    s.unique_seq_to_set();
}

/// The seed primes are the result's values up to the seed limit: the
/// result starts with them, and every later value is above the limit.
pub proof fn lemma_seeds_begin_result(l: int, m: int)
    requires
        0 <= m,
        is_floor_sqrt(l, m),
    ensures
        primes_upto(m).subrange(0, primes_upto(l).len() as int) == primes_upto(l),
        forall|i: int|
            primes_upto(l).len() <= i < primes_upto(m).len() ==> #[trigger] primes_upto(m)[i] > l,
{
    assert(l <= m) by (nonlinear_arith)
        requires
            l * l <= m,
            0 <= l,
            0 <= m,
            m < (l + 1) * (l + 1),
    ;
    lemma_primes_split(l + 1, m);
    let rest = primes_between(l + 1, m);
    assert(primes_upto(m).subrange(0, primes_upto(l).len() as int) =~= primes_upto(l));
    lemma_primes_between_above(l + 1, m);
    assert forall|i: int| primes_upto(l).len() <= i < primes_upto(m).len() implies #[trigger] primes_upto(m)[i] > l by {
        assert(primes_upto(m)[i] == rest[i - primes_upto(l).len()]);
    }
}

/// Every value of `primes_between(lo, hi)` is at least `lo`.
proof fn lemma_primes_between_above(lo: int, hi: int)
    ensures
        forall|i: int| 0 <= i < primes_between(lo, hi).len() ==> #[trigger] primes_between(lo, hi)[i] >= lo,
    decreases hi - lo + 1,
{
    if hi >= lo {
        lemma_primes_between_above(lo, hi - 1);
        let s = primes_between(lo, hi);
        let t = primes_between(lo, hi - 1);
        assert forall|i: int| 0 <= i < s.len() implies #[trigger] s[i] >= lo by {
            if i < t.len() {
                assert(s[i] == t[i]);
            }
        }
    }
}

} // verus!
