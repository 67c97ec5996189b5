//! Splits the candidates above the seed limit into disjoint blocks of odd
//! values, produced one at a time, so that each can be handed to a worker.
//!
//! With `l` the integer square root of the bound `m`, boundary `i` is
//! `min(l * i, m)`, and block `i` holds the odd values in
//! `(boundary(i), boundary(i + 1)]`.

use crate::primality::{floor_sqrt, is_floor_sqrt};
use vstd::prelude::*;

verus! {

/// The odd values `c` with `low <= c <= hi`.
#[derive(Clone, Copy, Debug, PartialEq, Eq, Structural)]
pub struct Block {
    pub low: u32,
    pub hi: u32,
}

impl Block {
    /// `c` is one of the block's candidates.
    pub open spec fn holds(self, c: int) -> bool {
        self.low <= c <= self.hi && c % 2 == 1
    }
}

/// Boundary `i`: `l * i`, or `m` where that passes `m`.
pub open spec fn boundary(l: int, m: int, i: int) -> int {
    if l * i < m {
        l * i
    } else {
        m
    }
}

/// The smallest odd value above `b`.
pub open spec fn next_odd_after(b: int) -> int {
    if b % 2 == 0 {
        b + 1
    } else {
        b + 2
    }
}

/// The first candidate of block `i`.
pub open spec fn block_low(l: int, m: int, i: int) -> int {
    next_odd_after(boundary(l, m, i))
}

/// The last value that block `i` reaches.
pub open spec fn block_hi(l: int, m: int, i: int) -> int {
    boundary(l, m, i + 1)
}

/// `c` is a candidate of block `i`.
pub open spec fn in_block(l: int, m: int, i: int, c: int) -> bool {
    block_low(l, m, i) <= c <= block_hi(l, m, i) && c % 2 == 1
}

/// `c` is an odd value in `[3, m]`: a candidate below a bound `m`.
pub open spec fn is_candidate(m: int, c: int) -> bool {
    3 <= c <= m && c % 2 == 1
}

/// How many blocks there are: the first index `i` whose next boundary is `m`.
pub open spec fn block_count(l: int, m: int) -> int {
    if 0 < l < m {
        (m + l - 1) / l - 1
    } else {
        1
    }
}

/// Where the last block lies: every boundary before it is below `m`, and
/// the one after it is `m`.
proof fn lemma_block_count(l: int, m: int)
    requires
        0 < l < m,
    ensures
        1 <= block_count(l, m),
        l * block_count(l, m) < m <= l * (block_count(l, m) + 1),
{
    let q = (m + l - 1) / l;
    let r = (m + l - 1) % l;
    vstd::arithmetic::div_mod::lemma_fundamental_div_mod(m + l - 1, l);
    assert(0 <= r < l);
    assert(l * (q - 1) < m <= l * q) by (nonlinear_arith)
        requires
            m + l - 1 == l * q + r,
            0 <= r < l,
    ;
    assert(q >= 2) by (nonlinear_arith)
        requires
            l * q >= m,
            m > l,
            l > 0,
    ;
}

/// Boundaries never decrease.
pub proof fn lemma_boundary_monotone(l: int, m: int, i: int, j: int)
    requires
        0 <= l,
        i <= j,
    ensures
        boundary(l, m, i) <= boundary(l, m, j),
{
    assert(l * i <= l * j) by (nonlinear_arith)
        requires
            0 <= l,
            i <= j,
    ;
}

/// The blocks, together with the odd values of `[3, l]` that the seed
/// primes cover, hold every odd value of `[3, m]` once: each block lies in
/// `(l, m]`, every odd value of that range is in a block, and no two blocks
/// share a value.
pub proof fn lemma_partition_covers(l: int, m: int)
    requires
        0 <= m <= u32::MAX,
        is_floor_sqrt(l, m),
    ensures
        forall|c: int|
            #[trigger] is_candidate(m, c) <==> (is_candidate(l, c) || exists|i: int|
                1 <= i <= block_count(l, m) && #[trigger] in_block(l, m, i, c)),
        forall|i: int, c: int|
            1 <= i <= block_count(l, m) && #[trigger] in_block(l, m, i, c) ==> l < c <= m,
        forall|i: int, j: int, c: int|
            1 <= i < j <= block_count(l, m) && #[trigger] in_block(l, m, i, c) ==> !#[trigger] in_block(
                l,
                m,
                j,
                c,
            ),
{
    lemma_floor_sqrt_facts(l, m);
    let n = block_count(l, m);
    if 0 < l < m {
        lemma_block_count(l, m);
    }
    assert forall|i: int, c: int|
        1 <= i <= n && #[trigger] in_block(l, m, i, c) implies l < c <= m && c >= 3 by {
        lemma_boundary_monotone(l, m, 1, i);
        lemma_boundary_monotone(l, m, i + 1, i + 1);
    }
    assert forall|i: int, j: int, c: int|
        1 <= i < j <= n && #[trigger] in_block(l, m, i, c) implies !#[trigger] in_block(
        l,
        m,
        j,
        c,
    ) by {
        lemma_boundary_monotone(l, m, i + 1, j);
    }
    assert forall|c: int| #[trigger] is_candidate(m, c) && !is_candidate(l, c) implies exists|i: int|
        1 <= i <= n && #[trigger] in_block(l, m, i, c) by {
        let i = (c - 1) / l;
        vstd::arithmetic::div_mod::lemma_fundamental_div_mod(c - 1, l);
        let r = (c - 1) % l;
        assert(l * i < c <= l * (i + 1)) by (nonlinear_arith)
            requires
                c - 1 == l * i + r,
                0 <= r < l,
        ;
        assert(i >= 1) by (nonlinear_arith)
            requires
                l * (i + 1) >= c,
                c > l,
                l > 0,
        ;
        assert(i <= n) by (nonlinear_arith)
            requires
                l * i < c,
                c <= m,
                m <= l * (n + 1),
                l > 0,
        ;
        assert(in_block(l, m, i, c));
    }
}

/// The first boundary is the seed limit, and the boundary after the last
/// block is the bound.
pub proof fn lemma_end_boundaries(l: int, m: int)
    requires
        0 <= m,
        is_floor_sqrt(l, m),
    ensures
        boundary(l, m, 1) == l,
        boundary(l, m, block_count(l, m) + 1) == m,
{
    lemma_floor_sqrt_facts(l, m);
    if 0 < l < m {
        lemma_block_count(l, m);
    } else {
        assert(l * 2 >= m && l * 1 == l) by (nonlinear_arith)
            requires
                l == m,
                0 <= m,
        ;
    }
}

/// The integer square root of `m` is positive where `m` is, and below `m`
/// where `m` is at least 2.
pub proof fn lemma_floor_sqrt_facts(l: int, m: int)
    requires
        0 <= m,
        is_floor_sqrt(l, m),
    ensures
        m == 0 ==> l == 0,
        m >= 1 ==> l >= 1,
        m >= 2 ==> l < m,
        m <= 1 ==> l == m,
{
    if m >= 2 {
        assert(l < m) by (nonlinear_arith)
            requires
                l * l <= m,
                m >= 2,
                l >= 0,
        ;
    }
    if l >= 2 {
        assert(l * l >= 2 * l) by (nonlinear_arith)
            requires
                l >= 2,
        ;
    } else if l == 1 {
        assert(l * l == 1 && (l + 1) * (l + 1) == 4) by (nonlinear_arith)
            requires
                l == 1,
        ;
    } else {
        assert(l * l == 0 && (l + 1) * (l + 1) == 1) by (nonlinear_arith)
            requires
                l == 0,
        ;
    }
}

/// Produces the blocks `1, 2, ...` of the odd values in `(l, m]`, where `l`
/// is the integer square root of `m`, until the last one reaches `m`.
pub struct WorkPartitioner {
    limit: u32,
    max: u32,
    index: u32,
    done: bool,
}

impl WorkPartitioner {
    /// The seed limit: the integer square root of the bound.
    pub closed spec fn limit_spec(&self) -> int {
        self.limit as int
    }

    /// The bound: the largest candidate.
    pub closed spec fn max_spec(&self) -> int {
        self.max as int
    }

    /// The index of the block that comes next.
    pub closed spec fn next_index(&self) -> int {
        self.index as int
    }

    /// The last block has been produced.
    pub closed spec fn is_done(&self) -> bool {
        self.done
    }

    /// The limit is the bound's square root, and `done` says that the next
    /// index is past the last block.
    #[verifier::type_invariant]
    spec fn inv(&self) -> bool {
        &&& is_floor_sqrt(self.limit as int, self.max as int)
        &&& 1 <= self.index <= block_count(self.limit as int, self.max as int) + 1
        &&& self.done == (self.index == block_count(self.limit as int, self.max as int) + 1)
    }

    /// A partitioner of the candidates up to `max`, at its first block.
    pub fn new(max: u32) -> (r: Self)
        ensures
            is_floor_sqrt(r.limit_spec(), max as int),
            r.max_spec() == max,
            r.next_index() == 1,
            r.next_index() <= block_count(r.limit_spec(), r.max_spec()) + 1,
            !r.is_done(),
    {
        let limit = floor_sqrt(max);
        proof {
            lemma_floor_sqrt_facts(limit as int, max as int);
            if 0 < limit < max {
                lemma_block_count(limit as int, max as int);
            }
        }
        WorkPartitioner { limit, max, index: 1, done: false }
    }

    /// The seed limit.
    pub fn limit(&self) -> (r: u32)
        ensures
            r == self.limit_spec(),
    {
        self.limit
    }

    /// Boundary `i`, with the product checked for overflow.
    fn point(&self, i: u32) -> (r: u32)
        ensures
            r == boundary(self.limit as int, self.max as int, i as int),
    {
        match self.limit.checked_mul(i) {
            Some(n) => if n < self.max {
                n
            } else {
                self.max
            },
            None => self.max,
        }
    }

    /// The next block, or `None` once the last one has been produced.
    pub fn next_block(&mut self) -> (r: Option<Block>)
        ensures
            final(self).limit_spec() == old(self).limit_spec(),
            final(self).max_spec() == old(self).max_spec(),
            old(self).is_done() ==> r.is_none() && final(self).next_index() == old(self).next_index()
                && final(self).is_done(),
            !old(self).is_done() ==> {
                let (l, m, i) = (old(self).limit_spec(), old(self).max_spec(), old(self).next_index());
                &&& r.is_some()
                &&& r.unwrap().low == block_low(l, m, i)
                &&& r.unwrap().hi == block_hi(l, m, i)
                &&& forall|c: int| #[trigger] r.unwrap().holds(c) <==> in_block(l, m, i, c)
                &&& final(self).next_index() == i + 1
            },
            final(self).is_done() == (final(self).next_index() == block_count(
                final(self).limit_spec(),
                final(self).max_spec(),
            ) + 1),
            1 <= final(self).next_index() <= block_count(
                final(self).limit_spec(),
                final(self).max_spec(),
            ) + 1,
    {
        proof {
            use_type_invariant(&*self);
        }
        if self.done {
            return None;
        }
        let ghost l = self.limit as int;
        let ghost m = self.max as int;
        let ghost n = block_count(l, m);
        proof {
            lemma_floor_sqrt_facts(l, m);
            if 0 < l < m {
                lemma_block_count(l, m);
                assert(self.index <= l * self.index) by (nonlinear_arith)
                    requires
                        l >= 1,
                        self.index >= 1,
                ;
                assert(l * self.index <= l * n) by (nonlinear_arith)
                    requires
                        l >= 1,
                        self.index <= n,
                ;
            }
        }
        let i = self.index;
        let b = self.point(i);
        let hi = self.point(i + 1);
        let low = if b % 2 == 0 {
            b + 1
        } else {
            b + 2
        };
        proof {
            if 0 < l < m {
                if i < n {
                    assert(l * (i + 1) <= l * n) by (nonlinear_arith)
                        requires
                            l >= 1,
                            i + 1 <= n,
                    ;
                }
            }
            lemma_end_boundaries(l, m);
            if 0 < l < m && i < n {
                assert(hi < m);
            }
            assert((hi == m) == (i == n));
        }
        let done = hi == self.max;
        *self = WorkPartitioner { limit: self.limit, max: self.max, index: i + 1, done };
        Some(Block { low, hi })
    }
}

} // verus!
