//! The collector's side: the primes that arrived, in whatever order, put in
//! ascending order and encoded as four big-endian bytes each.

use vstd::prelude::*;
use vstd::relations::{sorted_by, total_ordering};
use vstd::seq_lib::lemma_sorted_unique;

verus! {

/// `s` never falls from one position to a later one.
pub open spec fn is_ascending(s: Seq<u32>) -> bool {
    forall|i: int, j: int| 0 <= i < j < s.len() ==> s[i] <= s[j]
}

/// Relies on `slice::sort_unstable`: afterwards the vector holds the same
/// values, in ascending order.
#[verifier::external_body]
fn sort_ascending(v: &mut Vec<u32>)
    ensures
        final(v)@.to_multiset() == old(v)@.to_multiset(),
        is_ascending(final(v)@),
{
    v.sort_unstable();
}

/// The values that arrived, in ascending order.
pub fn collect(values: Vec<u32>) -> (r: Vec<u32>)
    ensures
        r@.to_multiset() == values@.to_multiset(),
        is_ascending(r@),
{
    let mut all = values;
    sort_ascending(&mut all);
    all
}

/// Two ascending sequences with the same values, counted with multiplicity,
/// are equal.
pub proof fn lemma_ascending_unique(x: Seq<u32>, y: Seq<u32>)
    requires
        is_ascending(x),
        is_ascending(y),
        x.to_multiset() == y.to_multiset(),
    ensures
        x == y,
{
    let leq = |a: u32, b: u32| a <= b;
    assert(total_ordering(leq));
    assert(sorted_by(x, leq));
    assert(sorted_by(y, leq));
    lemma_sorted_unique(x, y, leq);
}

/// The collector's result does not depend on the order in which the values
/// arrive: two arrival orders of the same values give the same result.
pub proof fn lemma_collect_order_independent(
    a: Seq<u32>,
    b: Seq<u32>,
    ra: Seq<u32>,
    rb: Seq<u32>,
)
    requires
        a.to_multiset() == b.to_multiset(),
        ra.to_multiset() == a.to_multiset(),
        is_ascending(ra),
        rb.to_multiset() == b.to_multiset(),
        is_ascending(rb),
    ensures
        ra == rb,
{
    lemma_ascending_unique(ra, rb);
}

/// `x` as four bytes, most significant first.
pub open spec fn be_word(x: u32) -> Seq<u8> {
    seq![
        (x / 0x100_0000) as u8,
        (x / 0x1_0000 % 0x100) as u8,
        (x / 0x100 % 0x100) as u8,
        (x % 0x100) as u8,
    ]
}

/// The values of `s` as consecutive big-endian words.
pub open spec fn encode_spec(s: Seq<u32>) -> Seq<u8>
    decreases s.len(),
{
    if s.len() == 0 {
        Seq::empty()
    } else {
        encode_spec(s.drop_last()) + be_word(s.last())
    }
}

/// Each value takes four bytes.
pub proof fn lemma_encode_len(s: Seq<u32>)
    ensures
        encode_spec(s).len() == 4 * s.len(),
    decreases s.len(),
{
    if s.len() > 0 {
        lemma_encode_len(s.drop_last());
    }
}

/// The output stream: each value as four big-endian bytes, in order.
pub fn encode(values: &Vec<u32>) -> (r: Vec<u8>)
    ensures
        r@ == encode_spec(values@),
        r@.len() == 4 * values@.len(),
{
    let mut out: Vec<u8> = Vec::new();
    let mut j: usize = 0;
    while j < values.len()
        invariant
            j <= values.len(),
            out@ == encode_spec(values@.subrange(0, j as int)),
        decreases values.len() - j,
    {
        let x = values[j];
        out.push((x / 0x100_0000) as u8);
        out.push((x / 0x1_0000 % 0x100) as u8);
        out.push((x / 0x100 % 0x100) as u8);
        out.push((x % 0x100) as u8);
        let ghost next = values@.subrange(0, j + 1);
        assert(next.drop_last() =~= values@.subrange(0, j as int));
        assert(out@ =~= encode_spec(next));
        j = j + 1;
    }
    assert(values@.subrange(0, j as int) =~= values@);
    proof {
        lemma_encode_len(values@);
    }
    out
}

} // verus!
