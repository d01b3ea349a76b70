//! Identifier primitives: lane extraction and two-lane equality for
//! 128-bit identifiers.

use vstd::prelude::*;

verus! {

/// The high 64-bit lane of a 128-bit identifier.
pub fn high(n: u128) -> (r: u64)
    ensures
        r == (n >> 64) as u64,
{
    #[verifier::truncate]
    ((n >> 64) as u64)
}

/// The low 64-bit lane of a 128-bit identifier.
pub fn low(n: u128) -> (r: u64)
    ensures
        r == (n & 0xFFFF_FFFF_FFFF_FFFF) as u64,
{
    proof {
        assert(n as u64 == (n & 0xFFFF_FFFF_FFFF_FFFF) as u64) by (bit_vector);
    }
    #[verifier::truncate]
    (n as u64)
}

/// Identifier equality computed over the two 64-bit lanes, observably
/// identical to plain equality on the 128-bit values.
pub fn equals(id1: u128, id2: u128) -> (r: bool)
    ensures
        r == (id1 == id2),
{
    let r = high(id1) == high(id2) && low(id1) == low(id2);
    proof {
        lemma_lanes_decide_equality(id1, id2);
    }
    r
}

/// Two 128-bit values are equal exactly when both their 64-bit lanes are.
proof fn lemma_lanes_decide_equality(a: u128, b: u128)
    ensures
        (a == b) <==> ((a >> 64) as u64 == (b >> 64) as u64 && (a & 0xFFFF_FFFF_FFFF_FFFF)
            as u64 == (b & 0xFFFF_FFFF_FFFF_FFFF) as u64),
{
    assert((a == b) <==> ((a >> 64) as u64 == (b >> 64) as u64 && (a & 0xFFFF_FFFF_FFFF_FFFF)
        as u64 == (b & 0xFFFF_FFFF_FFFF_FFFF) as u64)) by (bit_vector);
}

} // verus!
