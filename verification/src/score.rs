//! Order keys for scores.
//!
//! Scores are binary floating-point numbers, which this crate does not
//! compute with. It orders them by their bit patterns instead: a pattern is
//! a sign bit above a magnitude, and of two numbers that are not NaN the
//! larger has the larger signed magnitude. `order_key` turns a pattern into
//! an unsigned integer that grows with the signed magnitude, so that scores
//! can be compared as plain integers.

use vstd::prelude::*;

verus! {

pub const SIGN_BIT: u64 = 0x8000_0000_0000_0000;

/// The pattern without its sign bit.
pub open spec fn magnitude(bits: u64) -> int {
    (bits & !SIGN_BIT) as int
}

/// The sign bit of the pattern is set.
pub open spec fn is_negative(bits: u64) -> bool {
    bits & SIGN_BIT != 0
}

/// The key of a pattern: above the middle of the range by the magnitude for
/// a pattern without the sign, below it by the magnitude for one with it.
pub open spec fn key_of(bits: u64) -> int {
    if is_negative(bits) {
        SIGN_BIT - 1 - magnitude(bits)
    } else {
        SIGN_BIT + magnitude(bits)
    }
}

/// The order key of the score with the given bit pattern.
pub fn order_key(bits: u64) -> (key: u64)
    ensures
        key == key_of(bits),
{
    if bits & SIGN_BIT != 0 {
        assert(!bits == 0x7fff_ffff_ffff_ffffu64 - (bits & !0x8000_0000_0000_0000u64)) by (bit_vector)
            requires
                bits & 0x8000_0000_0000_0000u64 != 0,
        ;
        !bits
    } else {
        assert(bits | 0x8000_0000_0000_0000u64 == 0x8000_0000_0000_0000u64 + (bits
            & !0x8000_0000_0000_0000u64)) by (bit_vector)
            requires
                bits & 0x8000_0000_0000_0000u64 == 0,
        ;
        bits | SIGN_BIT
    }
}

/// Keys order patterns as their signed magnitudes do: every pattern with the
/// sign bit comes below every one without, a larger magnitude comes higher
/// without the sign and lower with it.
pub proof fn lemma_key_order(a: u64, b: u64)
    ensures
        is_negative(a) && !is_negative(b) ==> key_of(a) < key_of(b),
        !is_negative(a) && !is_negative(b) ==> (key_of(a) < key_of(b) <==> magnitude(a)
            < magnitude(b)),
        is_negative(a) && is_negative(b) ==> (key_of(a) < key_of(b) <==> magnitude(a) > magnitude(
            b,
        )),
        key_of(a) == key_of(b) <==> a == b,
        0 <= key_of(a) <= u64::MAX,
{
    assert(a & !0x8000_0000_0000_0000u64 <= 0x7fff_ffff_ffff_ffffu64) by (bit_vector);
    assert(b & !0x8000_0000_0000_0000u64 <= 0x7fff_ffff_ffff_ffffu64) by (bit_vector);
    assert((a & 0x8000_0000_0000_0000u64 != 0) == (b & 0x8000_0000_0000_0000u64 != 0) && (a
        & !0x8000_0000_0000_0000u64) == (b & !0x8000_0000_0000_0000u64) ==> a == b)
        by (bit_vector);
}

} // verus!
