//! Ordering of relevance scores.
//!
//! A score crosses this library as the bit pattern of an IEEE-754
//! single-precision number. The order of two scores is decided on the bit
//! patterns alone, by integer arithmetic.

use vstd::prelude::*;

verus! {

/// The bit pattern of positive infinity, the largest magnitude of a number.
pub const INFINITY_BITS: u32 = 0x7f80_0000;

/// The sign bit of a bit pattern.
pub const SIGN_BIT: u32 = 0x8000_0000;

/// The bit pattern without its sign bit.
pub open spec fn magnitude(bits: u32) -> int {
    if bits >= SIGN_BIT {
        bits - SIGN_BIT
    } else {
        bits as int
    }
}

/// Whether the bit pattern encodes no number (a NaN).
pub open spec fn is_nan(bits: u32) -> bool {
    magnitude(bits) > INFINITY_BITS
}

/// The position of a score in the order of scores: a larger key is a larger
/// score. Both zeros share the key 0, and every pattern that encodes no
/// number shares one key below negative infinity.
pub open spec fn score_key(bits: u32) -> int {
    if is_nan(bits) {
        -(INFINITY_BITS as int) - 1
    } else if bits >= SIGN_BIT {
        -magnitude(bits)
    } else {
        magnitude(bits)
    }
}

/// Computes the key of a score.
pub fn score_rank(bits: u32) -> (key: i64)
    ensures
        key == score_key(bits),
{
    let negative: bool = bits >= SIGN_BIT;
    let size: u32 = if negative { bits - SIGN_BIT } else { bits };
    if size > INFINITY_BITS {
        -(INFINITY_BITS as i64) - 1
    } else if negative {
        -(size as i64)
    } else {
        size as i64
    }
}

/// The order of the keys on bit patterns: what encodes no number ranks below
/// everything else; among numbers, a negative one never ranks above a
/// non-negative one, non-negative ones rank as their patterns do, negative
/// ones against their patterns, and the two zeros rank alike.
pub proof fn lemma_score_order(a: u32, b: u32)
    ensures
        is_nan(a) ==> score_key(a) <= score_key(b),
        is_nan(a) && !is_nan(b) ==> score_key(a) < score_key(b),
        !is_nan(a) && !is_nan(b) && a >= SIGN_BIT && b < SIGN_BIT ==> score_key(a) <= score_key(b),
        !is_nan(a) && !is_nan(b) && a < SIGN_BIT && b < SIGN_BIT ==> (score_key(a) <= score_key(b)
            <==> a <= b),
        !is_nan(a) && !is_nan(b) && a >= SIGN_BIT && b >= SIGN_BIT ==> (score_key(a) <= score_key(
            b,
        ) <==> a >= b),
        score_key(0) == score_key(SIGN_BIT),
{
}

} // verus!
