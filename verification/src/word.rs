//! Weight words.
//!
//! Every bias, weight, input and output of a network is a 32-bit word: the bit
//! pattern of an IEEE 754 single-precision number (sign bit, eight exponent
//! bits, twenty-three fraction bits). The library stores and moves words and
//! decides on them with integer comparisons only; multiplication and addition
//! of words are capabilities that the caller supplies.

use vstd::prelude::*;

verus! {

/// The word of positive zero, the start value of every weighted sum.
pub const ZERO: u32 = 0;

/// The word of positive infinity, the largest word that is not negative and
/// not a NaN.
pub const POSITIVE_INFINITY: u32 = 0x7f80_0000;

/// The sign bit of `w` is set: `w` stands for a negative number, negative zero,
/// negative infinity or a NaN with the sign bit set.
pub open spec fn sign_set(w: u32) -> bool {
    w & 0x8000_0000 != 0
}

/// `w` stands for a NaN: all exponent bits set and a fraction that is not zero.
pub open spec fn is_nan(w: u32) -> bool {
    w & 0x7f80_0000 == 0x7f80_0000 && w & 0x007f_ffff != 0
}

/// `w` stands for a number that is at least zero: positive zero, a positive
/// finite number or positive infinity.
pub open spec fn is_non_negative(w: u32) -> bool {
    !sign_set(w) && !is_nan(w)
}

/// The rectified linear unit on words: a word that is at least zero is kept,
/// every other word (negative, negative zero, NaN) becomes positive zero.
pub open spec fn rectified(w: u32) -> u32 {
    if is_non_negative(w) {
        w
    } else {
        ZERO
    }
}

/// Among words, those that are at least zero are exactly those up to the word
/// of positive infinity.
pub proof fn lemma_non_negative_is_range(w: u32)
    ensures
        is_non_negative(w) <==> w <= POSITIVE_INFINITY,
{
    assert((w & 0x8000_0000 == 0 && !(w & 0x7f80_0000 == 0x7f80_0000 && w & 0x007f_ffff != 0))
        <==> w <= 0x7f80_0000) by (bit_vector);
}

/// The result of rectifying is at least zero, and rectifying it again changes
/// nothing.
pub proof fn lemma_rectified_non_negative(w: u32)
    ensures
        is_non_negative(rectified(w)),
        rectified(rectified(w)) == rectified(w),
{
    assert(0u32 & 0x8000_0000 == 0 && 0u32 & 0x7f80_0000 == 0) by (bit_vector);
}

/// Applies the rectified linear unit to one word.
pub fn rectify(w: u32) -> (r: u32)
    ensures
        r == rectified(w),
        is_non_negative(r),
{
    proof {
        lemma_non_negative_is_range(w);
        lemma_rectified_non_negative(w);
    }
    if w <= POSITIVE_INFINITY {
        w
    } else {
        ZERO
    }
}

} // verus!
