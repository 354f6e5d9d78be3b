//! Binary64 numbers as 64-bit words.
//!
//! The top bit of a word is its sign, the other 63 bits are its magnitude. A
//! magnitude above that of infinity is not a number. Among the numbers, a larger
//! magnitude means a larger absolute value, and both zeros have magnitude 0.

use vstd::prelude::*;

verus! {

/// The sign bit.
pub const SIGN: u64 = 0x8000_0000_0000_0000;

/// Positive zero.
pub const ZERO: u64 = 0;

/// The number one.
pub const ONE: u64 = 0x3ff0_0000_0000_0000;

/// The number two.
pub const TWO: u64 = 0x4000_0000_0000_0000;

/// Positive infinity.
pub const INFINITY: u64 = 0x7ff0_0000_0000_0000;

/// The word without its sign bit.
pub open spec fn magnitude(w: u64) -> int {
    if w >= SIGN {
        w - SIGN
    } else {
        w as int
    }
}

/// The place of a number in the numeric order; both zeros rank 0.
pub open spec fn rank(w: u64) -> int {
    if w >= SIGN {
        -magnitude(w)
    } else {
        magnitude(w)
    }
}

/// The word encodes no number.
pub open spec fn nan(w: u64) -> bool {
    magnitude(w) > INFINITY
}

/// The word encodes a number other than the infinities.
pub open spec fn finite(w: u64) -> bool {
    magnitude(w) < INFINITY
}

/// Numeric equality: never true of a word that encodes no number.
pub open spec fn same(a: u64, b: u64) -> bool {
    !nan(a) && !nan(b) && rank(a) == rank(b)
}

/// Numeric order: never true of a word that encodes no number.
pub open spec fn below(a: u64, b: u64) -> bool {
    !nan(a) && !nan(b) && rank(a) < rank(b)
}

/// The word with its sign bit cleared.
pub open spec fn absolute_of(w: u64) -> u64 {
    if w >= SIGN {
        (w - SIGN) as u64
    } else {
        w
    }
}

/// The word with its sign bit flipped.
pub open spec fn negated(w: u64) -> u64 {
    if w >= SIGN {
        (w - SIGN) as u64
    } else {
        (w + SIGN) as u64
    }
}

/// Tells whether the word encodes no number.
pub fn is_nan(w: u64) -> (r: bool)
    ensures
        r == nan(w),
{
    absolute(w) > INFINITY
}

/// Tells whether the word encodes a number other than the infinities.
pub fn is_finite(w: u64) -> (r: bool)
    ensures
        r == finite(w),
{
    absolute(w) < INFINITY
}

/// Numeric `a == b`.
pub fn equal(a: u64, b: u64) -> (r: bool)
    ensures
        r == same(a, b),
{
    !is_nan(a) && !is_nan(b) && (a == b || (absolute(a) == 0 && absolute(b) == 0))
}

/// Numeric `a < b`.
pub fn less(a: u64, b: u64) -> (r: bool)
    ensures
        r == below(a, b),
{
    if is_nan(a) || is_nan(b) {
        false
    } else if a >= SIGN {
        if b >= SIGN {
            b < a
        } else {
            a > SIGN || b > 0
        }
    } else {
        b < SIGN && a < b
    }
}

/// The absolute value.
pub fn absolute(w: u64) -> (r: u64)
    ensures
        r == absolute_of(w),
        r == magnitude(w),
{
    if w >= SIGN {
        w - SIGN
    } else {
        w
    }
}

/// The number with the opposite sign.
pub fn negate(w: u64) -> (r: u64)
    ensures
        r == negated(w),
{
    if w >= SIGN {
        w - SIGN
    } else {
        w + SIGN
    }
}

/// Of two numbers exactly one of `a < b`, `a == b` and `b < a` holds.
pub proof fn numbers_are_totally_ordered(a: u64, b: u64)
    requires
        !nan(a),
        !nan(b),
    ensures
        below(a, b) || same(a, b) || below(b, a),
        !(below(a, b) && same(a, b)),
        !(below(a, b) && below(b, a)),
        !(same(a, b) && below(b, a)),
{
}

/// Two numbers are equal only where their words are, but for the two zeros.
pub proof fn equal_numbers_share_a_word(a: u64, b: u64)
    requires
        same(a, b),
        a != b,
    ensures
        magnitude(a) == 0,
        magnitude(b) == 0,
{
}

} // verus!
