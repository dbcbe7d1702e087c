//! Binary64 numbers as bit patterns: what the engine itself tells of them,
//! and the arithmetic that it asks its user for.

use vstd::prelude::*;

verus! {

/// The arithmetic of binary64 numbers, each carried as its IEEE-754 bit
/// pattern. The engine performs none of it itself: whoever owns the numbers
/// supplies it. Nothing is taken for granted of what a method returns; where
/// the engine calls one, its contracts say of which call the result came.
pub trait FloatOps {
    /// The sum of two numbers.
    fn sum(&self, a: u64, b: u64) -> u64;

    /// The first number less the second.
    fn difference(&self, a: u64, b: u64) -> u64;

    /// The product of two numbers.
    fn product(&self, a: u64, b: u64) -> u64;

    /// The first number divided by the second.
    fn quotient(&self, a: u64, b: u64) -> u64;

    /// The number nearest to an unsigned integer.
    fn from_u32(&self, v: u32) -> u64;

    /// The number nearest to a signed integer.
    fn from_i32(&self, v: i32) -> u64;

    /// A number cut down to an unsigned integer.
    fn to_u32(&self, a: u64) -> u32;

    /// A number cut down to a signed integer.
    fn to_i32(&self, a: u64) -> i32;

    /// The shortest text that reads back as the number.
    fn to_text(&self, a: u64) -> String;

    /// The number written with five digits after the decimal point.
    fn to_fixed(&self, a: u64) -> String;

    /// The number that a token spells, if it spells one.
    fn parse(&self, token: &str) -> Option<u64>;
}

/// The bit that holds the sign of a binary64 number.
pub const SIGN_BIT: u64 = 0x8000_0000_0000_0000;

/// The bit pattern of positive infinity: every greater magnitude is a NaN.
pub const INFINITY_BITS: u64 = 0x7ff0_0000_0000_0000;

/// The bit pattern without its sign.
pub open spec fn magnitude(b: u64) -> int {
    if b >= SIGN_BIT {
        b - SIGN_BIT
    } else {
        b as int
    }
}

/// Whether a bit pattern is not a number.
pub open spec fn is_nan(b: u64) -> bool {
    magnitude(b) > INFINITY_BITS
}

/// Whether a bit pattern is one of the two zeros.
pub open spec fn is_zero(b: u64) -> bool {
    magnitude(b) == 0
}

/// The place of a bit pattern on the number line: the magnitude of a binary64
/// number grows with its bit pattern, so numbers compare as these integers do.
pub open spec fn rank(b: u64) -> int {
    if b >= SIGN_BIT {
        -magnitude(b)
    } else {
        magnitude(b)
    }
}

/// Equality of two binary64 numbers: a NaN equals nothing, the two zeros are equal.
pub open spec fn dbl_eq(a: u64, b: u64) -> bool {
    !is_nan(a) && !is_nan(b) && rank(a) == rank(b)
}

/// Whether the first binary64 number is less than the second.
pub open spec fn dbl_lt(a: u64, b: u64) -> bool {
    !is_nan(a) && !is_nan(b) && rank(a) < rank(b)
}

/// Tests a bit pattern for NaN.
pub fn bits_is_nan(b: u64) -> (r: bool)
    ensures
        r == is_nan(b),
{
    let m: u64 = if b >= SIGN_BIT { b - SIGN_BIT } else { b };
    m > INFINITY_BITS
}

/// Tests a bit pattern for zero.
pub fn bits_is_zero(b: u64) -> (r: bool)
    ensures
        r == is_zero(b),
{
    b == 0 || b == SIGN_BIT
}

/// Compares two bit patterns as numbers for equality.
pub fn bits_eq(a: u64, b: u64) -> (r: bool)
    ensures
        r == dbl_eq(a, b),
{
    if bits_is_nan(a) || bits_is_nan(b) {
        false
    } else {
        a == b || (bits_is_zero(a) && bits_is_zero(b))
    }
}

/// Tests whether the first bit pattern is the lesser number.
pub fn bits_lt(a: u64, b: u64) -> (r: bool)
    ensures
        r == dbl_lt(a, b),
{
    if bits_is_nan(a) || bits_is_nan(b) {
        false
    } else if a >= SIGN_BIT {
        if b >= SIGN_BIT {
            a > b
        } else {
            !(bits_is_zero(a) && bits_is_zero(b))
        }
    } else {
        b < SIGN_BIT && a < b
    }
}

} // verus!
