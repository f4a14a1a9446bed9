//! How a 32-bit pattern is read as an IEEE 754 single-precision value:
//! its sign, whether it is a number, and where it stands in numeric order.

use vstd::prelude::*;

verus! {

/// The sign bit of a pattern.
pub const SIGN: u32 = 0x8000_0000;

/// The pattern of positive infinity; a larger magnitude is not a number.
pub const INFINITY: u32 = 0x7F80_0000;

/// The pattern of `1.0`.
pub const ONE: u32 = 0x3F80_0000;

/// The pattern of `-1.0`.
pub const MINUS_ONE: u32 = 0xBF80_0000;

/// The pattern with its sign bit cleared.
pub open spec fn magnitude(bits: u32) -> int {
    if bits >= SIGN {
        bits - SIGN
    } else {
        bits as int
    }
}

/// Whether the pattern encodes no number.
pub open spec fn is_nan(bits: u32) -> bool {
    magnitude(bits) > INFINITY
}

/// An integer that grows with the encoded number: for numbers `x` and `y`,
/// `x <= y` exactly when `ordinal(x) <= ordinal(y)`. Both zeros map to 0.
pub open spec fn ordinal(bits: u32) -> int {
    if bits >= SIGN {
        -(bits - SIGN)
    } else {
        bits as int
    }
}

/// Numeric `a <= b`: false as soon as one side is not a number.
pub open spec fn at_most(a: u32, b: u32) -> bool {
    !is_nan(a) && !is_nan(b) && ordinal(a) <= ordinal(b)
}

/// Whether the pattern encodes a number strictly between 0 and 1.
pub open spec fn in_unit_interval(bits: u32) -> bool {
    0 < bits < ONE
}

pub fn exec_is_nan(bits: u32) -> (r: bool)
    ensures
        r == is_nan(bits),
{
    let m: u32 = if bits >= SIGN {
        bits - SIGN
    } else {
        bits
    };
    m > INFINITY
}

pub fn exec_at_most(a: u32, b: u32) -> (r: bool)
    ensures
        r == at_most(a, b),
{
    if exec_is_nan(a) || exec_is_nan(b) {
        return false;
    }
    if a >= SIGN {
        // a is negative or minus zero
        if b >= SIGN {
            b - SIGN <= a - SIGN
        } else {
            true
        }
    } else {
        if b >= SIGN {
            // only the two zeros compare as equal here
            a == 0 && b == SIGN
        } else {
            a <= b
        }
    }
}

} // verus!
