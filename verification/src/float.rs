//! The order of floating-point numbers, told from their bit patterns.
//!
//! A number is held as the 64 bits of its IEEE 754 representation. The bits of
//! numbers of one sign stand in the order of the numbers.
use vstd::prelude::*;

verus! {

/// The first pattern with the sign bit.
pub const SIGN: u64 = 0x8000_0000_0000_0000;

/// The pattern of infinity; larger magnitudes are not numbers.
pub const INFINITY: u64 = 0x7ff0_0000_0000_0000;

/// The pattern without its sign.
pub open spec fn magnitude(x: u64) -> int {
    if x >= SIGN {
        x - SIGN
    } else {
        x as int
    }
}

/// The pattern stands for no number.
pub open spec fn not_a_number(x: u64) -> bool {
    magnitude(x) > INFINITY
}

/// An integer that stands where the number stands; both zeros at zero.
pub open spec fn rank_of(x: u64) -> int {
    if x >= SIGN {
        -magnitude(x)
    } else {
        magnitude(x)
    }
}

/// `a` is less than `b`.
pub open spec fn float_less(a: u64, b: u64) -> bool {
    !not_a_number(a) && !not_a_number(b) && rank_of(a) < rank_of(b)
}

/// An integer that stands where the pattern stands in the total order: the
/// negative zero before the positive, and what is no number at the ends.
pub open spec fn total_rank(x: u64) -> int {
    if x >= SIGN {
        -magnitude(x) - 1
    } else {
        magnitude(x)
    }
}

/// Whether one number is less than another.
pub fn is_less(a: u64, b: u64) -> (r: bool)
    ensures
        r == float_less(a, b),
{
    let (x, y): (u64, u64) = (if a >= SIGN { a - SIGN } else { a }, if b >= SIGN { b - SIGN } else { b });
    if x > INFINITY || y > INFINITY {
        return false;
    }
    if a >= SIGN {
        if b >= SIGN {
            y < x
        } else {
            x > 0 || y > 0
        }
    } else {
        if b >= SIGN {
            false
        } else {
            x < y
        }
    }
}

/// Whether a pattern comes before another in the total order.
pub fn comes_before(a: u64, b: u64) -> (r: bool)
    ensures
        r == (total_rank(a) < total_rank(b)),
{
    if a >= SIGN {
        if b >= SIGN {
            b < a
        } else {
            true
        }
    } else {
        if b >= SIGN {
            false
        } else {
            a < b
        }
    }
}

/// On numbers the total order extends the usual one.
pub proof fn total_order_extends(a: u64, b: u64)
    requires
        float_less(a, b),
    ensures
        total_rank(a) < total_rank(b),
{
}

} // verus!
