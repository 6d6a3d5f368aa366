//! Depth values.
//!
//! A depth is an IEEE 754 binary64 number, held as its 64-bit pattern (what
//! `f64::to_bits` gives). Smaller is nearer to the camera.

use vstd::prelude::*;

verus! {

/// The bit that holds the sign.
pub const SIGN_BIT: u64 = 0x8000_0000_0000_0000;

/// The pattern of positive infinity: the depth of a pixel nothing was drawn on.
pub const FAR_DEPTH: u64 = 0x7FF0_0000_0000_0000;

/// The pattern without its sign: exponent and fraction.
pub open spec fn magnitude(bits: u64) -> int {
    if bits >= SIGN_BIT {
        bits - SIGN_BIT
    } else {
        bits as int
    }
}

/// The pattern stands for no number (NaN).
pub open spec fn is_nan(bits: u64) -> bool {
    magnitude(bits) > FAR_DEPTH
}

/// Where the number stands among all others: `rank` grows with the number, and
/// both zeros share rank 0. Meant for patterns that are not NaN.
pub open spec fn rank(bits: u64) -> int {
    if bits >= SIGN_BIT {
        -magnitude(bits)
    } else {
        magnitude(bits)
    }
}

/// `a` is strictly less than `b` as numbers. False when either is NaN.
pub open spec fn nearer(a: u64, b: u64) -> bool {
    !is_nan(a) && !is_nan(b) && rank(a) < rank(b)
}

/// Tests whether depth `a` is strictly nearer than depth `b`.
pub fn is_nearer(a: u64, b: u64) -> (r: bool)
    ensures
        r == nearer(a, b),
{
    let mag_a: u64 = a & 0x7FFF_FFFF_FFFF_FFFF;
    let mag_b: u64 = b & 0x7FFF_FFFF_FFFF_FFFF;
    let neg_a: bool = (a >> 63) == 1;
    let neg_b: bool = (b >> 63) == 1;
    assert(mag_a == magnitude(a) && neg_a == (a >= SIGN_BIT)) by (bit_vector)
        requires
            mag_a == a & 0x7FFF_FFFF_FFFF_FFFF,
            neg_a == ((a >> 63) == 1),
    ;
    assert(mag_b == magnitude(b) && neg_b == (b >= SIGN_BIT)) by (bit_vector)
        requires
            mag_b == b & 0x7FFF_FFFF_FFFF_FFFF,
            neg_b == ((b >> 63) == 1),
    ;
    if mag_a > FAR_DEPTH || mag_b > FAR_DEPTH {
        false
    } else if neg_a {
        if neg_b {
            mag_a > mag_b
        } else {
            mag_a != 0 || mag_b != 0
        }
    } else {
        !neg_b && mag_a < mag_b
    }
}

} // verus!
