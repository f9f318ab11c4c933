//! Single-precision numbers as their IEEE-754 bit patterns.
//!
//! The library never computes with a number: it stores, compares and
//! serialises them. A number is therefore held as the 32 bits of its
//! single-precision encoding, and this module says how two such patterns
//! compare.

use vstd::prelude::*;

verus! {

/// The sign bit of an encoding.
pub const SIGN_BIT: u32 = 0x8000_0000;

/// The encoding of positive infinity; every larger magnitude encodes a NaN.
pub const INFINITY_BITS: u32 = 0x7f80_0000;

/// The encoding of one half, the lighting attribute of a freshly loaded vertex.
pub const HALF_BITS: u32 = 0x3f00_0000;

/// The encoding without its sign bit.
pub open spec fn magnitude(bits: u32) -> int {
    if bits >= SIGN_BIT {
        bits - SIGN_BIT
    } else {
        bits as int
    }
}

/// Whether the encoding is a NaN, which compares with nothing.
pub open spec fn is_nan(bits: u32) -> bool {
    magnitude(bits) > INFINITY_BITS
}

/// An integer that orders encodings as the numbers they encode.
///
/// Single-precision encodings are sign-and-magnitude: among encodings that
/// are not NaN, `a < b` as numbers exactly when `order_key(a) < order_key(b)`,
/// and `a == b` as numbers exactly when the keys are equal. In particular the
/// two zeros, `0x0000_0000` and `0x8000_0000`, share the key 0.
pub open spec fn order_key(bits: u32) -> int {
    if bits >= SIGN_BIT {
        -magnitude(bits)
    } else {
        magnitude(bits)
    }
}

/// `order_key` moved into the range of a `u32`.
pub open spec fn lane(bits: u32) -> int {
    order_key(bits) + 0x8000_0000
}

/// A lane is a positive 32-bit number.
pub proof fn lemma_lane_range(bits: u32)
    ensures
        0 < lane(bits) < 0x1_0000_0000,
{
}

/// Tells whether `bits` encodes a NaN.
pub fn encodes_nan(bits: u32) -> (r: bool)
    ensures
        r == is_nan(bits),
{
    let mag: u32 = if bits >= SIGN_BIT {
        bits - SIGN_BIT
    } else {
        bits
    };
    mag > INFINITY_BITS
}

/// Computes the lane of `bits`.
pub fn lane_of(bits: u32) -> (r: u32)
    ensures
        r == lane(bits),
{
    if bits >= SIGN_BIT {
        SIGN_BIT - (bits - SIGN_BIT)
    } else {
        SIGN_BIT + bits
    }
}

} // verus!
