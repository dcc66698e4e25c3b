//! Successor and ordering logic for 32-bit IEEE 754 values, carried out on
//! their bit patterns.
//!
//! A single-precision value is handled through its `u32` encoding: sign bit,
//! then magnitude.  Working on the encoding keeps the "next representable
//! value" step exact even for subnormals, which naive arithmetic can flush
//! to zero on some platforms.

use vstd::prelude::*;

verus! {

/// Bit encoding of the sign bit.
pub const SIGN_BIT: u32 = 0x8000_0000;

/// Bit encoding of positive infinity.
pub const POS_INF_BITS: u32 = 0x7f80_0000;

/// Bit encoding of the smallest positive value (a subnormal).
pub const TINY_BITS: u32 = 0x1;

/// Magnitude of an encoding: the encoding with its sign bit cleared.
pub open spec fn abs_of(b: u32) -> u32 {
    if b >= SIGN_BIT {
        (b - SIGN_BIT) as u32
    } else {
        b
    }
}

/// An encoding is a NaN exactly when its magnitude exceeds that of infinity.
pub open spec fn is_nan_bits(b: u32) -> bool {
    abs_of(b) > POS_INF_BITS
}

/// Order key of an encoding: non-NaN encodings compare, as values, exactly
/// as their keys compare as integers.  The two zero encodings share key 0.
pub open spec fn order_key(b: u32) -> int {
    if b >= SIGN_BIT {
        -(abs_of(b) as int)
    } else {
        b as int
    }
}

/// Strict `<` of the encoded values: false whenever either side is NaN.
pub open spec fn float_lt(a: u32, b: u32) -> bool {
    &&& !is_nan_bits(a)
    &&& !is_nan_bits(b)
    &&& order_key(a) < order_key(b)
}

/// Non-strict `<=` of the encoded values: false whenever either side is NaN.
pub open spec fn float_le(a: u32, b: u32) -> bool {
    &&& !is_nan_bits(a)
    &&& !is_nan_bits(b)
    &&& order_key(a) <= order_key(b)
}

/// The next representable value strictly above the encoded one: NaN and
/// positive infinity are fixed points, both zeroes step to the smallest
/// positive value, positive values grow in magnitude and negative values
/// shrink toward zero.
pub open spec fn next_upper_bits(b: u32) -> u32 {
    if is_nan_bits(b) || b == POS_INF_BITS {
        b
    } else if abs_of(b) == 0 {
        TINY_BITS
    } else if b < SIGN_BIT {
        (b + 1) as u32
    } else {
        (b - 1) as u32
    }
}

/// Reports whether the encoding is a NaN.
pub fn is_nan(b: u32) -> (r: bool)
    ensures
        r == is_nan_bits(b),
{
    let abs = if b >= SIGN_BIT {
        b - SIGN_BIT
    } else {
        b
    };
    abs > POS_INF_BITS
}

/// Strict less-than on encoded values, with NaN on either side comparing false.
pub fn lt(a: u32, b: u32) -> (r: bool)
    ensures
        r == float_lt(a, b),
{
    if is_nan(a) || is_nan(b) {
        return false;
    }
    let sa = a >= SIGN_BIT;
    let sb = b >= SIGN_BIT;
    if !sa && !sb {
        a < b
    } else if sa && sb {
        b < a
    } else if sa {
        // a is non-positive, b is non-negative: strictly less unless both are zeroes.
        !(a == SIGN_BIT && b == 0)
    } else {
        false
    }
}

/// Non-strict less-than on encoded values, with NaN on either side comparing false.
pub fn le(a: u32, b: u32) -> (r: bool)
    ensures
        r == float_le(a, b),
{
    if is_nan(a) || is_nan(b) {
        return false;
    }
    !lt(b, a)
}

/// The next representable value strictly above the encoded one, computed on
/// the integer encoding so that subnormal steps stay exact.
pub fn next_upper(b: u32) -> (r: u32)
    ensures
        r == next_upper_bits(b),
{
    if is_nan(b) || b == POS_INF_BITS {
        return b;
    }
    let abs = if b >= SIGN_BIT {
        b - SIGN_BIT
    } else {
        b
    };
    if abs == 0 {
        TINY_BITS
    } else if b < SIGN_BIT {
        b + 1
    } else {
        b - 1
    }
}

/// Successor monotonicity: stepping any non-NaN encoding other than positive
/// infinity yields a strictly greater value, and the gap is the smallest
/// representable one — the order key advances by exactly 1.
pub proof fn lemma_next_upper_increases(b: u32)
    requires
        !is_nan_bits(b),
        b != POS_INF_BITS,
    ensures
        float_lt(b, next_upper_bits(b)),
        order_key(next_upper_bits(b)) == order_key(b) + 1,
{
}

/// No representable value lies strictly between an encoding and its successor.
pub proof fn lemma_next_upper_smallest_step(b: u32, c: u32)
    requires
        !is_nan_bits(b),
        b != POS_INF_BITS,
        float_lt(b, c),
    ensures
        float_le(next_upper_bits(b), c),
{
}

/// NaN and positive infinity have no successor: the step returns them unchanged.
pub proof fn lemma_next_upper_fixed_points(b: u32)
    requires
        is_nan_bits(b) || b == POS_INF_BITS,
    ensures
        next_upper_bits(b) == b,
{
}

} // verus!
