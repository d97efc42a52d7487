//! Confidence scores and thresholds. A score is kept as the bits of its IEEE 754
//! single-precision number; what the rules need of it is how it compares.
use vstd::prelude::*;

verus! {

/// The bits of 0.55, the threshold above which a span is redacted by default.
pub const DEFAULT_THRESHOLD: u32 = 0x3f0c_cccd;

/// The bits of 0.5, the threshold of an inference that sets none.
pub const HALF: u32 = 0x3f00_0000;

/// The bits of the least finite number.
pub const LOWEST: u32 = 0xff7f_ffff;

/// The bits of zero.
pub const ZERO: u32 = 0;

/// The bits without the sign.
pub open spec fn magnitude(bits: u32) -> int {
    if bits >= 0x8000_0000 {
        bits - 0x8000_0000
    } else {
        bits as int
    }
}

/// Whether the bits are those of no number.
pub open spec fn is_nan(bits: u32) -> bool {
    magnitude(bits) > 0x7f80_0000
}

/// An integer that grows with the number; it is zero for both zeros.
pub open spec fn rank(bits: u32) -> int {
    if bits >= 0x8000_0000 {
        -magnitude(bits)
    } else {
        magnitude(bits)
    }
}

/// Whether `a` is a greater number than `b`: never where one of them is no number.
pub open spec fn is_above(a: u32, b: u32) -> bool {
    !is_nan(a) && !is_nan(b) && rank(a) > rank(b)
}

/// Whether the bits are those of no number.
pub fn nan(bits: u32) -> (r: bool)
    ensures
        r == is_nan(bits),
{
    let m: u32 = if bits >= 0x8000_0000 {
        bits - 0x8000_0000
    } else {
        bits
    };
    m > 0x7f80_0000
}

/// Whether `a` is a greater number than `b`.
pub fn above(a: u32, b: u32) -> (r: bool)
    ensures
        r == is_above(a, b),
{
    if nan(a) || nan(b) {
        return false;
    }
    let x: i64 = if a >= 0x8000_0000 {
        -((a - 0x8000_0000) as i64)
    } else {
        a as i64
    };
    let y: i64 = if b >= 0x8000_0000 {
        -((b - 0x8000_0000) as i64)
    } else {
        b as i64
    };
    x > y
}

/// Bits compare as the numbers that they are the bits of: among those without a sign the
/// greater bits are the greater number, among those with one the smaller number, one with
/// a sign is below one without, and the two zeros are equal.
pub proof fn law_bits_compare_as_numbers(a: u32, b: u32)
    requires
        a <= 0x7f80_0000,
        b <= 0x7f80_0000,
    ensures
        is_above(a, b) <==> a > b,
        is_above((a + 0x8000_0000) as u32, (b + 0x8000_0000) as u32) <==> a < b,
        is_above(a, (b + 0x8000_0000) as u32) <==> a > 0 || b > 0,
        !is_above((a + 0x8000_0000) as u32, b),
{
}

/// What is no number is above nothing, and nothing is above it: the bits beyond those of
/// infinity, with and without a sign.
pub proof fn law_no_number_compares(a: u32, b: u32)
    ensures
        is_nan(a) <==> 0x7f80_0000 < a < 0x8000_0000 || a > 0xff80_0000,
        is_nan(a) ==> !is_above(a, b) && !is_above(b, a),
{
}

/// Every number but the least one and negative infinity is above the least one.
pub proof fn law_lowest_is_least(a: u32)
    requires
        !is_nan(a),
    ensures
        is_above(a, LOWEST) <==> a != 0xff7f_ffff && a != 0xff80_0000,
        is_above(a, ZERO) <==> 0 < a <= 0x7f80_0000,
{
}

} // verus!
