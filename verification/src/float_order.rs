//! IEEE-754 single-precision comparison, stated and computed on bit patterns.
use vstd::prelude::*;

verus! {

/// The biased exponent field of a single-precision bit pattern.
pub open spec fn exponent_field(bits: u32) -> u32 {
    (bits >> 23u32) & 0xffu32
}

/// The fraction (mantissa) field of a single-precision bit pattern.
pub open spec fn fraction_field(bits: u32) -> u32 {
    bits & 0x7f_ffffu32
}

/// A pattern is NaN when its exponent is all ones and its fraction is not zero.
pub open spec fn is_nan(bits: u32) -> bool {
    exponent_field(bits) == 0xffu32 && fraction_field(bits) != 0
}

/// The magnitude bits (everything but the sign).
pub open spec fn magnitude(bits: u32) -> u32 {
    bits & 0x7fff_ffffu32
}

/// Whether the sign bit is set.
pub open spec fn is_negative(bits: u32) -> bool {
    bits >> 31u32 == 1u32
}

/// Position of a non-NaN value on the real line, up to a monotone rescaling:
/// the magnitude bits grow with the magnitude of the value, and the sign flips
/// them. Both zeros sit at 0.
pub open spec fn ordinal(bits: u32) -> int {
    if is_negative(bits) {
        -(magnitude(bits) as int)
    } else {
        magnitude(bits) as int
    }
}

/// `a < b` as IEEE-754 (and Rust's `PartialOrd` for `f32`) defines it.
pub open spec fn spec_lt(a: u32, b: u32) -> bool {
    !is_nan(a) && !is_nan(b) && ordinal(a) < ordinal(b)
}

/// `a <= b` as IEEE-754 defines it.
pub open spec fn spec_le(a: u32, b: u32) -> bool {
    !is_nan(a) && !is_nan(b) && ordinal(a) <= ordinal(b)
}

/// `a == b` as IEEE-754 defines it: no NaN is equal to anything, and the two
/// zeros are equal.
pub open spec fn spec_eq(a: u32, b: u32) -> bool {
    !is_nan(a) && !is_nan(b) && ordinal(a) == ordinal(b)
}

fn nan(bits: u32) -> (r: bool)
    ensures
        r == is_nan(bits),
{
    ((bits >> 23u32) & 0xffu32) == 0xffu32 && (bits & 0x7f_ffffu32) != 0
}

fn ordinal_of(bits: u32) -> (r: i64)
    ensures
        r == ordinal(bits),
{
    let m: u32 = bits & 0x7fff_ffffu32;
    if bits >> 31u32 == 1u32 {
        -(m as i64)
    } else {
        m as i64
    }
}

/// `a < b` on the values whose bit patterns are `a` and `b`.
pub fn lt(a: u32, b: u32) -> (r: bool)
    ensures
        r == spec_lt(a, b),
{
    !nan(a) && !nan(b) && ordinal_of(a) < ordinal_of(b)
}

/// `a <= b` on the values whose bit patterns are `a` and `b`.
pub fn le(a: u32, b: u32) -> (r: bool)
    ensures
        r == spec_le(a, b),
{
    !nan(a) && !nan(b) && ordinal_of(a) <= ordinal_of(b)
}

/// `a == b` on the values whose bit patterns are `a` and `b`.
pub fn eq(a: u32, b: u32) -> (r: bool)
    ensures
        r == spec_eq(a, b),
{
    !nan(a) && !nan(b) && ordinal_of(a) == ordinal_of(b)
}

} // verus!
