//! Fractions in single precision, by their bits: which of them are numbers,
//! and how they compare.

use vstd::prelude::*;

verus! {

/// A fraction in single precision.
#[derive(Debug, Clone, Copy, PartialEq, Eq, Structural)]
pub struct Single {
    pub bits: u32,
}

/// The bits without the sign.
pub open spec fn magnitude(bits: u32) -> int {
    bits as int % 0x8000_0000
}

/// Whether the bits stand for no number.
pub open spec fn is_nan(bits: u32) -> bool {
    magnitude(bits) > 0x7f80_0000
}

/// An integer that orders as the number does that the bits stand for.
pub open spec fn order(bits: u32) -> int {
    if bits >= 0x8000_0000 {
        -magnitude(bits)
    } else {
        magnitude(bits)
    }
}

/// Whether the bits stand for no number.
pub fn has_no_value(bits: u32) -> (r: bool)
    ensures
        r == is_nan(bits),
{
    bits % 0x8000_0000 > 0x7f80_0000
}

/// An integer that orders as the number does that the bits stand for.
pub fn order_key(bits: u32) -> (r: i64)
    ensures
        r == order(bits),
{
    let m: i64 = (bits % 0x8000_0000) as i64;
    if bits >= 0x8000_0000 {
        -m
    } else {
        m
    }
}

/// Of two numbers that are not negative, the bits compare as the numbers do.
pub proof fn bits_order_what_is_not_negative(a: u32, b: u32)
    requires
        a < 0x8000_0000,
        b < 0x8000_0000,
    ensures
        order(a) < order(b) <==> a < b,
{
}

/// Numbers compare as they are: what is negative lies below what is positive, the
/// two zeros are equal, and of two negative numbers the one with the larger bits
/// is the smaller one. Bits beyond those of the infinities are no numbers.
pub proof fn numbers_compare(a: u32, b: u32)
    ensures
        a < 0x8000_0000 && b < 0x8000_0000 ==> (order(a) < order(b) <==> a < b),
        a >= 0x8000_0000 && b >= 0x8000_0000 ==> (order(a) < order(b) <==> a > b),
        a > 0x8000_0000 && b < 0x8000_0000 ==> order(a) < order(b),
        a >= 0x8000_0000 && 0 < b < 0x8000_0000 ==> order(a) < order(b),
        order(0) == order(0x8000_0000),
        is_nan(a) <==> 0x7f80_0000 < a < 0x8000_0000 || 0xff80_0000 < a,
{
}

} // verus!
