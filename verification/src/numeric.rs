//! IEEE-754 binary32 values, carried as bit patterns.
//!
//! Every vector component in this crate is a `u32` holding the bits of an
//! IEEE-754 binary32 value. The four arithmetic operations and the
//! integer-to-binary32 conversion are deterministic functions of the operand
//! bits alone (round to nearest, ties to even), so each is given a name by an
//! uninterpreted spec function, and an executable wrapper over a software
//! implementation of the standard is trusted to return exactly that named
//! result. Negation, finiteness and the total order on bit patterns are plain
//! bit manipulations and are implemented and verified here directly.

use vstd::prelude::*;

use rustc_apfloat::ieee::Single;
use rustc_apfloat::{Float, Round};

verus! {

/// The bit pattern of binary32 `+0`.
pub const F_ZERO: u32 = 0;

/// The bit pattern of binary32 `1`.
pub const F_ONE: u32 = 0x3f80_0000;

/// The bits of the binary32 sum of the binary32 values `a` and `b`.
pub uninterp spec fn bits_add(a: u32, b: u32) -> u32;

/// The bits of the binary32 product of the binary32 values `a` and `b`.
pub uninterp spec fn bits_mul(a: u32, b: u32) -> u32;

/// The bits of the binary32 quotient of the binary32 values `a` and `b`.
pub uninterp spec fn bits_div(a: u32, b: u32) -> u32;

/// The bits of the binary32 square root of the binary32 value `a`.
pub uninterp spec fn bits_sqrt(a: u32) -> u32;

/// The bits of the binary32 value nearest to the integer `n`.
pub uninterp spec fn bits_of_u64(n: u64) -> u32;

/// Relies on `rustc_apfloat::ieee::Single::add_r`: IEEE-754 binary32
/// addition, round to nearest even, a function of the operand bits alone.
#[verifier::external_body]
pub(crate) fn add_bits(a: u32, b: u32) -> (r: u32)
    ensures
        r == bits_add(a, b),
{
    Single::from_bits(a as u128).add_r(Single::from_bits(b as u128), Round::NearestTiesToEven).value.to_bits() as u32
}

/// Relies on `rustc_apfloat::ieee::Single::mul_r`: IEEE-754 binary32
/// multiplication, round to nearest even, a function of the operand bits alone.
#[verifier::external_body]
pub(crate) fn mul_bits(a: u32, b: u32) -> (r: u32)
    ensures
        r == bits_mul(a, b),
{
    Single::from_bits(a as u128).mul_r(Single::from_bits(b as u128), Round::NearestTiesToEven).value.to_bits() as u32
}

/// Relies on `rustc_apfloat::ieee::Single::div_r`: IEEE-754 binary32
/// division, round to nearest even, a function of the operand bits alone.
#[verifier::external_body]
pub(crate) fn div_bits(a: u32, b: u32) -> (r: u32)
    ensures
        r == bits_div(a, b),
{
    Single::from_bits(a as u128).div_r(Single::from_bits(b as u128), Round::NearestTiesToEven).value.to_bits() as u32
}

/// Relies on `ieee_apsqrt::sqrt_accurate`: correctly rounded IEEE-754
/// binary32 square root, round to nearest even, a function of the bits alone.
#[verifier::external_body]
pub(crate) fn sqrt_bits(a: u32) -> (r: u32)
    ensures
        r == bits_sqrt(a),
{
    ieee_apsqrt::sqrt_accurate(a, Round::NearestTiesToEven).0.value
}

/// Relies on `rustc_apfloat::ieee::Single::from_u128_r`: conversion of an
/// unsigned integer to the nearest binary32 value, a function of it alone.
#[verifier::external_body]
pub(crate) fn of_u64_bits(n: u64) -> (r: u32)
    ensures
        r == bits_of_u64(n),
{
    Single::from_u128_r(n as u128, Round::NearestTiesToEven).value.to_bits() as u32
}

/// Whether the bit pattern `x` denotes a finite binary32 value, that is,
/// neither an infinity nor a NaN: the exponent field is not all ones.
pub open spec fn bits_is_finite(x: u32) -> bool {
    (x >> 23u32) & 0xffu32 != 0xffu32
}

/// Executable finiteness test on a binary32 bit pattern.
pub(crate) fn is_finite_bits(x: u32) -> (r: bool)
    ensures
        r == bits_is_finite(x),
{
    ((x >> 23u32) & 0xffu32) != 0xffu32
}

/// The bits of the negation of the binary32 value `x`: the sign bit flipped.
pub open spec fn bits_neg(x: u32) -> u32 {
    x ^ 0x8000_0000u32
}

/// Executable negation of a binary32 bit pattern.
pub(crate) fn neg_bits(x: u32) -> (r: u32)
    ensures
        r == bits_neg(x),
{
    x ^ 0x8000_0000u32
}

/// A monotone map from binary32 bit patterns to `u32`, ordering the patterns
/// as the total order on binary32 values does: negative values reversed below
/// the non-negative ones, `-0` immediately below `+0`, and each NaN placed by
/// its payload beyond the infinity of its sign. Scores are ranked by this key.
pub open spec fn sort_key(x: u32) -> u32 {
    if x < 0x8000_0000u32 {
        (x + 0x8000_0000u32) as u32
    } else {
        (0xffff_ffffu32 - x) as u32
    }
}

/// Executable ranking key of a binary32 bit pattern.
pub(crate) fn sort_key_bits(x: u32) -> (r: u32)
    ensures
        r == sort_key(x),
{
    if x < 0x8000_0000u32 {
        x + 0x8000_0000u32
    } else {
        0xffff_ffffu32 - x
    }
}

} // verus!
