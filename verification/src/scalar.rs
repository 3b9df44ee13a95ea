//! Real scalars.
//!
//! A matrix entry is an IEEE 754 binary64 number, held as its 64-bit pattern.
//! The four arithmetic operations are carried out in software by
//! `rustc_apfloat`, rounding to nearest with ties to even, so a result is the
//! same on every machine. Their results are named here and nothing else is
//! assumed of them.

use rustc_apfloat::ieee::Double;
use rustc_apfloat::{Float, Round};
use vstd::prelude::*;

verus! {

/// The pattern of positive zero.
pub const ZERO: u64 = 0;

/// The pattern of negative zero.
pub const NEG_ZERO: u64 = 0x8000_0000_0000_0000;

/// The pattern of one.
pub const ONE: u64 = 0x3FF0_0000_0000_0000;

/// The pattern of `a + b`, as `rustc_apfloat` rounds it.
pub uninterp spec fn fp_sum(a: u64, b: u64) -> u64;

/// The pattern of `a - b`, as `rustc_apfloat` rounds it.
pub uninterp spec fn fp_difference(a: u64, b: u64) -> u64;

/// The pattern of `a * b`, as `rustc_apfloat` rounds it.
pub uninterp spec fn fp_product(a: u64, b: u64) -> u64;

/// The pattern of `a / b`, as `rustc_apfloat` rounds it. Division by a zero is
/// defined: it gives an infinity or a NaN.
pub uninterp spec fn fp_quotient(a: u64, b: u64) -> u64;

/// Whether `x` is a zero of either sign: the patterns that compare equal to
/// zero as numbers.
pub open spec fn is_zero(x: u64) -> bool {
    x == ZERO || x == NEG_ZERO
}

/// Calls `Float::add_r` of `rustc_apfloat` on two binary64 patterns. Not
/// proved: that the pattern returned depends on the two arguments alone.
#[verifier::external_body]
pub(crate) fn fp_add(a: u64, b: u64) -> (r: u64)
    ensures
        r == fp_sum(a, b),
{
    let x = Double::from_bits(a as u128);
    let y = Double::from_bits(b as u128);
    x.add_r(y, Round::NearestTiesToEven).value.to_bits() as u64
}

/// Calls `Float::sub_r` of `rustc_apfloat` on two binary64 patterns. Not
/// proved: that the pattern returned depends on the two arguments alone.
#[verifier::external_body]
pub(crate) fn fp_sub(a: u64, b: u64) -> (r: u64)
    ensures
        r == fp_difference(a, b),
{
    let x = Double::from_bits(a as u128);
    let y = Double::from_bits(b as u128);
    x.sub_r(y, Round::NearestTiesToEven).value.to_bits() as u64
}

/// Calls `Float::mul_r` of `rustc_apfloat` on two binary64 patterns. Not
/// proved: that the pattern returned depends on the two arguments alone.
#[verifier::external_body]
pub(crate) fn fp_mul(a: u64, b: u64) -> (r: u64)
    ensures
        r == fp_product(a, b),
{
    let x = Double::from_bits(a as u128);
    let y = Double::from_bits(b as u128);
    x.mul_r(y, Round::NearestTiesToEven).value.to_bits() as u64
}

/// Calls `Float::div_r` of `rustc_apfloat` on two binary64 patterns. Not
/// proved: that the pattern returned depends on the two arguments alone.
#[verifier::external_body]
pub(crate) fn fp_div(a: u64, b: u64) -> (r: u64)
    ensures
        r == fp_quotient(a, b),
{
    let x = Double::from_bits(a as u128);
    let y = Double::from_bits(b as u128);
    x.div_r(y, Round::NearestTiesToEven).value.to_bits() as u64
}

/// Tells whether a pattern is a zero of either sign.
pub fn fp_is_zero(x: u64) -> (r: bool)
    ensures
        r == is_zero(x),
{
    x == ZERO || x == NEG_ZERO
}

} // verus!
