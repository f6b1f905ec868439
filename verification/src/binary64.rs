//! REAL arithmetic.
//!
//! A REAL value is an IEEE 754 binary64 number, held as its 64-bit pattern.
//! The arithmetic itself is done in software by `rustc_apfloat`, on its type
//! `Double`. The verifier does not look into that crate: each of its
//! operations that the interpreter needs has a name here, a function of the
//! operands' bit patterns without a body, and a small function that makes
//! the call and is trusted to return what the name stands for. Values cross
//! that border as bit patterns, through `Double::from_bits` and
//! `Double::to_bits`. Negation alone needs no call: it flips the sign bit.

use rustc_apfloat::ieee::Double;
use rustc_apfloat::Float;
use std::str::FromStr;
use vstd::prelude::*;

verus! {

/// The binary64 value, rounded to nearest with ties to even, that
/// `Double::from_str` reads from a decimal numeral; `None` where it rejects
/// the text.
pub uninterp spec fn real_of_text(text: Seq<char>) -> Option<u64>;

/// The binary64 value nearest to an integer, as `Double::from_i128` gives it.
pub uninterp spec fn real_of_int(n: i64) -> u64;

/// The integer part of a binary64 value, as `Double::to_i128` gives it for a
/// width of 64 bits.
pub uninterp spec fn int_of_real(a: u64) -> i64;

/// The binary64 sum of two values, as `Double`'s `+` gives it.
pub uninterp spec fn real_sum(a: u64, b: u64) -> u64;

/// The binary64 difference of two values, as `Double`'s `-` gives it.
pub uninterp spec fn real_difference(a: u64, b: u64) -> u64;

/// The binary64 product of two values, as `Double`'s `*` gives it.
pub uninterp spec fn real_product(a: u64, b: u64) -> u64;

/// The binary64 quotient of two values, as `Double`'s `/` gives it.
pub uninterp spec fn real_quotient(a: u64, b: u64) -> u64;

/// The mask of the sign bit of a binary64 pattern.
pub const SIGN_BIT: u64 = 0x8000_0000_0000_0000u64;

/// The negation of a binary64 value: the same pattern with the sign bit
/// flipped.
pub open spec fn real_negation(a: u64) -> u64 {
    a ^ SIGN_BIT
}

/// Calls `Double::from_str` (`rustc_apfloat`) on a numeral. Trusted: the
/// result is the named reading of the text, the value's bit pattern where the
/// crate accepts the text and `None` where it returns its `ParseError`.
#[verifier::external_body]
pub(crate) fn parse_real(text: &str) -> (r: Option<u64>)
    ensures
        r == real_of_text(text@),
{
    match Double::from_str(text) {
        Ok(value) => Some(value.to_bits() as u64),
        Err(_) => None,
    }
}

/// Calls `Double::from_i128` (`rustc_apfloat`). Trusted: the result is the
/// bit pattern of the named conversion of `n`.
#[verifier::external_body]
pub(crate) fn int_to_real(n: i64) -> (r: u64)
    ensures
        r == real_of_int(n),
{
    Double::from_i128(n as i128).value.to_bits() as u64
}

/// Calls `Double::to_i128` (`rustc_apfloat`) with a width of 64 bits, which
/// rounds toward zero, gives zero for a NaN and the nearest end of the 64-bit
/// range for a value outside it. Trusted: the result is the named integer
/// part of `a`.
#[verifier::external_body]
pub(crate) fn real_to_int(a: u64) -> (r: i64)
    ensures
        r == int_of_real(a),
{
    Double::from_bits(a as u128).to_i128(64).value as i64
}

/// Calls `Double`'s `+` (`rustc_apfloat`), which rounds to nearest with ties
/// to even. Trusted: the result is the named sum of the operands.
#[verifier::external_body]
pub(crate) fn real_add(a: u64, b: u64) -> (r: u64)
    ensures
        r == real_sum(a, b),
{
    (Double::from_bits(a as u128) + Double::from_bits(b as u128)).value.to_bits() as u64
}

/// Calls `Double`'s `-` (`rustc_apfloat`), which rounds to nearest with ties
/// to even. Trusted: the result is the named difference of the operands.
#[verifier::external_body]
pub(crate) fn real_sub(a: u64, b: u64) -> (r: u64)
    ensures
        r == real_difference(a, b),
{
    (Double::from_bits(a as u128) - Double::from_bits(b as u128)).value.to_bits() as u64
}

/// Calls `Double`'s `*` (`rustc_apfloat`), which rounds to nearest with ties
/// to even. Trusted: the result is the named product of the operands.
#[verifier::external_body]
pub(crate) fn real_mul(a: u64, b: u64) -> (r: u64)
    ensures
        r == real_product(a, b),
{
    (Double::from_bits(a as u128) * Double::from_bits(b as u128)).value.to_bits() as u64
}

/// Calls `Double`'s `/` (`rustc_apfloat`), which rounds to nearest with ties
/// to even and gives an infinity or a NaN for a zero divisor. Trusted: the
/// result is the named quotient of the operands.
#[verifier::external_body]
pub(crate) fn real_div(a: u64, b: u64) -> (r: u64)
    ensures
        r == real_quotient(a, b),
{
    (Double::from_bits(a as u128) / Double::from_bits(b as u128)).value.to_bits() as u64
}

/// Negates a binary64 value.
pub fn real_neg(a: u64) -> (r: u64)
    ensures
        r == real_negation(a),
{
    a ^ SIGN_BIT
}

} // verus!
