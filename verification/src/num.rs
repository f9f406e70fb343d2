//! The arithmetic, conversions, formatting and parsing that the engine
//! takes from outside code, each behind one trusted wrapper.
//!
//! Every wrapper passes binary32 values as `u32` bit patterns. The
//! `rustc_apfloat` crate computes on such patterns directly
//! (`Single::from_bits` / `to_bits`), rounding to nearest, ties to even, as
//! IEEE 754 prescribes for the default environment. What an operation
//! returns is named by an uninterpreted function of its operands
//! (`add_of`, `div_of`, ...); beside the name stand only the few facts of
//! IEEE 754 arithmetic that callers' contracts need.

use vstd::prelude::*;

use crate::fbits::{is_finite_bits, is_nan_bits, NEG_ZERO, ONE_BITS, POS_ZERO, SENTINEL_BITS};
use rustc_apfloat::ieee::Single;
use rustc_apfloat::{Float, Round};

verus! {

/// The binary32 sum of two patterns.
pub uninterp spec fn add_of(a: u32, b: u32) -> u32;

/// The binary32 difference of two patterns.
pub uninterp spec fn sub_of(a: u32, b: u32) -> u32;

/// The binary32 product of two patterns.
pub uninterp spec fn mul_of(a: u32, b: u32) -> u32;

/// The binary32 quotient of two patterns.
pub uninterp spec fn div_of(a: u32, b: u32) -> u32;

/// A row count as a binary32 pattern.
pub uninterp spec fn usize_f32_of(n: usize) -> u32;

/// A 32-bit integer as a binary32 pattern.
pub uninterp spec fn i32_f32_of(n: i32) -> u32;

/// A pattern's value truncated toward zero into a machine word,
/// saturating as a float-to-integer cast does.
pub uninterp spec fn trunc_of(b: u32) -> usize;

/// The default decimal text of a pattern's value.
pub uninterp spec fn display_of(b: u32) -> Seq<char>;

/// The binary32 pattern a text parses to, if it parses.
pub uninterp spec fn parse_of(s: Seq<char>) -> Option<u32>;

/// The Unicode lowercase form of a text.
pub uninterp spec fn lower_of(s: Seq<char>) -> Seq<char>;

/// Relies on `rustc_apfloat::ieee::Single::add_r` with round to nearest,
/// ties to even: IEEE 754 binary32 addition. Adding `+0.0` on the left
/// returns the other operand unchanged, except that `+0.0 + -0.0` is
/// `+0.0` under this rounding.
#[verifier::external_body]
pub fn add_bits(a: u32, b: u32) -> (r: u32)
    ensures
        r == add_of(a, b),
        a == POS_ZERO && !is_nan_bits(b) && b != NEG_ZERO ==> r == b,
        a == POS_ZERO && b == NEG_ZERO ==> r == POS_ZERO,
{
    let x = Single::from_bits(a as u128);
    let y = Single::from_bits(b as u128);
    x.add_r(y, Round::NearestTiesToEven).value.to_bits() as u32
}

/// Relies on `rustc_apfloat::ieee::Single::sub_r` with round to nearest,
/// ties to even: IEEE 754 binary32 subtraction.
#[verifier::external_body]
pub fn sub_bits(a: u32, b: u32) -> (r: u32)
    ensures
        r == sub_of(a, b),
{
    let x = Single::from_bits(a as u128);
    let y = Single::from_bits(b as u128);
    x.sub_r(y, Round::NearestTiesToEven).value.to_bits() as u32
}

/// Relies on `rustc_apfloat::ieee::Single::mul_r` with round to nearest,
/// ties to even: IEEE 754 binary32 multiplication.
#[verifier::external_body]
pub fn mul_bits(a: u32, b: u32) -> (r: u32)
    ensures
        r == mul_of(a, b),
{
    let x = Single::from_bits(a as u128);
    let y = Single::from_bits(b as u128);
    x.mul_r(y, Round::NearestTiesToEven).value.to_bits() as u32
}

/// Relies on `rustc_apfloat::ieee::Single::div_r` with round to nearest,
/// ties to even: IEEE 754 binary32 division. Dividing a non-NaN value by
/// `1.0` is exact and returns it unchanged; `0.0 / 0.0` is an invalid
/// operation and returns a NaN.
#[verifier::external_body]
pub fn div_bits(a: u32, b: u32) -> (r: u32)
    ensures
        r == div_of(a, b),
        b == ONE_BITS && !is_nan_bits(a) ==> r == a,
        a == POS_ZERO && b == POS_ZERO ==> is_nan_bits(r),
{
    let x = Single::from_bits(a as u128);
    let y = Single::from_bits(b as u128);
    x.div_r(y, Round::NearestTiesToEven).value.to_bits() as u32
}

/// Relies on `rustc_apfloat::ieee::Single::from_u128_r`: the count of rows
/// as a binary32 value, correctly rounded; `0` and `1` are exactly
/// representable.
#[verifier::external_body]
pub fn f32_of_usize(n: usize) -> (r: u32)
    ensures
        r == usize_f32_of(n),
        n == 0 ==> r == POS_ZERO,
        n == 1 ==> r == ONE_BITS,
{
    Single::from_u128_r(n as u128, Round::NearestTiesToEven).value.to_bits() as u32
}

/// Relies on `rustc_apfloat::ieee::Single::from_i128_r`: a parsed integer
/// cell as a binary32 value, correctly rounded; `-1` is exactly
/// representable and is the lenient sentinel.
#[verifier::external_body]
pub fn f32_of_i32(n: i32) -> (r: u32)
    ensures
        r == i32_f32_of(n),
        n == -1 ==> r == SENTINEL_BITS,
{
    Single::from_i128_r(n as i128, Round::NearestTiesToEven).value.to_bits() as u32
}

/// Relies on `rustc_apfloat::ieee::Single::to_u128_r` rounding toward
/// zero, which saturates like a float-to-integer `as` cast: a NaN gives
/// `0`, a negative value gives `0`, a too-large value gives the maximum.
#[verifier::external_body]
pub fn f32_to_usize(b: u32) -> (r: usize)
    ensures
        r == trunc_of(b),
{
    let x = Single::from_bits(b as u128);
    let mut exact = false;
    x.to_u128_r(64, Round::TowardZero, &mut exact).value as usize
}

/// Relies on the `Display` of `rustc_apfloat::ieee::Single` at its natural
/// precision: a decimal form of the value, out of digits, a sign, a dot
/// and an exponent part (or `NaN` / `+Inf` / `-Inf`) — never empty and
/// never holding a comma or a whitespace character — carrying enough
/// digits that parsing it back recovers the bit pattern of every value
/// but a NaN (a NaN parses back to a NaN, its payload not kept).
#[verifier::external_body]
pub fn fmt_default(b: u32) -> (r: String)
    ensures
        r@ == display_of(b),
        r@.len() > 0,
        forall|i: int|
            0 <= i < r@.len() ==> r@[i] != ',' && !crate::text::is_space(#[trigger] r@[i]),
        !is_nan_bits(b) ==> parse_of(r@) == Some(b),
{
    format!("{}", Single::from_bits(b as u128))
}

/// Relies on `FromStr` for `rustc_apfloat::ieee::Single`, which rounds a
/// decimal (or hexadecimal) form to the nearest binary32 value, ties to
/// even, and recognises the special spellings of infinities and NaN.
#[verifier::external_body]
pub fn parse_f32(s: &str) -> (r: Option<u32>)
    ensures
        r == parse_of(s@),
{
    match s.parse::<Single>() {
        Ok(x) => Some(x.to_bits() as u32),
        Err(_) => None,
    }
}

/// Relies on `str::to_lowercase`: the Unicode lowercase form, a function
/// of the characters alone.
#[verifier::external_body]
pub fn lowercase(s: &str) -> (r: String)
    ensures
        r@ == lower_of(s@),
{
    s.to_lowercase()
}

/// Relies on `Iterator::collect` building a `String` from characters: the
/// collected string reads back the same character sequence.
#[verifier::external_body]
pub fn chars_to_string(v: &Vec<char>) -> (r: String)
    ensures
        r@ == v@,
{
    v.iter().collect()
}

} // verus!
