//! Model of IEEE 754 binary32 values by their bit patterns.
//!
//! A cell of a table is carried as the `u32` bit pattern of a binary32
//! number. Everything the query logic decides from a cell — NaN detection,
//! the value ordering behind the relational filters, and the total ordering
//! behind sorting — is a function of the bits alone, written here over plain
//! integer arithmetic:
//!
//! * a pattern splits into a sign bit and a 31-bit magnitude;
//! * among non-NaN patterns of one sign, the magnitude orders the values,
//!   and the two zero patterns share magnitude zero, so the signed magnitude
//!   `ord_val` compares exactly as the IEEE comparison predicates do;
//! * the IEEE `totalOrder` relation orders every pattern, NaN included, by
//!   the signed magnitude with negatives shifted one below zero (`tkey`).

use vstd::prelude::*;

verus! {

/// The sign bit of a binary32 pattern.
pub const SIGN_MASK: u32 = 0x8000_0000;

/// Magnitude of the all-ones exponent with zero mantissa: positive infinity.
pub const EXP_ALL: u32 = 0x7F80_0000;

/// Bit pattern of `+0.0`.
pub const POS_ZERO: u32 = 0x0000_0000;

/// Bit pattern of `-0.0`.
pub const NEG_ZERO: u32 = 0x8000_0000;

/// Bit pattern of positive infinity (same as `EXP_ALL`).
pub const POS_INF: u32 = 0x7F80_0000;

/// Bit pattern of negative infinity.
pub const NEG_INF: u32 = 0xFF80_0000;

/// Bit pattern of `1.0`.
pub const ONE_BITS: u32 = 0x3F80_0000;

/// Bit pattern of `2.0`.
pub const TWO_BITS: u32 = 0x4000_0000;

/// Bit pattern of `-1.0`, the sentinel that lenient ingestion substitutes
/// for an unparseable cell.
pub const SENTINEL_BITS: u32 = 0xBF80_0000;

/// Bit pattern of the binary32 machine epsilon, `2^-23`: the tolerance of
/// the equality and inequality filters.
pub const EPSILON_BITS: u32 = 0x3400_0000;

/// Whether the sign bit of the pattern is set.
pub open spec fn sign_of(b: u32) -> bool {
    b >= SIGN_MASK
}

/// The 31-bit magnitude of the pattern: the pattern with its sign bit cleared.
pub open spec fn mag_of(b: u32) -> u32 {
    if b >= SIGN_MASK {
        (b - SIGN_MASK) as u32
    } else {
        b
    }
}

/// Whether the pattern is a NaN: all-ones exponent with a non-zero mantissa.
pub open spec fn is_nan_bits(b: u32) -> bool {
    mag_of(b) > EXP_ALL
}

/// Whether the pattern is finite: neither a NaN nor an infinity.
pub open spec fn is_finite_bits(b: u32) -> bool {
    mag_of(b) < EXP_ALL
}

/// The numeric rank of a non-NaN pattern: magnitudes order values within one
/// sign, so the signed magnitude compares as the values do, and both zero
/// patterns rank zero.
pub open spec fn ord_val(b: u32) -> int {
    if sign_of(b) {
        -(mag_of(b) as int)
    } else {
        mag_of(b) as int
    }
}

/// IEEE equality of two patterns: false when either is NaN, and `+0.0`
/// equals `-0.0`.
pub open spec fn val_eq(a: u32, b: u32) -> bool {
    !is_nan_bits(a) && !is_nan_bits(b) && ord_val(a) == ord_val(b)
}

/// IEEE `<` on two patterns: false when either is NaN.
pub open spec fn val_lt(a: u32, b: u32) -> bool {
    !is_nan_bits(a) && !is_nan_bits(b) && ord_val(a) < ord_val(b)
}

/// IEEE `<=` on two patterns: false when either is NaN.
pub open spec fn val_le(a: u32, b: u32) -> bool {
    !is_nan_bits(a) && !is_nan_bits(b) && ord_val(a) <= ord_val(b)
}

/// IEEE `>` on two patterns: false when either is NaN.
pub open spec fn val_gt(a: u32, b: u32) -> bool {
    val_lt(b, a)
}

/// IEEE `>=` on two patterns: false when either is NaN.
pub open spec fn val_ge(a: u32, b: u32) -> bool {
    val_le(b, a)
}

/// The rank a pattern takes in the IEEE `totalOrder` relation, the order of
/// `total_cmp`: negative patterns in decreasing magnitude first (so `-NaN`
/// lowest and `-0.0` just below `+0.0`), then positive patterns in
/// increasing magnitude up to `+NaN`.
pub open spec fn tkey(b: u32) -> int {
    if sign_of(b) {
        -1 - (mag_of(b) as int)
    } else {
        mag_of(b) as int
    }
}

/// The total order on patterns.
pub open spec fn total_le(a: u32, b: u32) -> bool {
    tkey(a) <= tkey(b)
}

/// The magnitude of the pattern, executably: also the bit pattern of the
/// absolute value, since taking a binary32 absolute value clears the sign
/// bit and changes nothing else.
pub fn magnitude(b: u32) -> (r: u32)
    ensures
        r == mag_of(b),
{
    if b >= SIGN_MASK {
        b - SIGN_MASK
    } else {
        b
    }
}

/// Whether the pattern is a NaN, executably.
pub fn is_nan(b: u32) -> (r: bool)
    ensures
        r == is_nan_bits(b),
{
    magnitude(b) > EXP_ALL
}

/// IEEE `==` on two patterns, executably.
pub fn cmp_eq(a: u32, b: u32) -> (r: bool)
    ensures
        r == val_eq(a, b),
{
    let ma = magnitude(a);
    let mb = magnitude(b);
    if ma > EXP_ALL || mb > EXP_ALL {
        false
    } else if ma == 0 && mb == 0 {
        true
    } else {
        a == b
    }
}

/// IEEE `<` on two patterns, executably.
pub fn cmp_lt(a: u32, b: u32) -> (r: bool)
    ensures
        r == val_lt(a, b),
{
    let ma = magnitude(a);
    let mb = magnitude(b);
    if ma > EXP_ALL || mb > EXP_ALL {
        false
    } else if a >= SIGN_MASK {
        if b >= SIGN_MASK {
            mb < ma
        } else {
            ma > 0 || mb > 0
        }
    } else {
        if b >= SIGN_MASK {
            false
        } else {
            ma < mb
        }
    }
}

/// IEEE `<=` on two patterns, executably.
pub fn cmp_le(a: u32, b: u32) -> (r: bool)
    ensures
        r == val_le(a, b),
{
    let ma = magnitude(a);
    let mb = magnitude(b);
    if ma > EXP_ALL || mb > EXP_ALL {
        false
    } else if a >= SIGN_MASK {
        if b >= SIGN_MASK {
            mb <= ma
        } else {
            true
        }
    } else {
        if b >= SIGN_MASK {
            ma == 0 && mb == 0
        } else {
            ma <= mb
        }
    }
}

/// The total order on two patterns, executably.
pub fn cmp_total_le(a: u32, b: u32) -> (r: bool)
    ensures
        r == total_le(a, b),
{
    let ma = magnitude(a);
    let mb = magnitude(b);
    if a >= SIGN_MASK {
        if b >= SIGN_MASK {
            mb <= ma
        } else {
            true
        }
    } else {
        if b >= SIGN_MASK {
            false
        } else {
            ma <= mb
        }
    }
}

} // verus!
