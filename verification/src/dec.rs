//! An exact decimal value: a 96-bit signed integer mantissa and a
//! power-of-ten scale, the value being `mantissa / 10^scale`.
//!
//! Arithmetic on these values is performed by the `rust_decimal` crate
//! through the trusted wrappers below; comparison and the constructors
//! have exact contracts, while the rounding behaviour of addition,
//! subtraction, multiplication and division is given a name (an
//! uninterpreted function of the operands) that the algorithm's
//! contracts are stated over.

use vstd::prelude::*;

verus! {

/// A decimal number `mantissa / 10^scale`, mirroring the domain of
/// `rust_decimal::Decimal`: the mantissa fits in 96 bits (signed) and
/// the scale is at most 28.
#[derive(Debug, Clone, Copy, PartialEq, Eq, Structural)]
pub struct Dec {
    pub mantissa: i128,
    pub scale: u32,
}

/// The largest mantissa magnitude a decimal can carry: `2^96 - 1`.
pub const MAX_MANTISSA: i128 = 0xFFFF_FFFF_FFFF_FFFF_FFFF_FFFF;

/// The largest scale a decimal can carry.
pub const MAX_SCALE: u32 = 28;

/// A `Dec` that lies in the domain of `rust_decimal::Decimal`.
pub open spec fn dec_valid(d: Dec) -> bool {
    &&& -MAX_MANTISSA <= d.mantissa <= MAX_MANTISSA
    &&& d.scale <= MAX_SCALE
}

impl Dec {
    /// The decimal with integer value `i` (scale zero).
    pub fn from_int(i: i64) -> (r: Dec)
        ensures
            r == (Dec { mantissa: i as i128, scale: 0u32 }),
            dec_valid(r),
    {
        Dec { mantissa: i as i128, scale: 0 }
    }

    /// The decimal `mantissa / 10^scale`, if it lies in the decimal domain.
    pub fn new(mantissa: i128, scale: u32) -> (r: Option<Dec>)
        ensures
            r matches Some(d) ==> d == (Dec { mantissa, scale }) && dec_valid(d),
            r is None <==> !dec_valid(Dec { mantissa, scale }),
    {
        if -MAX_MANTISSA <= mantissa && mantissa <= MAX_MANTISSA && scale <= MAX_SCALE {
            Some(Dec { mantissa, scale })
        } else {
            None
        }
    }
}

/// `10^n`.
pub open spec fn pow10(n: nat) -> int
    decreases n,
{
    if n == 0 {
        1
    } else {
        10 * pow10((n - 1) as nat)
    }
}

/// The exact mathematical order on decimal values: `a < b` as rationals
/// `mantissa / 10^scale`, stated by cross-multiplying with the (positive)
/// powers of ten.
pub open spec fn dec_lt(a: Dec, b: Dec) -> bool {
    a.mantissa * pow10(b.scale as nat) < b.mantissa * pow10(a.scale as nat)
}

/// What `rust_decimal`'s checked addition returns on a pair of decimal
/// values (`None` on overflow, otherwise the sum, rounded where the exact
/// sum does not fit the 96-bit domain).
pub uninterp spec fn add_of(a: Dec, b: Dec) -> Option<Dec>;

/// What `rust_decimal`'s checked subtraction returns.
pub uninterp spec fn sub_of(a: Dec, b: Dec) -> Option<Dec>;

/// What `rust_decimal`'s checked multiplication returns.
pub uninterp spec fn mul_of(a: Dec, b: Dec) -> Option<Dec>;

/// What `rust_decimal`'s checked division returns (`None` on a zero
/// divisor or overflow, otherwise the quotient rounded to the decimal
/// domain).
pub uninterp spec fn div_of(a: Dec, b: Dec) -> Option<Dec>;

/// Relies on `rust_decimal::Decimal::checked_add`: a pure function of the
/// two operands, `None` exactly on overflow; any decimal it returns lies
/// in the 96-bit, scale-at-most-28 domain.
#[verifier::external_body]
pub(crate) fn dec_add(a: Dec, b: Dec) -> (r: Option<Dec>)
    requires
        dec_valid(a),
        dec_valid(b),
    ensures
        r == add_of(a, b),
        r matches Some(d) ==> dec_valid(d),
{
    let x = rust_decimal::Decimal::from_i128_with_scale(a.mantissa, a.scale);
    let y = rust_decimal::Decimal::from_i128_with_scale(b.mantissa, b.scale);
    x.checked_add(y).map(|d| Dec { mantissa: d.mantissa(), scale: d.scale() })
}

/// Relies on `rust_decimal::Decimal::checked_sub`: a pure function of the
/// two operands, `None` exactly on overflow; any decimal it returns lies
/// in the decimal domain.
#[verifier::external_body]
pub(crate) fn dec_sub(a: Dec, b: Dec) -> (r: Option<Dec>)
    requires
        dec_valid(a),
        dec_valid(b),
    ensures
        r == sub_of(a, b),
        r matches Some(d) ==> dec_valid(d),
{
    let x = rust_decimal::Decimal::from_i128_with_scale(a.mantissa, a.scale);
    let y = rust_decimal::Decimal::from_i128_with_scale(b.mantissa, b.scale);
    x.checked_sub(y).map(|d| Dec { mantissa: d.mantissa(), scale: d.scale() })
}

/// Relies on `rust_decimal::Decimal::checked_mul`: a pure function of the
/// two operands, `None` exactly on overflow; any decimal it returns lies
/// in the decimal domain.
#[verifier::external_body]
pub(crate) fn dec_mul(a: Dec, b: Dec) -> (r: Option<Dec>)
    requires
        dec_valid(a),
        dec_valid(b),
    ensures
        r == mul_of(a, b),
        r matches Some(d) ==> dec_valid(d),
{
    let x = rust_decimal::Decimal::from_i128_with_scale(a.mantissa, a.scale);
    let y = rust_decimal::Decimal::from_i128_with_scale(b.mantissa, b.scale);
    x.checked_mul(y).map(|d| Dec { mantissa: d.mantissa(), scale: d.scale() })
}

/// Relies on `rust_decimal::Decimal::checked_div`: a pure function of the
/// two operands, `None` exactly on a zero divisor or overflow; any decimal
/// it returns lies in the decimal domain.
#[verifier::external_body]
pub(crate) fn dec_div(a: Dec, b: Dec) -> (r: Option<Dec>)
    requires
        dec_valid(a),
        dec_valid(b),
    ensures
        r == div_of(a, b),
        r matches Some(d) ==> dec_valid(d),
{
    let x = rust_decimal::Decimal::from_i128_with_scale(a.mantissa, a.scale);
    let y = rust_decimal::Decimal::from_i128_with_scale(b.mantissa, b.scale);
    x.checked_div(y).map(|d| Dec { mantissa: d.mantissa(), scale: d.scale() })
}

/// Relies on `Ord for rust_decimal::Decimal` (`ops::cmp::cmp_impl`), which
/// orders decimals by their exact mathematical values: it equalises the
/// scales and compares the mantissas, treating a mantissa that can no
/// longer be rescaled as the strictly larger magnitude.
#[verifier::external_body]
pub(crate) fn dec_gt(a: Dec, b: Dec) -> (r: bool)
    requires
        dec_valid(a),
        dec_valid(b),
    ensures
        r == dec_lt(b, a),
{
    let x = rust_decimal::Decimal::from_i128_with_scale(a.mantissa, a.scale);
    let y = rust_decimal::Decimal::from_i128_with_scale(b.mantissa, b.scale);
    x > y
}

/// Relies on `rust_decimal::Decimal::abs`: it clears the sign and keeps
/// the mantissa magnitude and the scale.
#[verifier::external_body]
pub(crate) fn dec_abs(a: Dec) -> (r: Dec)
    requires
        dec_valid(a),
    ensures
        r == spec_abs(a),
{
    let x = rust_decimal::Decimal::from_i128_with_scale(a.mantissa, a.scale);
    let d = x.abs();
    Dec { mantissa: d.mantissa(), scale: d.scale() }
}

/// The absolute value of a decimal: the mantissa magnitude under the same
/// scale.
pub open spec fn spec_abs(a: Dec) -> Dec {
    if a.mantissa < 0 {
        Dec { mantissa: (-(a.mantissa as int)) as i128, scale: a.scale }
    } else {
        a
    }
}

} // verus!
