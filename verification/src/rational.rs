//! Exact fractions, which stand for numeric literals in an expression.

use crate::error::ExprError;
use crate::lexer::Num;
use vstd::arithmetic::power::{lemma_pow_increases, pow};
use vstd::prelude::*;

verus! {

/// An exact fraction `num / den` of two machine integers. It is not reduced
/// to lowest terms.
#[derive(Clone, Copy, Debug, PartialEq, Eq, Structural)]
pub struct Rational {
    /// The numerator.
    pub num: i64,
    /// The denominator.
    pub den: i64,
}

/// The denominator of a decimal literal with the given exponent: ten to the
/// power of the exponent, negated.
pub open spec fn denominator(exponent: i16) -> int
    recommends
        exponent <= 0,
{
    pow(10, (-exponent) as nat)
}

/// The numerator of a decimal literal: its whole part, scaled by the
/// denominator, plus its fractional part.
pub open spec fn numerator(whole: i64, frac: u64, exponent: i16) -> int
    recommends
        exponent <= 0,
{
    whole * denominator(exponent) + frac
}

/// The fraction that stands for a number: what `Rational::from_num`
/// returns for it.
///
/// An integer is itself, over one. A decimal is its numerator over its
/// denominator, unless its exponent is positive or one of the two is no
/// 64-bit integer.
pub open spec fn fraction_of(number: Num) -> Result<Rational, ExprError> {
    match number {
        Num::Integer(x) => Ok(Rational { num: x, den: 1 }),
        Num::Decimal(whole, frac, exponent) => {
            if exponent > 0 {
                Err(ExprError::MalformedLiteral)
            } else if denominator(exponent) <= i64::MAX && i64::MIN <= numerator(
                whole,
                frac,
                exponent,
            ) <= i64::MAX {
                Ok(
                    Rational {
                        num: numerator(whole, frac, exponent) as i64,
                        den: denominator(exponent) as i64,
                    },
                )
            } else {
                Err(ExprError::MalformedLiteral)
            }
        },
    }
}

/// `num::pow`: `base` to the power `exp`, computed by repeated squaring.
/// Nothing of it is proved here. For a base that is not negative, every
/// product that the function forms is at most the result, so where the
/// result is an `i64`, as is required, no multiplication overflows.
#[verifier::external_body]
fn int_pow(base: i64, exp: usize) -> (res: i64)
    requires
        0 <= base,
        pow(base as int, exp as nat) <= i64::MAX,
    ensures
        res == pow(base as int, exp as nat),
{
    num::pow(base, exp)
}

/// The powers of ten below and above the largest 64-bit integer.
proof fn lemma_pow10_bounds(e: nat)
    ensures
        e <= 18 ==> 1 <= pow(10, e) <= 1_000_000_000_000_000_000,
        e > 18 ==> pow(10, e) > i64::MAX,
{
    reveal_with_fuel(pow, 20);
    assert(pow(10, 0) == 1);
    assert(pow(10, 18) == 1_000_000_000_000_000_000);
    assert(pow(10, 19) == 10_000_000_000_000_000_000);
    if e <= 18 {
        lemma_pow_increases(10, 0, e);
        lemma_pow_increases(10, e, 18);
    } else {
        lemma_pow_increases(10, 19, e);
    }
}

impl Rational {
    /// Whether the fraction is one: the denominator is not zero. Every
    /// fraction that `from_num` returns is.
    pub open spec fn well_formed(&self) -> bool {
        self.den != 0
    }

    /// The fraction that stands for a number.
    ///
    /// Any integer has one. A decimal with a positive exponent has none,
    /// nor has one whose numerator or denominator is no 64-bit integer.
    pub fn from_num(number: Num) -> (res: Result<Rational, ExprError>)
        ensures
            res == fraction_of(number),
            res matches Ok(r) ==> r.well_formed(),
    {
        match number {
            Num::Integer(x) => Ok(Rational { num: x, den: 1 }),
            Num::Decimal(whole, frac, exponent) => {
                if exponent > 0 {
                    return Err(ExprError::MalformedLiteral);
                }
                let places: usize = (0 - exponent as i32) as usize;
                proof {
                    lemma_pow10_bounds(places as nat);
                }
                if places > 18 {
                    return Err(ExprError::MalformedLiteral);
                }
                let den: i64 = int_pow(10, places);
                assert(-0x8000_0000_0000_0000 * 1_000_000_000_000_000_000 <= whole * den
                    <= 0x8000_0000_0000_0000 * 1_000_000_000_000_000_000) by (nonlinear_arith)
                    requires
                        -0x8000_0000_0000_0000 <= whole <= 0x8000_0000_0000_0000,
                        1 <= den <= 1_000_000_000_000_000_000,
                ;
                let num: i128 = (whole as i128) * (den as i128) + (frac as i128);
                if num < i64::MIN as i128 || num > i64::MAX as i128 {
                    return Err(ExprError::MalformedLiteral);
                }
                Ok(Rational { num: num as i64, den })
            },
        }
    }
}

/// A decimal with a positive exponent has no fraction, whatever its other
/// parts are.
pub proof fn lemma_positive_exponent_rejected(whole: i64, frac: u64, exponent: i16)
    requires
        exponent > 0,
    ensures
        fraction_of(Num::Decimal(whole, frac, exponent)) == Err::<Rational, ExprError>(
            ExprError::MalformedLiteral,
        ),
{
}

/// A number that has no fraction fails as a malformed literal.
pub proof fn lemma_fraction_failure(number: Num)
    ensures
        fraction_of(number) matches Err(e) ==> e == ExprError::MalformedLiteral,
{
}

} // verus!
