use mathexpr::error::ExprError;
use mathexpr::lexer::Num;
use mathexpr::rational::Rational;

#[test]
fn integers_are_over_one() {
    assert_eq!(
        Rational::from_num(Num::Integer(0)),
        Ok(Rational { num: 0, den: 1 })
    );
    assert_eq!(
        Rational::from_num(Num::Integer(1337)),
        Ok(Rational { num: 1337, den: 1 })
    );
    assert_eq!(
        Rational::from_num(Num::Integer(-5)),
        Ok(Rational { num: -5, den: 1 })
    );
    assert_eq!(
        Rational::from_num(Num::Integer(i64::MIN)),
        Ok(Rational {
            num: i64::MIN,
            den: 1
        })
    );
}

#[test]
fn decimals_scale_by_the_exponent() {
    assert_eq!(
        Rational::from_num(Num::Decimal(0, 1, -2)),
        Ok(Rational { num: 1, den: 100 })
    );
    assert_eq!(
        Rational::from_num(Num::Decimal(2, 18, -1)),
        Ok(Rational { num: 38, den: 10 })
    );
    assert_eq!(
        Rational::from_num(Num::Decimal(1, 0, -2)),
        Ok(Rational { num: 100, den: 100 })
    );
    assert_eq!(
        Rational::from_num(Num::Decimal(-3, 5, -3)),
        Ok(Rational {
            num: -2995,
            den: 1000
        })
    );
}

#[test]
fn exponent_zero_is_allowed() {
    assert_eq!(
        Rational::from_num(Num::Decimal(3, 1415, 0)),
        Ok(Rational { num: 1418, den: 1 })
    );
    assert_eq!(
        Rational::from_num(Num::Decimal(0, 0, 0)),
        Ok(Rational { num: 0, den: 1 })
    );
}

#[test]
fn positive_exponent_is_rejected() {
    assert_eq!(
        Rational::from_num(Num::Decimal(1, 5, 1)),
        Err(ExprError::MalformedLiteral)
    );
    assert_eq!(
        Rational::from_num(Num::Decimal(0, 0, i16::MAX)),
        Err(ExprError::MalformedLiteral)
    );
}

#[test]
fn largest_denominator() {
    assert_eq!(
        Rational::from_num(Num::Decimal(9, 5, -18)),
        Ok(Rational {
            num: 9_000_000_000_000_000_005,
            den: 1_000_000_000_000_000_000
        })
    );
    assert_eq!(
        Rational::from_num(Num::Decimal(0, 1, -19)),
        Err(ExprError::MalformedLiteral)
    );
    assert_eq!(
        Rational::from_num(Num::Decimal(0, 1, i16::MIN)),
        Err(ExprError::MalformedLiteral)
    );
}

#[test]
fn numerator_must_fit() {
    assert_eq!(
        Rational::from_num(Num::Decimal(10, 0, -18)),
        Err(ExprError::MalformedLiteral)
    );
    assert_eq!(
        Rational::from_num(Num::Decimal(0, u64::MAX, 0)),
        Err(ExprError::MalformedLiteral)
    );
    assert_eq!(
        Rational::from_num(Num::Decimal(i64::MAX, 1, 0)),
        Err(ExprError::MalformedLiteral)
    );
    assert_eq!(
        Rational::from_num(Num::Decimal(i64::MAX, 0, 0)),
        Ok(Rational {
            num: i64::MAX,
            den: 1
        })
    );
    assert_eq!(
        Rational::from_num(Num::Decimal(i64::MIN, 0, -1)),
        Err(ExprError::MalformedLiteral)
    );
    assert_eq!(
        Rational::from_num(Num::Decimal(-1, u64::MAX, 0)),
        Err(ExprError::MalformedLiteral)
    );
}
