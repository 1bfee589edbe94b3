//! The failures that lexing and parsing report.

use vstd::prelude::*;

verus! {

/// Why a text or a token sequence was rejected. A failure ends the work on
/// the expression at hand; nothing partial is returned with it.
#[derive(Clone, Copy, Debug, PartialEq, Eq, Structural)]
pub enum ExprError {
    /// No token can be read at some position of the text: the numeric
    /// literal that starts there has a part too large to be stored.
    Lex,
    /// An operator whose symbol the operator table does not hold.
    UnknownOperator,
    /// A closing symbol or a comma without its opening symbol, or an
    /// opening symbol that is never closed.
    MismatchedGrouping,
    /// A numeric literal that is no fraction of two machine integers: its
    /// exponent is positive, or numerator or denominator do not fit.
    MalformedLiteral,
    /// A postfix sequence that does not reduce to exactly one expression.
    MalformedExpression,
}

} // verus!
