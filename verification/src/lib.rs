//! Lexing and parsing of mathematical expressions.
//!
//! Text is split into tokens by [`lexer::lex`], the tokens are put into
//! postfix order by [`parser::to_postfix`], and [`parser::parse`] builds the
//! expression tree, whose leaves are exact fractions ([`rational::Rational`]).
//! Every function is total: what cannot be lexed or parsed is reported as an
//! [`error::ExprError`].
//!
//! The contract of each function names the mathematical function that it
//! computes. What follows from those definitions is proved in
//! [`grouping`] (when the conversion to postfix order succeeds),
//! [`rearrange`] (what the postfix sequence holds) and [`reduction`] (when
//! the reduction to a tree succeeds, and what the tree keeps).

pub mod error;
pub mod grouping;
pub mod lexer;
pub mod parser;
pub mod rational;
pub mod rearrange;
pub mod reduction;
