//! When the reduction of a postfix sequence succeeds, and what the tree
//! keeps.
//!
//! The reduction is defined step by step, with a stack of expressions. This
//! module says of which postfix sequences it succeeds without running it
//! ([`lemma_reduce_succeeds`]), and that the leaves of the tree are the
//! numbers of the input, in their order ([`lemma_parse_keeps_numbers`]).

use crate::error::ExprError;
use crate::lexer::TokenView;
use crate::parser::{
    apply, parse_spec, postfix_spec, reduce_from, reduce_spec, shunt_spec, symbol_tokens,
    ExpressionView, SymbolView,
};
use crate::rational::{fraction_of, Rational};
use crate::rearrange::{lemma_postfix_rearranges, numbers};
use vstd::prelude::*;

verus! {

/// The number of expressions on the stack after the first `i` symbols of a
/// postfix sequence: a number adds one, any other symbol takes its operands
/// and adds one.
pub open spec fn height(postfix: Seq<SymbolView>, i: int) -> int
    decreases i,
{
    if i <= 0 {
        0
    } else if postfix[i - 1].token is Number {
        height(postfix, i - 1) + 1
    } else {
        height(postfix, i - 1) - postfix[i - 1].arity + 1
    }
}

/// Whether the symbol at position `i` of a postfix sequence can be applied:
/// a number is a fraction; a word or an operator takes one operand or two
/// and finds as many on the stack; nothing else stands in a postfix
/// sequence.
pub open spec fn applies_at(postfix: Seq<SymbolView>, i: int) -> bool {
    match postfix[i].token {
        TokenView::Number(n) => fraction_of(n) is Ok,
        TokenView::Word(_) | TokenView::Oper(_) => {
            &&& postfix[i].arity == 1 || postfix[i].arity == 2
            &&& height(postfix, i) >= postfix[i].arity
        },
        _ => false,
    }
}

/// Whether each symbol from position `from` on can be applied, and exactly
/// one expression is left at the end.
pub open spec fn reducible_from(postfix: Seq<SymbolView>, from: int) -> bool {
    &&& forall|j: int| from <= j < postfix.len() ==> #[trigger] applies_at(postfix, j)
    &&& height(postfix, postfix.len() as int) == 1
}

/// Whether a postfix sequence reduces to one expression.
pub open spec fn reducible(postfix: Seq<SymbolView>) -> bool {
    reducible_from(postfix, 0)
}

/// Whether each number from position `from` on is a fraction.
pub open spec fn fractions_from(postfix: Seq<SymbolView>, from: int) -> bool {
    forall|j: int|
        from <= j < postfix.len() ==> (#[trigger] postfix[j].token matches TokenView::Number(n)
            ==> fraction_of(n) is Ok)
}

/// What one symbol does to the number of expressions on the stack, and when
/// it fails.
proof fn lemma_apply_height(postfix: Seq<SymbolView>, i: int, values: Seq<ExpressionView>)
    requires
        0 <= i < postfix.len(),
        values.len() == height(postfix, i),
    ensures
        match apply(values, postfix[i]) {
            Ok(next) => applies_at(postfix, i) && next.len() == height(postfix, i + 1),
            Err(e) => {
                &&& !applies_at(postfix, i)
                &&& match postfix[i].token {
                    TokenView::Number(n) => e == ExprError::MalformedLiteral && fraction_of(
                        n,
                    ) is Err,
                    _ => e == ExprError::MalformedExpression,
                }
            },
        },
{
    if let TokenView::Number(n) = postfix[i].token {
        crate::rational::lemma_fraction_failure(n);
    }
}

/// The reduction from position `i` on succeeds exactly where each of the
/// remaining symbols can be applied and one expression is left.
proof fn lemma_reduce_from(postfix: Seq<SymbolView>, i: int, values: Seq<ExpressionView>)
    requires
        0 <= i <= postfix.len(),
        values.len() == height(postfix, i),
    ensures
        reduce_from(postfix, i, values) is Ok <==> reducible_from(postfix, i),
        reduce_from(postfix, i, values) matches Err(e) ==> {
            ||| e == ExprError::MalformedLiteral && !fractions_from(postfix, i)
            ||| e == ExprError::MalformedExpression
        },
    decreases postfix.len() - i,
{
    if i < postfix.len() {
        lemma_apply_height(postfix, i, values);
        match apply(values, postfix[i]) {
            Ok(next) => {
                lemma_reduce_from(postfix, i + 1, next);
                assert(reducible_from(postfix, i) <==> reducible_from(postfix, i + 1));
                assert(fractions_from(postfix, i) <==> fractions_from(postfix, i + 1));
            },
            Err(e) => {
                assert(!applies_at(postfix, i));
            },
        }
    }
}

/// The reduction succeeds exactly on the postfix sequences in which each
/// symbol can be applied and which leave one expression. It fails with
/// `MalformedLiteral` only where some number is no fraction, and else with
/// `MalformedExpression`.
pub proof fn lemma_reduce_succeeds(postfix: Seq<SymbolView>)
    ensures
        reduce_spec(postfix) is Ok <==> reducible(postfix),
        reduce_spec(postfix) matches Err(e) ==> {
            ||| e == ExprError::MalformedLiteral && !fractions_from(postfix, 0)
            ||| e == ExprError::MalformedExpression
        },
{
    lemma_reduce_from(postfix, 0, Seq::empty());
}

/// What fails the conversion to postfix order fails the parse, in the same
/// way; what passes it is parsed as its postfix sequence is reduced.
pub proof fn lemma_parse_after_postfix(tokens: Seq<TokenView>)
    ensures
        postfix_spec(tokens) matches Err(e) ==> parse_spec(tokens) == Err::<
            ExpressionView,
            ExprError,
        >(e),
        shunt_spec(tokens) matches Ok(postfix) ==> parse_spec(tokens) == reduce_spec(postfix),
{
}

/// The leaves of an expression, from left to right.
pub open spec fn leaves(expression: ExpressionView) -> Seq<Rational>
    decreases expression,
{
    match expression {
        ExpressionView::Value(r) => seq![r],
        ExpressionView::UnaryOp(_, operand) => leaves(*operand),
        ExpressionView::BinaryOp(_, left, right) => leaves(*left) + leaves(*right),
    }
}

/// The leaves of the expressions on a stack, from the bottom up.
pub open spec fn stack_leaves(values: Seq<ExpressionView>) -> Seq<Rational>
    decreases values.len(),
{
    if values.len() == 0 {
        Seq::empty()
    } else {
        stack_leaves(values.drop_last()) + leaves(values.last())
    }
}

/// The fractions of the numbers of a token sequence, in its order. A number
/// that is no fraction is left out.
pub open spec fn fractions(tokens: Seq<TokenView>) -> Seq<Rational>
    decreases tokens.len(),
{
    if tokens.len() == 0 {
        Seq::empty()
    } else {
        match tokens.last() {
            TokenView::Number(n) => match fraction_of(n) {
                Ok(r) => fractions(tokens.drop_last()).push(r),
                Err(_) => fractions(tokens.drop_last()),
            },
            _ => fractions(tokens.drop_last()),
        }
    }
}

/// An expression on top adds its leaves after those of the stack.
proof fn lemma_stack_leaves_push(values: Seq<ExpressionView>, top: ExpressionView)
    ensures
        stack_leaves(values.push(top)) == stack_leaves(values) + leaves(top),
{
    assert(values.push(top).drop_last() =~= values);
}

/// One symbol leaves the leaves on the stack as they are, but for a number,
/// whose fraction becomes the last leaf.
proof fn lemma_apply_leaves(values: Seq<ExpressionView>, symbol: SymbolView)
    ensures
        apply(values, symbol) matches Ok(next) ==> stack_leaves(next) == match symbol.token {
            TokenView::Number(n) => stack_leaves(values).push(fraction_of(n)->Ok_0),
            _ => stack_leaves(values),
        },
{
    if let Ok(next) = apply(values, symbol) {
        match symbol.token {
            TokenView::Number(n) => {
                let leaf = ExpressionView::Value(fraction_of(n)->Ok_0);
                lemma_stack_leaves_push(values, leaf);
                assert(stack_leaves(values) + leaves(leaf) =~= stack_leaves(values).push(
                    fraction_of(n)->Ok_0,
                ));
            },
            TokenView::Word(name) | TokenView::Oper(name) => {
                if symbol.arity == 1 {
                    let node = ExpressionView::UnaryOp(name, Box::new(values.last()));
                    lemma_stack_leaves_push(values.drop_last(), node);
                } else {
                    let below = values.drop_last();
                    let node = ExpressionView::BinaryOp(
                        name,
                        Box::new(below.last()),
                        Box::new(values.last()),
                    );
                    lemma_stack_leaves_push(below.drop_last(), node);
                    assert(stack_leaves(values) == stack_leaves(below) + leaves(values.last()));
                    assert(stack_leaves(below) == stack_leaves(below.drop_last()) + leaves(
                        below.last(),
                    ));
                    assert(stack_leaves(below.drop_last()) + (leaves(below.last()) + leaves(
                        values.last(),
                    )) =~= stack_leaves(values));
                }
            },
            _ => {},
        }
    }
}

/// The reduction from position `i` on adds the fractions of the remaining
/// numbers to the leaves on the stack.
proof fn lemma_reduce_leaves(postfix: Seq<SymbolView>, i: int, values: Seq<ExpressionView>)
    requires
        0 <= i <= postfix.len(),
        stack_leaves(values) == fractions(symbol_tokens(postfix).take(i)),
    ensures
        reduce_from(postfix, i, values) matches Ok(root) ==> leaves(root) == fractions(
            symbol_tokens(postfix),
        ),
    decreases postfix.len() - i,
{
    let tokens = symbol_tokens(postfix);
    if i == postfix.len() {
        assert(tokens.take(i) =~= tokens);
        if values.len() == 1 {
            assert(stack_leaves(values.drop_last()) =~= Seq::<Rational>::empty());
            assert(stack_leaves(values) =~= leaves(values[0]));
        }
    } else {
        lemma_apply_leaves(values, postfix[i]);
        assert(tokens.take(i + 1).drop_last() =~= tokens.take(i));
        assert(tokens.take(i + 1).last() == postfix[i].token);
        if let Ok(next) = apply(values, postfix[i]) {
            lemma_reduce_leaves(postfix, i + 1, next);
        }
    }
}

/// The fractions of a token sequence are those of its numbers.
proof fn lemma_fractions_of_numbers(tokens: Seq<TokenView>)
    ensures
        fractions(numbers(tokens)) == fractions(tokens),
    decreases tokens.len(),
{
    if tokens.len() > 0 {
        lemma_fractions_of_numbers(tokens.drop_last());
        if tokens.last() is Number {
            assert(numbers(tokens).drop_last() =~= numbers(tokens.drop_last()));
        }
    }
}

/// The tree keeps the numbers: the leaves of the expression that a token
/// sequence parses to are the fractions of its numbers, from left to
/// right in the order of the sequence.
pub proof fn lemma_parse_keeps_numbers(tokens: Seq<TokenView>)
    ensures
        parse_spec(tokens) matches Ok(root) ==> leaves(root) == fractions(tokens),
{
    if let Ok(postfix) = shunt_spec(tokens) {
        assert(symbol_tokens(postfix).take(0) =~= Seq::<TokenView>::empty());
        lemma_reduce_leaves(postfix, 0, Seq::empty());
        lemma_postfix_rearranges(tokens);
        lemma_fractions_of_numbers(tokens);
        lemma_fractions_of_numbers(symbol_tokens(postfix));
    }
}

} // verus!
