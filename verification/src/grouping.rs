//! When the conversion to postfix order succeeds.
//!
//! The conversion is defined step by step, with a stack. This module says
//! of which token sequences it succeeds without running it: exactly of
//! those whose grouping symbols and commas match and whose operators the
//! table holds ([`lemma_postfix_succeeds`]).

use crate::error::ExprError;
use crate::lexer::TokenView;
use crate::parser::{
    drain, is_closer, is_opener, op_info, postfix_spec, settle, shunt_from, shunt_spec, step,
    unwind, yields_to, OpInfo, SymbolView, Yard,
};
use vstd::prelude::*;

verus! {

/// The number of groups that are open after the first `i` tokens: the
/// opening symbols among them, less the closing ones. Parentheses and
/// brackets count alike.
pub open spec fn depth(tokens: Seq<TokenView>, i: int) -> int
    decreases i,
{
    if i <= 0 {
        0
    } else if is_opener(tokens[i - 1]) {
        depth(tokens, i - 1) + 1
    } else if is_closer(tokens[i - 1]) {
        depth(tokens, i - 1) - 1
    } else {
        depth(tokens, i - 1)
    }
}

/// Whether the grouping symbols and commas from position `from` on match:
/// each closing symbol and each comma stands inside an open group, and no
/// group is open at the end.
pub open spec fn grouped_from(tokens: Seq<TokenView>, from: int) -> bool {
    &&& forall|j: int|
        from <= j < tokens.len() && (is_closer(#[trigger] tokens[j]) || tokens[j] is Comma)
            ==> depth(tokens, j) > 0
    &&& depth(tokens, tokens.len() as int) == 0
}

/// Whether the table holds each operator from position `from` on.
pub open spec fn known_from(tokens: Seq<TokenView>, from: int) -> bool {
    forall|j: int|
        from <= j < tokens.len() && #[trigger] tokens[j] is Oper ==> op_info(tokens[j]) is Some
}

/// Whether the grouping symbols and commas of a token sequence match.
pub open spec fn well_grouped(tokens: Seq<TokenView>) -> bool {
    grouped_from(tokens, 0)
}

/// Whether the table holds each operator of a token sequence.
pub open spec fn operators_known(tokens: Seq<TokenView>) -> bool {
    known_from(tokens, 0)
}

/// The number of opening symbols on a stack.
pub open spec fn openers(stack: Seq<SymbolView>) -> int
    decreases stack.len(),
{
    if stack.len() == 0 {
        0
    } else if is_opener(stack.last().token) {
        openers(stack.drop_last()) + 1
    } else {
        openers(stack.drop_last())
    }
}

/// Whether a stack holds no closing symbol.
pub open spec fn no_closers(stack: Seq<SymbolView>) -> bool {
    forall|k: int| 0 <= k < stack.len() ==> !is_closer(#[trigger] stack[k].token)
}

/// A count of opening symbols is not negative.
proof fn lemma_openers_nonnegative(stack: Seq<SymbolView>)
    ensures
        openers(stack) >= 0,
    decreases stack.len(),
{
    if stack.len() > 0 {
        lemma_openers_nonnegative(stack.drop_last());
    }
}

/// A symbol on top adds one to the count if it is an opening symbol.
proof fn lemma_openers_push(stack: Seq<SymbolView>, symbol: SymbolView)
    ensures
        openers(stack.push(symbol)) == openers(stack) + if is_opener(symbol.token) {
            1int
        } else {
            0int
        },
{
    assert(stack.push(symbol).drop_last() =~= stack);
}

/// A stack without closing symbols has none below its top.
proof fn lemma_no_closers_below(stack: Seq<SymbolView>)
    requires
        no_closers(stack),
        stack.len() > 0,
    ensures
        no_closers(stack.drop_last()),
{
    assert forall|k: int| 0 <= k < stack.drop_last().len() implies !is_closer(
        #[trigger] stack.drop_last()[k].token,
    ) by {
        assert(stack.drop_last()[k] == stack[k]);
    }
}

/// A symbol that is no closing symbol adds none to the stack.
proof fn lemma_no_closers_push(stack: Seq<SymbolView>, symbol: SymbolView)
    requires
        no_closers(stack),
        !is_closer(symbol.token),
    ensures
        no_closers(stack.push(symbol)),
{
    assert forall|k: int| 0 <= k < stack.push(symbol).len() implies !is_closer(
        #[trigger] stack.push(symbol)[k].token,
    ) by {
        if k < stack.len() {
            assert(stack.push(symbol)[k] == stack[k]);
        }
    }
}

/// Unwinding finds an opening symbol exactly where the stack holds one, and
/// takes none from it.
proof fn lemma_unwind_openers(y: Yard)
    requires
        no_closers(y.stack),
    ensures
        unwind(y) is Some <==> openers(y.stack) > 0,
        unwind(y) matches Some(found) ==> {
            &&& found.stack.len() > 0
            &&& is_opener(found.stack.last().token)
            &&& openers(found.stack) == openers(y.stack)
            &&& no_closers(found.stack)
        },
    decreases y.stack.len(),
{
    lemma_openers_nonnegative(y.stack);
    if y.stack.len() > 0 {
        lemma_openers_nonnegative(y.stack.drop_last());
        if !is_opener(y.stack.last().token) {
            lemma_no_closers_below(y.stack);
            lemma_unwind_openers(y.release());
        }
    }
}

/// Settling takes operators only.
proof fn lemma_settle_openers(y: Yard, info: OpInfo)
    requires
        no_closers(y.stack),
    ensures
        openers(settle(y, info).stack) == openers(y.stack),
        no_closers(settle(y, info).stack),
    decreases y.stack.len(),
{
    if y.stack.len() > 0 && yields_to(y.stack.last().token, info) {
        lemma_no_closers_below(y.stack);
        lemma_settle_openers(y.release(), info);
    }
}

/// What is left at the end goes to the output exactly where no opening
/// symbol is among it.
proof fn lemma_drain_openers(y: Yard)
    requires
        no_closers(y.stack),
    ensures
        drain(y) is Ok <==> openers(y.stack) == 0,
        drain(y) matches Err(e) ==> e == ExprError::MismatchedGrouping,
    decreases y.stack.len(),
{
    lemma_openers_nonnegative(y.stack);
    if y.stack.len() > 0 {
        lemma_openers_nonnegative(y.stack.drop_last());
        assert(!is_closer(y.stack.last().token));
        if !is_opener(y.stack.last().token) {
            lemma_no_closers_below(y.stack);
            lemma_drain_openers(y.release());
        }
    }
}

/// What one token does to the number of opening symbols on the stack, and
/// when it fails.
proof fn lemma_step_openers(y: Yard, token: TokenView)
    requires
        no_closers(y.stack),
    ensures
        match step(y, token) {
            Ok(next) => {
                &&& no_closers(next.stack)
                &&& openers(next.stack) == openers(y.stack) + if is_opener(token) {
                    1int
                } else if is_closer(token) {
                    -1int
                } else {
                    0int
                }
                &&& is_closer(token) || token is Comma ==> openers(y.stack) > 0
                &&& token is Oper ==> op_info(token) is Some
            },
            Err(e) => {
                if token is Oper {
                    e == ExprError::UnknownOperator && op_info(token) is None
                } else {
                    &&& e == ExprError::MismatchedGrouping
                    &&& is_closer(token) || token is Comma
                    &&& openers(y.stack) <= 0
                }
            },
        },
{
    lemma_unwind_openers(y);
    match token {
        TokenView::Number(_) => {},
        TokenView::Word(_) => {
            let symbol = SymbolView { token, arity: 0 };
            lemma_openers_push(y.stack, symbol);
            lemma_no_closers_push(y.stack, symbol);
        },
        TokenView::Comma => {
            if let Some(found) = unwind(y) {
                let opener = found.stack.last();
                let counted = SymbolView { token: opener.token, arity: opener.arity + 1 };
                lemma_no_closers_below(found.stack);
                lemma_openers_push(found.stack.drop_last(), counted);
                lemma_no_closers_push(found.stack.drop_last(), counted);
            }
        },
        TokenView::Oper(_) => {
            if let Some(info) = op_info(token) {
                let symbol = SymbolView { token, arity: 2 };
                lemma_settle_openers(y, info);
                lemma_openers_push(settle(y, info).stack, symbol);
                lemma_no_closers_push(settle(y, info).stack, symbol);
            }
        },
        TokenView::OParen | TokenView::OBracket => {
            let symbol = SymbolView { token, arity: 1 };
            lemma_openers_push(y.stack, symbol);
            lemma_no_closers_push(y.stack, symbol);
        },
        TokenView::CParen | TokenView::CBracket => {
            if let Some(found) = unwind(y) {
                lemma_no_closers_below(found.stack);
                let below = found.discard();
                assert(openers(below.stack) == openers(found.stack) - 1);
                if below.stack.len() > 0 && below.stack.last().token is Word {
                    lemma_no_closers_below(below.stack);
                    assert(openers(below.discard().stack) == openers(below.stack));
                }
            }
        },
    }
}

/// The conversion from position `i` on succeeds exactly where the rest of
/// the tokens is well grouped and holds known operators only.
proof fn lemma_shunt_from(tokens: Seq<TokenView>, i: int, y: Yard)
    requires
        0 <= i <= tokens.len(),
        no_closers(y.stack),
        openers(y.stack) == depth(tokens, i),
    ensures
        shunt_from(tokens, i, y) is Ok <==> grouped_from(tokens, i) && known_from(tokens, i),
        shunt_from(tokens, i, y) matches Err(e) ==> {
            ||| e == ExprError::UnknownOperator && !known_from(tokens, i)
            ||| e == ExprError::MismatchedGrouping && !grouped_from(tokens, i)
        },
    decreases tokens.len() - i,
{
    if i == tokens.len() {
        lemma_drain_openers(y);
    } else {
        lemma_step_openers(y, tokens[i]);
        assert(depth(tokens, i + 1) == depth(tokens, i) + if is_opener(tokens[i]) {
            1int
        } else if is_closer(tokens[i]) {
            -1int
        } else {
            0int
        });
        match step(y, tokens[i]) {
            Ok(next) => {
                lemma_shunt_from(tokens, i + 1, next);
                assert(grouped_from(tokens, i) <==> grouped_from(tokens, i + 1));
                assert(known_from(tokens, i) <==> known_from(tokens, i + 1));
            },
            Err(e) => {
                assert(!(grouped_from(tokens, i) && known_from(tokens, i)));
            },
        }
    }
}

/// The conversion to postfix order succeeds exactly on the token sequences
/// that are well grouped and hold known operators only. Where it fails, it
/// names a fault that the sequence has: `UnknownOperator` only where some
/// operator is unknown, `MismatchedGrouping` only where the grouping does
/// not match. It fails in no other way.
pub proof fn lemma_postfix_succeeds(tokens: Seq<TokenView>)
    ensures
        postfix_spec(tokens) is Ok <==> well_grouped(tokens) && operators_known(tokens),
        postfix_spec(tokens) matches Err(e) ==> {
            ||| e == ExprError::UnknownOperator && !operators_known(tokens)
            ||| e == ExprError::MismatchedGrouping && !well_grouped(tokens)
        },
        shunt_spec(tokens) is Ok <==> postfix_spec(tokens) is Ok,
{
    lemma_shunt_from(tokens, 0, Yard::start());
}

/// A closing symbol that no opening symbol precedes makes the conversion
/// fail: nothing is returned for the tokens before it.
pub proof fn lemma_unbalanced_closer_fails(tokens: Seq<TokenView>, at: int)
    requires
        0 <= at < tokens.len(),
        is_closer(tokens[at]),
        depth(tokens, at) <= 0,
    ensures
        postfix_spec(tokens) is Err,
        operators_known(tokens) ==> postfix_spec(tokens) == Err::<Seq<TokenView>, ExprError>(
            ExprError::MismatchedGrouping,
        ),
{
    lemma_postfix_succeeds(tokens);
}

/// Whether the token at position `j` is at fault: an operator that the
/// table does not hold, or a closing symbol or a comma outside any group.
pub open spec fn at_fault(tokens: Seq<TokenView>, j: int) -> bool {
    ||| tokens[j] is Oper && op_info(tokens[j]) is None
    ||| (is_closer(tokens[j]) || tokens[j] is Comma) && depth(tokens, j) <= 0
}

/// The failure that a token at fault brings.
pub open spec fn fault_of(token: TokenView) -> ExprError {
    if token is Oper {
        ExprError::UnknownOperator
    } else {
        ExprError::MismatchedGrouping
    }
}

/// The conversion from position `i` on fails at the first token at fault.
proof fn lemma_shunt_first_fault(tokens: Seq<TokenView>, i: int, y: Yard, at: int)
    requires
        0 <= i <= at < tokens.len(),
        no_closers(y.stack),
        openers(y.stack) == depth(tokens, i),
        forall|j: int| i <= j < at ==> !#[trigger] at_fault(tokens, j),
        at_fault(tokens, at),
    ensures
        shunt_from(tokens, i, y) == Err::<Seq<SymbolView>, ExprError>(fault_of(tokens[at])),
    decreases at - i,
{
    lemma_step_openers(y, tokens[i]);
    if i < at {
        assert(!at_fault(tokens, i));
        assert(depth(tokens, i + 1) == depth(tokens, i) + if is_opener(tokens[i]) {
            1int
        } else if is_closer(tokens[i]) {
            -1int
        } else {
            0int
        });
        if let Ok(next) = step(y, tokens[i]) {
            lemma_shunt_first_fault(tokens, i + 1, next, at);
        }
    }
}

/// The first token at fault decides: where the tokens before position `at`
/// are not at fault and the one at `at` is, the conversion fails with the
/// failure of that token, and returns nothing of what came before.
pub proof fn lemma_first_fault_decides(tokens: Seq<TokenView>, at: int)
    requires
        0 <= at < tokens.len(),
        forall|j: int| 0 <= j < at ==> !#[trigger] at_fault(tokens, j),
        at_fault(tokens, at),
    ensures
        postfix_spec(tokens) == Err::<Seq<TokenView>, ExprError>(fault_of(tokens[at])),
{
    lemma_shunt_first_fault(tokens, 0, Yard::start(), at);
}

} // verus!
