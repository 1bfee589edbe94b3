//! What the conversion to postfix order keeps.
//!
//! The postfix sequence holds the numbers, words and operators of the
//! input, each as often as the input holds it, and nothing else; the
//! numbers stand in it in the order of the input
//! ([`lemma_postfix_rearranges`]).

use crate::lexer::TokenView;
use crate::parser::{
    close, drain, is_opener, op_info, postfix_spec, separate, settle, shunt_from, shunt_spec,
    step, symbol_tokens, unwind, yields_to, OpInfo, SymbolView, Yard,
};
use vstd::multiset::{lemma_multiset_empty_len, Multiset};
use vstd::prelude::*;
use vstd::seq_lib::{to_multiset_build, to_multiset_len};

verus! {

/// Whether a token is a number, a word or an operator: what a postfix
/// sequence is made of.
pub open spec fn is_payload(token: TokenView) -> bool {
    token is Number || token is Word || token is Oper
}

/// The numbers, words and operators of a token sequence, in its order.
pub open spec fn payload(tokens: Seq<TokenView>) -> Seq<TokenView>
    decreases tokens.len(),
{
    if tokens.len() == 0 {
        Seq::empty()
    } else if is_payload(tokens.last()) {
        payload(tokens.drop_last()).push(tokens.last())
    } else {
        payload(tokens.drop_last())
    }
}

/// The numbers of a token sequence, in its order.
pub open spec fn numbers(tokens: Seq<TokenView>) -> Seq<TokenView>
    decreases tokens.len(),
{
    if tokens.len() == 0 {
        Seq::empty()
    } else if tokens.last() is Number {
        numbers(tokens.drop_last()).push(tokens.last())
    } else {
        numbers(tokens.drop_last())
    }
}

/// The numbers, words and operators that wait on a stack.
pub open spec fn held(stack: Seq<SymbolView>) -> Multiset<TokenView> {
    payload(symbol_tokens(stack)).to_multiset()
}

/// The tokens that were sent to an output.
pub open spec fn sent(output: Seq<SymbolView>) -> Multiset<TokenView> {
    symbol_tokens(output).to_multiset()
}

/// The tokens that a state holds, on the stack or in the output.
pub open spec fn bag(y: Yard) -> Multiset<TokenView> {
    sent(y.output).add(held(y.stack))
}

/// The numbers of an output, in its order.
pub open spec fn numbers_sent(output: Seq<SymbolView>) -> Seq<TokenView> {
    numbers(symbol_tokens(output))
}

/// Whether a symbol can wait on the stack: a word, an operator of the
/// table with its two operands, or an opening symbol.
pub open spec fn is_held_symbol(symbol: SymbolView) -> bool {
    ||| symbol.token is Word
    ||| symbol.token is Oper && symbol.arity == 2 && op_info(symbol.token) is Some
    ||| is_opener(symbol.token)
}

/// Whether a symbol can stand in a postfix sequence: a number, which takes
/// no operand, a word, or an operator of the table with its two operands.
pub open spec fn is_postfix_symbol(symbol: SymbolView) -> bool {
    ||| symbol.token is Number && symbol.arity == 0
    ||| symbol.token is Word
    ||| symbol.token is Oper && symbol.arity == 2 && op_info(symbol.token) is Some
}

/// Whether a stack holds nothing but what can wait there.
pub open spec fn stack_kinds(stack: Seq<SymbolView>) -> bool {
    forall|k: int| 0 <= k < stack.len() ==> is_held_symbol(#[trigger] stack[k])
}

/// Whether an output holds nothing but symbols of a postfix sequence.
pub open spec fn output_kinds(output: Seq<SymbolView>) -> bool {
    forall|k: int| 0 <= k < output.len() ==> is_postfix_symbol(#[trigger] output[k])
}

/// An empty sequence holds nothing.
proof fn lemma_empty_to_multiset()
    ensures
        Seq::<TokenView>::empty().to_multiset() == Multiset::<TokenView>::empty(),
{
    let none = Seq::<TokenView>::empty();
    to_multiset_len(none);
    lemma_multiset_empty_len(none.to_multiset());
}

/// What a token at the end adds to the payload and to the numbers.
proof fn lemma_payload_push(tokens: Seq<TokenView>, token: TokenView)
    ensures
        payload(tokens.push(token)) == if is_payload(token) {
            payload(tokens).push(token)
        } else {
            payload(tokens)
        },
        numbers(tokens.push(token)) == if token is Number {
            numbers(tokens).push(token)
        } else {
            numbers(tokens)
        },
{
    assert(tokens.push(token).drop_last() =~= tokens);
}

/// What a symbol on top adds to what waits on the stack.
proof fn lemma_held_push(stack: Seq<SymbolView>, symbol: SymbolView)
    ensures
        held(stack.push(symbol)) == if is_payload(symbol.token) {
            held(stack).insert(symbol.token)
        } else {
            held(stack)
        },
{
    assert(symbol_tokens(stack.push(symbol)) =~= symbol_tokens(stack).push(symbol.token));
    lemma_payload_push(symbol_tokens(stack), symbol.token);
    to_multiset_build(payload(symbol_tokens(stack)), symbol.token);
}

/// What waits on a stack, by its top and the rest.
proof fn lemma_held_top(stack: Seq<SymbolView>)
    requires
        stack.len() > 0,
    ensures
        held(stack) == if is_payload(stack.last().token) {
            held(stack.drop_last()).insert(stack.last().token)
        } else {
            held(stack.drop_last())
        },
{
    assert(stack.drop_last().push(stack.last()) =~= stack);
    lemma_held_push(stack.drop_last(), stack.last());
}

/// What a symbol at the end adds to an output.
proof fn lemma_sent_push(output: Seq<SymbolView>, symbol: SymbolView)
    ensures
        sent(output.push(symbol)) == sent(output).insert(symbol.token),
        numbers_sent(output.push(symbol)) == if symbol.token is Number {
            numbers_sent(output).push(symbol.token)
        } else {
            numbers_sent(output)
        },
        output_kinds(output) && is_postfix_symbol(symbol) ==> output_kinds(output.push(symbol)),
{
    assert(symbol_tokens(output.push(symbol)) =~= symbol_tokens(output).push(symbol.token));
    lemma_payload_push(symbol_tokens(output), symbol.token);
    to_multiset_build(symbol_tokens(output), symbol.token);
    if output_kinds(output) && is_postfix_symbol(symbol) {
        assert forall|k: int| 0 <= k < output.push(symbol).len() implies is_postfix_symbol(
            #[trigger] output.push(symbol)[k],
        ) by {
            if k < output.len() {
                assert(output.push(symbol)[k] == output[k]);
            }
        }
    }
}

/// A stack of the right kinds stays one without its top.
proof fn lemma_stack_kinds_below(stack: Seq<SymbolView>)
    requires
        stack_kinds(stack),
        stack.len() > 0,
    ensures
        stack_kinds(stack.drop_last()),
        is_held_symbol(stack.last()),
{
    assert forall|k: int| 0 <= k < stack.drop_last().len() implies is_held_symbol(
        #[trigger] stack.drop_last()[k],
    ) by {
        assert(stack.drop_last()[k] == stack[k]);
    }
    assert(stack[stack.len() - 1] == stack.last());
}

/// A stack of the right kinds stays one with a symbol that can wait there.
proof fn lemma_stack_kinds_push(stack: Seq<SymbolView>, symbol: SymbolView)
    requires
        stack_kinds(stack),
        is_held_symbol(symbol),
    ensures
        stack_kinds(stack.push(symbol)),
{
    assert forall|k: int| 0 <= k < stack.push(symbol).len() implies is_held_symbol(
        #[trigger] stack.push(symbol)[k],
    ) by {
        if k < stack.len() {
            assert(stack.push(symbol)[k] == stack[k]);
        }
    }
}

/// Whether two states hold the same tokens, with the same numbers in the
/// output, and `next` is of the right kinds.
pub open spec fn keeps(y: Yard, next: Yard) -> bool {
    &&& stack_kinds(next.stack)
    &&& output_kinds(next.output)
    &&& bag(next) == bag(y)
    &&& numbers_sent(next.output) == numbers_sent(y.output)
}

/// Moving a word or an operator from the stack to the output keeps what the
/// state holds.
proof fn lemma_release_keeps(y: Yard)
    requires
        stack_kinds(y.stack),
        output_kinds(y.output),
        y.stack.len() > 0,
        !is_opener(y.stack.last().token),
    ensures
        keeps(y, y.release()),
{
    lemma_stack_kinds_below(y.stack);
    lemma_held_top(y.stack);
    lemma_sent_push(y.output, y.stack.last());
    assert(bag(y.release()) =~= bag(y));
}

/// Unwinding keeps what the state holds.
proof fn lemma_unwind_keeps(y: Yard)
    requires
        stack_kinds(y.stack),
        output_kinds(y.output),
    ensures
        unwind(y) matches Some(found) ==> {
            &&& keeps(y, found)
            &&& found.stack.len() > 0
            &&& is_opener(found.stack.last().token)
        },
    decreases y.stack.len(),
{
    if y.stack.len() > 0 && !is_opener(y.stack.last().token) {
        lemma_release_keeps(y);
        lemma_unwind_keeps(y.release());
    }
}

/// Settling keeps what the state holds.
proof fn lemma_settle_keeps(y: Yard, info: OpInfo)
    requires
        stack_kinds(y.stack),
        output_kinds(y.output),
    ensures
        keeps(y, settle(y, info)),
    decreases y.stack.len(),
{
    if y.stack.len() > 0 && yields_to(y.stack.last().token, info) {
        lemma_release_keeps(y);
        lemma_settle_keeps(y.release(), info);
    }
}

/// What is left at the end goes to the output as it is.
proof fn lemma_drain_keeps(y: Yard)
    requires
        stack_kinds(y.stack),
        output_kinds(y.output),
    ensures
        drain(y) matches Ok(symbols) ==> {
            &&& output_kinds(symbols)
            &&& symbol_tokens(symbols).to_multiset() == bag(y)
            &&& numbers(symbol_tokens(symbols)) == numbers_sent(y.output)
        },
    decreases y.stack.len(),
{
    if y.stack.len() == 0 {
        lemma_empty_to_multiset();
        assert(symbol_tokens(y.stack) =~= Seq::<TokenView>::empty());
        assert(bag(y) =~= sent(y.output));
    } else if !is_opener(y.stack.last().token) {
        lemma_release_keeps(y);
        lemma_drain_keeps(y.release());
    }
}

/// One token adds itself to what the state holds if it is a number, a word
/// or an operator, and adds nothing if it is not. A number goes to the end
/// of the output.
proof fn lemma_step_keeps(y: Yard, token: TokenView)
    requires
        stack_kinds(y.stack),
        output_kinds(y.output),
    ensures
        step(y, token) matches Ok(next) ==> {
            &&& stack_kinds(next.stack)
            &&& output_kinds(next.output)
            &&& bag(next) == if is_payload(token) {
                bag(y).insert(token)
            } else {
                bag(y)
            }
            &&& numbers_sent(next.output) == if token is Number {
                numbers_sent(y.output).push(token)
            } else {
                numbers_sent(y.output)
            }
        },
{
    lemma_unwind_keeps(y);
    match token {
        TokenView::Number(_) => {
            let symbol = SymbolView { token, arity: 0 };
            lemma_sent_push(y.output, symbol);
            assert(bag(y.emit(symbol)) =~= bag(y).insert(token));
        },
        TokenView::Word(_) => {
            let symbol = SymbolView { token, arity: 0 };
            lemma_held_push(y.stack, symbol);
            lemma_stack_kinds_push(y.stack, symbol);
            assert(bag(y.hold(symbol)) =~= bag(y).insert(token));
        },
        TokenView::Comma => {
            if let Some(found) = unwind(y) {
                let opener = found.stack.last();
                let counted = SymbolView { token: opener.token, arity: opener.arity + 1 };
                lemma_stack_kinds_below(found.stack);
                lemma_held_top(found.stack);
                lemma_held_push(found.stack.drop_last(), counted);
                lemma_stack_kinds_push(found.stack.drop_last(), counted);
                assert(bag(separate(found)) =~= bag(found));
            }
        },
        TokenView::Oper(_) => {
            if let Some(info) = op_info(token) {
                let symbol = SymbolView { token, arity: 2 };
                let settled = settle(y, info);
                lemma_settle_keeps(y, info);
                lemma_held_push(settled.stack, symbol);
                lemma_stack_kinds_push(settled.stack, symbol);
                assert(bag(settled.hold(symbol)) =~= bag(y).insert(token));
            }
        },
        TokenView::OParen | TokenView::OBracket => {
            let symbol = SymbolView { token, arity: 1 };
            lemma_held_push(y.stack, symbol);
            lemma_stack_kinds_push(y.stack, symbol);
            assert(bag(y.hold(symbol)) =~= bag(y));
        },
        TokenView::CParen | TokenView::CBracket => {
            if let Some(found) = unwind(y) {
                let opener = found.stack.last();
                let below = found.discard();
                lemma_stack_kinds_below(found.stack);
                lemma_held_top(found.stack);
                assert(bag(below) =~= bag(found));
                if below.stack.len() > 0 && below.stack.last().token is Word {
                    let function = SymbolView {
                        token: below.stack.last().token,
                        arity: opener.arity,
                    };
                    lemma_stack_kinds_below(below.stack);
                    lemma_held_top(below.stack);
                    lemma_sent_push(below.output, function);
                    assert(bag(close(found)) =~= bag(below));
                }
            }
        },
    }
}

/// The conversion from position `i` on adds the payload of the rest of the
/// tokens to what the state holds.
proof fn lemma_shunt_keeps(tokens: Seq<TokenView>, i: int, y: Yard)
    requires
        0 <= i <= tokens.len(),
        stack_kinds(y.stack),
        output_kinds(y.output),
        bag(y) == payload(tokens.take(i)).to_multiset(),
        numbers_sent(y.output) == numbers(tokens.take(i)),
    ensures
        shunt_from(tokens, i, y) matches Ok(symbols) ==> {
            &&& output_kinds(symbols)
            &&& symbol_tokens(symbols).to_multiset() == payload(tokens).to_multiset()
            &&& numbers(symbol_tokens(symbols)) == numbers(tokens)
        },
    decreases tokens.len() - i,
{
    if i == tokens.len() {
        assert(tokens.take(i) =~= tokens);
        lemma_drain_keeps(y);
    } else {
        lemma_step_keeps(y, tokens[i]);
        assert(tokens.take(i + 1) =~= tokens.take(i).push(tokens[i]));
        lemma_payload_push(tokens.take(i), tokens[i]);
        to_multiset_build(payload(tokens.take(i)), tokens[i]);
        if let Ok(next) = step(y, tokens[i]) {
            lemma_shunt_keeps(tokens, i + 1, next);
        }
    }
}

/// The postfix sequence is a rearrangement of the numbers, words and
/// operators of the input: it holds each of them as often as the input
/// does, and no grouping symbol and no comma. The numbers stand in it in
/// the order in which they stand in the input. Each number in it takes no
/// operand, and each operator is one of the table and takes two.
pub proof fn lemma_postfix_rearranges(tokens: Seq<TokenView>)
    ensures
        postfix_spec(tokens) matches Ok(postfix) ==> {
            &&& postfix.to_multiset() == payload(tokens).to_multiset()
            &&& postfix.len() == payload(tokens).len()
            &&& numbers(postfix) == numbers(tokens)
        },
        shunt_spec(tokens) matches Ok(symbols) ==> forall|k: int|
            0 <= k < symbols.len() ==> is_postfix_symbol(#[trigger] symbols[k]),
{
    let y = Yard::start();
    lemma_empty_to_multiset();
    assert(tokens.take(0) =~= Seq::<TokenView>::empty());
    assert(symbol_tokens(y.stack) =~= Seq::<TokenView>::empty());
    assert(symbol_tokens(y.output) =~= Seq::<TokenView>::empty());
    assert(bag(y) =~= payload(tokens.take(0)).to_multiset());
    lemma_shunt_keeps(tokens, 0, y);
    if let Ok(postfix) = postfix_spec(tokens) {
        postfix.to_multiset_ensures();
        payload(tokens).to_multiset_ensures();
    }
}

} // verus!
