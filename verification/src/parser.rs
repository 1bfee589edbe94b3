//! The parser: from tokens in infix order to an expression tree.
//!
//! The tokens are first put into postfix order, in one pass from left to
//! right with a stack of pending symbols ([`shunt_spec`]). The postfix
//! sequence is then reduced to a tree with a stack of expressions
//! ([`reduce_spec`]).

use crate::error::ExprError;
use crate::lexer::{token_views, tokens_result, Token, TokenView};
use crate::rational::{fraction_of, Rational};
use vstd::prelude::*;

verus! {

/// What the operator table holds for an operator.
#[derive(Clone, Copy, Debug, PartialEq, Eq, Structural)]
pub struct OpInfo {
    /// Whether operators of the same precedence group from the left.
    pub left_assoc: bool,
    /// The precedence: an operator binds its operands before those of
    /// lower precedence do.
    pub precedence: u8,
}

/// The operator table: `+` and `-` group from the left with precedence 0,
/// `*` and `/` group from the left with precedence 1. Any other token has no
/// entry.
pub open spec fn op_info(token: TokenView) -> Option<OpInfo> {
    match token {
        TokenView::Oper(s) => {
            if s == seq!['+'] || s == seq!['-'] {
                Some(OpInfo { left_assoc: true, precedence: 0 })
            } else if s == seq!['*'] || s == seq!['/'] {
                Some(OpInfo { left_assoc: true, precedence: 1 })
            } else {
                None
            }
        },
        _ => None,
    }
}

/// Looks a token up in the operator table.
pub fn get_op_info(op_token: &Token) -> (res: Option<OpInfo>)
    ensures
        res == op_info(op_token@),
{
    if let Token::Oper(s) = op_token {
        let text = s.as_str();
        if text.unicode_len() == 1 {
            let c = text.get_char(0);
            assert(text@ =~= seq![c]);
            if c == '+' || c == '-' {
                return Some(OpInfo { left_assoc: true, precedence: 0 });
            }
            if c == '*' || c == '/' {
                return Some(OpInfo { left_assoc: true, precedence: 1 });
            }
            assert(seq!['+'][0] == '+' && seq!['-'][0] == '-' && seq!['*'][0] == '*' && seq!['/'][0]
                == '/');
        } else {
            assert(seq!['+'].len() == 1 && seq!['-'].len() == 1 && seq!['*'].len() == 1
                && seq!['/'].len() == 1);
        }
    }
    None
}

/// A token of a postfix sequence with the number of operands that it takes:
/// none for a number, two for an operator, and for the name of a function
/// the number of arguments in the list that followed it, which is one more
/// than the commas of the list. A word that no list followed takes none.
///
/// On the stack of pending symbols, an opening symbol counts in this place
/// the arguments of its list.
#[derive(Debug, PartialEq, Eq)]
pub struct Symbol {
    /// The token.
    pub token: Token,
    /// The number of operands.
    pub arity: usize,
}

/// A symbol as a mathematical value.
pub struct SymbolView {
    pub token: TokenView,
    pub arity: nat,
}

impl View for Symbol {
    type V = SymbolView;

    open spec fn view(&self) -> SymbolView {
        SymbolView { token: self.token@, arity: self.arity as nat }
    }
}

/// The views of a sequence of symbols, one for one.
pub open spec fn symbol_views(symbols: Seq<Symbol>) -> Seq<SymbolView> {
    Seq::new(symbols.len(), |i: int| symbols[i]@)
}

/// The tokens of a sequence of symbols, one for one.
pub open spec fn symbol_tokens(symbols: Seq<SymbolView>) -> Seq<TokenView> {
    Seq::new(symbols.len(), |i: int| symbols[i].token)
}

/// The result of a function that returns symbols, over views.
pub open spec fn symbols_result(res: Result<Vec<Symbol>, ExprError>) -> Result<
    Seq<SymbolView>,
    ExprError,
> {
    match res {
        Ok(symbols) => Ok(symbol_views(symbols@)),
        Err(e) => Err(e),
    }
}

/// The views of a sequence that grew by one symbol.
proof fn lemma_symbol_views_push(symbols: Seq<Symbol>, s: Symbol)
    ensures
        symbol_views(symbols.push(s)) == symbol_views(symbols).push(s@),
{
    assert(symbol_views(symbols.push(s)) =~= symbol_views(symbols).push(s@));
}

/// The views of a sequence that lost its last symbol.
proof fn lemma_symbol_views_pop(symbols: Seq<Symbol>)
    requires
        symbols.len() > 0,
    ensures
        symbol_views(symbols.drop_last()) == symbol_views(symbols).drop_last(),
        symbol_views(symbols).last() == symbols.last()@,
{
    assert(symbol_views(symbols.drop_last()) =~= symbol_views(symbols).drop_last());
}

/// Whether a token is `(` or `[`.
pub open spec fn is_opener(token: TokenView) -> bool {
    token is OParen || token is OBracket
}

/// Whether a token is `)` or `]`.
pub open spec fn is_closer(token: TokenView) -> bool {
    token is CParen || token is CBracket
}

/// The state of the conversion to postfix order: the stack of pending
/// symbols, its top last, and the output so far.
pub struct Yard {
    pub stack: Seq<SymbolView>,
    pub output: Seq<SymbolView>,
}

impl Yard {
    /// The state before the first token.
    pub open spec fn start() -> Yard {
        Yard { stack: Seq::empty(), output: Seq::empty() }
    }

    /// Appends a symbol to the output.
    pub open spec fn emit(self, symbol: SymbolView) -> Yard {
        Yard { stack: self.stack, output: self.output.push(symbol) }
    }

    /// Pushes a symbol onto the stack.
    pub open spec fn hold(self, symbol: SymbolView) -> Yard {
        Yard { stack: self.stack.push(symbol), output: self.output }
    }

    /// Drops the top of the stack.
    pub open spec fn discard(self) -> Yard
        recommends
            self.stack.len() > 0,
    {
        Yard { stack: self.stack.drop_last(), output: self.output }
    }

    /// Moves the top of the stack to the output.
    pub open spec fn release(self) -> Yard
        recommends
            self.stack.len() > 0,
    {
        self.discard().emit(self.stack.last())
    }
}

/// Moves symbols from the stack to the output until an opening symbol is
/// on top, which stays. `None` where the stack holds no opening symbol.
pub open spec fn unwind(y: Yard) -> Option<Yard>
    decreases y.stack.len(),
{
    if y.stack.len() == 0 {
        None
    } else if is_opener(y.stack.last().token) {
        Some(y)
    } else {
        unwind(y.release())
    }
}

/// Whether a pending symbol leaves the stack when an operator with `info`
/// arrives: it is an operator too, and the new one groups from the left and
/// does not bind more tightly, or groups from the right and binds less
/// tightly.
pub open spec fn yields_to(pending: TokenView, info: OpInfo) -> bool {
    match op_info(pending) {
        Some(top) => {
            ||| info.left_assoc && info.precedence <= top.precedence
            ||| !info.left_assoc && info.precedence < top.precedence
        },
        None => false,
    }
}

/// Moves to the output the operators on top of the stack that yield to an
/// operator with `info`.
pub open spec fn settle(y: Yard, info: OpInfo) -> Yard
    decreases y.stack.len(),
{
    if y.stack.len() > 0 && yields_to(y.stack.last().token, info) {
        settle(y.release(), info)
    } else {
        y
    }
}

/// Counts one more argument in the list of the opening symbol on top of the
/// stack.
pub open spec fn separate(y: Yard) -> Yard
    recommends
        y.stack.len() > 0,
{
    let opener = y.stack.last();
    y.discard().hold(SymbolView { token: opener.token, arity: opener.arity + 1 })
}

/// Closes the list of the opening symbol on top of the stack: the symbol
/// is dropped, and a word directly below it goes to the output as the
/// function that is applied to the arguments of the list.
pub open spec fn close(y: Yard) -> Yard
    recommends
        y.stack.len() > 0,
{
    let opener = y.stack.last();
    let below = y.discard();
    if below.stack.len() > 0 && below.stack.last().token is Word {
        below.discard().emit(SymbolView { token: below.stack.last().token, arity: opener.arity })
    } else {
        below
    }
}

/// What one token does to the state.
pub open spec fn step(y: Yard, token: TokenView) -> Result<Yard, ExprError> {
    match token {
        TokenView::Number(_) => Ok(y.emit(SymbolView { token, arity: 0 })),
        TokenView::Word(_) => Ok(y.hold(SymbolView { token, arity: 0 })),
        TokenView::Comma => match unwind(y) {
            Some(found) => Ok(separate(found)),
            None => Err(ExprError::MismatchedGrouping),
        },
        TokenView::Oper(_) => match op_info(token) {
            Some(info) => Ok(settle(y, info).hold(SymbolView { token, arity: 2 })),
            None => Err(ExprError::UnknownOperator),
        },
        TokenView::OParen | TokenView::OBracket => Ok(y.hold(SymbolView { token, arity: 1 })),
        TokenView::CParen | TokenView::CBracket => match unwind(y) {
            Some(found) => Ok(close(found)),
            None => Err(ExprError::MismatchedGrouping),
        },
    }
}

/// Moves what is left on the stack to the output, after the last token. An
/// opening symbol that is still there was never closed.
pub open spec fn drain(y: Yard) -> Result<Seq<SymbolView>, ExprError>
    decreases y.stack.len(),
{
    if y.stack.len() == 0 {
        Ok(y.output)
    } else if is_opener(y.stack.last().token) || is_closer(y.stack.last().token) {
        Err(ExprError::MismatchedGrouping)
    } else {
        drain(y.release())
    }
}

/// The postfix sequence that results from state `y` and the tokens from
/// position `i` on.
pub open spec fn shunt_from(tokens: Seq<TokenView>, i: int, y: Yard) -> Result<
    Seq<SymbolView>,
    ExprError,
>
    decreases tokens.len() - i,
{
    if i < 0 || i >= tokens.len() {
        drain(y)
    } else {
        match step(y, tokens[i]) {
            Ok(next) => shunt_from(tokens, i + 1, next),
            Err(e) => Err(e),
        }
    }
}

/// The postfix order of a sequence of tokens in infix order, each symbol
/// with the number of its operands.
pub open spec fn shunt_spec(tokens: Seq<TokenView>) -> Result<Seq<SymbolView>, ExprError> {
    shunt_from(tokens, 0, Yard::start())
}

/// The postfix order of a sequence of tokens in infix order: what
/// `to_postfix` returns for it.
pub open spec fn postfix_spec(tokens: Seq<TokenView>) -> Result<Seq<TokenView>, ExprError> {
    match shunt_spec(tokens) {
        Ok(symbols) => Ok(symbol_tokens(symbols)),
        Err(e) => Err(e),
    }
}

/// The state that a stack and an output of symbols stand for.
pub open spec fn yard_of(stack: Seq<Symbol>, output: Seq<Symbol>) -> Yard {
    Yard { stack: symbol_views(stack), output: symbol_views(output) }
}

/// Whether every opening symbol on the stack counts at most `bound`
/// arguments.
pub open spec fn counts_within(stack: Seq<SymbolView>, bound: int) -> bool {
    forall|k: int|
        0 <= k < stack.len() && is_opener(#[trigger] stack[k].token) ==> stack[k].arity <= bound
}

/// Whether `part` is what is left of `whole` after some symbols were taken
/// from its top.
pub open spec fn is_lower_part(part: Seq<SymbolView>, whole: Seq<SymbolView>) -> bool {
    part.len() <= whole.len() && part == whole.take(part.len() as int)
}

/// Unwinding only takes symbols from the stack, and leaves an opening
/// symbol on top.
pub proof fn lemma_unwind(y: Yard)
    ensures
        unwind(y) matches Some(found) ==> {
            &&& found.stack.len() > 0
            &&& is_opener(found.stack.last().token)
            &&& is_lower_part(found.stack, y.stack)
        },
    decreases y.stack.len(),
{
    if y.stack.len() == 0 {
    } else if is_opener(y.stack.last().token) {
        assert(y.stack.take(y.stack.len() as int) =~= y.stack);
    } else {
        lemma_unwind(y.release());
        if let Some(found) = unwind(y) {
            assert(found.stack =~= y.stack.take(found.stack.len() as int));
        }
    }
}

/// Settling only takes symbols from the stack.
pub proof fn lemma_settle(y: Yard, info: OpInfo)
    ensures
        is_lower_part(settle(y, info).stack, y.stack),
    decreases y.stack.len(),
{
    if y.stack.len() > 0 && yields_to(y.stack.last().token, info) {
        lemma_settle(y.release(), info);
        assert(settle(y, info).stack =~= y.stack.take(settle(y, info).stack.len() as int));
    } else {
        assert(y.stack.take(y.stack.len() as int) =~= y.stack);
    }
}

/// A token adds at most one to the largest count of arguments on the stack.
pub proof fn lemma_step_counts(y: Yard, token: TokenView, bound: int)
    requires
        counts_within(y.stack, bound),
        bound >= 0,
    ensures
        step(y, token) matches Ok(next) ==> counts_within(next.stack, bound + 1),
{
    lemma_unwind(y);
    if let Some(info) = op_info(token) {
        lemma_settle(y, info);
    }
    if let Ok(next) = step(y, token) {
        assert forall|k: int|
            0 <= k < next.stack.len() && is_opener(
                #[trigger] next.stack[k].token,
            ) implies next.stack[k].arity <= bound + 1 by {
            if k < y.stack.len() && next.stack[k] == y.stack[k] {
                assert(is_opener(y.stack[k].token));
            }
        }
    }
}

/// Whether a token is `(` or `[`.
fn opens(token: &Token) -> (res: bool)
    ensures
        res == is_opener(token@),
{
    match token {
        Token::OParen | Token::OBracket => true,
        _ => false,
    }
}

/// Whether a token is `)` or `]`.
fn closes(token: &Token) -> (res: bool)
    ensures
        res == is_closer(token@),
{
    match token {
        Token::CParen | Token::CBracket => true,
        _ => false,
    }
}

/// Takes the top of the stack.
fn take_top(stack: &mut Vec<Symbol>) -> (top: Symbol)
    requires
        old(stack).len() > 0,
    ensures
        final(stack)@ == old(stack)@.drop_last(),
        top == old(stack)@.last(),
        symbol_views(final(stack)@) == symbol_views(old(stack)@).drop_last(),
        top@ == symbol_views(old(stack)@).last(),
{
    proof {
        lemma_symbol_views_pop(stack@);
    }
    let top = stack.pop().unwrap();
    assert(stack@ =~= old(stack)@.drop_last());
    top
}

/// Puts a symbol on a stack or at the end of an output.
fn put(symbols: &mut Vec<Symbol>, symbol: Symbol)
    ensures
        final(symbols)@ == old(symbols)@.push(symbol),
        symbol_views(final(symbols)@) == symbol_views(old(symbols)@).push(symbol@),
{
    proof {
        lemma_symbol_views_push(symbols@, symbol);
    }
    symbols.push(symbol);
}

/// Moves symbols from the stack to the output until an opening symbol is
/// on top. Tells whether there is one.
fn unwind_to_opener(stack: &mut Vec<Symbol>, output: &mut Vec<Symbol>) -> (found: bool)
    ensures
        match unwind(yard_of(old(stack)@, old(output)@)) {
            Some(y) => found && yard_of(final(stack)@, final(output)@) == y,
            None => !found,
        },
{
    let ghost start = yard_of(stack@, output@);
    loop
        invariant
            start == yard_of(old(stack)@, old(output)@),
            unwind(yard_of(stack@, output@)) == unwind(start),
        decreases stack.len(),
    {
        if stack.len() == 0 {
            return false;
        }
        if opens(&stack[stack.len() - 1].token) {
            return true;
        }
        let top = take_top(stack);
        put(output, top);
    }
}

/// Moves to the output the operators on top of the stack that yield to an
/// operator with `info`.
fn settle_operators(stack: &mut Vec<Symbol>, output: &mut Vec<Symbol>, info: OpInfo)
    ensures
        yard_of(final(stack)@, final(output)@) == settle(
            yard_of(old(stack)@, old(output)@),
            info,
        ),
{
    let ghost start = yard_of(stack@, output@);
    loop
        invariant
            start == yard_of(old(stack)@, old(output)@),
            settle(yard_of(stack@, output@), info) == settle(start, info),
        decreases stack.len(),
    {
        if stack.len() == 0 {
            return ;
        }
        let yields = match get_op_info(&stack[stack.len() - 1].token) {
            Some(top) => (info.left_assoc && info.precedence <= top.precedence) || (
            !info.left_assoc && info.precedence < top.precedence),
            None => false,
        };
        if !yields {
            return ;
        }
        let top = take_top(stack);
        put(output, top);
    }
}

/// Moves what is left on the stack to the output. Tells whether no
/// grouping symbol was among it.
fn drain_stack(stack: &mut Vec<Symbol>, output: &mut Vec<Symbol>) -> (clean: bool)
    ensures
        match drain(yard_of(old(stack)@, old(output)@)) {
            Ok(symbols) => clean && symbol_views(final(output)@) == symbols,
            Err(e) => !clean && e == ExprError::MismatchedGrouping,
        },
{
    let ghost start = yard_of(stack@, output@);
    loop
        invariant
            start == yard_of(old(stack)@, old(output)@),
            drain(yard_of(stack@, output@)) == drain(start),
        decreases stack.len(),
    {
        if stack.len() == 0 {
            return true;
        }
        let top = take_top(stack);
        if opens(&top.token) || closes(&top.token) {
            return false;
        }
        put(output, top);
    }
}

/// Whether a token is a word.
fn names(token: &Token) -> (res: bool)
    ensures
        res == (token@ is Word),
{
    match token {
        Token::Word(_) => true,
        _ => false,
    }
}

/// Puts a sequence of tokens in infix order into postfix order, and counts
/// for each symbol of the result the operands that it takes.
///
/// One pass from left to right. A number goes to the output. A word waits
/// on the stack as the name of a function. An operator first sends to the
/// output the operators on the stack that yield to it, then waits there.
/// An opening symbol waits on the stack. A comma sends the stack to the
/// output down to the nearest opening symbol, as a closing symbol does,
/// which also drops that symbol and sends a word below it to the output.
/// What is left at the end goes to the output.
///
/// It fails with `UnknownOperator` at an operator that the table does not
/// hold, and with `MismatchedGrouping` at a comma or a closing symbol
/// without an opening symbol and at an opening symbol that is never closed.
pub fn shunt(tokens: &Vec<Token>) -> (res: Result<Vec<Symbol>, ExprError>)
    ensures
        symbols_result(res) == shunt_spec(token_views(tokens@)),
{
    let mut stack: Vec<Symbol> = Vec::new();
    let mut output: Vec<Symbol> = Vec::new();
    let ghost views = token_views(tokens@);
    let mut i: usize = 0;
    assert(yard_of(stack@, output@) == Yard::start()) by {
        assert(symbol_views(stack@) =~= Seq::<SymbolView>::empty());
        assert(symbol_views(output@) =~= Seq::<SymbolView>::empty());
    }
    while i < tokens.len()
        invariant
            i <= tokens.len(),
            views == token_views(tokens@),
            shunt_from(views, i as int, yard_of(stack@, output@)) == shunt_spec(views),
            counts_within(symbol_views(stack@), i as int),
        decreases tokens.len() - i,
    {
        let token = &tokens[i];
        let ghost before = yard_of(stack@, output@);
        proof {
            lemma_step_counts(before, token@, i as int);
            lemma_unwind(before);
        }
        match token {
            Token::Number(_) => {
                put(&mut output, Symbol { token: token.clone(), arity: 0 });
            },
            Token::Word(_) => {
                put(&mut stack, Symbol { token: token.clone(), arity: 0 });
            },
            Token::Comma => {
                if !unwind_to_opener(&mut stack, &mut output) {
                    return Err(ExprError::MismatchedGrouping);
                }
                let opener = take_top(&mut stack);
                put(&mut stack, Symbol { token: opener.token, arity: opener.arity + 1 });
            },
            Token::Oper(_) => {
                match get_op_info(token) {
                    Some(info) => {
                        settle_operators(&mut stack, &mut output, info);
                        put(&mut stack, Symbol { token: token.clone(), arity: 2 });
                    },
                    None => {
                        return Err(ExprError::UnknownOperator);
                    },
                }
            },
            Token::OParen | Token::OBracket => {
                put(&mut stack, Symbol { token: token.clone(), arity: 1 });
            },
            Token::CParen | Token::CBracket => {
                if !unwind_to_opener(&mut stack, &mut output) {
                    return Err(ExprError::MismatchedGrouping);
                }
                let opener = take_top(&mut stack);
                if stack.len() > 0 && names(&stack[stack.len() - 1].token) {
                    let function = take_top(&mut stack);
                    put(&mut output, Symbol { token: function.token, arity: opener.arity });
                }
            },
        }
        assert(step(before, views[i as int]) == Ok::<Yard, ExprError>(yard_of(stack@, output@)));
        i += 1;
    }
    if drain_stack(&mut stack, &mut output) {
        Ok(output)
    } else {
        Err(ExprError::MismatchedGrouping)
    }
}

/// Puts a sequence of tokens in infix order into postfix order, in which
/// each operator and each name of a function follows its operands.
///
/// It fails with `UnknownOperator` at an operator that the table does not
/// hold, and with `MismatchedGrouping` where the grouping symbols and
/// commas do not match.
pub fn to_postfix(tokens: Vec<Token>) -> (res: Result<Vec<Token>, ExprError>)
    ensures
        tokens_result(res) == postfix_spec(token_views(tokens@)),
{
    let mut symbols = match shunt(&tokens) {
        Ok(symbols) => symbols,
        Err(e) => {
            return Err(e);
        },
    };
    let mut postfix: Vec<Token> = Vec::new();
    let mut i: usize = 0;
    while i < symbols.len()
        invariant
            i <= symbols.len(),
            token_views(postfix@) == symbol_tokens(symbol_views(symbols@)).take(i as int),
        decreases symbols.len() - i,
    {
        let token = symbols[i].token.clone();
        proof {
            crate::lexer::lemma_token_views_push(postfix@, token);
            assert(symbol_tokens(symbol_views(symbols@)).take(i + 1) =~= symbol_tokens(
                symbol_views(symbols@),
            ).take(i as int).push(token@));
        }
        postfix.push(token);
        i += 1;
    }
    assert(symbol_tokens(symbol_views(symbols@)).take(i as int) =~= symbol_tokens(
        symbol_views(symbols@),
    ));
    Ok(postfix)
}

/// An operator or a function of one operand, by its symbol.
#[derive(Debug, PartialEq, Eq)]
pub struct UnaryOperator {
    pub symbol: String,
}

/// An operator or a function of two operands, by its symbol.
#[derive(Debug, PartialEq, Eq)]
pub struct BinaryOperator {
    pub symbol: String,
}

/// An expression tree. Each node owns the trees of its operands.
#[derive(Debug, PartialEq, Eq)]
pub enum Expression {
    /// An operator applied to one operand.
    UnaryOp(UnaryOperator, Box<Expression>),
    /// An operator applied to a left and a right operand.
    BinaryOp(BinaryOperator, Box<Expression>, Box<Expression>),
    /// A numeric literal.
    Value(Rational),
}

/// An expression tree as a mathematical value.
pub enum ExpressionView {
    UnaryOp(Seq<char>, Box<ExpressionView>),
    BinaryOp(Seq<char>, Box<ExpressionView>, Box<ExpressionView>),
    Value(Rational),
}

/// The value of an expression tree: its nodes with their symbols as
/// sequences of characters.
pub open spec fn expression_view(expression: Expression) -> ExpressionView
    decreases expression,
{
    match expression {
        Expression::UnaryOp(op, operand) => ExpressionView::UnaryOp(
            op.symbol@,
            Box::new(expression_view(*operand)),
        ),
        Expression::BinaryOp(op, left, right) => ExpressionView::BinaryOp(
            op.symbol@,
            Box::new(expression_view(*left)),
            Box::new(expression_view(*right)),
        ),
        Expression::Value(r) => ExpressionView::Value(r),
    }
}

impl View for Expression {
    type V = ExpressionView;

    open spec fn view(&self) -> ExpressionView {
        expression_view(*self)
    }
}

impl UnaryOperator {
    /// The node that applies this operator to an operand.
    pub fn apply(&self, expr: Box<Expression>) -> (res: Box<Expression>)
        ensures
            res@ == ExpressionView::UnaryOp(self.symbol@, Box::new(expr@)),
    {
        let op = UnaryOperator { symbol: self.symbol.clone() };
        Box::new(Expression::UnaryOp(op, expr))
    }
}

impl BinaryOperator {
    /// The node that applies this operator to a left and a right operand.
    pub fn apply(&self, expr1: Box<Expression>, expr2: Box<Expression>) -> (res: Box<Expression>)
        ensures
            res@ == ExpressionView::BinaryOp(self.symbol@, Box::new(expr1@), Box::new(expr2@)),
    {
        let op = BinaryOperator { symbol: self.symbol.clone() };
        Box::new(Expression::BinaryOp(op, expr1, expr2))
    }
}

/// The views of a sequence of expressions, one for one.
pub open spec fn expression_views(expressions: Seq<Expression>) -> Seq<ExpressionView> {
    Seq::new(expressions.len(), |i: int| expressions[i]@)
}

/// The result of a function that returns an expression, over views.
pub open spec fn expression_result(res: Result<Expression, ExprError>) -> Result<
    ExpressionView,
    ExprError,
> {
    match res {
        Ok(expression) => Ok(expression@),
        Err(e) => Err(e),
    }
}

/// The views of a sequence that grew by one expression.
proof fn lemma_expression_views_push(expressions: Seq<Expression>, e: Expression)
    ensures
        expression_views(expressions.push(e)) == expression_views(expressions).push(e@),
{
    assert(expression_views(expressions.push(e)) =~= expression_views(expressions).push(e@));
}

/// The views of a sequence that lost its last expression.
proof fn lemma_expression_views_pop(expressions: Seq<Expression>)
    requires
        expressions.len() > 0,
    ensures
        expression_views(expressions.drop_last()) == expression_views(expressions).drop_last(),
        expression_views(expressions).last() == expressions.last()@,
{
    assert(expression_views(expressions.drop_last()) =~= expression_views(
        expressions,
    ).drop_last());
}

/// What one symbol of a postfix sequence does to the stack of expressions,
/// whose top is last. A number is pushed as a leaf. An operator or a
/// function takes its operands from the top, the right one first, and
/// pushes the node that holds them; it needs one operand or two, and as
/// many expressions on the stack. No other token belongs to a postfix
/// sequence.
pub open spec fn apply(values: Seq<ExpressionView>, symbol: SymbolView) -> Result<
    Seq<ExpressionView>,
    ExprError,
> {
    match symbol.token {
        TokenView::Number(n) => match fraction_of(n) {
            Ok(r) => Ok(values.push(ExpressionView::Value(r))),
            Err(e) => Err(e),
        },
        TokenView::Word(name) | TokenView::Oper(name) => {
            if symbol.arity == 1 && values.len() >= 1 {
                let operand = values.last();
                Ok(values.drop_last().push(ExpressionView::UnaryOp(name, Box::new(operand))))
            } else if symbol.arity == 2 && values.len() >= 2 {
                let right = values.last();
                let left = values.drop_last().last();
                Ok(
                    values.drop_last().drop_last().push(
                        ExpressionView::BinaryOp(name, Box::new(left), Box::new(right)),
                    ),
                )
            } else {
                Err(ExprError::MalformedExpression)
            }
        },
        _ => Err(ExprError::MalformedExpression),
    }
}

/// The expression that results from the stack `values` and the symbols
/// from position `i` on: at the end exactly one expression is left.
pub open spec fn reduce_from(postfix: Seq<SymbolView>, i: int, values: Seq<ExpressionView>) -> Result<
    ExpressionView,
    ExprError,
>
    decreases postfix.len() - i,
{
    if i < 0 || i >= postfix.len() {
        if values.len() == 1 {
            Ok(values[0])
        } else {
            Err(ExprError::MalformedExpression)
        }
    } else {
        match apply(values, postfix[i]) {
            Ok(next) => reduce_from(postfix, i + 1, next),
            Err(e) => Err(e),
        }
    }
}

/// The expression that a postfix sequence stands for.
pub open spec fn reduce_spec(postfix: Seq<SymbolView>) -> Result<ExpressionView, ExprError> {
    reduce_from(postfix, 0, Seq::empty())
}

/// The expression that a sequence of tokens in infix order stands for:
/// what `parse` returns for it.
pub open spec fn parse_spec(tokens: Seq<TokenView>) -> Result<ExpressionView, ExprError> {
    match shunt_spec(tokens) {
        Ok(postfix) => reduce_spec(postfix),
        Err(e) => Err(e),
    }
}

/// Takes the top of a stack of expressions.
fn take_value(values: &mut Vec<Expression>) -> (top: Expression)
    requires
        old(values).len() > 0,
    ensures
        final(values).len() == old(values).len() - 1,
        expression_views(final(values)@) == expression_views(old(values)@).drop_last(),
        top@ == expression_views(old(values)@).last(),
{
    proof {
        lemma_expression_views_pop(values@);
    }
    let top = values.pop().unwrap();
    assert(values@ =~= old(values)@.drop_last());
    top
}

/// Pushes an expression onto a stack.
fn put_value(values: &mut Vec<Expression>, value: Expression)
    ensures
        final(values).len() == old(values).len() + 1,
        expression_views(final(values)@) == expression_views(old(values)@).push(value@),
{
    proof {
        lemma_expression_views_push(values@, value);
    }
    values.push(value);
}

/// The leaf that a number token stands for; `None` for any other token.
pub fn parse_num(token: &Token) -> (res: Result<Option<Expression>, ExprError>)
    ensures
        match token@ {
            TokenView::Number(n) => match fraction_of(n) {
                Ok(r) => res matches Ok(Some(leaf)) && leaf@ == ExpressionView::Value(r),
                Err(e) => res == Err::<Option<Expression>, ExprError>(e),
            },
            _ => res matches Ok(None),
        },
{
    match token {
        Token::Number(n) => match Rational::from_num(*n) {
            Ok(r) => Ok(Some(Expression::Value(r))),
            Err(e) => Err(e),
        },
        _ => Ok(None),
    }
}

/// Reduces a postfix sequence to the expression that it stands for, with a
/// stack of expressions.
///
/// It fails with `MalformedLiteral` at a number that is no fraction, and
/// with `MalformedExpression` where a symbol finds too few operands, takes
/// neither one nor two, or is no symbol of a postfix sequence, and where
/// the sequence does not leave exactly one expression.
pub fn _parse(postfix: &Vec<Symbol>) -> (res: Result<Expression, ExprError>)
    ensures
        expression_result(res) == reduce_spec(symbol_views(postfix@)),
{
    let mut values: Vec<Expression> = Vec::new();
    let ghost symbols = symbol_views(postfix@);
    let mut i: usize = 0;
    assert(expression_views(values@) =~= Seq::<ExpressionView>::empty());
    while i < postfix.len()
        invariant
            i <= postfix.len(),
            symbols == symbol_views(postfix@),
            reduce_from(symbols, i as int, expression_views(values@)) == reduce_spec(symbols),
        decreases postfix.len() - i,
    {
        let symbol = &postfix[i];
        let ghost before = expression_views(values@);
        assert(symbols[i as int] == symbol@);
        match &symbol.token {
            Token::Number(_) => {
                match parse_num(&symbol.token) {
                    Ok(Some(leaf)) => {
                        put_value(&mut values, leaf);
                    },
                    Ok(None) => {
                        return Err(ExprError::MalformedExpression);
                    },
                    Err(e) => {
                        return Err(e);
                    },
                }
            },
            Token::Word(name) | Token::Oper(name) => {
                if symbol.arity == 1 && values.len() >= 1 {
                    let operand = take_value(&mut values);
                    let op = UnaryOperator { symbol: name.clone() };
                    let node = op.apply(Box::new(operand));
                    put_value(&mut values, *node);
                } else if symbol.arity == 2 && values.len() >= 2 {
                    let right = take_value(&mut values);
                    let left = take_value(&mut values);
                    let op = BinaryOperator { symbol: name.clone() };
                    let node = op.apply(Box::new(left), Box::new(right));
                    put_value(&mut values, *node);
                } else {
                    return Err(ExprError::MalformedExpression);
                }
            },
            _ => {
                return Err(ExprError::MalformedExpression);
            },
        }
        assert(apply(before, symbols[i as int]) == Ok::<Seq<ExpressionView>, ExprError>(
            expression_views(values@),
        ));
        i += 1;
    }
    if values.len() == 1 {
        let root = take_value(&mut values);
        Ok(root)
    } else {
        Err(ExprError::MalformedExpression)
    }
}

/// Parses a sequence of tokens in infix order into an expression tree.
///
/// The tokens are put into postfix order, and the postfix sequence is
/// reduced to a tree. The failures are those of the two steps.
pub fn parse(tokens: Vec<Token>) -> (res: Result<Expression, ExprError>)
    ensures
        expression_result(res) == parse_spec(token_views(tokens@)),
{
    match shunt(&tokens) {
        Ok(postfix) => _parse(&postfix),
        Err(e) => Err(e),
    }
}

} // verus!
