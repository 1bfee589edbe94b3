//! The lexer: from text to tokens.
//!
//! A text is read from left to right. At each position the longest token
//! that starts there is taken, so the tokens of a text are determined by
//! the text alone. The grammar is stated by [`lex_spec`], over the
//! characters of the text.

use crate::error::ExprError;
use vstd::prelude::*;

verus! {

/// The numbers that the lexer tells apart. A literal has no sign: negation
/// is an operator.
#[derive(Clone, Copy, Debug, PartialEq, Eq, Structural)]
pub enum Num {
    /// A literal without a decimal point, by its value.
    Integer(i64),
    /// A literal with a decimal point: the value of the digits before the
    /// point; the value of the digits after it, from the first one that is
    /// not zero; and the number of zeros between the point and that digit,
    /// negated.
    Decimal(i64, u64, i16),
}

/// The tokens of the grammar.
#[derive(Debug, PartialEq, Eq)]
pub enum Token {
    /// A numeric literal.
    Number(Num),
    /// A single `(`.
    OParen,
    /// A single `)`.
    CParen,
    /// A single `[`.
    OBracket,
    /// A single `]`.
    CBracket,
    /// A run of letters: the name of a function or of a variable.
    Word(String),
    /// A run of characters that are neither letters, digits, spaces nor
    /// grouping symbols, such as `+` or `>=`.
    Oper(String),
    /// A single `,`, which separates the arguments of a function.
    Comma,
}

/// A token as a mathematical value: names and symbols are sequences of
/// characters.
pub enum TokenView {
    Number(Num),
    OParen,
    CParen,
    OBracket,
    CBracket,
    Word(Seq<char>),
    Oper(Seq<char>),
    Comma,
}

impl View for Token {
    type V = TokenView;

    open spec fn view(&self) -> TokenView {
        match self {
            Token::Number(n) => TokenView::Number(*n),
            Token::OParen => TokenView::OParen,
            Token::CParen => TokenView::CParen,
            Token::OBracket => TokenView::OBracket,
            Token::CBracket => TokenView::CBracket,
            Token::Word(s) => TokenView::Word(s@),
            Token::Oper(s) => TokenView::Oper(s@),
            Token::Comma => TokenView::Comma,
        }
    }
}

impl Clone for Token {
    fn clone(&self) -> (res: Self)
        ensures
            res@ == self@,
    {
        match self {
            Token::Number(n) => Token::Number(*n),
            Token::OParen => Token::OParen,
            Token::CParen => Token::CParen,
            Token::OBracket => Token::OBracket,
            Token::CBracket => Token::CBracket,
            Token::Word(s) => Token::Word(s.clone()),
            Token::Oper(s) => Token::Oper(s.clone()),
            Token::Comma => Token::Comma,
        }
    }
}

/// The views of a sequence of tokens, one for one.
pub open spec fn token_views(tokens: Seq<Token>) -> Seq<TokenView> {
    Seq::new(tokens.len(), |i: int| tokens[i]@)
}

/// The result of a function that returns tokens, over views.
pub open spec fn tokens_result(res: Result<Vec<Token>, ExprError>) -> Result<
    Seq<TokenView>,
    ExprError,
> {
    match res {
        Ok(tokens) => Ok(token_views(tokens@)),
        Err(e) => Err(e),
    }
}

/// The views of a sequence that grew by one token.
pub proof fn lemma_token_views_push(tokens: Seq<Token>, t: Token)
    ensures
        token_views(tokens.push(t)) == token_views(tokens).push(t@),
{
    assert(token_views(tokens.push(t)) =~= token_views(tokens).push(t@));
}

/// The value of a decimal digit; `None` for any other character.
pub open spec fn digit_value(c: char) -> Option<u8> {
    if '0' <= c <= '9' {
        Some((c as u32 - 48) as u8)
    } else {
        None
    }
}

/// Whether `c` is a decimal digit.
pub open spec fn is_digit(c: char) -> bool {
    digit_value(c) is Some
}

/// Whether `c` is a letter of the Latin alphabet, upper or lower case.
pub open spec fn is_letter(c: char) -> bool {
    'A' <= c <= 'Z' || 'a' <= c <= 'z'
}

/// Whether `c` is one of the four grouping symbols.
pub open spec fn is_grouping_symbol(c: char) -> bool {
    c == '(' || c == ')' || c == '[' || c == ']'
}

/// Whether `c` can stand in an operator: it is neither a letter, a digit, a
/// space nor a grouping symbol.
pub open spec fn is_operator_char(c: char) -> bool {
    !is_letter(c) && !is_digit(c) && c != ' ' && !is_grouping_symbol(c)
}

/// Calculate the decimal value of a decimal character, if applicable.
pub fn to_digit(c: char) -> (res: Option<u8>)
    ensures
        res == digit_value(c),
{
    if '0' <= c && c <= '9' {
        Some((c as u32 - 48) as u8)
    } else {
        None
    }
}

/// Determine if the given character represents a decimal digit.
pub fn is_num(c: char) -> (res: bool)
    ensures
        res == is_digit(c),
{
    match to_digit(c) {
        Some(_) => true,
        None => false,
    }
}

/// Determine if the given character is an (upper or lower case) letter.
pub fn is_alpha(c: char) -> (res: bool)
    ensures
        res == is_letter(c),
{
    ('A' <= c && c <= 'Z') || ('a' <= c && c <= 'z')
}

/// Determine if the given character is a grouping symbol.
pub fn is_grouping(c: char) -> (res: bool)
    ensures
        res == is_grouping_symbol(c),
{
    c == ')' || c == '(' || c == '[' || c == ']'
}

/// The kinds of characters of which a token can be a run.
#[derive(Clone, Copy, Debug, PartialEq, Eq, Structural)]
pub enum CharClass {
    /// The decimal digits.
    Digit,
    /// The digit `0` alone.
    Zero,
    /// The letters.
    Letter,
    /// The characters of operators.
    Operator,
}

/// Whether `c` belongs to `class`.
pub open spec fn in_class(c: char, class: CharClass) -> bool {
    match class {
        CharClass::Digit => is_digit(c),
        CharClass::Zero => c == '0',
        CharClass::Letter => is_letter(c),
        CharClass::Operator => is_operator_char(c),
    }
}

/// The end of the longest run of characters of `class` that starts at
/// position `i` of `s`: `i` itself where the run is empty.
pub open spec fn run_end(s: Seq<char>, i: int, class: CharClass) -> int
    decreases s.len() - i,
{
    if 0 <= i < s.len() && in_class(s[i], class) {
        run_end(s, i + 1, class)
    } else {
        i
    }
}

/// What makes `run_end` the end of the longest run: all characters up to it
/// belong to the class, and the one at it, if any, does not.
pub proof fn lemma_run_end(s: Seq<char>, i: int, class: CharClass)
    requires
        0 <= i <= s.len(),
    ensures
        i <= run_end(s, i, class) <= s.len(),
        forall|k: int| i <= k < run_end(s, i, class) ==> in_class(#[trigger] s[k], class),
        run_end(s, i, class) < s.len() ==> !in_class(s[run_end(s, i, class)], class),
    decreases s.len() - i,
{
    if i < s.len() && in_class(s[i], class) {
        lemma_run_end(s, i + 1, class);
    }
}

/// Whether `c` belongs to `class`.
fn class_holds(c: char, class: CharClass) -> (res: bool)
    ensures
        res == in_class(c, class),
{
    match class {
        CharClass::Digit => is_num(c),
        CharClass::Zero => c == '0',
        CharClass::Letter => is_alpha(c),
        CharClass::Operator => !(is_alpha(c) || is_num(c) || c == ' ' || is_grouping(c)),
    }
}

/// The value of a sequence of decimal digits, read as a number in base
/// ten. The empty sequence has the value 0.
pub open spec fn digits_value(digits: Seq<char>) -> nat
    decreases digits.len(),
{
    if digits.len() == 0 {
        0
    } else {
        digits_value(digits.drop_last()) * 10 + (digits.last() as nat - 48) as nat
    }
}

/// Whether a numeric literal starts at position `i` of `s`: with a digit or
/// with the decimal point.
pub open spec fn starts_number(s: Seq<char>, i: int) -> bool {
    0 <= i < s.len() && (is_digit(s[i]) || s[i] == '.')
}

/// The end of the digits before the decimal point, in the literal at `i`.
pub open spec fn whole_end(s: Seq<char>, i: int) -> int {
    run_end(s, i, CharClass::Digit)
}

/// Whether the literal at `i` has a decimal point.
pub open spec fn has_point(s: Seq<char>, i: int) -> bool {
    whole_end(s, i) < s.len() && s[whole_end(s, i)] == '.'
}

/// The end of the zeros that follow the decimal point of the literal at
/// `i`.
pub open spec fn zeros_end(s: Seq<char>, i: int) -> int {
    run_end(s, whole_end(s, i) + 1, CharClass::Zero)
}

/// The end of the digits after the decimal point of the literal at `i`.
pub open spec fn fraction_end(s: Seq<char>, i: int) -> int {
    run_end(s, zeros_end(s, i), CharClass::Digit)
}

/// The end of the literal at `i`. A second decimal point is not part of it.
pub open spec fn number_end(s: Seq<char>, i: int) -> int {
    if has_point(s, i) {
        fraction_end(s, i)
    } else {
        whole_end(s, i)
    }
}

/// The value of the digits before the decimal point.
pub open spec fn whole_value(s: Seq<char>, i: int) -> nat {
    digits_value(s.subrange(i, whole_end(s, i)))
}

/// The number of zeros between the decimal point and the first digit that
/// is not zero.
pub open spec fn leading_zeros(s: Seq<char>, i: int) -> int {
    zeros_end(s, i) - whole_end(s, i) - 1
}

/// The value of the digits after the decimal point, from the first one that
/// is not zero.
pub open spec fn fraction_value(s: Seq<char>, i: int) -> nat {
    digits_value(s.subrange(zeros_end(s, i), fraction_end(s, i)))
}

/// Whether the parts of the literal at `i` can be stored in a `Num`.
pub open spec fn number_fits(s: Seq<char>, i: int) -> bool {
    &&& whole_value(s, i) <= i64::MAX
    &&& has_point(s, i) ==> fraction_value(s, i) <= u64::MAX && leading_zeros(s, i) <= 32768
}

/// The literal at `i`, where its parts can be stored.
pub open spec fn number_at(s: Seq<char>, i: int) -> Num {
    if has_point(s, i) {
        Num::Decimal(
            whole_value(s, i) as i64,
            fraction_value(s, i) as u64,
            (-leading_zeros(s, i)) as i16,
        )
    } else {
        Num::Integer(whole_value(s, i) as i64)
    }
}

/// Reads the digits at `start` and computes their value; the value is
/// `None` where it is larger than any `u64`.
fn lex_digits(chars: &Vec<char>, start: usize) -> (res: (Option<u64>, usize))
    requires
        start <= chars.len(),
    ensures
        res.1 == run_end(chars@, start as int, CharClass::Digit),
        start <= res.1 <= chars.len(),
        match res.0 {
            Some(v) => v == digits_value(chars@.subrange(start as int, res.1 as int)),
            None => digits_value(chars@.subrange(start as int, res.1 as int)) > u64::MAX,
        },
{
    let mut value: Option<u64> = Some(0);
    let mut pos: usize = start;
    assert(chars@.subrange(start as int, start as int) =~= Seq::<char>::empty());
    while pos < chars.len()
        invariant
            start <= pos <= chars.len(),
            run_end(chars@, pos as int, CharClass::Digit) == run_end(
                chars@,
                start as int,
                CharClass::Digit,
            ),
            match value {
                Some(v) => v == digits_value(chars@.subrange(start as int, pos as int)),
                None => digits_value(chars@.subrange(start as int, pos as int)) > u64::MAX,
            },
        ensures
            pos == run_end(chars@, start as int, CharClass::Digit),
        decreases chars.len() - pos,
    {
        let d: u8 = match to_digit(chars[pos]) {
            Some(d) => d,
            None => { break ; },
        };
        proof {
            let longer = chars@.subrange(start as int, pos + 1);
            assert(longer.drop_last() =~= chars@.subrange(start as int, pos as int));
            assert(longer.last() == chars@[pos as int]);
        }
        value =
        match value {
            Some(v) => if v > (u64::MAX - d as u64) / 10 {
                None
            } else {
                Some(v * 10 + d as u64)
            },
            None => None,
        };
        pos += 1;
    }
    (value, pos)
}

/// Attempts to read a number at `start`. Gives the number and the position
/// after it; `None` where no number starts there; a failure where one
/// starts there and cannot be stored.
pub fn lex_num(chars: &Vec<char>, start: usize) -> (res: Result<Option<(Num, usize)>, ExprError>)
    requires
        start <= chars.len(),
    ensures
        match res {
            Ok(None) => !starts_number(chars@, start as int),
            Ok(Some((n, end))) => {
                &&& starts_number(chars@, start as int)
                &&& number_fits(chars@, start as int)
                &&& n == number_at(chars@, start as int)
                &&& end == number_end(chars@, start as int)
                &&& start < end <= chars.len()
            },
            Err(e) => {
                &&& e == ExprError::Lex
                &&& starts_number(chars@, start as int)
                &&& !number_fits(chars@, start as int)
            },
        },
{
    if start >= chars.len() || !(is_num(chars[start]) || chars[start] == '.') {
        return Ok(None);
    }
    let (whole, point) = lex_digits(chars, start);
    if point >= chars.len() || chars[point] != '.' {
        proof {
            lemma_run_end(chars@, start + 1, CharClass::Digit);
        }
        return match whole {
            Some(w) => if w <= i64::MAX as u64 {
                Ok(Some((Num::Integer(w as i64), point)))
            } else {
                Err(ExprError::Lex)
            },
            None => Err(ExprError::Lex),
        };
    }
    let mut first: usize = point + 1;
    while first < chars.len() && chars[first] == '0'
        invariant
            point < first <= chars.len(),
            run_end(chars@, first as int, CharClass::Zero) == run_end(
                chars@,
                point + 1,
                CharClass::Zero,
            ),
        decreases chars.len() - first,
    {
        first += 1;
    }
    let (fraction, end) = lex_digits(chars, first);
    let zeros: usize = first - point - 1;
    match (whole, fraction) {
        (Some(w), Some(f)) => if w <= i64::MAX as u64 && zeros <= 32768 {
            let exponent: i16 = (0 - zeros as i32) as i16;
            Ok(Some((Num::Decimal(w as i64, f, exponent), end)))
        } else {
            Err(ExprError::Lex)
        },
        _ => Err(ExprError::Lex),
    }
}

/// `String::push`: appends the character `c` to the end of `s`. Nothing of
/// it is proved here; the contract says what the standard library
/// documents.
#[verifier::external_body]
fn push_char(s: &mut String, c: char)
    ensures
        final(s)@ == old(s)@.push(c),
{
    s.push(c);
}

/// Reads the longest run of characters of `class` at `start`. Gives the
/// run and the position after it.
fn lex_run(chars: &Vec<char>, start: usize, class: CharClass) -> (res: (String, usize))
    requires
        start <= chars.len(),
    ensures
        res.1 == run_end(chars@, start as int, class),
        start <= res.1 <= chars.len(),
        res.0@ == chars@.subrange(start as int, res.1 as int),
{
    let mut run = String::new();
    let mut pos: usize = start;
    assert(chars@.subrange(start as int, start as int) =~= Seq::<char>::empty());
    while pos < chars.len() && class_holds(chars[pos], class)
        invariant
            start <= pos <= chars.len(),
            run_end(chars@, pos as int, class) == run_end(chars@, start as int, class),
            run@ == chars@.subrange(start as int, pos as int),
        decreases chars.len() - pos,
    {
        push_char(&mut run, chars[pos]);
        assert(chars@.subrange(start as int, pos + 1) =~= chars@.subrange(
            start as int,
            pos as int,
        ).push(chars@[pos as int]));
        pos += 1;
    }
    (run, pos)
}

/// Attempts to read a word, a run of letters, at `start`. Gives the word
/// and the position after it; `None` where no letter stands at `start`.
pub fn lex_word(chars: &Vec<char>, start: usize) -> (res: Option<(String, usize)>)
    requires
        start <= chars.len(),
    ensures
        match res {
            None => run_end(chars@, start as int, CharClass::Letter) == start,
            Some((word, end)) => {
                &&& end == run_end(chars@, start as int, CharClass::Letter)
                &&& start < end <= chars.len()
                &&& word@ == chars@.subrange(start as int, end as int)
            },
        },
{
    let (word, end) = lex_run(chars, start, CharClass::Letter);
    if end == start {
        None
    } else {
        Some((word, end))
    }
}

/// Attempts to read an operator, a run of operator characters, at `start`.
/// Gives the operator and the position after it; `None` where no such
/// character stands at `start`.
pub fn lex_oper(chars: &Vec<char>, start: usize) -> (res: Option<(String, usize)>)
    requires
        start <= chars.len(),
    ensures
        match res {
            None => run_end(chars@, start as int, CharClass::Operator) == start,
            Some((oper, end)) => {
                &&& end == run_end(chars@, start as int, CharClass::Operator)
                &&& start < end <= chars.len()
                &&& oper@ == chars@.subrange(start as int, end as int)
            },
        },
{
    let (oper, end) = lex_run(chars, start, CharClass::Operator);
    if end == start {
        None
    } else {
        Some((oper, end))
    }
}

/// The token of a grouping symbol or of a comma; `None` for any other
/// character.
pub open spec fn symbol_token(c: char) -> Option<TokenView> {
    if c == '(' {
        Some(TokenView::OParen)
    } else if c == ')' {
        Some(TokenView::CParen)
    } else if c == '[' {
        Some(TokenView::OBracket)
    } else if c == ']' {
        Some(TokenView::CBracket)
    } else if c == ',' {
        Some(TokenView::Comma)
    } else {
        None
    }
}

/// The token that starts at position `i` of `s`, with the position after
/// it, where the character at `i` is not a space. A grouping symbol or a
/// comma is a token by itself. Of the others, a digit or a decimal point
/// starts a number, a letter starts a word, and anything else starts an
/// operator; each reaches as far as it can. The only failure is a number
/// that cannot be stored.
pub open spec fn token_at(s: Seq<char>, i: int) -> Result<(TokenView, int), ExprError>
    recommends
        0 <= i < s.len(),
        s[i] != ' ',
{
    if let Some(t) = symbol_token(s[i]) {
        Ok((t, i + 1))
    } else if starts_number(s, i) {
        if number_fits(s, i) {
            Ok((TokenView::Number(number_at(s, i)), number_end(s, i)))
        } else {
            Err(ExprError::Lex)
        }
    } else if is_letter(s[i]) {
        let end = run_end(s, i, CharClass::Letter);
        Ok((TokenView::Word(s.subrange(i, end)), end))
    } else {
        let end = run_end(s, i, CharClass::Operator);
        Ok((TokenView::Oper(s.subrange(i, end)), end))
    }
}

/// A token is not empty and ends within the text.
pub proof fn lemma_token_at_advances(s: Seq<char>, i: int)
    requires
        0 <= i < s.len(),
        s[i] != ' ',
    ensures
        token_at(s, i) matches Ok((_, end)) ==> i < end <= s.len(),
{
    lemma_run_end(s, i, CharClass::Digit);
    lemma_run_end(s, i + 1, CharClass::Digit);
    lemma_run_end(s, i + 1, CharClass::Letter);
    lemma_run_end(s, i + 1, CharClass::Operator);
    if starts_number(s, i) && has_point(s, i) {
        lemma_run_end(s, whole_end(s, i) + 1, CharClass::Zero);
        lemma_run_end(s, zeros_end(s, i), CharClass::Digit);
    }
}

/// The tokens of `s` from position `i` on. Spaces between tokens are
/// skipped.
pub open spec fn tokens_from(s: Seq<char>, i: int) -> Result<Seq<TokenView>, ExprError>
    decreases s.len() - i,
{
    if i < 0 || i >= s.len() {
        Ok(Seq::empty())
    } else if s[i] == ' ' {
        tokens_from(s, i + 1)
    } else {
        match token_at(s, i) {
            Err(e) => Err(e),
            Ok((t, end)) => {
                proof {
                    lemma_token_at_advances(s, i);
                }
                match tokens_from(s, end) {
                    Err(e) => Err(e),
                    Ok(rest) => Ok(seq![t] + rest),
                }
            },
        }
    }
}

/// The tokens of a text: what `lex` returns for it.
pub open spec fn lex_spec(s: Seq<char>) -> Result<Seq<TokenView>, ExprError> {
    tokens_from(s, 0)
}

/// The tokens read so far, followed by those that are still to be read.
pub open spec fn tokens_then(done: Seq<TokenView>, rest: Result<Seq<TokenView>, ExprError>) -> Result<
    Seq<TokenView>,
    ExprError,
> {
    match rest {
        Ok(r) => Ok(done + r),
        Err(e) => Err(e),
    }
}

/// Extracts the tokens of a sequence of characters.
pub fn _lex(chars: &Vec<char>) -> (res: Result<Vec<Token>, ExprError>)
    ensures
        tokens_result(res) == lex_spec(chars@),
{
    let mut tokens: Vec<Token> = Vec::new();
    let mut pos: usize = 0;
    assert(token_views(tokens@) =~= Seq::<TokenView>::empty());
    assert(tokens_then(Seq::empty(), tokens_from(chars@, 0)) =~= tokens_from(chars@, 0)) by {
        if let Ok(r) = tokens_from(chars@, 0) {
            assert(Seq::<TokenView>::empty() + r =~= r);
        }
    }
    while pos < chars.len()
        invariant
            pos <= chars.len(),
            tokens_then(token_views(tokens@), tokens_from(chars@, pos as int)) == lex_spec(chars@),
        decreases chars.len() - pos,
    {
        let c = chars[pos];
        let ghost before = tokens@;
        let ghost start = pos;
        if c == ' ' {
            pos += 1;
            continue ;
        }
        proof {
            lemma_token_at_advances(chars@, pos as int);
        }
        if c == '(' {
            tokens.push(Token::OParen);
            pos += 1;
        } else if c == ')' {
            tokens.push(Token::CParen);
            pos += 1;
        } else if c == '[' {
            tokens.push(Token::OBracket);
            pos += 1;
        } else if c == ']' {
            tokens.push(Token::CBracket);
            pos += 1;
        } else if c == ',' {
            tokens.push(Token::Comma);
            pos += 1;
        } else {
            match lex_num(chars, pos) {
                Err(e) => {
                    return Err(e);
                },
                Ok(Some((n, end))) => {
                    tokens.push(Token::Number(n));
                    pos = end;
                },
                Ok(None) => {
                    if let Some((word, end)) = lex_word(chars, pos) {
                        tokens.push(Token::Word(word));
                        pos = end;
                    } else if let Some((oper, end)) = lex_oper(chars, pos) {
                        tokens.push(Token::Oper(oper));
                        pos = end;
                    } else {
                        return Err(ExprError::Lex);
                    }
                },
            }
        }
        proof {
            let t = tokens@.last();
            assert(tokens@ == before.push(t));
            lemma_token_views_push(before, t);
            assert(token_at(chars@, start as int) == Ok::<(TokenView, int), ExprError>(
                (t@, pos as int),
            ));
            if let Ok(r) = tokens_from(chars@, pos as int) {
                assert(token_views(before) + (seq![t@] + r) =~= token_views(before).push(t@) + r);
            }
        }
    }
    Ok(tokens)
}

/// Given a string that holds a mathematical expression, extracts the
/// sequence of tokens that the grammar assigns to it.
///
/// Grouping symbols and commas are tokens by themselves; numbers, words
/// and operators reach as far as they can. Only the space separates
/// tokens: any other white space is an operator character, and so is a
/// comma that follows one.
///
/// The result is a function of the text alone. It is a failure exactly
/// where the text holds a numeric literal that cannot be stored.
pub fn lex(text: String) -> (res: Result<Vec<Token>, ExprError>)
    ensures
        tokens_result(res) == lex_spec(text@),
{
    broadcast use vstd::string::group_string_axioms;

    let mut chars: Vec<char> = Vec::new();
    let source = text.as_str().chars();
    for c in it: source
        invariant
            it.seq() == text@,
            chars@ == it.seq().take(it.index()),
    {
        chars.push(c);
        assert(it.seq().take(it.index() + 1) =~= it.seq().take(it.index()).push(c));
    }
    assert(chars@ =~= text@);
    _lex(&chars)
}

/// The tokens of a sequence of grouping symbols, one for one.
pub open spec fn grouping_tokens(s: Seq<char>) -> Seq<TokenView> {
    Seq::new(s.len(), |i: int| symbol_token(s[i])->0)
}

/// A text of grouping symbols from position `i` on has, from there on, the
/// token of each of its symbols, in order.
proof fn lemma_grouping_from(s: Seq<char>, i: int)
    requires
        0 <= i <= s.len(),
        forall|k: int| i <= k < s.len() ==> is_grouping_symbol(#[trigger] s[k]),
    ensures
        tokens_from(s, i) == Ok::<Seq<TokenView>, ExprError>(grouping_tokens(s).skip(i)),
    decreases s.len() - i,
{
    if i == s.len() {
        assert(grouping_tokens(s).skip(i) =~= Seq::<TokenView>::empty());
    } else {
        assert(is_grouping_symbol(s[i]));
        lemma_grouping_from(s, i + 1);
        assert(seq![symbol_token(s[i])->0] + grouping_tokens(s).skip(i + 1)
            =~= grouping_tokens(s).skip(i));
    }
}

/// Grouping symbols come back as they went in: a text that consists of
/// grouping symbols alone, correctly nested or not, lexes to the token of
/// each symbol, in the order of the text.
pub proof fn lemma_lex_grouping(s: Seq<char>)
    requires
        forall|k: int| 0 <= k < s.len() ==> is_grouping_symbol(#[trigger] s[k]),
    ensures
        lex_spec(s) == Ok::<Seq<TokenView>, ExprError>(grouping_tokens(s)),
{
    lemma_grouping_from(s, 0);
    assert(grouping_tokens(s).skip(0) =~= grouping_tokens(s));
}

/// Lexing is a function of the text: whatever two calls of `lex` return
/// for texts with the same characters, it is the same tokens or the same
/// failure.
pub proof fn lemma_lex_deterministic(
    first: String,
    second: String,
    first_result: Result<Vec<Token>, ExprError>,
    second_result: Result<Vec<Token>, ExprError>,
)
    requires
        first@ == second@,
        tokens_result(first_result) == lex_spec(first@),
        tokens_result(second_result) == lex_spec(second@),
    ensures
        tokens_result(first_result) == tokens_result(second_result),
{
}

/// Whether a token is one that the lexer can produce: a number is not
/// negative and its exponent is not positive; a word is not empty and
/// holds letters only; an operator is not empty and holds operator
/// characters only.
pub open spec fn is_lexed_token(token: TokenView) -> bool {
    match token {
        TokenView::Number(Num::Integer(value)) => value >= 0,
        TokenView::Number(Num::Decimal(whole, _, exponent)) => whole >= 0 && exponent <= 0,
        TokenView::Word(name) => name.len() > 0 && forall|k: int|
            0 <= k < name.len() ==> is_letter(#[trigger] name[k]),
        TokenView::Oper(symbol) => symbol.len() > 0 && forall|k: int|
            0 <= k < symbol.len() ==> is_operator_char(#[trigger] symbol[k]),
        _ => true,
    }
}

/// The token at a position is one that the lexer can produce.
proof fn lemma_token_at_lexed(s: Seq<char>, i: int)
    requires
        0 <= i < s.len(),
        s[i] != ' ',
    ensures
        token_at(s, i) matches Ok((token, _)) ==> is_lexed_token(token),
{
    lemma_token_at_advances(s, i);
    lemma_run_end(s, i, CharClass::Letter);
    lemma_run_end(s, i, CharClass::Operator);
    lemma_run_end(s, i, CharClass::Digit);
    if starts_number(s, i) && has_point(s, i) {
        lemma_run_end(s, whole_end(s, i) + 1, CharClass::Zero);
    }
}

/// The tokens from a position on are such as the lexer can produce.
proof fn lemma_tokens_from_lexed(s: Seq<char>, i: int)
    ensures
        tokens_from(s, i) matches Ok(tokens) ==> forall|k: int|
            0 <= k < tokens.len() ==> is_lexed_token(#[trigger] tokens[k]),
    decreases s.len() - i,
{
    if i < 0 || i >= s.len() {
    } else if s[i] == ' ' {
        lemma_tokens_from_lexed(s, i + 1);
    } else {
        lemma_token_at_advances(s, i);
        lemma_token_at_lexed(s, i);
        if let Ok((_, end)) = token_at(s, i) {
            lemma_tokens_from_lexed(s, end);
        }
    }
}

/// Whatever the text, no number among its tokens is negative or has a
/// positive exponent, and no word or operator is empty or holds a
/// character of another kind.
pub proof fn lemma_lex_tokens(s: Seq<char>)
    ensures
        lex_spec(s) matches Ok(tokens) ==> forall|k: int|
            0 <= k < tokens.len() ==> is_lexed_token(#[trigger] tokens[k]),
{
    lemma_tokens_from_lexed(s, 0);
}

} // verus!
