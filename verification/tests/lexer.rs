use mathexpr::error::ExprError;
use mathexpr::lexer::{is_alpha, is_grouping, is_num, lex, to_digit, Num, Token};

fn quiet_from_str(s: &str) -> String {
    let mut string = String::new();
    string.push_str(s);
    return string;
}

fn word(s: &str) -> Token {
    Token::Word(quiet_from_str(s))
}

fn oper(s: &str) -> Token {
    Token::Oper(quiet_from_str(s))
}

#[test]
fn grouping() {
    let res = lex(quiet_from_str("[[()]()]"));
    let expected = vec![
        Token::OBracket,
        Token::OBracket,
        Token::OParen,
        Token::CParen,
        Token::CBracket,
        Token::OParen,
        Token::CParen,
        Token::CBracket,
    ];

    assert_eq!(res, Ok(expected));
}

#[test]
fn numbers() {
    let res = lex(quiet_from_str("1337"));
    assert_eq!(Ok(vec![Token::Number(Num::Integer(1337))]), res);

    let res = lex(quiet_from_str("98"));
    assert_eq!(Ok(vec![Token::Number(Num::Integer(98))]), res);

    let res = lex(quiet_from_str("3.1415"));
    assert_eq!(Ok(vec![Token::Number(Num::Decimal(3, 1415, 0))]), res);

    let res = lex(quiet_from_str(".001"));
    assert_eq!(Ok(vec![Token::Number(Num::Decimal(0, 1, -2))]), res);
}

#[test]
fn words() {
    let tan = quiet_from_str("tan");
    let sin = quiet_from_str("sin");
    let cos = quiet_from_str("cos");

    let res = lex(quiet_from_str("tan"));
    assert_eq!(Ok(vec![Token::Word(tan)]), res);

    let res = lex(quiet_from_str("sin     cos   "));
    assert_eq!(Ok(vec![Token::Word(sin), Token::Word(cos)]), res);
}

#[test]
fn ops() {
    let res = lex(quiet_from_str("+"));
    assert_eq!(Ok(vec![Token::Oper(quiet_from_str("+"))]), res);

    let res = lex(quiet_from_str(" >=   ++"));
    assert_eq!(
        Ok(vec![
            Token::Oper(quiet_from_str(">=")),
            Token::Oper(quiet_from_str("++"))
        ]),
        res
    );
}

#[test]
fn expr() {
    let res = lex(quiet_from_str("2* 3.1415 >= 5"));

    let sol = vec![
        Token::Number(Num::Integer(2)),
        Token::Oper(quiet_from_str("*")),
        Token::Number(Num::Decimal(3, 1415, 0)),
        Token::Oper(quiet_from_str(">=")),
        Token::Number(Num::Integer(5)),
    ];
    assert_eq!(res, Ok(sol));

    let res = lex(quiet_from_str("2/(pi - x^2) = 2.018"));
    let sol = vec![
        Token::Number(Num::Integer(2)),
        Token::Oper(quiet_from_str("/")),
        Token::OParen,
        Token::Word(quiet_from_str("pi")),
        Token::Oper(quiet_from_str("-")),
        Token::Word(quiet_from_str("x")),
        Token::Oper(quiet_from_str("^")),
        Token::Number(Num::Integer(2)),
        Token::CParen,
        Token::Oper(quiet_from_str("=")),
        Token::Number(Num::Decimal(2, 18, -1)),
    ];
    assert_eq!(res, Ok(sol));
}

#[test]
fn empty_text_has_no_tokens() {
    assert_eq!(lex(String::new()), Ok(vec![]));
    assert_eq!(lex(quiet_from_str("     ")), Ok(vec![]));
}

#[test]
fn digits_and_classes() {
    assert_eq!(to_digit('0'), Some(0));
    assert_eq!(to_digit('7'), Some(7));
    assert_eq!(to_digit('9'), Some(9));
    assert_eq!(to_digit(':'), None);
    assert_eq!(to_digit('/'), None);
    assert_eq!(to_digit('a'), None);
    assert!(is_num('5'));
    assert!(!is_num('.'));
    assert!(is_alpha('A') && is_alpha('Z') && is_alpha('a') && is_alpha('z'));
    assert!(!is_alpha('@') && !is_alpha('[') && !is_alpha('`') && !is_alpha('{'));
    assert!(!is_alpha('é'));
    assert!(is_grouping('(') && is_grouping(')') && is_grouping('[') && is_grouping(']'));
    assert!(!is_grouping('{') && !is_grouping(','));
}

#[test]
fn any_grouping_sequence_is_kept() {
    let res = lex(quiet_from_str("(([[]]))"));
    let expected = vec![
        Token::OParen,
        Token::OParen,
        Token::OBracket,
        Token::OBracket,
        Token::CBracket,
        Token::CBracket,
        Token::CParen,
        Token::CParen,
    ];
    assert_eq!(res, Ok(expected));

    let res = lex(quiet_from_str(")]([ "));
    let expected = vec![
        Token::CParen,
        Token::CBracket,
        Token::OParen,
        Token::OBracket,
    ];
    assert_eq!(res, Ok(expected));
}

#[test]
fn same_text_same_tokens() {
    let text = "3.25 * fun(x, 7) - [2 / 4]";
    let first = lex(quiet_from_str(text));
    let second = lex(quiet_from_str(text));
    assert_eq!(first, second);
    assert!(first.is_ok());
}

#[test]
fn decimal_points() {
    assert_eq!(
        lex(quiet_from_str(".")),
        Ok(vec![Token::Number(Num::Decimal(0, 0, 0))])
    );
    assert_eq!(
        lex(quiet_from_str("1.")),
        Ok(vec![Token::Number(Num::Decimal(1, 0, 0))])
    );
    assert_eq!(
        lex(quiet_from_str("1.000")),
        Ok(vec![Token::Number(Num::Decimal(1, 0, -3))])
    );
    assert_eq!(
        lex(quiet_from_str("12.00340")),
        Ok(vec![Token::Number(Num::Decimal(12, 340, -2))])
    );
    assert_eq!(
        lex(quiet_from_str("007")),
        Ok(vec![Token::Number(Num::Integer(7))])
    );
}

#[test]
fn second_point_starts_a_new_number() {
    assert_eq!(
        lex(quiet_from_str("1.2.3")),
        Ok(vec![
            Token::Number(Num::Decimal(1, 2, 0)),
            Token::Number(Num::Decimal(0, 3, 0)),
        ])
    );
}

#[test]
fn commas_separate() {
    assert_eq!(
        lex(quiet_from_str("fun(1, 2)")),
        Ok(vec![
            word("fun"),
            Token::OParen,
            Token::Number(Num::Integer(1)),
            Token::Comma,
            Token::Number(Num::Integer(2)),
            Token::CParen,
        ])
    );
    assert_eq!(
        lex(quiet_from_str(",,")),
        Ok(vec![Token::Comma, Token::Comma])
    );
    assert_eq!(
        lex(quiet_from_str(",+")),
        Ok(vec![Token::Comma, oper("+")])
    );
}

#[test]
fn comma_inside_an_operator_run() {
    assert_eq!(lex(quiet_from_str("+,")), Ok(vec![oper("+,")]));
}

#[test]
fn tokens_need_no_spaces() {
    assert_eq!(
        lex(quiet_from_str("a1+b")),
        Ok(vec![
            word("a"),
            Token::Number(Num::Integer(1)),
            oper("+"),
            word("b"),
        ])
    );
}

#[test]
fn other_whitespace_belongs_to_operators() {
    assert_eq!(
        lex(quiet_from_str("a\tb")),
        Ok(vec![word("a"), oper("\t"), word("b")])
    );
    assert_eq!(lex(quiet_from_str("+\n")), Ok(vec![oper("+\n")]));
}

#[test]
fn letters_are_ascii_only() {
    assert_eq!(
        lex(quiet_from_str("caf\u{e9}s")),
        Ok(vec![word("caf"), oper("\u{e9}"), word("s")])
    );
    assert_eq!(lex(quiet_from_str("\u{130}")), Ok(vec![oper("\u{130}")]));
}

#[test]
fn largest_integer() {
    assert_eq!(
        lex(quiet_from_str("9223372036854775807")),
        Ok(vec![Token::Number(Num::Integer(i64::MAX))])
    );
    assert_eq!(
        lex(quiet_from_str("9223372036854775808")),
        Err(ExprError::Lex)
    );
    assert_eq!(
        lex(quiet_from_str("1 + 99999999999999999999999")),
        Err(ExprError::Lex)
    );
}

#[test]
fn largest_fraction() {
    assert_eq!(
        lex(quiet_from_str("0.18446744073709551615")),
        Ok(vec![Token::Number(Num::Decimal(0, u64::MAX, 0))])
    );
    assert_eq!(
        lex(quiet_from_str("0.18446744073709551616")),
        Err(ExprError::Lex)
    );
    assert_eq!(
        lex(quiet_from_str("9223372036854775808.5")),
        Err(ExprError::Lex)
    );
}

#[test]
fn most_leading_zeros() {
    let mut text = quiet_from_str("1.");
    for _ in 0..32768 {
        text.push('0');
    }
    let mut longer = text.clone();
    text.push('5');
    assert_eq!(
        lex(text),
        Ok(vec![Token::Number(Num::Decimal(1, 5, i16::MIN))])
    );
    longer.push('0');
    longer.push('5');
    assert_eq!(lex(longer), Err(ExprError::Lex));
}
