use mathexpr::error::ExprError;
use mathexpr::lexer::{lex, Num, Token};
use mathexpr::parser::{
    _parse, get_op_info, parse, parse_num, shunt, to_postfix, BinaryOperator, Expression, OpInfo,
    Symbol, UnaryOperator,
};
use mathexpr::rational::Rational;

fn quiet_from_str(s: &str) -> String {
    let mut string = String::new();
    string.push_str(s);
    return string;
}

fn test_postfix(infix: &str, postfix: &str) {
    let input = lex(quiet_from_str(infix)).unwrap();
    let expected = lex(quiet_from_str(postfix)).unwrap();

    let output = to_postfix(input);

    assert_eq!(output, Ok(expected));
}

fn postfix_of(infix: &str) -> Result<Vec<Token>, ExprError> {
    to_postfix(lex(quiet_from_str(infix)).unwrap())
}

fn parse_text(text: &str) -> Result<Expression, ExprError> {
    parse(lex(quiet_from_str(text)).unwrap())
}

fn value(n: i64) -> Box<Expression> {
    Box::new(Expression::Value(Rational { num: n, den: 1 }))
}

fn binary(symbol: &str, left: Box<Expression>, right: Box<Expression>) -> Box<Expression> {
    Box::new(Expression::BinaryOp(
        BinaryOperator {
            symbol: quiet_from_str(symbol),
        },
        left,
        right,
    ))
}

fn unary(symbol: &str, operand: Box<Expression>) -> Box<Expression> {
    Box::new(Expression::UnaryOp(
        UnaryOperator {
            symbol: quiet_from_str(symbol),
        },
        operand,
    ))
}

#[test]
fn trivial() {
    test_postfix("23", "23");
    test_postfix("1 + 2", "1 2 +");
    test_postfix("1 * 2", "1 2 *");
}

#[test]
#[allow(non_snake_case)]
fn orderOfOperations() {
    test_postfix("2 + 3 * 4", "2 3 4 * +");
    test_postfix("2 + 3 - 4", "2 3 + 4 -");
    test_postfix("2 + (3 * 4) / 6", "2 3 4 * 6 / +");
}

#[test]
fn functions() {
    test_postfix("fun(2)", "2 fun");
    test_postfix("fun(1, 2)", "1 2 fun");
    test_postfix("1 + fun(2 + (3-4)) * 5", "1 2 3 4 - + fun 5 * +");
    test_postfix("1 / fun(2 * 3, 4 + 5)", "1 2 3 * 4 5 + fun /");
}

#[test]
fn operator_table() {
    let plus = Token::Oper(quiet_from_str("+"));
    let minus = Token::Oper(quiet_from_str("-"));
    let times = Token::Oper(quiet_from_str("*"));
    let over = Token::Oper(quiet_from_str("/"));
    let low = Some(OpInfo {
        left_assoc: true,
        precedence: 0,
    });
    let high = Some(OpInfo {
        left_assoc: true,
        precedence: 1,
    });
    assert_eq!(get_op_info(&plus), low);
    assert_eq!(get_op_info(&minus), low);
    assert_eq!(get_op_info(&times), high);
    assert_eq!(get_op_info(&over), high);
    assert_eq!(get_op_info(&Token::Oper(quiet_from_str("^"))), None);
    assert_eq!(get_op_info(&Token::Oper(quiet_from_str("++"))), None);
    assert_eq!(get_op_info(&Token::Oper(String::new())), None);
    assert_eq!(get_op_info(&Token::Word(quiet_from_str("+"))), None);
    assert_eq!(get_op_info(&Token::Comma), None);
}

#[test]
fn empty_input_has_empty_postfix() {
    assert_eq!(to_postfix(vec![]), Ok(vec![]));
}

#[test]
fn brackets_group_like_parens() {
    test_postfix("[1 + 2] * 3", "1 2 + 3 *");
    test_postfix("(1 + 2] * 3", "1 2 + 3 *");
    test_postfix("2 * [3 - (4 + 5)]", "2 3 4 5 + - *");
}

#[test]
fn equal_precedence_groups_from_the_left() {
    test_postfix("8 / 4 / 2", "8 4 / 2 /");
    test_postfix("8 / 4 * 2", "8 4 / 2 *");
    test_postfix("1 - 2 - 3 + 4", "1 2 - 3 - 4 +");
    test_postfix("1 * 2 + 3 * 4", "1 2 * 3 4 * +");
}

#[test]
fn unbalanced_closing_symbol() {
    assert_eq!(postfix_of(")"), Err(ExprError::MismatchedGrouping));
    assert_eq!(postfix_of("]"), Err(ExprError::MismatchedGrouping));
    assert_eq!(postfix_of("1 + 2)"), Err(ExprError::MismatchedGrouping));
    assert_eq!(postfix_of("(1 + 2))"), Err(ExprError::MismatchedGrouping));
    assert_eq!(parse_text(")"), Err(ExprError::MismatchedGrouping));
}

#[test]
fn unclosed_opening_symbol() {
    assert_eq!(postfix_of("("), Err(ExprError::MismatchedGrouping));
    assert_eq!(postfix_of("(1 + 2"), Err(ExprError::MismatchedGrouping));
    assert_eq!(postfix_of("fun[1, 2"), Err(ExprError::MismatchedGrouping));
    assert_eq!(parse_text("((1)"), Err(ExprError::MismatchedGrouping));
}

#[test]
fn comma_outside_a_list() {
    assert_eq!(postfix_of(","), Err(ExprError::MismatchedGrouping));
    assert_eq!(postfix_of("1, 2"), Err(ExprError::MismatchedGrouping));
    assert_eq!(postfix_of("(1), 2"), Err(ExprError::MismatchedGrouping));
}

#[test]
fn unknown_operator() {
    assert_eq!(postfix_of("1 ^ 2"), Err(ExprError::UnknownOperator));
    assert_eq!(postfix_of("1 >= 2"), Err(ExprError::UnknownOperator));
    assert_eq!(postfix_of("1 ++ 2"), Err(ExprError::UnknownOperator));
    assert_eq!(parse_text("2 ^ 3"), Err(ExprError::UnknownOperator));
}

#[test]
fn first_failure_is_reported() {
    assert_eq!(postfix_of(") ^"), Err(ExprError::MismatchedGrouping));
    assert_eq!(postfix_of("^ )"), Err(ExprError::UnknownOperator));
    assert_eq!(postfix_of("( ^"), Err(ExprError::UnknownOperator));
}

#[test]
fn arguments_are_counted() {
    let symbols = shunt(&lex(quiet_from_str("f(1, g(2, 3, 4), h(5)) + 6")).unwrap()).unwrap();
    let arities: Vec<usize> = symbols.iter().map(|s| s.arity).collect();
    let tokens: Vec<Token> = symbols.into_iter().map(|s| s.token).collect();
    assert_eq!(
        tokens,
        lex(quiet_from_str("1 2 3 4 g 5 h f 6 +")).unwrap()
    );
    assert_eq!(arities, vec![0, 0, 0, 0, 3, 0, 1, 3, 0, 2]);
}

#[test]
fn word_without_a_list_takes_nothing() {
    let symbols = shunt(&lex(quiet_from_str("x")).unwrap()).unwrap();
    assert_eq!(
        symbols,
        vec![Symbol {
            token: Token::Word(quiet_from_str("x")),
            arity: 0
        }]
    );
    assert_eq!(parse_text("x"), Err(ExprError::MalformedExpression));
    assert_eq!(parse_text("x + 1"), Err(ExprError::MalformedExpression));
}

#[test]
fn nested_parens_hide_commas_from_the_function() {
    let symbols = shunt(&lex(quiet_from_str("f((1, 2))")).unwrap()).unwrap();
    let arities: Vec<usize> = symbols.iter().map(|s| s.arity).collect();
    assert_eq!(arities, vec![0, 0, 1]);
    assert_eq!(parse_text("f((1, 2))"), Err(ExprError::MalformedExpression));
}

#[test]
fn parse_a_number() {
    assert_eq!(parse_text("23"), Ok(*value(23)));
    assert_eq!(
        parse_text("2.5"),
        Ok(Expression::Value(Rational { num: 7, den: 1 }))
    );
    assert_eq!(
        parse_text("2.05"),
        Ok(Expression::Value(Rational { num: 25, den: 10 }))
    );
}

#[test]
fn parse_operators() {
    assert_eq!(parse_text("1 + 2"), Ok(*binary("+", value(1), value(2))));
    assert_eq!(
        parse_text("2 + 3 * 4"),
        Ok(*binary("+", value(2), binary("*", value(3), value(4))))
    );
    assert_eq!(
        parse_text("2 + 3 - 4"),
        Ok(*binary("-", binary("+", value(2), value(3)), value(4)))
    );
    assert_eq!(
        parse_text("(2 + 3) * 4"),
        Ok(*binary("*", binary("+", value(2), value(3)), value(4)))
    );
    assert_eq!(
        parse_text("8 / 4 / 2"),
        Ok(*binary("/", binary("/", value(8), value(4)), value(2)))
    );
}

#[test]
fn parse_functions() {
    assert_eq!(parse_text("fun(2)"), Ok(*unary("fun", value(2))));
    assert_eq!(
        parse_text("fun(1, 2)"),
        Ok(*binary("fun", value(1), value(2)))
    );
    assert_eq!(
        parse_text("1 / fun(2 * 3, 4 + 5)"),
        Ok(*binary(
            "/",
            value(1),
            binary(
                "fun",
                binary("*", value(2), value(3)),
                binary("+", value(4), value(5))
            )
        ))
    );
    assert_eq!(
        parse_text("f(g(1))"),
        Ok(*unary("f", unary("g", value(1))))
    );
}

#[test]
fn parse_rejects_other_arities() {
    assert_eq!(parse_text("fun(1, 2, 3)"), Err(ExprError::MalformedExpression));
    assert_eq!(parse_text("fun()"), Err(ExprError::MalformedExpression));
}

#[test]
fn parse_needs_exactly_one_expression() {
    assert_eq!(parse(vec![]), Err(ExprError::MalformedExpression));
    assert_eq!(parse_text("1 2"), Err(ExprError::MalformedExpression));
    assert_eq!(parse_text("(1) (2)"), Err(ExprError::MalformedExpression));
}

#[test]
fn parse_needs_both_operands() {
    assert_eq!(parse_text("1 +"), Err(ExprError::MalformedExpression));
    assert_eq!(parse_text("+"), Err(ExprError::MalformedExpression));
    assert_eq!(parse_text("* 2"), Err(ExprError::MalformedExpression));
}

#[test]
fn parse_reports_a_literal_without_fraction() {
    assert_eq!(
        parse_text("1 + 0.00000000000000000001"),
        Err(ExprError::MalformedLiteral)
    );
    assert_eq!(
        parse(vec![Token::Number(Num::Decimal(1, 5, 1))]),
        Err(ExprError::MalformedLiteral)
    );
}

#[test]
fn parse_num_reads_numbers_only() {
    assert_eq!(
        parse_num(&Token::Number(Num::Integer(4))),
        Ok(Some(*value(4)))
    );
    assert_eq!(
        parse_num(&Token::Number(Num::Decimal(0, 1, -2))),
        Ok(Some(Expression::Value(Rational { num: 1, den: 100 })))
    );
    assert_eq!(
        parse_num(&Token::Number(Num::Decimal(0, 1, 2))),
        Err(ExprError::MalformedLiteral)
    );
    assert_eq!(parse_num(&Token::Word(quiet_from_str("x"))), Ok(None));
    assert_eq!(parse_num(&Token::OParen), Ok(None));
}

#[test]
fn reduce_a_postfix_sequence() {
    let number = |n: i64| Symbol {
        token: Token::Number(Num::Integer(n)),
        arity: 0,
    };
    let minus = Symbol {
        token: Token::Oper(quiet_from_str("-")),
        arity: 2,
    };
    let neg = Symbol {
        token: Token::Oper(quiet_from_str("-")),
        arity: 1,
    };
    assert_eq!(
        _parse(&vec![number(5), number(3), minus]),
        Ok(*binary("-", value(5), value(3)))
    );
    assert_eq!(
        _parse(&vec![number(5), neg]),
        Ok(*unary("-", value(5)))
    );
    assert_eq!(_parse(&vec![]), Err(ExprError::MalformedExpression));
    assert_eq!(
        _parse(&vec![Symbol {
            token: Token::OParen,
            arity: 1
        }]),
        Err(ExprError::MalformedExpression)
    );
    assert_eq!(
        _parse(&vec![
            number(1),
            number(2),
            number(3),
            Symbol {
                token: Token::Word(quiet_from_str("f")),
                arity: 3
            }
        ]),
        Err(ExprError::MalformedExpression)
    );
}

#[test]
fn operators_build_nodes() {
    let neg = UnaryOperator {
        symbol: quiet_from_str("neg"),
    };
    assert_eq!(neg.apply(value(3)), unary("neg", value(3)));
    let plus = BinaryOperator {
        symbol: quiet_from_str("+"),
    };
    assert_eq!(plus.apply(value(1), value(2)), binary("+", value(1), value(2)));
    assert_ne!(plus.apply(value(1), value(2)), binary("+", value(2), value(1)));
}

#[test]
fn postfix_rearranges_the_input() {
    let input = lex(quiet_from_str("7 * (6 - f(5, 4 + 3)) / g[2] - 1")).unwrap();
    let output = to_postfix(input.clone()).unwrap();

    let is_number = |t: &&Token| matches!(t, Token::Number(_));
    let numbers_in: Vec<&Token> = input.iter().filter(is_number).collect();
    let numbers_out: Vec<&Token> = output.iter().filter(is_number).collect();
    assert_eq!(numbers_in, numbers_out);

    let is_payload =
        |t: &&Token| matches!(t, Token::Number(_) | Token::Word(_) | Token::Oper(_));
    let mut kept: Vec<String> = input
        .iter()
        .filter(is_payload)
        .map(|t| format!("{:?}", t))
        .collect();
    let mut found: Vec<String> = output.iter().map(|t| format!("{:?}", t)).collect();
    kept.sort();
    found.sort();
    assert_eq!(kept, found);
    assert_eq!(output, lex(quiet_from_str("7 6 5 4 3 + f - * 2 g / 1 -")).unwrap());
}

#[test]
fn well_grouped_input_with_known_operators_succeeds() {
    assert!(postfix_of("((1 + 2) * [3, 4])").is_ok());
    assert!(postfix_of("+ + +").is_ok());
    assert!(postfix_of("f g h").is_ok());
    assert!(postfix_of("()").is_ok());
    assert_eq!(postfix_of("(]"), Ok(vec![]));
}

fn leaves(expression: &Expression, found: &mut Vec<i64>) {
    match expression {
        Expression::Value(r) => found.push(r.num),
        Expression::UnaryOp(_, operand) => leaves(operand, found),
        Expression::BinaryOp(_, left, right) => {
            leaves(left, found);
            leaves(right, found);
        }
    }
}

#[test]
fn tree_keeps_numbers_in_order() {
    let tree = parse_text("7 * (6 - f(5, 4 + 3)) / g[2] - 1").unwrap();
    let mut found = vec![];
    leaves(&tree, &mut found);
    assert_eq!(found, vec![7, 6, 5, 4, 3, 2, 1]);
}

#[test]
fn reduction_counts_operands() {
    let number = |n: i64| Symbol {
        token: Token::Number(Num::Integer(n)),
        arity: 0,
    };
    let plus = || Symbol {
        token: Token::Oper(quiet_from_str("+")),
        arity: 2,
    };
    assert!(_parse(&vec![number(1), number(2), plus(), number(3), plus()]).is_ok());
    assert_eq!(
        _parse(&vec![number(1), plus(), number(2)]),
        Err(ExprError::MalformedExpression)
    );
    assert_eq!(
        _parse(&vec![number(1), number(2), number(3), plus()]),
        Err(ExprError::MalformedExpression)
    );
    assert_eq!(
        _parse(&vec![
            number(1),
            plus(),
            Symbol {
                token: Token::Number(Num::Decimal(0, 0, 1)),
                arity: 0
            }
        ]),
        Err(ExprError::MalformedExpression)
    );
    assert_eq!(
        _parse(&vec![
            Symbol {
                token: Token::Number(Num::Decimal(0, 0, 1)),
                arity: 0
            },
            plus()
        ]),
        Err(ExprError::MalformedLiteral)
    );
}
