use calculator::lexer::token::{Decimal, LexError, Token};
use calculator::lexer::Lexer;
use calculator::parser::error::ParseError;
use calculator::parser::expr::Expr;
use calculator::parser::Parser;

// Helper to keep tests clean
fn parse_to_ast(input: &str) -> Box<Expr> {
    let lexer = Lexer::new(input);
    let mut parser = Parser::new(lexer);
    parser.parse().expect("Failed to parse expression")
}

fn parse(input: &str) -> Result<Box<Expr>, ParseError> {
    Parser::new(Lexer::new(input)).parse()
}

fn integer(value: i64) -> Box<Expr> {
    Box::new(Expr::Int(value))
}

fn float(whole: &str, fraction: &str) -> Box<Expr> {
    Box::new(Expr::Float(Decimal::new(whole.as_bytes(), fraction.as_bytes()).unwrap()))
}

fn binary(left: Box<Expr>, op: Token, right: Box<Expr>) -> Box<Expr> {
    Box::new(Expr::Binary { left, op, right })
}

fn negate(right: Box<Expr>) -> Box<Expr> {
    Box::new(Expr::Unary { op: Token::Minus, right })
}

fn group(inner: Box<Expr>) -> Box<Expr> {
    Box::new(Expr::Grouping(inner))
}

fn check_operators(expr: &Expr) {
    match expr {
        Expr::Int(_) | Expr::Float(_) => {}
        Expr::Unary { op, right } => {
            assert_eq!(*op, Token::Minus);
            check_operators(right);
        }
        Expr::Binary { left, op, right } => {
            assert!(matches!(op, Token::Plus | Token::Minus | Token::Star | Token::Slash));
            check_operators(left);
            check_operators(right);
        }
        Expr::Grouping(inner) => check_operators(inner),
    }
}

#[test]
fn test_precedence_multiplication() {
    // 1 + 2 * 3 should be 1 + (2 * 3)
    let ast = parse_to_ast("1 + 2 * 3");

    if let Expr::Binary { left, op, right } = *ast {
        assert_eq!(op, Token::Plus);
        assert!(matches!(*left, Expr::Int(1)));

        if let Expr::Binary { op: op_inner, .. } = *right {
            assert_eq!(op_inner, Token::Star);
        } else {
            panic!("Right side should be a multiplication binary expression");
        }
    } else {
        panic!("Root should be an addition binary expression");
    }
}

#[test]
fn test_implicit_multiplication() {
    // 2(3 + 4) should parse as 2 * (3 + 4)
    let ast = parse_to_ast("2(3 + 4)");

    match *ast {
        Expr::Binary { op, .. } => assert_eq!(op, Token::Star),
        _ => panic!("Expected implicit multiplication to be a Star binary expression"),
    }
}

#[test]
fn test_unary_negative() {
    let ast = parse_to_ast("-5");
    match *ast {
        Expr::Unary { op, .. } => assert_eq!(op, Token::Minus),
        _ => panic!("Expected unary minus expression"),
    }
}

#[test]
fn test_grouping() {
    let ast = parse_to_ast("(1 + 2)");
    assert!(matches!(*ast, Expr::Grouping(_)));
}

#[test]
fn test_error_missing_paren() {
    let lexer = Lexer::new("(1 + 2");
    let mut parser = Parser::new(lexer);
    let result = parser.parse();

    assert!(result.is_err());
    assert_eq!(result.unwrap_err(), ParseError::MissingClosingParenthesis);
}

#[test]
fn test_empty_input() {
    let lexer = Lexer::new("");
    let mut parser = Parser::new(lexer);
    let result = parser.parse();

    assert!(matches!(result, Err(ParseError::Empty)));
}

#[test]
fn multiplication_binds_tighter_than_addition() {
    assert_eq!(
        parse("1 + 2 * 3"),
        Ok(binary(integer(1), Token::Plus, binary(integer(2), Token::Star, integer(3))))
    );
    assert_eq!(
        parse("1 * 2 + 3"),
        Ok(binary(binary(integer(1), Token::Star, integer(2)), Token::Plus, integer(3)))
    );
    assert_eq!(
        parse("8 - 6 / 2"),
        Ok(binary(integer(8), Token::Minus, binary(integer(6), Token::Slash, integer(2))))
    );
}

#[test]
fn subtraction_associates_to_the_left() {
    assert_eq!(
        parse("10 - 2 - 3"),
        Ok(binary(binary(integer(10), Token::Minus, integer(2)), Token::Minus, integer(3)))
    );
}

#[test]
fn division_associates_to_the_left() {
    assert_eq!(
        parse("8 / 4 / 2"),
        Ok(binary(binary(integer(8), Token::Slash, integer(4)), Token::Slash, integer(2)))
    );
    assert_eq!(
        parse("8 / 4 * 2"),
        Ok(binary(binary(integer(8), Token::Slash, integer(4)), Token::Star, integer(2)))
    );
}

#[test]
fn parenthesis_behind_an_operand_multiplies() {
    let implicit = parse("2(3 + 4)");
    let explicit = parse("2*(3+4)");
    assert_eq!(
        implicit,
        Ok(binary(integer(2), Token::Star, group(binary(integer(3), Token::Plus, integer(4)))))
    );
    assert_eq!(implicit, explicit);
}

#[test]
fn implicit_multiplication_chains_and_associates_to_the_left() {
    assert_eq!(
        parse("2(3)(4)"),
        Ok(binary(binary(integer(2), Token::Star, group(integer(3))), Token::Star, group(integer(4))))
    );
    assert_eq!(parse("(1)(2)"), Ok(binary(group(integer(1)), Token::Star, group(integer(2)))));
    assert_eq!(
        parse("6 / 2(3)"),
        Ok(binary(binary(integer(6), Token::Slash, integer(2)), Token::Star, group(integer(3))))
    );
    assert_eq!(
        parse("1 + 2(3)"),
        Ok(binary(integer(1), Token::Plus, binary(integer(2), Token::Star, group(integer(3)))))
    );
}

#[test]
fn number_behind_a_parenthesis_does_not_multiply() {
    assert_eq!(parse("(2)3"), Err(ParseError::InvalidExpression));
    assert_eq!(parse("(2) 3.5"), Err(ParseError::InvalidExpression));
}

#[test]
fn minus_sign_negates_a_primary() {
    assert_eq!(parse("-5"), Ok(negate(integer(5))));
    assert_eq!(parse("-(2+3)"), Ok(negate(group(binary(integer(2), Token::Plus, integer(3))))));
    assert_eq!(parse("-2.5"), Ok(negate(float("2", "5"))));
}

#[test]
fn negation_binds_tighter_than_any_binary_operator() {
    assert_eq!(parse("-2 * 3"), Ok(binary(negate(integer(2)), Token::Star, integer(3))));
    assert_eq!(parse("2 * -3"), Ok(binary(integer(2), Token::Star, negate(integer(3)))));
    assert_eq!(parse("2 - -3"), Ok(binary(integer(2), Token::Minus, negate(integer(3)))));
    assert_eq!(parse("-2(3)"), Ok(binary(negate(integer(2)), Token::Star, group(integer(3)))));
}

#[test]
fn second_minus_sign_is_not_taken() {
    assert_eq!(parse("--5"), Err(ParseError::InvalidExpression));
    assert_eq!(parse("- -5"), Err(ParseError::InvalidExpression));
    assert_eq!(parse("2 * --3"), Err(ParseError::InvalidExpression));
}

#[test]
fn plus_sign_is_no_prefix() {
    assert_eq!(parse("+5"), Err(ParseError::InvalidExpression));
}

#[test]
fn division_by_a_literal_zero_is_a_tree_like_any_other() {
    assert_eq!(parse("1 / 0"), Ok(binary(integer(1), Token::Slash, integer(0))));
}

#[test]
fn literals_are_leaves() {
    assert_eq!(parse("42"), Ok(integer(42)));
    assert_eq!(parse("10.5"), Ok(float("10", "5")));
    assert_eq!(parse("9223372036854775807"), Ok(integer(i64::MAX)));
}

#[test]
fn grouping_is_kept_in_the_tree() {
    assert_eq!(parse("(1 + 2)"), Ok(group(binary(integer(1), Token::Plus, integer(2)))));
    assert_eq!(parse("((7))"), Ok(group(group(integer(7)))));
    assert_eq!(
        parse("(1 + 2) * 3"),
        Ok(binary(group(binary(integer(1), Token::Plus, integer(2))), Token::Star, integer(3)))
    );
}

#[test]
fn missing_closing_parenthesis_is_reported() {
    assert_eq!(parse("(1 + 2"), Err(ParseError::MissingClosingParenthesis));
    assert_eq!(parse("(1 + 2 3"), Err(ParseError::MissingClosingParenthesis));
    assert_eq!(parse("((1)"), Err(ParseError::MissingClosingParenthesis));
    assert_eq!(parse("2(3"), Err(ParseError::MissingClosingParenthesis));
    assert_eq!(parse("(1 &"), Err(ParseError::MissingClosingParenthesis));
}

#[test]
fn empty_text_is_an_error_of_its_own() {
    assert_eq!(parse(""), Err(ParseError::Empty));
    assert_eq!(parse("   \t\n"), Err(ParseError::Empty));
    assert_eq!(parse("()"), Err(ParseError::InvalidExpression));
    assert_eq!(parse("("), Err(ParseError::InvalidExpression));
}

#[test]
fn operand_is_required_behind_an_operator() {
    assert_eq!(parse("1 +"), Err(ParseError::InvalidExpression));
    assert_eq!(parse("1 *"), Err(ParseError::InvalidExpression));
    assert_eq!(parse("-"), Err(ParseError::InvalidExpression));
    assert_eq!(parse("1 + * 2"), Err(ParseError::InvalidExpression));
    assert_eq!(parse("* 2"), Err(ParseError::InvalidExpression));
}

#[test]
fn closing_parenthesis_starts_no_operand() {
    assert_eq!(parse(")"), Err(ParseError::InvalidExpression));
    assert_eq!(parse("1 + )"), Err(ParseError::InvalidExpression));
}

#[test]
fn illegal_byte_in_place_of_an_operand_is_reported() {
    assert_eq!(
        parse("& 2"),
        Err(ParseError::InvalidToken { token: Token::Illegal(b'&'), char: b'&' })
    );
    assert_eq!(
        parse("1 + @"),
        Err(ParseError::InvalidToken { token: Token::Illegal(b'@'), char: b'@' })
    );
    assert_eq!(
        parse("(x)"),
        Err(ParseError::InvalidToken { token: Token::Illegal(b'x'), char: b'x' })
    );
    assert_eq!(
        parse("2."),
        Err(ParseError::InvalidToken { token: Token::Illegal(b'.'), char: b'.' })
    );
    assert_eq!(
        parse("2 * ."),
        Err(ParseError::InvalidToken { token: Token::Illegal(b'.'), char: b'.' })
    );
}

#[test]
fn illegal_byte_is_reported_when_the_parser_reaches_it() {
    let mut lexer = Lexer::new("1 & 2");
    assert_eq!(lexer.next_token(), Ok(Token::Integer(1)));
    assert_eq!(lexer.next_token(), Ok(Token::Illegal(b'&')));

    let illegal = Err(ParseError::InvalidToken { token: Token::Illegal(b'&'), char: b'&' });
    assert_eq!(parse("1 & 2"), illegal);
    assert_eq!(parse("1 &"), illegal);
    assert_eq!(parse("1 + 2 * 3 &"), illegal);
    assert_eq!(parse("(1) & 2"), illegal);
    assert_eq!(parse("1 + & 2"), illegal);
}

#[test]
fn nothing_may_follow_the_expression() {
    assert_eq!(parse("1 2"), Err(ParseError::InvalidExpression));
    assert_eq!(parse("1 )"), Err(ParseError::InvalidExpression));
    assert_eq!(parse("(1))"), Err(ParseError::InvalidExpression));
    assert_eq!(parse("1 + 2 3 * 4 )"), Err(ParseError::InvalidExpression));
    assert_eq!(parse("1 2(3)"), Err(ParseError::InvalidExpression));
    assert_eq!(parse("2 3.5"), Err(ParseError::InvalidExpression));
    assert_eq!(parse("1.5 2"), Err(ParseError::InvalidExpression));
}

#[test]
fn parser_stays_before_what_follows_the_expression() {
    let mut parser = Parser::new(Lexer::new("1 + 2 3 * 4"));
    assert_eq!(parser.parse(), Err(ParseError::InvalidExpression));
    assert_eq!(parser.parse(), Ok(binary(integer(3), Token::Star, integer(4))));
    assert_eq!(parser.parse(), Err(ParseError::Empty));
}

#[test]
fn whole_text_is_used_up_by_a_tree() {
    for input in ["5", "1 + 2 * 3", "2(3 + 4)", "-(2+3)  ", " ( 1 ) \n"] {
        let mut parser = Parser::new(Lexer::new(input));
        assert!(parser.parse().is_ok());
        assert_eq!(parser.parse(), Err(ParseError::Empty));
    }
}

#[test]
fn parser_at_the_end_keeps_reporting_an_empty_text() {
    let mut parser = Parser::new(Lexer::new("5"));
    assert_eq!(parser.parse(), Ok(integer(5)));
    assert_eq!(parser.parse(), Err(ParseError::Empty));
    assert_eq!(parser.parse(), Err(ParseError::Empty));
}

#[test]
fn parser_starts_where_the_scanner_stands() {
    let mut lexer = Lexer::new("1 + 2 * 3");
    assert_eq!(lexer.next_token(), Ok(Token::Integer(1)));
    assert_eq!(lexer.next_token(), Ok(Token::Plus));
    let mut parser = Parser::new(lexer);
    assert_eq!(parser.parse(), Ok(binary(integer(2), Token::Star, integer(3))));
}

#[test]
fn integer_out_of_range_fails_the_parse() {
    let overflow = Err(ParseError::Lexical(LexError::IntegerOverflow));
    assert_eq!(parse("99999999999999999999"), overflow);
    assert_eq!(parse("1 + 99999999999999999999"), overflow);
    assert_eq!(parse("(99999999999999999999)"), overflow);
    assert_eq!(parse("-9223372036854775808"), overflow);
    assert_eq!(parse("2 * 3 99999999999999999999"), overflow);
    assert_eq!(parse("(1) 99999999999999999999"), overflow);
}

#[test]
fn parser_stays_at_an_integer_out_of_range() {
    let overflow = Err(ParseError::Lexical(LexError::IntegerOverflow));
    let mut parser = Parser::new(Lexer::new("1 99999999999999999999 2"));
    assert_eq!(parser.parse(), overflow);
    assert_eq!(parser.parse(), overflow);
}

#[test]
fn tree_holds_only_arithmetic_operators() {
    for input in ["1 + 2 * 3", "-(2(3)(4) / 5.5) - -6", "((1))(2)", "10 - 2 - 3"] {
        check_operators(&parse_to_ast(input));
    }
}

#[test]
fn star_before_a_parenthesis_behind_an_operand_changes_nothing() {
    let pairs = [
        ("2(3 + 4)", "2*(3 + 4)"),
        ("2.5(3)", "2.5*(3)"),
        ("(1)(2)", "(1)*(2)"),
        ("1 + 2(3)(4) - 5", "1 + 2*(3)*(4) - 5"),
        ("-(2)(3)", "-(2)*(3)"),
        ("6 / 2(1 + 2)", "6 / 2*(1 + 2)"),
        ("2(3", "2*(3"),
        ("2(3 +)", "2*(3 +)"),
        ("2(99999999999999999999)", "2*(99999999999999999999)"),
        ("1 2(3)", "1 2*(3)"),
    ];
    for (implicit, explicit) in pairs {
        assert_eq!(parse(implicit), parse(explicit));
    }
}

#[test]
fn mismatch_of_kinds_is_never_reported_as_such() {
    let inputs = [
        "", "1", "(", ")", "(1", "(1 +", "(1 2", "((1) 2", "1 + (2 * 3", "2(3", "(&", "( )", "1 )",
        "(1)) ", "-(", "-(1", "(1 - ", "(99999999999999999999", "(1 99999999999999999999",
    ];
    for input in inputs {
        assert!(!matches!(parse(input), Err(ParseError::UnexpectedToken { .. })));
    }
}
