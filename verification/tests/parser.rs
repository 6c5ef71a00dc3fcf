//! Tests for the parser: dispatch, precedence, associativity, and the error
//! variants with the spans they carry.

use calc_core::parser::{
    BinaryOperation, Expression, ParseTree, Parser, ParserError, UnaryOperation,
};
use calc_core::span::Span;
use calc_core::tokenizer::NumberLit;

fn atom(mantissa: u128, scale: usize) -> Expression {
    Expression::Atom(NumberLit { mantissa, scale })
}

fn parse_expression(input: &str) -> Expression {
    match Parser::new(input).parse() {
        Ok(ParseTree::Expression(e)) => e,
        other => panic!("expected an expression for {:?}, got {:?}", input, other),
    }
}

#[test]
fn test_empty_input_is_empty() {
    assert_eq!(Ok(ParseTree::Empty), Parser::new("").parse());
}

#[test]
fn test_whitespace_only_is_empty() {
    assert_eq!(Ok(ParseTree::Empty), Parser::new(" \n\r\t").parse());
}

#[test]
fn test_quit() {
    assert_eq!(Ok(ParseTree::Quit), Parser::new("?quit").parse());
}

#[test]
fn test_quit_ignores_trailing_content() {
    assert_eq!(Ok(ParseTree::Quit), Parser::new("?quit 1+2").parse());
}

#[test]
fn test_quit_after_leading_whitespace() {
    assert_eq!(Ok(ParseTree::Quit), Parser::new("  ?quit").parse());
}

#[test]
fn test_unrecognized_special() {
    assert_eq!(
        Err(ParserError::UnrecognizedSpecial(Some(Span { start: 0, end: 4 }))),
        Parser::new("?xyz").parse()
    );
}

#[test]
fn test_precedence_tree() {
    // 1+2*3 parses as 1+(2*3), not (1+2)*3.
    let expected = Expression::Binary {
        operation: BinaryOperation::Addition,
        lhs: Box::new(atom(1, 0)),
        rhs: Box::new(Expression::Binary {
            operation: BinaryOperation::Multiplication,
            lhs: Box::new(atom(2, 0)),
            rhs: Box::new(atom(3, 0)),
        }),
    };
    assert_eq!(expected, parse_expression("1+2*3"));
}

#[test]
fn test_parenthesized_tree() {
    // (1+2)*3 groups the addition first.
    let expected = Expression::Binary {
        operation: BinaryOperation::Multiplication,
        lhs: Box::new(Expression::Binary {
            operation: BinaryOperation::Addition,
            lhs: Box::new(atom(1, 0)),
            rhs: Box::new(atom(2, 0)),
        }),
        rhs: Box::new(atom(3, 0)),
    };
    assert_eq!(expected, parse_expression("(1+2)*3"));
}

#[test]
fn test_associativity_tree() {
    // 8/4/2 parses as (8/4)/2, left to right.
    let expected = Expression::Binary {
        operation: BinaryOperation::Division,
        lhs: Box::new(Expression::Binary {
            operation: BinaryOperation::Division,
            lhs: Box::new(atom(8, 0)),
            rhs: Box::new(atom(4, 0)),
        }),
        rhs: Box::new(atom(2, 0)),
    };
    assert_eq!(expected, parse_expression("8/4/2"));
}

#[test]
fn test_unary_binds_tighter_than_infix() {
    // -2*3 parses as (-2)*3.
    let expected = Expression::Binary {
        operation: BinaryOperation::Multiplication,
        lhs: Box::new(Expression::Unary {
            operation: UnaryOperation::Negation,
            operand: Box::new(atom(2, 0)),
        }),
        rhs: Box::new(atom(3, 0)),
    };
    assert_eq!(expected, parse_expression("-2*3"));
}

#[test]
fn test_unary_over_group() {
    // -(2+3) negates the whole sum.
    let expected = Expression::Unary {
        operation: UnaryOperation::Negation,
        operand: Box::new(Expression::Binary {
            operation: BinaryOperation::Addition,
            lhs: Box::new(atom(2, 0)),
            rhs: Box::new(atom(3, 0)),
        }),
    };
    assert_eq!(expected, parse_expression("-(2+3)"));
}

#[test]
fn test_unclosed_parenthesis_at_end_of_input() {
    assert_eq!(
        Err(ParserError::UnclosedParenthesis(None)),
        Parser::new("(1+2").parse()
    );
}

#[test]
fn test_expected_expr_start_on_operator() {
    assert_eq!(
        Err(ParserError::ExpectedExprStart(Some(Span { start: 0, end: 1 }))),
        Parser::new("+").parse()
    );
}

#[test]
fn test_expected_expr_start_at_end_of_input() {
    assert_eq!(
        Err(ParserError::ExpectedExprStart(None)),
        Parser::new("1+").parse()
    );
}

#[test]
fn test_expected_binary_op_between_numbers() {
    assert_eq!(
        Err(ParserError::ExpectedBinaryOp(Some(Span { start: 2, end: 3 }))),
        Parser::new("1 2").parse()
    );
}

#[test]
fn test_reparse_is_identical() {
    // Two independent parsers over the same line build equal trees.
    let first = Parser::new("1+2*3-(4/5)").parse();
    let second = Parser::new("1+2*3-(4/5)").parse();
    assert_eq!(first, second);
}

#[test]
fn test_trailing_close_parenthesis_is_ignored() {
    // The descent stops at a closing parenthesis it did not open.
    let expected = Expression::Binary {
        operation: BinaryOperation::Addition,
        lhs: Box::new(atom(1, 0)),
        rhs: Box::new(atom(2, 0)),
    };
    assert_eq!(expected, parse_expression("1+2)"));
}
