//! Tests for the evaluator: exact rational results for the precedence,
//! associativity and unary-binding examples, and the division-by-zero case.

use calc_core::parser::{ParseTree, Parser};
use calc_core::runtime::{evaluate, Rational};

fn eval_line(input: &str) -> Option<Rational> {
    match Parser::new(input).parse() {
        Ok(ParseTree::Expression(e)) => evaluate(e),
        other => panic!("expected an expression for {:?}, got {:?}", input, other),
    }
}

fn assert_evaluates_to(input: &str, expected: i64) {
    let v = eval_line(input).unwrap();
    assert_eq!(Some(true), v.same_value(&Rational::from_int(expected)));
}

#[test]
fn test_precedence_value() {
    // 1+2*3 is 7, not 9.
    assert_evaluates_to("1+2*3", 7);
    assert_evaluates_to("(1+2)*3", 9);
}

#[test]
fn test_associativity_value() {
    // 8/4/2 is 1 (left to right), not 4.
    assert_evaluates_to("8/4/2", 1);
}

#[test]
fn test_unary_value() {
    assert_evaluates_to("-2*3", -6);
    assert_evaluates_to("-(2+3)", -5);
}

#[test]
fn test_decimal_value() {
    // 0.5*4 is exactly 2.
    assert_evaluates_to("0.5*4", 2);
}

#[test]
fn test_division_by_zero_has_no_rational_value() {
    assert_eq!(None, eval_line("1/0"));
}

#[test]
fn test_atom_value() {
    let v = eval_line("123.25").unwrap();
    assert_eq!(Rational { num: 12325, den: 100 }, v);
    assert_eq!(Some(true), v.same_value(&Rational { num: 493, den: 4 }));
}

#[test]
fn test_reevaluation_is_identical() {
    assert_eq!(eval_line("3-4/2"), eval_line("3-4/2"));
}
