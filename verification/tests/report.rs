//! Tests for the error formatter: the explanation line, the echoed source
//! line, and the character-counted underline.

use calc_core::parser::{Parser, ParserError};
use calc_core::report::format_error;
use calc_core::span::Span;

fn parse_error(input: &str) -> ParserError {
    Parser::new(input).parse().expect_err("expected a parse error")
}

#[test]
fn test_format_unrecognized_special() {
    let input = "?xyz";
    let e = parse_error(input);
    assert_eq!(
        "error: expected `?quit`, found `?xyz`\n      ?xyz      ^^^^",
        format_error(e, input)
    );
}

#[test]
fn test_format_unclosed_parenthesis_at_end_of_line() {
    let input = "(1+2";
    let e = parse_error(input);
    assert_eq!(ParserError::UnclosedParenthesis(None), e);
    // The placeholder names the end of the line; the underline sits under the
    // last character.
    assert_eq!(
        "error: expected `)`, found `<EOL>`\n      (1+2         ^",
        format_error(e, input)
    );
}

#[test]
fn test_format_expected_binary_op() {
    let input = "1 2";
    let e = parse_error(input);
    assert_eq!(
        "error: expected one of `+`, `-`, `*`, `/`, found `2`\n      1 2        ^",
        format_error(e, input)
    );
}

#[test]
fn test_format_expected_expr_start() {
    let input = "*5";
    let e = parse_error(input);
    assert_eq!(
        ParserError::ExpectedExprStart(Some(Span { start: 0, end: 1 })),
        e
    );
    assert_eq!(
        "error: expected one of `-`, `(`, or a number, found `*`\n      *5      ^",
        format_error(e, input)
    );
}

#[test]
fn test_format_end_of_line_after_multibyte_character() {
    // The line ends in a two-byte character; the underline still lands on
    // that whole last character.
    let input = "1+\u{00A0}";
    let e = parse_error(input);
    assert_eq!(ParserError::ExpectedExprStart(None), e);
    assert_eq!(
        "error: expected one of `-`, `(`, or a number, found `<EOL>`\n      1+\u{00A0}        ^",
        format_error(e, input)
    );
}

#[test]
fn test_format_counts_characters_not_bytes() {
    // The offending character is two bytes wide but the underline is one
    // caret, and the padding before it counts characters.
    let input = "é";
    let e = parse_error(input);
    assert_eq!(
        ParserError::ExpectedExprStart(Some(Span { start: 0, end: 2 })),
        e
    );
    assert_eq!(
        "error: expected one of `-`, `(`, or a number, found `é`\n      é      ^",
        format_error(e, input)
    );
}
