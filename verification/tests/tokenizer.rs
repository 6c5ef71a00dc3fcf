//! Tests for the tokenizer.

use calc_core::span::Span;
use calc_core::tokenizer::{NumberLit, OperationKind, SpecialKind, Token, TokenKind, Tokenizer};

#[test]
fn test_whitespace() {
    let input = " \n\r\t";
    let tokens = Tokenizer::new(input).tokenize_all();
    assert_eq!(
        vec![Token {
            kind: TokenKind::Whitespace,
            span: (0..4).into()
        }],
        tokens
    );
}

#[test]
fn test_whitespace_filtered() {
    let input = " \n\r\t";
    let tokens = Tokenizer::new(input).tokenize();
    assert_eq!(Vec::<Token>::new(), tokens);
}

#[test]
fn test_special_quit() {
    let input = "?quit";
    let tokens = Tokenizer::new(input).tokenize();
    assert_eq!(
        vec![Token {
            kind: TokenKind::Special(SpecialKind::Quit),
            span: (0..5).into()
        }],
        tokens
    );
}

#[test]
fn test_special_unrecognized() {
    let input = "?blabla";
    let tokens = Tokenizer::new(input).tokenize();
    assert_eq!(
        vec![Token {
            kind: TokenKind::Special(SpecialKind::Unrecognized),
            span: (0..7).into()
        }],
        tokens
    );
}

#[test]
fn test_number() {
    let input = "123.123";
    let tokens = Tokenizer::new(input).tokenize();
    assert_eq!(
        vec![Token {
            kind: TokenKind::Number(NumberLit {
                mantissa: 123123,
                scale: 3
            }),
            span: (0..7).into()
        }],
        tokens
    );
}

#[test]
fn test_number_trailing_dot() {
    let input = "123.";
    let tokens = Tokenizer::new(input).tokenize();
    assert_eq!(
        vec![Token {
            kind: TokenKind::Number(NumberLit {
                mantissa: 123,
                scale: 0
            }),
            span: (0..4).into()
        }],
        tokens
    );
}

#[test]
fn test_number_no_decimal() {
    let input = "123";
    let tokens = Tokenizer::new(input).tokenize();
    assert_eq!(
        vec![Token {
            kind: TokenKind::Number(NumberLit {
                mantissa: 123,
                scale: 0
            }),
            span: (0..3).into()
        }],
        tokens
    );
}

#[test]
fn test_plus() {
    let input = "+";
    let tokens = Tokenizer::new(input).tokenize();
    assert_eq!(
        vec![Token {
            kind: TokenKind::Operation(OperationKind::Plus),
            span: (0..1).into()
        }],
        tokens
    );
}

#[test]
fn test_minus() {
    let input = "-";
    let tokens = Tokenizer::new(input).tokenize();
    assert_eq!(
        vec![Token {
            kind: TokenKind::Operation(OperationKind::Minus),
            span: (0..1).into()
        }],
        tokens
    );
}

#[test]
fn test_star() {
    let input = "*";
    let tokens = Tokenizer::new(input).tokenize();
    assert_eq!(
        vec![Token {
            kind: TokenKind::Operation(OperationKind::Star),
            span: (0..1).into()
        }],
        tokens
    );
}

#[test]
fn test_slash() {
    let input = "/";
    let tokens = Tokenizer::new(input).tokenize();
    assert_eq!(
        vec![Token {
            kind: TokenKind::Operation(OperationKind::Slash),
            span: (0..1).into()
        }],
        tokens
    );
}

#[test]
fn test_open_parenthesis() {
    let input = "(";
    let tokens = Tokenizer::new(input).tokenize();
    assert_eq!(
        vec![Token {
            kind: TokenKind::OpenParenthesis,
            span: (0..1).into()
        }],
        tokens
    );
}

#[test]
fn test_close_parenthesis() {
    let input = ")";
    let tokens = Tokenizer::new(input).tokenize();
    assert_eq!(
        vec![Token {
            kind: TokenKind::CloseParenthesis,
            span: (0..1).into()
        }],
        tokens
    );
}

#[test]
fn test_multibyte_unrecognized() {
    // A two-byte character gets a two-byte span.
    let input = "é";
    let tokens = Tokenizer::new(input).tokenize();
    assert_eq!(
        vec![Token {
            kind: TokenKind::Unrecognized,
            span: (0..2).into()
        }],
        tokens
    );
}

#[test]
fn test_whitespace_between_tokens() {
    // Whitespace advances the byte offsets of later tokens.
    let input = "1 + 2";
    let tokens = Tokenizer::new(input).tokenize();
    assert_eq!(
        vec![
            Token {
                kind: TokenKind::Number(NumberLit {
                    mantissa: 1,
                    scale: 0
                }),
                span: (0..1).into()
            },
            Token {
                kind: TokenKind::Operation(OperationKind::Plus),
                span: (2..3).into()
            },
            Token {
                kind: TokenKind::Number(NumberLit {
                    mantissa: 2,
                    scale: 0
                }),
                span: (4..5).into()
            },
        ],
        tokens
    );
}

#[test]
fn test_number_twenty_digits_exact() {
    let input = "99999999999999999999";
    let tokens = Tokenizer::new(input).tokenize();
    assert_eq!(
        vec![Token {
            kind: TokenKind::Number(NumberLit {
                mantissa: 99999999999999999999,
                scale: 0
            }),
            span: (0..20).into()
        }],
        tokens
    );
}

#[test]
fn test_number_saturates() {
    // Thirty-nine nines exceed what the mantissa can hold.
    let input = "999999999999999999999999999999999999999";
    let tokens = Tokenizer::new(input).tokenize();
    assert_eq!(
        vec![Token {
            kind: TokenKind::Number(NumberLit {
                mantissa: u128::MAX,
                scale: 0
            }),
            span: (0..39).into()
        }],
        tokens
    );
}

#[test]
fn test_fraction_only_scale() {
    let input = "0.25";
    let tokens = Tokenizer::new(input).tokenize();
    assert_eq!(
        vec![Token {
            kind: TokenKind::Number(NumberLit {
                mantissa: 25,
                scale: 2
            }),
            span: (0..4).into()
        }],
        tokens
    );
}
