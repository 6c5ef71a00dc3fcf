//! The parser consumes the token sequence with one-token lookahead and builds
//! an expression tree — or detects a quit directive or empty input — by
//! precedence-climbing (Pratt) parsing.

use vstd::prelude::*;

use crate::chars::{byte_len, whitespace_char};
use crate::span::Span;
use crate::tokenizer::{
    lemma_filter_singleton, lemma_run_end, lemma_token_end_at, lexed, nonws, run_end, token_at,
    token_end_at, tokens_from, ws_pred, NumberLit, OperationKind, SpecialKind, Token, TokenKind,
    Tokenizer,
};

verus! {

/// Binary operation.
#[derive(Debug, PartialEq, Eq, Structural, Copy, Clone)]
pub enum BinaryOperation {
    Addition,
    Subtraction,
    Multiplication,
    Division,
}

/// Unary operation.
#[derive(Debug, PartialEq, Eq, Structural, Copy, Clone)]
pub enum UnaryOperation {
    Negation,
}

/// Arithmetic expression.
/// This is the root of our syntax tree.
#[derive(Debug, PartialEq)]
pub enum Expression {
    /// Binary expression.
    Binary { operation: BinaryOperation, lhs: Box<Expression>, rhs: Box<Expression> },
    /// Unary expression.
    Unary { operation: UnaryOperation, operand: Box<Expression> },
    /// Atom, in this case a number.
    Atom(NumberLit),
}

/// The top-level result of parsing one line.
#[derive(Debug, PartialEq)]
pub enum ParseTree {
    /// A parsed arithmetic expression.
    Expression(Expression),
    /// A quit instruction.
    Quit,
    /// Nothing to parse.
    Empty,
}

/// An error caught by the parser. The span, when present, points at the
/// offending token; it is absent when the error occurs at end-of-input.
#[derive(Debug, PartialEq, Copy, Clone)]
pub enum ParserError {
    /// The special command was not recognized.
    UnrecognizedSpecial(Option<Span>),
    /// The parser expected a binary operator (`+`, `-`, `*` or `/`) but got
    /// something else instead.
    ExpectedBinaryOp(Option<Span>),
    /// The parser expected a new expression (`-`, `(`, or a number), but got
    /// something else instead.
    ExpectedExprStart(Option<Span>),
    /// The parser expected a closing parenthesis but got something else
    /// instead.
    UnclosedParenthesis(Option<Span>),
}

/// The binding power of a unary operator.
pub open spec fn prefix_bp(op: UnaryOperation) -> int {
    5
}

/// The left and right binding powers of an infix operator.
pub open spec fn infix_bp(op: BinaryOperation) -> (int, int) {
    match op {
        BinaryOperation::Addition | BinaryOperation::Subtraction => (1, 2),
        BinaryOperation::Multiplication | BinaryOperation::Division => (3, 4),
    }
}

/// The binary operation an operator token denotes.
pub open spec fn binop_of(op: OperationKind) -> BinaryOperation {
    match op {
        OperationKind::Plus => BinaryOperation::Addition,
        OperationKind::Minus => BinaryOperation::Subtraction,
        OperationKind::Star => BinaryOperation::Multiplication,
        OperationKind::Slash => BinaryOperation::Division,
    }
}

/// Clamps an index into `[lo, hi]` (or to `hi` when the range is empty). The
/// parser's recursion only ever continues from indices that already lie in
/// the range, so on those the clamp changes nothing; it keeps the recursion
/// measure decreasing without a separate advancement proof.
pub open spec fn step_idx(j: int, lo: int, hi: int) -> int {
    if lo > hi {
        hi
    } else if j < lo {
        lo
    } else if j > hi {
        hi
    } else {
        j
    }
}

/// Parses one expression from `toks` starting at index `i` under the minimum
/// binding power `min_bp`: the left operand (a number, a negation, or a
/// parenthesized expression) followed by the infix loop. Returns the
/// expression and the index just past it.
pub open spec fn parse_expr(toks: Seq<Token>, i: int, min_bp: int) -> Result<
    (Expression, int),
    ParserError,
>
    decreases toks.len() - i, 1int,
{
    if i < 0 || i >= toks.len() {
        Err(ParserError::ExpectedExprStart(None))
    } else {
        let t = toks[i];
        match t.kind {
            TokenKind::Number(num) => parse_infix(toks, i + 1, min_bp, Expression::Atom(num)),
            TokenKind::Operation(OperationKind::Minus) => {
                match parse_expr(toks, i + 1, prefix_bp(UnaryOperation::Negation)) {
                    Ok(p) => parse_infix(
                        toks,
                        step_idx(p.1, i + 2, toks.len() as int),
                        min_bp,
                        Expression::Unary {
                            operation: UnaryOperation::Negation,
                            operand: Box::new(p.0),
                        },
                    ),
                    Err(e) => Err(e),
                }
            },
            TokenKind::OpenParenthesis => {
                match parse_expr(toks, i + 1, 0) {
                    Ok(p) => {
                        if 0 <= p.1 < toks.len() && toks[p.1].kind is CloseParenthesis {
                            parse_infix(
                                toks,
                                step_idx(p.1 + 1, i + 2, toks.len() as int),
                                min_bp,
                                p.0,
                            )
                        } else if 0 <= p.1 < toks.len() {
                            Err(ParserError::UnclosedParenthesis(Some(toks[p.1].span)))
                        } else {
                            Err(ParserError::UnclosedParenthesis(None))
                        }
                    },
                    Err(e) => Err(e),
                }
            },
            _ => Err(ParserError::ExpectedExprStart(Some(t.span))),
        }
    }
}

/// The infix loop of the Pratt parser: with `lhs` parsed and the cursor at
/// `i`, folds in every following infix operator whose left binding power
/// reaches `min_bp`, and stops at end-of-input, at a closing parenthesis, or
/// before a weaker operator.
pub open spec fn parse_infix(toks: Seq<Token>, i: int, min_bp: int, lhs: Expression) -> Result<
    (Expression, int),
    ParserError,
>
    decreases toks.len() - i, 0int,
{
    if i < 0 || i >= toks.len() {
        Ok((lhs, i))
    } else {
        let t = toks[i];
        match t.kind {
            TokenKind::CloseParenthesis => Ok((lhs, i)),
            TokenKind::Operation(op) => {
                let bop = binop_of(op);
                if infix_bp(bop).0 < min_bp {
                    Ok((lhs, i))
                } else {
                    match parse_expr(toks, i + 1, infix_bp(bop).1) {
                        Ok(p) => parse_infix(
                            toks,
                            step_idx(p.1, i + 2, toks.len() as int),
                            min_bp,
                            Expression::Binary {
                                operation: bop,
                                lhs: Box::new(lhs),
                                rhs: Box::new(p.0),
                            },
                        ),
                        Err(e) => Err(e),
                    }
                }
            },
            _ => Err(ParserError::ExpectedBinaryOp(Some(t.span))),
        }
    }
}

/// What parsing one line returns: `Empty` for no tokens, `Quit` for a
/// leading quit command, an error for a leading unrecognized special
/// command, and otherwise the parsed expression.
pub open spec fn parse_line(s: Seq<char>) -> Result<ParseTree, ParserError> {
    let toks = lexed(s);
    if toks.len() == 0 {
        Ok(ParseTree::Empty)
    } else if toks[0].kind == TokenKind::Special(SpecialKind::Quit) {
        Ok(ParseTree::Quit)
    } else if toks[0].kind == TokenKind::Special(SpecialKind::Unrecognized) {
        Err(ParserError::UnrecognizedSpecial(Some(toks[0].span)))
    } else {
        match parse_expr(toks, 0, 0) {
            Ok(p) => Ok(ParseTree::Expression(p.0)),
            Err(e) => Err(e),
        }
    }
}

/// Parser datastructure.
pub struct Parser {
    /// Tokenizer.
    tokenizer: Tokenizer,
}

impl Parser {
    /// The line this parser reads.
    pub closed spec fn text(&self) -> Seq<char> {
        self.tokenizer.text()
    }

    /// The parser holds a fresh tokenizer over its line.
    pub closed spec fn wf(&self) -> bool {
        self.tokenizer.wf() && self.tokenizer.position() == 0
    }

    /// Creates a new parser from source input.
    pub fn new(input: &str) -> (r: Parser)
        ensures
            r.wf(),
            r.text() == input@,
    {
        Parser { tokenizer: Tokenizer::new(input) }
    }

    /// Entrypoint for parsing.
    pub fn parse(self) -> (r: Result<ParseTree, ParserError>)
        requires
            self.wf(),
        ensures
            r == parse_line(self.text()),
    {
        let tokens = self.tokenizer.tokenize();
        if tokens.len() == 0 {
            // If there are no tokens to parse, return an empty parse tree.
            return Ok(ParseTree::Empty);
        }
        let first = tokens[0];
        match first.kind {
            // If the first token is a special token, handle it.
            TokenKind::Special(SpecialKind::Quit) => Ok(ParseTree::Quit),
            TokenKind::Special(SpecialKind::Unrecognized) => Err(
                ParserError::UnrecognizedSpecial(Some(first.span)),
            ),
            // Otherwise, parse the tokens using a pratt parser.
            _ => match parse_expr_at(&tokens, 0, 0) {
                Ok(p) => Ok(ParseTree::Expression(p.0)),
                Err(e) => Err(e),
            },
        }
    }

    /// Describes the binding power of unary operators.
    fn prefix_binding_power(op: &UnaryOperation) -> (r: u8)
        ensures
            r == prefix_bp(*op),
    {
        match op {
            UnaryOperation::Negation => 5,
        }
    }

    /// Describes the binding power of infix operators.
    fn infix_binding_power(op: &BinaryOperation) -> (r: (u8, u8))
        ensures
            r.0 == infix_bp(*op).0,
            r.1 == infix_bp(*op).1,
    {
        match op {
            BinaryOperation::Addition | BinaryOperation::Subtraction => (1, 2),
            BinaryOperation::Multiplication | BinaryOperation::Division => (3, 4),
        }
    }
}

/// Parses a left operand and its infix loop, as `parse_expr` describes.
fn parse_expr_at(toks: &Vec<Token>, i: usize, min_bp: u8) -> (r: Result<
    (Expression, usize),
    ParserError,
>)
    requires
        i <= toks@.len(),
    ensures
        match r {
            Ok(p) => parse_expr(toks@, i as int, min_bp as int) == Ok::<
                (Expression, int),
                ParserError,
            >((p.0, p.1 as int)) && i < p.1 <= toks@.len(),
            Err(e) => parse_expr(toks@, i as int, min_bp as int) == Err::<
                (Expression, int),
                ParserError,
            >(e),
        },
    decreases toks@.len() - i, 1int,
{
    if i >= toks.len() {
        return Err(ParserError::ExpectedExprStart(None));
    }
    let t = toks[i];
    match t.kind {
        // Numbers
        TokenKind::Number(num) => parse_infix_at(toks, i + 1, min_bp, Expression::Atom(num)),
        // Unary operators
        TokenKind::Operation(OperationKind::Minus) => {
            let op = UnaryOperation::Negation;
            // Recursive pratt parser call
            match parse_expr_at(toks, i + 1, Parser::prefix_binding_power(&op)) {
                Ok(p) => {
                    let lhs = Expression::Unary { operation: op, operand: Box::new(p.0) };
                    proof {
                        assert(step_idx(p.1 as int, i + 2, toks@.len() as int) == p.1 as int);
                    }
                    parse_infix_at(toks, p.1, min_bp, lhs)
                },
                Err(e) => Err(e),
            }
        },
        // Parenthesis
        TokenKind::OpenParenthesis => {
            // Recursive pratt parser call
            match parse_expr_at(toks, i + 1, 0) {
                Ok(p) => {
                    // Check that the parenthesis is matched
                    if p.1 < toks.len() {
                        let ct = toks[p.1];
                        match ct.kind {
                            TokenKind::CloseParenthesis => {
                                proof {
                                    assert(step_idx(p.1 + 1 as int, i + 2, toks@.len() as int)
                                        == p.1 + 1);
                                }
                                parse_infix_at(toks, p.1 + 1, min_bp, p.0)
                            },
                            _ => Err(ParserError::UnclosedParenthesis(Some(ct.span))),
                        }
                    } else {
                        Err(ParserError::UnclosedParenthesis(None))
                    }
                },
                Err(e) => Err(e),
            }
        },
        _ => Err(ParserError::ExpectedExprStart(Some(t.span))),
    }
}

/// Folds infix operators onto `lhs`, as `parse_infix` describes.
fn parse_infix_at(toks: &Vec<Token>, i: usize, min_bp: u8, lhs: Expression) -> (r: Result<
    (Expression, usize),
    ParserError,
>)
    requires
        i <= toks@.len(),
    ensures
        match r {
            Ok(p) => parse_infix(toks@, i as int, min_bp as int, lhs) == Ok::<
                (Expression, int),
                ParserError,
            >((p.0, p.1 as int)) && i <= p.1 <= toks@.len(),
            Err(e) => parse_infix(toks@, i as int, min_bp as int, lhs) == Err::<
                (Expression, int),
                ParserError,
            >(e),
        },
    decreases toks@.len() - i, 0int,
{
    if i >= toks.len() {
        // Stop at the end of the input.
        return Ok((lhs, i));
    }
    let t = toks[i];
    // Transform the token into a `BinaryOperation`.
    let op = match t.kind {
        // Stop at a closing parenthesis.
        TokenKind::CloseParenthesis => {
            return Ok((lhs, i));
        },
        TokenKind::Operation(op) => match op {
            OperationKind::Plus => BinaryOperation::Addition,
            OperationKind::Minus => BinaryOperation::Subtraction,
            OperationKind::Star => BinaryOperation::Multiplication,
            OperationKind::Slash => BinaryOperation::Division,
        },
        _ => {
            return Err(ParserError::ExpectedBinaryOp(Some(t.span)));
        },
    };
    // Handle binding powers: a weaker operator is left to an enclosing call.
    let (l_bp, r_bp) = Parser::infix_binding_power(&op);
    if l_bp < min_bp {
        return Ok((lhs, i));
    }
    // Recursive pratt parser call for the right operand
    match parse_expr_at(toks, i + 1, r_bp) {
        Ok(p) => {
            let new_lhs = Expression::Binary {
                operation: op,
                lhs: Box::new(lhs),
                rhs: Box::new(p.0),
            };
            proof {
                assert(step_idx(p.1 as int, i + 2, toks@.len() as int) == p.1 as int);
            }
            parse_infix_at(toks, p.1, min_bp, new_lhs)
        },
        Err(e) => Err(e),
    }
}

/// The span an error carries.
pub open spec fn error_span_of(e: ParserError) -> Option<Span> {
    match e {
        ParserError::UnrecognizedSpecial(sp) => sp,
        ParserError::ExpectedBinaryOp(sp) => sp,
        ParserError::ExpectedExprStart(sp) => sp,
        ParserError::UnclosedParenthesis(sp) => sp,
    }
}

/// Whether `sp` is the span of one of the tokens.
pub open spec fn span_of_some_token(sp: Span, toks: Seq<Token>) -> bool {
    exists|k: int| 0 <= k < toks.len() && sp == (#[trigger] toks[k]).span
}

/// Whether the span that `r`'s error carries, if there is one, belongs to a
/// token.
pub open spec fn error_span_from_tokens<T>(r: Result<T, ParserError>, toks: Seq<Token>) -> bool {
    match r {
        Err(e) => match error_span_of(e) {
            Some(sp) => span_of_some_token(sp, toks),
            None => true,
        },
        Ok(_) => true,
    }
}

proof fn lemma_expr_error_span(toks: Seq<Token>, i: int, min_bp: int)
    ensures
        error_span_from_tokens(parse_expr(toks, i, min_bp), toks),
    decreases toks.len() - i, 1int,
{
    if !(i < 0 || i >= toks.len()) {
        let t = toks[i];
        match t.kind {
            TokenKind::Number(num) => {
                lemma_infix_error_span(toks, i + 1, min_bp, Expression::Atom(num));
            },
            TokenKind::Operation(OperationKind::Minus) => {
                lemma_expr_error_span(toks, i + 1, prefix_bp(UnaryOperation::Negation));
                match parse_expr(toks, i + 1, prefix_bp(UnaryOperation::Negation)) {
                    Ok(p) => {
                        lemma_infix_error_span(
                            toks,
                            step_idx(p.1, i + 2, toks.len() as int),
                            min_bp,
                            Expression::Unary {
                                operation: UnaryOperation::Negation,
                                operand: Box::new(p.0),
                            },
                        );
                    },
                    Err(_) => {},
                }
            },
            TokenKind::OpenParenthesis => {
                lemma_expr_error_span(toks, i + 1, 0);
                match parse_expr(toks, i + 1, 0) {
                    Ok(p) => {
                        if 0 <= p.1 < toks.len() && toks[p.1].kind is CloseParenthesis {
                            lemma_infix_error_span(
                                toks,
                                step_idx(p.1 + 1, i + 2, toks.len() as int),
                                min_bp,
                                p.0,
                            );
                        } else if 0 <= p.1 < toks.len() {
                            assert(sp_witness(toks, p.1));
                        }
                    },
                    Err(_) => {},
                }
            },
            _ => {
                assert(sp_witness(toks, i));
            },
        }
    }
}

/// Token `k`'s own span belongs to the tokens; stating it at index `k`
/// hands the quantifier its witness.
spec fn sp_witness(toks: Seq<Token>, k: int) -> bool {
    0 <= k < toks.len() && span_of_some_token(toks[k].span, toks)
}

proof fn lemma_infix_error_span(toks: Seq<Token>, i: int, min_bp: int, lhs: Expression)
    ensures
        error_span_from_tokens(parse_infix(toks, i, min_bp, lhs), toks),
    decreases toks.len() - i, 0int,
{
    if !(i < 0 || i >= toks.len()) {
        let t = toks[i];
        match t.kind {
            TokenKind::CloseParenthesis => {},
            TokenKind::Operation(op) => {
                let bop = binop_of(op);
                if !(infix_bp(bop).0 < min_bp) {
                    lemma_expr_error_span(toks, i + 1, infix_bp(bop).1);
                    match parse_expr(toks, i + 1, infix_bp(bop).1) {
                        Ok(p) => {
                            lemma_infix_error_span(
                                toks,
                                step_idx(p.1, i + 2, toks.len() as int),
                                min_bp,
                                Expression::Binary {
                                    operation: bop,
                                    lhs: Box::new(lhs),
                                    rhs: Box::new(p.0),
                                },
                            );
                        },
                        Err(_) => {},
                    }
                }
            },
            _ => {
                assert(sp_witness(toks, i));
            },
        }
    }
}

/// A parse error only arises on a line with at least one token, and the
/// span it carries, if any, is the span of one of the line's tokens.
pub proof fn lemma_parse_error_spans(s: Seq<char>)
    ensures
        parse_line(s) is Err ==> lexed(s).len() > 0 && s.len() > 0,
        error_span_from_tokens(parse_line(s), lexed(s)),
{
    let toks = lexed(s);
    if s.len() == 0 {
        assert(tokens_from(s, 0) =~= Seq::<Token>::empty());
        reveal_with_fuel(Seq::<Token>::filter, 1);
        assert(toks.len() == 0);
    }
    if toks.len() > 0 {
        if toks[0].kind == TokenKind::Special(SpecialKind::Quit) {
        } else if toks[0].kind == TokenKind::Special(SpecialKind::Unrecognized) {
            assert(sp_witness(toks, 0));
        } else {
            lemma_expr_error_span(toks, 0, 0);
        }
    }
}

/// A line of nothing but whitespace makes one whitespace token spanning the
/// whole input; it is filtered out, so parsing the line yields `Empty`.
pub proof fn lemma_whitespace_only_line(s: Seq<char>)
    requires
        s.len() > 0,
        forall|k: int| 0 <= k < s.len() ==> whitespace_char(#[trigger] s[k]),
    ensures
        tokens_from(s, 0) == seq![
            Token {
                kind: TokenKind::Whitespace,
                span: Span { start: 0, end: byte_len(s) as usize },
            },
        ],
        lexed(s) == Seq::<Token>::empty(),
        parse_line(s) == Ok::<ParseTree, ParserError>(ParseTree::Empty),
{
    assert(whitespace_char(s[0]));
    lemma_run_end(s, 1, ws_pred());
    let e = run_end(s, 1, ws_pred());
    assert(e == s.len()) by {
        if e < s.len() {
            assert(ws_pred()(s[e]) == whitespace_char(s[e]));
        }
    }
    assert(token_end_at(s, 0) == s.len());
    let t = token_at(s, 0);
    assert(t.kind == TokenKind::Whitespace);
    assert(tokens_from(s, s.len() as int) =~= Seq::<Token>::empty());
    assert(tokens_from(s, 0) =~= seq![t]);
    lemma_filter_singleton(t, nonws());
    assert(lexed(s) =~= Seq::<Token>::empty());
}

/// Parsing any line whose first token is the quit command yields `Quit`,
/// regardless of trailing content.
pub proof fn lemma_quit_by_leading_token(s: Seq<char>)
    requires
        lexed(s).len() > 0,
        lexed(s)[0].kind == TokenKind::Special(SpecialKind::Quit),
    ensures
        parse_line(s) == Ok::<ParseTree, ParserError>(ParseTree::Quit),
{
}

/// Parsing is a function of the line alone: two parses of the same text,
/// made by independent parsers, return the same tree or the same error.
pub proof fn lemma_parse_deterministic(
    s: Seq<char>,
    r1: Result<ParseTree, ParserError>,
    r2: Result<ParseTree, ParserError>,
)
    requires
        r1 == parse_line(s),
        r2 == parse_line(s),
    ensures
        r1 == r2,
{
}

} // verus!
