//! The evaluator reduces an expression tree to a number. The tree is built
//! from decimal literals and the four arithmetic operations, so the value is
//! kept as an exact rational; an operation whose intermediate no longer fits
//! the machine representation, or a division by zero, yields `None`.

use vstd::prelude::*;

use crate::parser::{BinaryOperation, Expression, UnaryOperation};
use crate::tokenizer::NumberLit;

verus! {

/// An exact rational value: `num / den`, with `den` positive.
#[derive(Debug, PartialEq, Eq, Structural, Copy, Clone)]
pub struct Rational {
    /// Numerator, carrying the sign.
    pub num: i128,
    /// Denominator, positive for every value the evaluator produces.
    pub den: i128,
}

/// Whether `v` fits the numerator and denominator type.
pub open spec fn fits(v: int) -> bool {
    i128::MIN <= v <= i128::MAX
}

/// The sum of two rationals, or `None` when an intermediate overflows.
pub open spec fn rat_add(a: Rational, b: Rational) -> Option<Rational> {
    let n1 = a.num * b.den;
    let n2 = b.num * a.den;
    let d = a.den * b.den;
    if fits(n1) && fits(n2) && fits(n1 + n2) && fits(d) {
        Some(Rational { num: (n1 + n2) as i128, den: d as i128 })
    } else {
        None
    }
}

/// The difference of two rationals, or `None` when an intermediate overflows.
pub open spec fn rat_sub(a: Rational, b: Rational) -> Option<Rational> {
    let n1 = a.num * b.den;
    let n2 = b.num * a.den;
    let d = a.den * b.den;
    if fits(n1) && fits(n2) && fits(n1 - n2) && fits(d) {
        Some(Rational { num: (n1 - n2) as i128, den: d as i128 })
    } else {
        None
    }
}

/// The product of two rationals, or `None` when an intermediate overflows.
pub open spec fn rat_mul(a: Rational, b: Rational) -> Option<Rational> {
    let n = a.num * b.num;
    let d = a.den * b.den;
    if fits(n) && fits(d) {
        Some(Rational { num: n as i128, den: d as i128 })
    } else {
        None
    }
}

/// The quotient of two rationals: `None` on division by zero or overflow;
/// otherwise the sign moves to the numerator so the denominator stays
/// positive.
pub open spec fn rat_div(a: Rational, b: Rational) -> Option<Rational> {
    if b.num == 0 {
        None
    } else {
        let n = a.num * b.den;
        let d = a.den * b.num;
        if !fits(n) || !fits(d) {
            None
        } else if d < 0 {
            if fits(-n) && fits(-d) {
                Some(Rational { num: (-n) as i128, den: (-d) as i128 })
            } else {
                None
            }
        } else {
            Some(Rational { num: n as i128, den: d as i128 })
        }
    }
}

/// The negation of a rational, or `None` when the numerator cannot flip.
pub open spec fn rat_neg(a: Rational) -> Option<Rational> {
    if fits(-a.num) {
        Some(Rational { num: (-a.num) as i128, den: a.den })
    } else {
        None
    }
}

/// Ten to the `n`-th power.
pub open spec fn pow10(n: int) -> int
    decreases n,
{
    if n <= 0 {
        1
    } else {
        10 * pow10(n - 1)
    }
}

/// Powers of ten are positive and grow with the exponent.
pub proof fn lemma_pow10_pos(m: int, n: int)
    requires
        m <= n,
    ensures
        1 <= pow10(m) <= pow10(n),
    decreases n - m,
{
    if m < n {
        lemma_pow10_pos(m, n - 1);
    } else {
        lemma_pow10_ge_one(m);
    }
}

proof fn lemma_pow10_ge_one(n: int)
    ensures
        pow10(n) >= 1,
    decreases n,
{
    if n > 0 {
        lemma_pow10_ge_one(n - 1);
    }
}

/// The rational value of a number literal: the mantissa over ten to the
/// scale, or `None` when either no longer fits the representation.
pub open spec fn lit_rat(lit: NumberLit) -> Option<Rational> {
    if lit.mantissa <= i128::MAX && pow10(lit.scale as int) <= i128::MAX {
        Some(Rational { num: lit.mantissa as i128, den: pow10(lit.scale as int) as i128 })
    } else {
        None
    }
}

/// The exact rational value of an expression: literals become rationals and
/// the operations combine them, with `None` on division by zero or whenever
/// an intermediate leaves the representable range.
pub open spec fn spec_eval(e: Expression) -> Option<Rational>
    decreases e,
{
    match e {
        Expression::Atom(lit) => lit_rat(lit),
        Expression::Unary { operation, operand } => match spec_eval(*operand) {
            Some(v) => match operation {
                UnaryOperation::Negation => rat_neg(v),
            },
            None => None,
        },
        Expression::Binary { operation, lhs, rhs } => match (spec_eval(*lhs), spec_eval(*rhs)) {
            (Some(a), Some(b)) => match operation {
                BinaryOperation::Addition => rat_add(a, b),
                BinaryOperation::Subtraction => rat_sub(a, b),
                BinaryOperation::Multiplication => rat_mul(a, b),
                BinaryOperation::Division => rat_div(a, b),
            },
            _ => None,
        },
    }
}

impl Rational {
    /// The rational for a whole number.
    pub fn from_int(n: i64) -> (r: Rational)
        ensures
            r == (Rational { num: n as i128, den: 1i128 }),
    {
        Rational { num: n as i128, den: 1 }
    }

    /// Whether two rationals denote the same value, by cross-multiplying;
    /// `None` when a product overflows.
    pub fn same_value(&self, other: &Rational) -> (r: Option<bool>)
        ensures
            r == (if fits(self.num * other.den) && fits(other.num * self.den) {
                Some(self.num * other.den == other.num * self.den)
            } else {
                None::<bool>
            }),
    {
        match (self.num.checked_mul(other.den), other.num.checked_mul(self.den)) {
            (Some(x), Some(y)) => Some(x == y),
            _ => None,
        }
    }
}

/// The rational value of a literal, executably.
fn eval_lit(lit: NumberLit) -> (r: Option<Rational>)
    ensures
        r == lit_rat(lit),
{
    if lit.mantissa > i128::MAX as u128 {
        return None;
    }
    let mut den: i128 = 1;
    let mut k: usize = 0;
    while k < lit.scale
        invariant
            0 <= k <= lit.scale,
            den == pow10(k as int),
            pow10(k as int) <= i128::MAX,
        decreases lit.scale - k,
    {
        den = match den.checked_mul(10) {
            Some(d) => d,
            None => {
                proof {
                    lemma_pow10_pos(k as int, k as int);
                    lemma_pow10_pos(k + 1, lit.scale as int);
                }
                return None;
            },
        };
        k = k + 1;
    }
    Some(Rational { num: lit.mantissa as i128, den })
}

/// Recursively evaluates an expression to its exact rational value.
pub fn evaluate(expr: Expression) -> (r: Option<Rational>)
    ensures
        r == spec_eval(expr),
    decreases expr,
{
    match expr {
        // Binary expressions
        Expression::Binary { operation, lhs, rhs } => {
            let a = match evaluate(*lhs) {
                Some(a) => a,
                None => {
                    return None;
                },
            };
            let b = match evaluate(*rhs) {
                Some(b) => b,
                None => {
                    return None;
                },
            };
            match operation {
                BinaryOperation::Addition => {
                    match (a.num.checked_mul(b.den), b.num.checked_mul(a.den), a.den.checked_mul(
                        b.den,
                    )) {
                        (Some(n1), Some(n2), Some(d)) => match n1.checked_add(n2) {
                            Some(n) => Some(Rational { num: n, den: d }),
                            None => None,
                        },
                        _ => None,
                    }
                },
                BinaryOperation::Subtraction => {
                    match (a.num.checked_mul(b.den), b.num.checked_mul(a.den), a.den.checked_mul(
                        b.den,
                    )) {
                        (Some(n1), Some(n2), Some(d)) => match n1.checked_sub(n2) {
                            Some(n) => Some(Rational { num: n, den: d }),
                            None => None,
                        },
                        _ => None,
                    }
                },
                BinaryOperation::Multiplication => {
                    match (a.num.checked_mul(b.num), a.den.checked_mul(b.den)) {
                        (Some(n), Some(d)) => Some(Rational { num: n, den: d }),
                        _ => None,
                    }
                },
                BinaryOperation::Division => {
                    if b.num == 0 {
                        return None;
                    }
                    match (a.num.checked_mul(b.den), a.den.checked_mul(b.num)) {
                        (Some(n), Some(d)) => {
                            if d < 0 {
                                match (0i128.checked_sub(n), 0i128.checked_sub(d)) {
                                    (Some(nn), Some(nd)) => Some(Rational { num: nn, den: nd }),
                                    _ => None,
                                }
                            } else {
                                Some(Rational { num: n, den: d })
                            }
                        },
                        _ => None,
                    }
                },
            }
        },
        // Unary expressions
        Expression::Unary { operation, operand } => {
            let v = match evaluate(*operand) {
                Some(v) => v,
                None => {
                    return None;
                },
            };
            match operation {
                UnaryOperation::Negation => match 0i128.checked_sub(v.num) {
                    Some(n) => Some(Rational { num: n, den: v.den }),
                    None => None,
                },
            }
        },
        // Atoms
        Expression::Atom(lit) => eval_lit(lit),
    }
}

/// Every value the evaluator yields has a positive denominator.
pub proof fn lemma_eval_positive_den(e: Expression)
    ensures
        spec_eval(e) matches Some(v) ==> v.den > 0,
    decreases e,
{
    match e {
        Expression::Atom(lit) => {
            lemma_pow10_pos(lit.scale as int, lit.scale as int);
        },
        Expression::Unary { operation, operand } => {
            lemma_eval_positive_den(*operand);
        },
        Expression::Binary { operation, lhs, rhs } => {
            lemma_eval_positive_den(*lhs);
            lemma_eval_positive_den(*rhs);
            match (spec_eval(*lhs), spec_eval(*rhs)) {
                (Some(a), Some(b)) => {
                    assert(a.den * b.den > 0) by (nonlinear_arith)
                        requires
                            a.den > 0,
                            b.den > 0,
                    {
                    }
                    if b.num != 0 {
                        assert(a.den * b.num != 0) by (nonlinear_arith)
                            requires
                                a.den > 0,
                                b.num != 0,
                        {
                        }
                    }
                },
                _ => {},
            }
        },
    }
}

} // verus!
