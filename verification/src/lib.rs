//! Parsing and solving of single-variable polynomial (in)equalities.
//!
//! The pipeline has three stages: a lexer that turns free-form text into
//! tokens (`parser::get_tokens`), a normalizer that folds implicit products
//! and validates the token structure (`parser::reduce_tokens`), and a solver
//! for polynomials of degree at most two (`solver::get_solution`). Every
//! numeric value is an exact rational (`rational::Rat`), so the coefficients,
//! the discriminant and the reported roots are exact values rather than
//! floating-point approximations; rendering them as decimal text is left to
//! the caller.

pub mod parser;
pub mod rational;
pub mod solver;

use vstd::prelude::*;

use crate::rational::{raw_add, raw_div, raw_mul, raw_sub, rat_add, rat_div, rat_mul, rat_sub,
    reduced, Rat};

verus! {

/// The relation between the two sides of the input, `No` before one is seen.
#[derive(Clone, Copy, Debug, PartialEq, Eq)]
pub enum Comparison {
    Equal,
    Greater,
    GreaterEq,
    Lower,
    LowerEq,
    No,
}

/// An arithmetic operator token.
#[derive(Clone, Copy, Debug, PartialEq, Eq)]
pub enum Operator {
    Add,
    Sub,
    Div,
    Mult,
}

/// One lexed token: a term `value * x^degree`, an operator, or a comparison.
#[derive(Clone, Copy, Debug, PartialEq)]
pub enum Token {
    Var(Rat, u8),
    Operator(Operator),
    Cmp(Comparison),
}

/// Why the pipeline rejected an input.
#[derive(Clone, Debug, PartialEq)]
pub enum Error {
    /// A character outside the token alphabet; lexical.
    InvalidChar(char),
    /// A numeric literal with a misplaced decimal point; syntax.
    MalformedNumber(Vec<char>),
    /// A numeric literal beyond what 64-bit rationals can hold; arithmetic.
    NumberTooLarge(Vec<char>),
    /// Nothing usable after `^`; syntax.
    MissingExponent,
    /// A non-digit where an exponent digit was expected; syntax.
    InvalidExponent(char),
    /// An exponent digit above 2; syntax.
    DegreeTooHigh,
    /// `^` or the squared sign without a preceding number or variable; syntax.
    MisplacedPower(char),
    /// `-` as the last character of the input; syntax.
    TrailingMinus,
    /// A comparison sign before any term; syntax.
    ComparisonAtStart(char),
    /// A comparison sign as the last character; syntax.
    ComparisonAtEnd(char),
    /// A second comparison sign; syntax.
    DuplicateComparison(char),
    /// A comparison sign directly followed by another relational sign; syntax.
    InvalidAfterComparison(char, char),
    /// Two adjacent tokens of the same category; syntax.
    AdjacentTokens(Token, Token),
    /// A product of two variable terms; syntax.
    CannotMultiply(Token, Token),
    /// A division by a variable term; syntax.
    CannotDivide(Token, Token),
    /// A comparison not between two terms; syntax.
    MisplacedComparison(Token),
    /// A sequence that does not start or end with a term; syntax.
    BoundaryToken(Token),
    /// An expression with no tokens at all; syntax.
    EmptyExpression,
    /// A division whose divisor is exactly zero, carrying the dividend;
    /// arithmetic.
    DivisionByZero(Rat),
    /// A folded or accumulated value beyond 64-bit rationals; arithmetic.
    Overflow,
}

/// The three classes of `Error` values.
#[derive(Clone, Copy, Debug, PartialEq, Eq)]
pub enum ErrorKind {
    Lexical,
    Syntax,
    Arithmetic,
}

/// The class of an error.
pub open spec fn spec_error_kind(e: Error) -> ErrorKind {
    match e {
        Error::InvalidChar(_) => ErrorKind::Lexical,
        Error::DivisionByZero(_) => ErrorKind::Arithmetic,
        Error::NumberTooLarge(_) => ErrorKind::Arithmetic,
        Error::Overflow => ErrorKind::Arithmetic,
        _ => ErrorKind::Syntax,
    }
}

impl Error {
    /// The class of this error.
    pub fn kind(&self) -> (k: ErrorKind)
        ensures
            k == spec_error_kind(*self),
    {
        match self {
            Error::InvalidChar(_) => ErrorKind::Lexical,
            Error::DivisionByZero(_) => ErrorKind::Arithmetic,
            Error::NumberTooLarge(_) => ErrorKind::Arithmetic,
            Error::Overflow => ErrorKind::Arithmetic,
            _ => ErrorKind::Syntax,
        }
    }
}

/// Whether two tokens count as the same category when adjacent. A term of
/// degree zero is its own category, so that a plain number may directly
/// precede a variable term (`2 x`), while any other repetition is invalid.
pub open spec fn same_category(a: Token, b: Token) -> bool {
    match (a, b) {
        (Token::Var(_, d1), Token::Var(_, d2)) => d1 != 0 || d2 == 0,
        (Token::Operator(_), Token::Operator(_)) => true,
        (Token::Cmp(_), Token::Cmp(_)) => true,
        _ => false,
    }
}

/// Whether a token is a term.
pub open spec fn is_term(t: Token) -> bool {
    t is Var
}

/// Validity of a token: a term carries a well-formed rational and a degree
/// of at most two.
pub open spec fn token_wf(t: Token) -> bool {
    t matches Token::Var(n, d) ==> n.wf() && d <= 2
}

/// Validity of every token of a sequence.
pub open spec fn tokens_wf(ts: Seq<Token>) -> bool {
    forall|i: int| 0 <= i < ts.len() ==> #[trigger] token_wf(ts[i])
}

impl Token {
    /// Whether `other` falls in the same structural category as `self`.
    pub fn same_type_as(&self, other: &Self) -> (b: bool)
        ensures
            b == same_category(*self, *other),
    {
        match self {
            Token::Var(_, 0) => if let Token::Var(_, 0) = other {
                true
            } else {
                false
            },
            Token::Var(_, _) => if let Token::Var(_, _) = other {
                true
            } else {
                false
            },
            Token::Operator(_) => if let Token::Operator(_) = other {
                true
            } else {
                false
            },
            Token::Cmp(_) => if let Token::Cmp(_) = other {
                true
            } else {
                false
            },
        }
    }

    /// Whether the token is a term.
    pub fn is_variable(&self) -> (b: bool)
        ensures
            b == is_term(*self),
    {
        match self {
            Token::Var(_, _) => true,
            _ => false,
        }
    }
}

/// An `Option` from a reduction, as the `Result` the pipeline reports.
pub open spec fn to_result(o: Option<Rat>) -> Result<Rat, Error> {
    match o {
        Some(q) => Ok(q),
        None => Err(Error::Overflow),
    }
}

/// The exact outcome of `do_op`.
pub open spec fn spec_do_op(a: Rat, b: Rat, op: Operator) -> Result<Rat, Error> {
    match op {
        Operator::Add => to_result(reduced(raw_add(a, b))),
        Operator::Sub => to_result(reduced(raw_sub(a, b))),
        Operator::Mult => to_result(reduced(raw_mul(a, b))),
        Operator::Div => if b.num == 0 {
            Err(Error::DivisionByZero(a))
        } else {
            to_result(reduced(raw_div(a, b)))
        },
    }
}

/// Applies an arithmetic operator to two rationals. Division by a zero value
/// reports the dividend; a result beyond 64-bit rationals is an overflow.
pub fn do_op(a: Rat, b: Rat, op: &Operator) -> (r: Result<Rat, Error>)
    requires
        a.wf(),
        b.wf(),
    ensures
        r == spec_do_op(a, b, *op),
        r matches Ok(q) ==> q.wf(),
{
    match op {
        Operator::Add => match rat_add(a, b) {
            Some(q) => Ok(q),
            None => Err(Error::Overflow),
        },
        Operator::Sub => match rat_sub(a, b) {
            Some(q) => Ok(q),
            None => Err(Error::Overflow),
        },
        Operator::Mult => match rat_mul(a, b) {
            Some(q) => Ok(q),
            None => Err(Error::Overflow),
        },
        Operator::Div => {
            if b.is_zero() {
                Err(Error::DivisionByZero(a))
            } else {
                match rat_div(a, b) {
                    Some(q) => Ok(q),
                    None => Err(Error::Overflow),
                }
            }
        },
    }
}

/// The exact outcome of `pow`: `n` successive reduced multiplications.
pub open spec fn spec_pow(x: Rat, n: nat) -> Result<Rat, Error>
    decreases n,
{
    if n == 0 {
        Ok(Rat { num: 1, den: 1 })
    } else {
        match spec_pow(x, (n - 1) as nat) {
            Ok(acc) => to_result(reduced(raw_mul(acc, x))),
            Err(e) => Err(e),
        }
    }
}

/// Once a power overflows, every later power reports the same error.
proof fn lemma_spec_pow_err(x: Rat, k: nat, n: nat)
    requires
        k <= n,
        spec_pow(x, k) is Err,
    ensures
        spec_pow(x, n) == spec_pow(x, k),
    decreases n - k,
{
    if n > k {
        lemma_spec_pow_err(x, k, (n - 1) as nat);
    }
}

/// The value `x` raised to the power `n`, by repeated reduced
/// multiplication.
pub fn pow(x: Rat, n: u8) -> (r: Result<Rat, Error>)
    requires
        x.wf(),
    ensures
        r == spec_pow(x, n as nat),
        r matches Ok(q) ==> q.wf(),
{
    let mut number = Rat::from_int(1);
    let mut i: u8 = 0;
    while i < n
        invariant
            i <= n,
            x.wf(),
            number.wf(),
            spec_pow(x, i as nat) == Ok::<Rat, Error>(number),
        decreases n - i,
    {
        match rat_mul(number, x) {
            Some(q) => {
                number = q;
            },
            None => {
                proof {
                    lemma_spec_pow_err(x, (i + 1) as nat, n as nat);
                }
                return Err(Error::Overflow);
            },
        }
        i = i + 1;
    }
    Ok(number)
}

/// The magnitude of a rational value.
pub fn abs(n: Rat) -> (r: Rat)
    requires
        n.wf(),
    ensures
        r.wf(),
        r.num as int == rational::iabs(n.num as int),
        r.den == n.den,
{
    n.abs()
}

/// What one expression analyzes to: the coefficients `[x^2, x^1, x^0]`,
/// the comparison kind, the effective degree, and the solution when a
/// comparison was present.
#[derive(Debug)]
pub struct Analysis {
    pub coefficients: Vec<Rat>,
    pub comparison: Comparison,
    pub degree: u8,
    pub solution: Option<crate::solver::Solution>,
}

/// The exact outcome of the whole pipeline on the text `s`: lexing,
/// normalization, coefficient extraction, degree, and, when a comparison is
/// present, the solution.
pub open spec fn spec_analysis(s: Seq<char>) -> Result<
    (Rat, Rat, Rat, Comparison, u8, Option<crate::solver::Solution>),
    crate::parser::ErrV,
> {
    match crate::parser::lex(
        crate::parser::strip(s),
        0,
        Seq::<Token>::empty(),
        Comparison::No,
    ) {
        Err(e) => Err(e),
        Ok((ts, cmp)) => match crate::parser::spec_reduce(ts) {
            Err(e) => Err(e),
            Ok(red) => match crate::parser::extract_run(red, crate::parser::extract_start()) {
                Err(e) => Err(e),
                Ok((c0, c1, c2)) => {
                    let deg = crate::solver::spec_degree(c2, c1);
                    if cmp is No {
                        Ok((c2, c1, c0, cmp, deg, None))
                    } else {
                        match crate::solver::spec_get_solution(c2, c1, c0, deg, cmp) {
                            Ok(sol) => Ok((c2, c1, c0, cmp, deg, Some(sol))),
                            Err(e) => Err(e),
                        }
                    }
                },
            },
        },
    }
}

/// Runs the whole pipeline on one expression: tokens, reduced sequence,
/// coefficients, degree, and the solution when a comparison is present.
/// The outcome is exactly what `spec_analysis` yields on the text.
pub fn compute_expression(expression: &String) -> (r: Result<Analysis, Error>)
    ensures
        match r {
            Ok(an) => {
                &&& spec_analysis(expression@) matches Ok(sa)
                &&& an.coefficients@.len() == 3
                &&& an.coefficients@[0] == sa.0
                &&& an.coefficients@[1] == sa.1
                &&& an.coefficients@[2] == sa.2
                &&& an.comparison == sa.3
                &&& an.degree == sa.4
                &&& an.solution == sa.5
                &&& an.coefficients@[0].wf() && an.coefficients@[1].wf()
                    && an.coefficients@[2].wf()
            },
            Err(e) => spec_analysis(expression@) == Err::<
                (Rat, Rat, Rat, Comparison, u8, Option<crate::solver::Solution>),
                crate::parser::ErrV,
            >(crate::parser::error_view(e)),
        },
{
    let (tokens, comparison_token) = match crate::parser::get_tokens(expression) {
        Ok(v) => v,
        Err(e) => {
            return Err(e);
        },
    };
    let tokens = match crate::parser::reduce_tokens(tokens) {
        Ok(v) => v,
        Err(e) => {
            return Err(e);
        },
    };
    let coef = match crate::parser::get_coefficients(&tokens) {
        Ok(v) => v,
        Err(e) => {
            return Err(e);
        },
    };
    let degree = crate::solver::polynomial_degree(&coef);
    let solution = if matches!(comparison_token, Comparison::No) {
        None
    } else {
        match crate::solver::get_solution(&coef, degree, comparison_token) {
            Ok(sol) => Some(sol),
            Err(e) => {
                return Err(e);
            },
        }
    };
    Ok(Analysis { coefficients: coef, comparison: comparison_token, degree, solution })
}

} // verus!
