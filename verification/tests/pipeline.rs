use computor::parser::{get_token_list, get_tokens, reduce_tokens, skip_spaces};
use computor::rational::Rat;
use computor::solver::{get_solution, polynomial_degree, Solution, Surd};
use computor::{compute_expression, do_op, pow, Comparison, Error, ErrorKind, Operator, Token};

fn rat(n: i64, d: i64) -> Rat {
    Rat::new(n, d).unwrap()
}

fn coefficients_of(text: &str) -> Vec<Rat> {
    compute_expression(&text.to_string()).unwrap().coefficients
}

#[test]
fn scenario_simple_quadratic_equation() {
    // "1*X^2=4": coefficients [1, 0, -4], degree 2, roots {-2, 2}
    let an = compute_expression(&"1*X^2=4".to_string()).unwrap();
    assert_eq!(an.coefficients, vec![rat(1, 1), rat(0, 1), rat(-4, 1)]);
    assert_eq!(an.degree, 2);
    assert_eq!(an.comparison, Comparison::Equal);
    let r1 = Surd { q: rat(0, 1), s: rat(-1, 2), d: rat(16, 1) };
    let r2 = Surd { q: rat(0, 1), s: rat(1, 2), d: rat(16, 1) };
    assert_eq!(an.solution, Some(Solution::Pair(r1, r2)));
    // -1/2 * sqrt(16) = -2 and 1/2 * sqrt(16) = 2
}

#[test]
fn scenario_strict_quadratic_inequality() {
    // "X^2-4>0": positive leading coefficient, Greater: outer rays
    let an = compute_expression(&"X^2-4>0".to_string()).unwrap();
    assert_eq!(an.degree, 2);
    let r1 = Surd { q: rat(0, 1), s: rat(-1, 2), d: rat(16, 1) };
    let r2 = Surd { q: rat(0, 1), s: rat(1, 2), d: rat(16, 1) };
    assert_eq!(an.solution, Some(Solution::TwoRays { low: r1, high: r2, closed: false }));
}

#[test]
fn scenario_linear_equation() {
    // "2X+4=0": root -2
    let an = compute_expression(&"2X+4=0".to_string()).unwrap();
    assert_eq!(an.degree, 1);
    assert_eq!(an.solution, Some(Solution::Single(rat(-2, 1))));
}

#[test]
fn scenario_constant_equation() {
    // "5=5": degree 0, constant 0, all reals
    let an = compute_expression(&"5=5".to_string()).unwrap();
    assert_eq!(an.degree, 0);
    assert_eq!(an.coefficients, vec![rat(0, 1), rat(0, 1), rat(0, 1)]);
    assert_eq!(an.solution, Some(Solution::AllReals));
}

#[test]
fn scenario_division_by_zero() {
    // "3/0": arithmetic error citing the dividend 3
    let err = compute_expression(&"3/0".to_string()).unwrap_err();
    assert_eq!(err, Error::DivisionByZero(rat(3, 1)));
    assert_eq!(err.kind(), ErrorKind::Arithmetic);
}

#[test]
fn scenario_degree_three_rejected() {
    // "X^3+1=0": rejected in the lexer, before any solving
    let err = compute_expression(&"X^3+1=0".to_string()).unwrap_err();
    assert_eq!(err, Error::DegreeTooHigh);
    assert_eq!(err.kind(), ErrorKind::Syntax);
}

#[test]
fn double_root_cases() {
    // x^2 - 2x + 1: the repeated root 1
    let an = compute_expression(&"x^2-2x+1=0".to_string()).unwrap();
    assert_eq!(an.solution, Some(Solution::Single(rat(1, 1))));
    let an = compute_expression(&"x^2-2x+1>=0".to_string()).unwrap();
    assert_eq!(an.solution, Some(Solution::AllReals));
    let an = compute_expression(&"x^2-2x+1<0".to_string()).unwrap();
    assert_eq!(an.solution, Some(Solution::NoReal));
    let an = compute_expression(&"x^2-2x+1>0".to_string()).unwrap();
    let one = Surd { q: rat(1, 1), s: rat(0, 1), d: rat(0, 1) };
    assert_eq!(an.solution, Some(Solution::TwoRays { low: one, high: one, closed: false }));
}

#[test]
fn complex_roots_case() {
    // x^2 + 1: no real roots, conjugate pair 0 +- 1i
    let an = compute_expression(&"x^2+1=0".to_string()).unwrap();
    let im = Surd { q: rat(0, 1), s: rat(1, 2), d: rat(4, 1) };
    assert_eq!(an.solution, Some(Solution::NoRealComplex { re: rat(0, 1), im }));
    let an = compute_expression(&"x^2+1>0".to_string()).unwrap();
    assert_eq!(an.solution, Some(Solution::AllReals));
    let an = compute_expression(&"x^2+1<=0".to_string()).unwrap();
    assert_eq!(an.solution, Some(Solution::NoReal));
}

#[test]
fn linear_inequality_directions() {
    let an = compute_expression(&"2x-4>0".to_string()).unwrap();
    assert_eq!(
        an.solution,
        Some(Solution::HalfLine { bound: rat(2, 1), closed: false, upper: true })
    );
    let an = compute_expression(&"-2x+4>0".to_string()).unwrap();
    assert_eq!(
        an.solution,
        Some(Solution::HalfLine { bound: rat(2, 1), closed: false, upper: false })
    );
    let an = compute_expression(&"2x-4<=0".to_string()).unwrap();
    assert_eq!(
        an.solution,
        Some(Solution::HalfLine { bound: rat(2, 1), closed: true, upper: false })
    );
}

#[test]
fn whitespace_is_insensitive() {
    assert_eq!(coefficients_of(" 2X + 4 = 0 "), coefficients_of("2X+4=0"));
    assert_eq!(coefficients_of("\t1 * X ^ 2 = 4"), coefficients_of("1*X^2=4"));
}

#[test]
fn lexer_tokens_and_comparison() {
    let (tokens, cmp) = get_tokens(&"4.5x^2+3=2".to_string()).unwrap();
    assert_eq!(cmp, Comparison::Equal);
    assert_eq!(
        tokens,
        vec![
            Token::Var(rat(9, 2), 2),
            Token::Operator(Operator::Add),
            Token::Var(rat(3, 1), 0),
            Token::Cmp(Comparison::Equal),
            Token::Var(rat(2, 1), 0),
        ]
    );
}

#[test]
fn lexer_unary_minus_inserts_addition() {
    // "3 - 4" becomes 3 + (-4)
    let (tokens, cmp) = get_tokens(&"3 - 4".to_string()).unwrap();
    assert_eq!(cmp, Comparison::No);
    assert_eq!(
        tokens,
        vec![Token::Var(rat(3, 1), 0), Token::Operator(Operator::Add), Token::Var(rat(-4, 1), 0)]
    );
}

#[test]
fn lexer_errors() {
    assert_eq!(get_tokens(&"2y".to_string()).unwrap_err(), Error::InvalidChar('y'));
    assert_eq!(
        get_tokens(&"1.".to_string()).unwrap_err(),
        Error::MalformedNumber(vec!['1', '.'])
    );
    assert_eq!(get_tokens(&"3-".to_string()).unwrap_err(), Error::TrailingMinus);
    assert_eq!(get_tokens(&"=3".to_string()).unwrap_err(), Error::ComparisonAtStart('='));
    assert_eq!(get_tokens(&"1=2=3".to_string()).unwrap_err(), Error::DuplicateComparison('='));
    assert_eq!(get_tokens(&"^2".to_string()).unwrap_err(), Error::MisplacedPower('^'));
    assert_eq!(get_tokens(&"x^".to_string()).unwrap_err(), Error::MissingExponent);
    assert_eq!(get_tokens(&"2=".to_string()).unwrap_err(), Error::ComparisonAtEnd('='));
}

#[test]
fn number_power_and_superscript() {
    // a power suffix on a number squares the number itself
    let (tokens, _) = get_tokens(&"3^2".to_string()).unwrap();
    assert_eq!(tokens, vec![Token::Var(rat(9, 1), 0)]);
    let (tokens, _) = get_tokens(&"3\u{b2}".to_string()).unwrap();
    assert_eq!(tokens, vec![Token::Var(rat(9, 1), 0)]);
    let (tokens, _) = get_tokens(&"x\u{b2}".to_string()).unwrap();
    assert_eq!(tokens, vec![Token::Var(rat(1, 1), 2)]);
}

#[test]
fn normalizer_folds_products_and_quotients() {
    let (tokens, _) = get_tokens(&"2x*3".to_string()).unwrap();
    let reduced = reduce_tokens(tokens).unwrap();
    assert_eq!(reduced, vec![Token::Var(rat(6, 1), 1)]);

    let (tokens, _) = get_tokens(&"3/2*x^2".to_string()).unwrap();
    let reduced = reduce_tokens(tokens).unwrap();
    assert_eq!(reduced, vec![Token::Var(rat(3, 2), 2)]);

    // implicit juxtaposition: 2 x^2
    let (tokens, _) = get_tokens(&"2 x^2".to_string()).unwrap();
    let reduced = reduce_tokens(tokens).unwrap();
    assert_eq!(reduced, vec![Token::Var(rat(2, 1), 2)]);
}

#[test]
fn adjacent_degree_zero_terms_fold() {
    // two adjacent plain numbers multiply, the degree taken from the second
    let (tokens, _) = get_tokens(&"2x^0 3".to_string()).unwrap();
    assert_eq!(tokens, vec![Token::Var(rat(2, 1), 0), Token::Var(rat(3, 1), 0)]);
    let reduced = reduce_tokens(tokens).unwrap();
    assert_eq!(reduced, vec![Token::Var(rat(6, 1), 0)]);

    let (tokens, _) = get_tokens(&"3^2 2x".to_string()).unwrap();
    let reduced = reduce_tokens(tokens).unwrap();
    assert_eq!(reduced, vec![Token::Var(rat(18, 1), 1)]);
}

#[test]
fn normalizer_errors() {
    // a term directly after a variable term is a product of two variables
    let (tokens, _) = get_tokens(&"x x".to_string()).unwrap();
    assert!(matches!(reduce_tokens(tokens).unwrap_err(), Error::CannotMultiply(_, _)));

    let (tokens, _) = get_tokens(&"2 + + 3".to_string()).unwrap();
    assert!(matches!(reduce_tokens(tokens).unwrap_err(), Error::AdjacentTokens(_, _)));

    let (tokens, _) = get_tokens(&"x*x".to_string()).unwrap();
    assert!(matches!(reduce_tokens(tokens).unwrap_err(), Error::CannotMultiply(_, _)));

    let (tokens, _) = get_tokens(&"3/x".to_string()).unwrap();
    assert!(matches!(reduce_tokens(tokens).unwrap_err(), Error::CannotDivide(_, _)));

    let (tokens, _) = get_tokens(&"3+".to_string()).unwrap();
    assert!(matches!(reduce_tokens(tokens).unwrap_err(), Error::BoundaryToken(_)));

    let (tokens, _) = get_tokens(&" ".to_string()).unwrap();
    assert_eq!(reduce_tokens(tokens).unwrap_err(), Error::EmptyExpression);
}

#[test]
fn extractor_moves_right_side_over() {
    // 3 - x = 2 keeps the pending operator across the comparison
    let coef = coefficients_of("3-x=2");
    assert_eq!(coef, vec![rat(0, 1), rat(-1, 1), rat(5, 1)]);
    // plain move-over without a pending subtraction
    let coef = coefficients_of("x+3=2");
    assert_eq!(coef, vec![rat(0, 1), rat(1, 1), rat(1, 1)]);
}

#[test]
fn rational_arithmetic_is_exact_and_reduced() {
    assert_eq!(rat(2, 4), rat(1, 2));
    assert_eq!(rat(-2, -4), rat(1, 2));
    assert_eq!(rat(2, -4), rat(-1, 2));
    assert_eq!(do_op(rat(1, 3), rat(1, 6), &Operator::Add).unwrap(), rat(1, 2));
    assert_eq!(do_op(rat(1, 2), rat(1, 3), &Operator::Sub).unwrap(), rat(1, 6));
    assert_eq!(do_op(rat(2, 3), rat(3, 4), &Operator::Mult).unwrap(), rat(1, 2));
    assert_eq!(do_op(rat(1, 2), rat(-1, 4), &Operator::Div).unwrap(), rat(-2, 1));
    assert_eq!(
        do_op(rat(3, 1), rat(0, 1), &Operator::Div).unwrap_err(),
        Error::DivisionByZero(rat(3, 1))
    );
    assert_eq!(pow(rat(-3, 2), 2).unwrap(), rat(9, 4));
    assert_eq!(pow(rat(5, 7), 0).unwrap(), rat(1, 1));
    assert_eq!(computor::abs(rat(-3, 2)), rat(3, 2));
    assert_eq!(
        do_op(Rat::from_int(i64::MAX), Rat::from_int(i64::MAX), &Operator::Add).unwrap_err(),
        Error::Overflow
    );
}

#[test]
fn number_too_large_is_rejected() {
    let text = "123456789012345678901234567890123456789=0".to_string();
    assert!(matches!(get_tokens(&text).unwrap_err(), Error::NumberTooLarge(_)));
}

#[test]
fn degree_of_coefficient_vectors() {
    let coef = vec![rat(1, 1), rat(0, 1), rat(0, 1)];
    assert_eq!(polynomial_degree(&coef), 2);
    let coef = vec![rat(0, 1), rat(2, 1), rat(5, 1)];
    assert_eq!(polynomial_degree(&coef), 1);
    let coef = vec![rat(0, 1), rat(0, 1), rat(5, 1)];
    assert_eq!(polynomial_degree(&coef), 0);
}

#[test]
fn solver_called_directly() {
    let coef = vec![rat(1, 1), rat(0, 1), rat(-4, 1)];
    let sol = get_solution(&coef, 2, Comparison::LowerEq).unwrap();
    let r1 = Surd { q: rat(0, 1), s: rat(-1, 2), d: rat(16, 1) };
    let r2 = Surd { q: rat(0, 1), s: rat(1, 2), d: rat(16, 1) };
    assert_eq!(sol, Solution::Interval { low: r1, high: r2, closed: true });

    let coef = vec![rat(0, 1), rat(0, 1), rat(-1, 1)];
    assert_eq!(get_solution(&coef, 0, Comparison::Lower).unwrap(), Solution::AllReals);
    assert_eq!(get_solution(&coef, 0, Comparison::Greater).unwrap(), Solution::NoReal);
}

#[test]
fn token_categories() {
    let term0 = Token::Var(rat(2, 1), 0);
    let term2 = Token::Var(rat(2, 1), 2);
    let op = Token::Operator(Operator::Add);
    assert!(term0.same_type_as(&term0));
    assert!(!term0.same_type_as(&term2));
    assert!(term2.same_type_as(&term0));
    assert!(!term0.same_type_as(&op));
    assert!(op.same_type_as(&Token::Operator(Operator::Div)));
    assert!(term0.is_variable());
    assert!(!op.is_variable());
}

#[test]
fn token_alphabet_and_spaces() {
    let list = get_token_list();
    assert!(list.contains(&'x') && list.contains(&'9') && list.contains(&'\u{b2}'));
    assert!(!list.contains(&'y'));
    let chars: Vec<char> = "  \t a".chars().collect();
    assert_eq!(skip_spaces(&chars, 0), 4);
    assert_eq!(skip_spaces(&chars, 5), 5);
}

#[test]
fn relexing_a_canonical_form_reproduces_the_coefficients() {
    // the canonical left-hand form of an analyzed expression lexes back to
    // the same coefficient vector
    for text in ["4+2x=0", "1*X^2=4", "x/2 + 3x\u{b2} = 7"] {
        let an = compute_expression(&text.to_string()).unwrap();
        let c = &an.coefficients;
        let canonical = format!(
            "{}/{}*x^2 + {}/{}*x + {}/{} = 0",
            c[0].num, c[0].den, c[1].num, c[1].den, c[2].num, c[2].den
        );
        let back = compute_expression(&canonical).unwrap();
        assert_eq!(back.coefficients, an.coefficients);
    }
}
