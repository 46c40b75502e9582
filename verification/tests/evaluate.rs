use calc::{evaluate, EvalError};

/// The numeric result of a successful evaluation, as a float.
fn num(s: &str) -> f64 {
    let v = evaluate(s).expect("expected a successful evaluation");
    v.num as f64 / v.den as f64
}

/// The error of a failed evaluation.
fn err(s: &str) -> EvalError {
    evaluate(s).expect_err("expected a failed evaluation")
}

#[test]
fn single_numbers() {
    assert_eq!(num("42"), 42.0);
    assert_eq!(num("0"), 0.0);
    assert_eq!(num("7.25"), 7.25);
}

#[test]
fn trailing_and_leading_dot_literals() {
    assert_eq!(num("3."), 3.0);
    assert_eq!(num(".5"), 0.5);
}

#[test]
fn lone_dot_is_invalid() {
    assert_eq!(err("."), EvalError::InvalidNumber);
    assert_eq!(err("2+."), EvalError::InvalidNumber);
}

#[test]
fn left_associativity() {
    assert_eq!(num("10-2-3"), 5.0);
    assert_eq!(num("100/10/2"), 5.0);
}

#[test]
fn precedence() {
    assert_eq!(num("2+3*4"), 14.0);
    assert_eq!(num("(2+3)*4"), 20.0);
}

#[test]
fn division_by_zero() {
    assert_eq!(err("5/0"), EvalError::DivisionByZero);
    assert_eq!(err("1+4/0"), EvalError::DivisionByZero);
    assert_eq!(err("5/0*2"), EvalError::DivisionByZero);
    assert_eq!(err("5/(3-3)"), EvalError::DivisionByZero);
    assert_eq!(err("1\u{f7}0"), EvalError::DivisionByZero);
}

#[test]
fn zero_numerator_is_fine() {
    assert_eq!(num("0/5"), 0.0);
    assert_eq!(num("0*9"), 0.0);
}

#[test]
fn unbalanced_parens() {
    assert_eq!(err("(2+3"), EvalError::UnbalancedParens);
    assert_eq!(err("((2+3)"), EvalError::UnbalancedParens);
    assert_eq!(err("2+3)"), EvalError::TrailingInput);
}

#[test]
fn whitespace_is_insignificant() {
    assert_eq!(num("  2 + 3 * 4 "), 14.0);
    assert_eq!(evaluate("  2 + 3 * 4 "), evaluate("2+3*4"));
    assert_eq!(evaluate("\t10 -\n2- 3"), evaluate("10-2-3"));
    assert_eq!(num("2 3"), 23.0);
}

#[test]
fn glyph_operators() {
    assert_eq!(num("4\u{d7}5"), 20.0);
    assert_eq!(evaluate("4\u{d7}5"), evaluate("4*5"));
    assert_eq!(num("10\u{f7}2"), 5.0);
    assert_eq!(evaluate("10\u{f7}2"), evaluate("10/2"));
}

#[test]
fn malformed_numbers() {
    assert_eq!(err("3.4.5"), EvalError::MultipleDecimalPoints);
    assert_eq!(err(""), EvalError::ExpectedNumber);
    assert_eq!(err("+5"), EvalError::ExpectedNumber);
    assert_eq!(err("()"), EvalError::ExpectedNumber);
    assert_eq!(err("2**3"), EvalError::ExpectedNumber);
    assert_eq!(err("2+"), EvalError::ExpectedNumber);
}

#[test]
fn trailing_input() {
    assert_eq!(err("2a"), EvalError::TrailingInput);
    assert_eq!(err("(2)(3)"), EvalError::TrailingInput);
}

#[test]
fn idempotence() {
    let first = evaluate("2+3*4");
    let second = evaluate("2+3*4");
    assert_eq!(first, second);
    let first_err = evaluate("5/0");
    let second_err = evaluate("5/0");
    assert_eq!(first_err, second_err);
}

#[test]
fn exact_decimal_arithmetic() {
    let v = evaluate("1.25+0.75").unwrap();
    assert_eq!(v.num, 20000);
    assert_eq!(v.den, 10000);
    assert_eq!(v.num as f64 / v.den as f64, 2.0);
}

#[test]
fn nested_parens() {
    assert_eq!(num("((((5))))"), 5.0);
    assert_eq!(num("2*(3+4)-10/4"), 11.5);
}

#[test]
fn negative_results() {
    assert_eq!(num("2-5"), -3.0);
    assert_eq!(num("0-0.5"), -0.5);
}

#[test]
fn overflow_of_the_representation() {
    assert_eq!(num("9223372036854775807"), 9223372036854775807i64 as f64);
    assert_eq!(err("9223372036854775808"), EvalError::Overflow);
    let tiny = evaluate("0.000000000000000001").unwrap();
    assert_eq!(tiny.num, 1);
    assert_eq!(tiny.den, 1000000000000000000);
    assert_eq!(err("0.0000000000000000001"), EvalError::Overflow);
    assert_eq!(err("4000000000*4000000000"), EvalError::Overflow);
}

#[test]
fn mixed_features() {
    assert_eq!(num("1.5*(2+3.5)-4/8\u{d7}2"), 7.25);
    assert_eq!(num(" ( 1 + 2 ) \u{d7} ( 3 + 4 ) "), 21.0);
}

#[test]
fn error_messages() {
    assert_eq!(err("5/0").message(), "Division by zero");
    assert_eq!(err("(2+3").message(), "Missing closing parenthesis");
    assert_eq!(err("3.4.5").message(), "Multiple decimal points");
    assert_eq!(err("").message(), "Expected number");
    assert_eq!(err("2+3)").message(), "Extra characters");
    assert_eq!(err(".").message(), "Invalid number");
    assert_eq!(err("9223372036854775808").message(), "Number out of range");
}
