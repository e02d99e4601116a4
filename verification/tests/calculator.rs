use kickoff::calculator::{evaluate, is_math_expression, EvalError, Rat};

fn val(s: &str) -> f64 {
    let r: Rat = evaluate(s).unwrap();
    r.num as f64 / r.den as f64
}

#[test]
fn test_is_math_expression() {
    // Basic arithmetic
    assert!(is_math_expression("10-5"));
    assert!(is_math_expression("2+3*4"));
    assert!(is_math_expression("(1+2)*3"));
    assert!(is_math_expression("42"));
    assert!(is_math_expression("-5"));

    // With spaces
    assert!(is_math_expression("10 - 5"));
    assert!(is_math_expression("2 + 3 * 4"));

    // Decimals
    assert!(is_math_expression("3.14*2"));
    assert!(is_math_expression("10.5/2.5"));

    // Complex expressions
    assert!(is_math_expression("((1+2)*3)/4"));
    assert!(is_math_expression("-5.5+10"));

    // Not math expressions
    assert!(!is_math_expression("hello"));
    assert!(!is_math_expression(""));
    assert!(!is_math_expression("abc123"));
    assert!(!is_math_expression("++"));
    assert!(!is_math_expression("--"));
}

#[test]
fn test_evaluate() {
    // Basic operations
    assert_eq!(val("10-5"), 5.0);
    assert_eq!(val("2+3*4"), 14.0);
    assert_eq!(val("(1+2)*3"), 9.0);
    assert_eq!(val("42"), 42.0);
    assert_eq!(val("-5"), -5.0);
    assert_eq!(val("10/2"), 5.0);

    // Order of operations
    assert_eq!(val("2+3*4"), 14.0);
    assert_eq!(val("(2+3)*4"), 20.0);
    assert_eq!(val("10-6/2"), 7.0);

    // Decimals
    assert_eq!(val("3.5*2"), 7.0);
    assert_eq!(val("10.5/2.1"), 5.0);

    // Negative numbers
    assert_eq!(val("-5+10"), 5.0);
    assert_eq!(val("(-2)*3"), -6.0);
    assert_eq!(val("10-(-5)"), 15.0);

    // Complex expressions
    assert_eq!(val("((1+2)*3)/4"), 2.25);
    assert_eq!(val("2*3+4*5"), 26.0);

    // With spaces
    assert_eq!(val("10 - 5"), 5.0);
    assert_eq!(val("2 + 3 * 4"), 14.0);
}

#[test]
fn test_evaluate_errors() {
    // Division by zero
    assert!(evaluate("5/0").is_err());
    assert!(evaluate("10/(5-5)").is_err());

    // Invalid expressions
    assert!(evaluate("").is_err());
    assert!(evaluate("++").is_err());
    assert!(evaluate("5+").is_err());
    assert!(evaluate("*5").is_err());
    assert!(evaluate("(5").is_err());
    assert!(evaluate("5)").is_err());
    assert!(evaluate("5..5").is_err());
}

#[test]
fn test_evaluate_error_kinds() {
    assert_eq!(evaluate(""), Err(EvalError::Empty));
    assert_eq!(evaluate("2+a"), Err(EvalError::UnexpectedChar));
    assert_eq!(evaluate("."), Err(EvalError::InvalidNumber));
    assert_eq!(evaluate("(5"), Err(EvalError::MissingParen));
    assert_eq!(evaluate("*5"), Err(EvalError::MissingOperand));
    assert_eq!(evaluate("5+"), Err(EvalError::MissingOperand));
    assert_eq!(evaluate("5)"), Err(EvalError::TrailingTokens));
    assert_eq!(evaluate("5/0"), Err(EvalError::DivisionByZero));
    assert_eq!(evaluate("99999999999999999999"), Err(EvalError::Overflow));
}

#[test]
fn test_evaluate_exact_rationals() {
    // The evaluator is exact: results carry numerator and denominator.
    let r = evaluate("((1+2)*3)/4").unwrap();
    assert_eq!(r.num * 4, r.den * 9);
    let r = evaluate("0.1+0.2").unwrap();
    // exactly 3/10, which no binary float holds
    assert_eq!(r.num * 10, r.den * 3);
}

#[test]
fn test_evaluate_negative_literals() {
    // A minus right after an operator or `(` starts a negative literal.
    assert_eq!(val("--5"), 5.0);
    assert_eq!(val("2*-3"), -6.0);
    // A dot without digits is no literal.
    assert!(evaluate("-.").is_err());
    assert_eq!(val("-.5"), -0.5);
    assert_eq!(val("5."), 5.0);
    assert_eq!(val(".5"), 0.5);
}

#[test]
fn test_is_math_expression_trims() {
    assert!(is_math_expression("  5  "));
    assert!(is_math_expression("\t5\n"));
    assert!(!is_math_expression("   "));
}
