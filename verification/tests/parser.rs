use starkom::expr::Constraint;
use starkom::field::{from_const, Field, Scalar, GL};
use starkom::lexer;
use starkom::ops::{rvar, var};

fn make_const(value: u64) -> Constraint<Scalar> {
    starkom::ops::make_const(from_const(value))
}

fn parse<F: Field>(s: &'static str) -> Constraint<F> {
    let tokens = lexer::tokenize(s).unwrap();
    match starkom::parser::parse(tokens.as_slice()) {
        Ok(constraint) => constraint,
        Err(error) => panic!("{}", error.to_string()),
    }
}

fn nop<F: Field>() -> Constraint<F> {
    Constraint::nop()
}

#[test]
fn test_constants() {
    assert_eq!(parse::<Scalar>("0 == 0"), make_const(0));
    assert_eq!(parse::<Scalar>("12 == 0"), make_const(12));
    assert_eq!(parse::<Scalar>("56 == 34"), make_const(22));
}

#[test]
fn test_variables() {
    assert_eq!(parse::<Scalar>("var(0) == 0"), var(0));
    assert_eq!(parse::<Scalar>("var(1) == 0"), var(1));
    assert_eq!(parse::<Scalar>("var(2) == 0"), var(2));
    assert_eq!(parse::<Scalar>("var(12, +0) == 0"), var(12));
    assert_eq!(parse::<Scalar>("var(34, +1) == 0"), rvar(34, 1));
    assert_eq!(parse::<Scalar>("var(56, -1) == 0"), rvar(56, -1));
    assert_eq!(parse::<Scalar>("var(78, +2) == 0"), rvar(78, 2));
    assert_eq!(parse::<Scalar>("var(90, -2) == 0"), rvar(90, -2));
}

#[test]
fn test_unary() {
    assert_eq!(parse::<Scalar>("-var(0) == 0"), -var(0));
    assert_eq!(parse::<Scalar>("--var(0) == 0"), var(0));
    assert_eq!(parse::<Scalar>("---var(0) == 0"), -var(0));
    assert_eq!(parse::<Scalar>("+var(0) == 0"), var(0));
    assert_eq!(parse::<Scalar>("++var(0) == 0"), var(0));
    assert_eq!(parse::<Scalar>("+-var(0) == 0"), -var(0));
    assert_eq!(parse::<Scalar>("-+var(0) == 0"), -var(0));
    assert_eq!(parse::<Scalar>("-++var(0) == 0"), -var(0));
    assert_eq!(parse::<Scalar>("+-+var(0) == 0"), -var(0));
    assert_eq!(parse::<Scalar>("++-var(0) == 0"), -var(0));
    assert_eq!(parse::<Scalar>("+-+-+var(0) == 0"), var(0));
    assert_eq!(parse::<Scalar>("-+-+-var(0) == 0"), -var(0));
}

#[test]
fn test_sum() {
    assert_eq!(parse::<Scalar>("var(0) + var(0) == 0"), var(0) * 2);
    assert_eq!(parse::<Scalar>("var(0) + var(1) == 0"), var(0) + var(1));
    assert_eq!(parse::<Scalar>("var(1) + var(0) == 0"), var(0) + var(1));
    assert_eq!(parse::<Scalar>("var(0) + 42 == 0"), var(0) + make_const(42));
    assert_eq!(parse::<Scalar>("42 + var(0) == 0"), var(0) + make_const(42));
    assert_eq!(
        parse::<Scalar>("var(0) + var(1) + var(2) == 0"),
        var(0) + var(1) + var(2)
    );
    assert_eq!(
        parse::<Scalar>("var(2) + var(2) + var(3) == 0"),
        var(2) * 2 + var(3)
    );
    assert_eq!(
        parse::<Scalar>("var(3) + var(2) + var(3) == 0"),
        var(3) * 2 + var(2)
    );
    assert_eq!(parse::<Scalar>("var(4) + var(4) + var(4) == 0"), var(4) * 3);
}

#[test]
fn test_subtraction() {
    assert_eq!(parse::<Scalar>("var(0) - var(0) == 0"), nop());
    assert_eq!(parse::<Scalar>("var(0) - var(1) == 0"), var(0) - var(1));
    assert_eq!(parse::<Scalar>("var(1) - var(0) == 0"), var(1) - var(0));
    assert_eq!(parse::<Scalar>("var(0) - 42 == 0"), var(0) - make_const(42));
    assert_eq!(parse::<Scalar>("42 - var(0) == 0"), make_const(42) - var(0));
    assert_eq!(
        parse::<Scalar>("var(0) - var(1) - var(2) == 0"),
        var(0) - var(1) - var(2)
    );
    assert_eq!(parse::<Scalar>("var(2) - var(2) - var(3) == 0"), -var(3));
    assert_eq!(parse::<Scalar>("var(3) - var(2) - var(3) == 0"), -var(2));
    assert_eq!(parse::<Scalar>("var(4) - var(4) - var(4) == 0"), -var(4));
}

#[test]
fn test_product() {
    assert_eq!(parse::<Scalar>("var(0) * var(0) == 0"), var(0) ^ 2);
    assert_eq!(parse::<Scalar>("var(0) * var(1) == 0"), var(0) * var(1));
    assert_eq!(parse::<Scalar>("var(1) * var(0) == 0"), var(0) * var(1));
    assert_eq!(parse::<Scalar>("var(0) * 42 == 0"), var(0) * make_const(42));
    assert_eq!(parse::<Scalar>("42 * var(0) == 0"), var(0) * make_const(42));
    assert_eq!(
        parse::<Scalar>("var(0) * var(1) * var(2) == 0"),
        var(0) * var(1) * var(2)
    );
    assert_eq!(
        parse::<Scalar>("var(2) * var(2) * var(3) == 0"),
        (var(2) ^ 2) * var(3)
    );
    assert_eq!(
        parse::<Scalar>("var(3) * var(2) * var(3) == 0"),
        (var(3) ^ 2) * var(2)
    );
    assert_eq!(parse::<Scalar>("var(4) * var(4) * var(4) == 0"), var(4) ^ 3);
}

#[test]
fn test_power() {
    assert_eq!(parse::<Scalar>("var(0) ^ 0 == 0"), make_const(1));
    assert_eq!(parse::<Scalar>("var(0) ^ 1 == 0"), var(0));
    assert_eq!(parse::<Scalar>("var(0) ^ 2 == 0"), var(0) ^ 2);
    assert_eq!(parse::<Scalar>("var(0) ^ +0 == 0"), make_const(1));
    assert_eq!(parse::<Scalar>("var(0) ^ +1 == 0"), var(0));
    assert_eq!(parse::<Scalar>("var(0) ^ +2 == 0"), var(0) ^ 2);
    assert_eq!(parse::<Scalar>("var(0) ^ -0 == 0"), make_const(1));
    assert_eq!(parse::<Scalar>("var(0) ^ -1 == 0"), var(0) ^ -1);
    assert_eq!(parse::<Scalar>("var(0) ^ -2 == 0"), var(0) ^ -2);
}

#[test]
fn test_power_sum_positive_exponent() {
    assert_eq!(
        parse::<Scalar>("(var(0) + var(1)) ^ 2 == 0"),
        (var(0) + var(1)) ^ 2
    );
    assert_eq!(
        parse::<Scalar>("(var(0) + var(1)) ^ 3 == 0"),
        (var(0) + var(1)) ^ 3
    );
}

#[test]
fn test_division() {
    assert_eq!(parse::<Scalar>("var(0) / var(0) == 0"), make_const(1));
    assert_eq!(parse::<Scalar>("var(0) / var(1) == 0"), var(0) / var(1));
    assert_eq!(parse::<Scalar>("var(1) / var(0) == 0"), var(1) / var(0));
    assert_eq!(parse::<Scalar>("var(0) / 42 == 0"), var(0) / make_const(42));
    assert_eq!(parse::<Scalar>("42 / var(0) == 0"), make_const(42) / var(0));
    assert_eq!(
        parse::<Scalar>("var(0) / var(1) / var(2) == 0"),
        var(0) / var(1) / var(2)
    );
    assert_eq!(parse::<Scalar>("var(2) / var(2) / var(3) == 0"), var(3) ^ -1);
    assert_eq!(parse::<Scalar>("var(3) / var(2) / var(3) == 0"), var(2) ^ -1);
    assert_eq!(parse::<Scalar>("var(4) / var(4) / var(4) == 0"), var(4) ^ -1);
}

#[test]
fn test_brackets() {
    assert_eq!(parse::<Scalar>("(42) == 0"), make_const(42));
    assert_eq!(parse::<Scalar>("(var(0)) == 0"), var(0));
    assert_eq!(parse::<Scalar>("(var(1)) == 0"), var(1));
    assert_eq!(parse::<Scalar>("(var(1) + var(2)) == 0"), var(1) + var(2));
    assert_eq!(
        parse::<Scalar>("(var(1) + var(2)) * var(3) == 0"),
        (var(1) + var(2)) * var(3)
    );
    assert_eq!(
        parse::<Scalar>("var(3) * (var(2) + var(1)) == 0"),
        (var(1) + var(2)) * var(3)
    );
    assert_eq!(parse::<Scalar>("var(0) ^ (36 + 2 * 3) == 0"), var(0) ^ 42);
    assert_eq!(parse::<Scalar>("var(0) ^ -(4 - 2) == 0"), var(0) ^ -2);
}

#[test]
fn test_equality() {
    assert_eq!(
        parse::<Scalar>("(var(0) + var(1)) * var(2) == 42"),
        (var(0) + var(1)) * var(2) - make_const(42)
    );
    assert_eq!(
        parse::<Scalar>("42 == (var(0) + var(1)) * var(2)"),
        make_const(42) - (var(0) + var(1)) * var(2)
    );
    assert_eq!(
        parse::<Scalar>("42 * var(2) ^ -1 == var(0) + var(1)"),
        make_const(42) * (var(2) ^ -1) - var(0) - var(1)
    );
}

#[test]
#[should_panic(expected = "cannot be raised to a negative power")]
fn test_power_sum_negative_exponent_panics() {
    let _ = parse::<Scalar>("(var(0) + var(1)) ^ -2 == 0");
}

#[test]
fn test_error_texts() {
    let describe = |text: &str| {
        Constraint::<Scalar>::parse_expression(text)
            .unwrap_err()
            .to_string()
    };
    assert_eq!(
        describe("(var(0) + var(1)) ^ -2 == 0"),
        "expression `var(0) + var(1)` cannot be raised to a negative power"
    );
    assert_eq!(
        describe("0 ^ -1 == 0"),
        "expression `0` cannot be raised to a negative power"
    );
    assert_eq!(describe("var(0) & 1"), "syntax error");
    assert_eq!(describe("var(0"), "syntax error");
    assert_eq!(describe("foo(0) == 0"), "unknown identifier `foo`");
    assert_eq!(describe("1 / 0 == 0"), "division by zero");
    assert_eq!(
        describe("2 ^ var(0) == 0"),
        "exponents may not contain variables"
    );
    assert_eq!(
        describe("var(var(1)) == 0"),
        "invalid column index `var(1)`: must be a constant"
    );
    assert_eq!(
        describe("var(-3) == 0"),
        "invalid witness column index -3: must be positive"
    );
    assert_eq!(
        describe("var(0, +9223372036854775808) == 0"),
        "invalid rotation value \
         0x0000000000000000000000000000000000000000000000008000000000000000: \
         must be a small number!"
    );
    assert_eq!(
        describe("var(9223372036854775808) == 0"),
        "out of range: 9223372036854775808 > 9223372036854775807"
    );
    let text = describe("var(0) ^ -9223372036854775809 == 0");
    assert!(text.starts_with("out of range: 0x7fff"));
    assert!(text.ends_with(" < -9223372036854775808"));
}

#[test]
fn test_error_text_in_another_field() {
    let error = Constraint::<GL>::parse_expression("var(0, -9223372036854775809) == 0").unwrap_err();
    assert_eq!(
        error.to_string(),
        "invalid rotation value 0x8000000000000001: must be a small number!"
    );
}
