use parsemath::error::Error;
use parsemath::eval::{eval, evaluate};
use parsemath::parser::{parse, Expr};
use parsemath::value::Value;

fn frac(n: i64, d: i64) -> Value {
    Value::from_int(n).div(Value::from_int(d)).unwrap()
}

#[test]
fn eval_simple_sum() {
    assert_eq!(eval("1+2"), Ok(Value::from_int(3)));
}

#[test]
fn eval_precedence() {
    assert_eq!(eval("1+2*3"), Ok(Value::from_int(7)));
    assert_eq!(eval("(1+2)*3"), Ok(Value::from_int(9)));
    assert_eq!(eval("2 + 3 * 4"), Ok(Value::from_int(14)));
    assert_eq!(eval("(2+3)*4"), Ok(Value::from_int(20)));
}

#[test]
fn eval_left_associativity() {
    assert_eq!(eval("10-3-2"), Ok(Value::from_int(5)));
    assert_eq!(eval("8/4/2"), Ok(Value::from_int(1)));
}

#[test]
fn eval_pow_right_associativity() {
    assert_eq!(eval("2^3^2"), Ok(Value::from_int(512)));
}

#[test]
fn eval_unary_binding() {
    assert_eq!(eval("-2^2"), Ok(Value::from_int(-4)));
    assert_eq!(eval("(-2)^2"), Ok(Value::from_int(4)));
    assert_eq!(eval("-3 + 4"), Ok(Value::from_int(1)));
    assert_eq!(eval("+5"), Ok(Value::from_int(5)));
}

#[test]
fn eval_unary_parses_below_caret() {
    let e = parse("-2^2").unwrap();
    assert!(matches!(e, Expr::Neg(_)));
    let e = parse("(-2)^2").unwrap();
    assert!(matches!(e, Expr::Pow(_, _)));
}

#[test]
fn eval_decimals() {
    assert_eq!(eval("3.14 * 2"), Ok(frac(157, 25)));
    assert_eq!(eval(".5 * 2"), Ok(Value::from_int(1)));
    assert_eq!(eval("1."), Ok(Value::from_int(1)));
}

#[test]
fn eval_literal_round_trip() {
    assert_eq!(eval("123456789012345"), Ok(Value::from_int(123456789012345)));
    assert_eq!(eval("1.00000000000000"), Ok(Value::from_int(1)));
    assert_eq!(eval("6.28"), Ok(frac(157, 25)));
}

#[test]
fn eval_whitespace_invariance_samples() {
    assert_eq!(eval("1+2*3"), eval(" 1 +\t2 *\r\n3 "));
    assert_eq!(eval("(2+3)*4"), eval("( 2 + 3 ) * 4"));
    assert_eq!(eval("10-3-2"), eval("10 - 3 - 2"));
}

#[test]
fn eval_zero_pow_zero() {
    assert_eq!(eval("0^0"), Ok(Value::from_int(1)));
}

#[test]
fn eval_negative_exponent() {
    assert_eq!(eval("2^-2"), Ok(frac(1, 4)));
    assert_eq!(eval("0^-1"), Err(Error::DivisionByZero));
}

#[test]
fn eval_division_by_zero() {
    assert_eq!(eval("10/0"), Err(Error::DivisionByZero));
}

#[test]
fn eval_empty_input() {
    assert_eq!(eval(""), Err(Error::EmptyInput));
    assert_eq!(eval("()"), Err(Error::EmptyInput));
}

#[test]
fn eval_unexpected_token() {
    assert_eq!(eval("1 + "), Err(Error::UnexpectedToken));
    assert_eq!(eval(")"), Err(Error::UnexpectedToken));
}

#[test]
fn eval_missing_rparen() {
    assert_eq!(eval("(1+2"), Err(Error::MissingRParen));
}

#[test]
fn eval_trailing_garbage() {
    assert_eq!(eval("1 2"), Err(Error::TrailingGarbage));
}

#[test]
fn eval_unexpected_char() {
    assert_eq!(eval("1 + $"), Err(Error::UnexpectedChar(4)));
}

#[test]
fn eval_malformed_number() {
    assert_eq!(eval("1.2.3"), Err(Error::MalformedNumber(3)));
    assert_eq!(eval(". + 1"), Err(Error::MalformedNumber(0)));
}

#[test]
fn eval_non_finite() {
    assert_eq!(eval("2^0.5"), Err(Error::NonFinite));
    assert_eq!(eval("99999999999999999999999999999999999999999"), Err(Error::NonFinite));
}

#[test]
fn evaluate_hand_built_tree() {
    let e = Expr::Mul(
        Box::new(Expr::Num(Value::from_int(6))),
        Box::new(Expr::Num(Value::from_int(7))),
    );
    assert_eq!(evaluate(&e), Ok(Value::from_int(42)));
}
