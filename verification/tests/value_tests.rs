use parsemath::value::Value;

#[test]
fn value_results_are_in_lowest_terms() {
    let v = Value::from_int(8).div(Value::from_int(4)).unwrap();
    assert_eq!(v.num(), 2);
    assert_eq!(v.den(), 1);

    let w = Value::from_int(314).div(Value::from_int(100)).unwrap();
    assert_eq!(w.num(), 157);
    assert_eq!(w.den(), 50);
}

#[test]
fn value_arithmetic() {
    let half = Value::from_int(1).div(Value::from_int(2)).unwrap();
    let third = Value::from_int(1).div(Value::from_int(3)).unwrap();
    let sum = half.add(third).unwrap();
    assert_eq!(sum.num(), 5);
    assert_eq!(sum.den(), 6);
    let diff = half.sub(third).unwrap();
    assert_eq!(diff.num(), 1);
    assert_eq!(diff.den(), 6);
    let prod = half.mul(third).unwrap();
    assert_eq!(prod.num(), 1);
    assert_eq!(prod.den(), 6);
    assert_eq!(half.neg().num(), -1);
}

#[test]
fn value_pow() {
    assert_eq!(Value::from_int(2).pow_nat(10), Some(Value::from_int(1024)));
    assert_eq!(Value::from_int(2).pow_nat(0), Some(Value::from_int(1)));
}

#[test]
fn value_overflow_is_reported() {
    let big = Value::from_int(i64::MAX);
    assert_eq!(big.mul(big), None);
    assert_eq!(Value::from_int(2).pow_nat(64), None);
}
