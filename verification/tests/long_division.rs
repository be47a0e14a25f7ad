use curvemath::error::MathError;
use curvemath::long_division::{long_division, poly_long_division};

#[test]
fn test_long_division() {
    let result = long_division(45678, 90).unwrap();
    assert_eq!(result, (507, 48));
}

#[test]
fn long_division_test_long_division() {
    let result = long_division(45678, 90).unwrap();
    assert_eq!(result, (507, 48));
}

#[test]
fn test_poly_long_division() {
    let a = vec![-9, 0, 0, 2, 0, 1];
    let b = vec![-1, 4, 1];
    let result = poly_long_division(a, b).unwrap();
    assert_eq!(result, (vec![-80, 19, -4, 1], vec![-89, 339]));
}

#[test]
fn long_division_test_poly_long_division() {
    let a = vec![-9, 0, 0, 2, 0, 1];
    let b = vec![-1, 4, 1];
    let result = poly_long_division(a, b).unwrap();
    assert_eq!(result, (vec![-80, 19, -4, 1], vec![-89, 339]));
}

#[test]
fn test_long_division_by_zero() {
    assert_eq!(long_division(5, 0), Err(MathError::DivisionByZero));
}

#[test]
fn test_long_division_zero_dividend() {
    assert_eq!(long_division(0, 7).unwrap(), (0, 0));
}

#[test]
fn test_long_division_exact() {
    assert_eq!(long_division(121, 11).unwrap(), (11, 0));
}

#[test]
fn test_poly_long_division_monic_negative() {
    // (x^2 - 1) divided by (-x + ... ) with leading coefficient -1:
    // x^2 - 1 == (-x - 1) * (-x + 1) + 0.
    let a = vec![-1, 0, 1];
    let b = vec![1, -1];
    let (q, r) = poly_long_division(a, b).unwrap();
    assert_eq!(q, vec![-1, -1]);
    assert_eq!(r, vec![0]);
}

#[test]
fn test_poly_long_division_short_dividend() {
    // A dividend of smaller degree than the divisor: empty quotient, the
    // dividend itself as remainder.
    let a = vec![3, 4];
    let b = vec![1, 0, 1];
    let (q, r) = poly_long_division(a, b).unwrap();
    assert_eq!(q, Vec::<i64>::new());
    assert_eq!(r, vec![3, 4]);
}
