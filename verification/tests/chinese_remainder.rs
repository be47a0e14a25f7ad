use curvemath::chinese_remainder::chinese_remainder_solver;
use curvemath::error::MathError;

#[test]
fn test_chinese_remainder_solver() {
    let a: Vec<i64> = vec![4, 1, 3, 0];
    let n: Vec<i64> = vec![7, 3, 5, 11];

    let result = chinese_remainder_solver(a, n).unwrap();
    assert_eq!(result, 88);
}

#[test]
fn test_chinese_remainder_solver_simple() {
    let a: Vec<i64> = vec![2, 3];
    let n: Vec<i64> = vec![3, 5];

    let result = chinese_remainder_solver(a, n).unwrap();
    assert_eq!(result, 8);
}

#[test]
fn test_chinese_remainder_solver_invalid() {
    // Test length mismatch
    let a: Vec<i64> = vec![2, 3];
    let n: Vec<i64> = vec![3, 5, 7];

    let result = chinese_remainder_solver(a, n);
    assert!(result.is_err());

    // Test non-coprime moduli
    let a: Vec<i64> = vec![2, 3];
    let n: Vec<i64> = vec![3, 6];

    let result = chinese_remainder_solver(a, n);
    assert!(result.is_err());
}

#[test]
fn test_chinese_remainder_solver_error_kinds() {
    assert_eq!(
        chinese_remainder_solver(vec![1], vec![2, 3]),
        Err(MathError::LengthMismatch)
    );
    assert_eq!(
        chinese_remainder_solver(vec![1, 2], vec![3, 0]),
        Err(MathError::InvalidModulus)
    );
    assert_eq!(
        chinese_remainder_solver(vec![1, 2], vec![4, 6]),
        Err(MathError::InvalidModulus)
    );
}

#[test]
fn test_chinese_remainder_solver_negative_remainders() {
    // Remainders may be any integers; the solution is reduced.
    let result = chinese_remainder_solver(vec![-1, -2], vec![3, 5]).unwrap();
    assert_eq!(result, 8);
    assert_eq!(8 % 3, (-1i64).rem_euclid(3));
    assert_eq!(8 % 5, (-2i64).rem_euclid(5));
}
