use curvemath::error::MathError;
use curvemath::modular_operations::Modular;

#[test]
fn test_modular() {
    let modular_5 = Modular(5);
    assert_eq!(modular_5.inv(2), Ok(3));
    assert_eq!(modular_5.add(10, 4), 4);
    assert_eq!(modular_5.sub(0, 6), 4);
    assert_eq!(modular_5.mul(10, 4), 0);
    assert_eq!(modular_5.div(8, 3), Ok(1));
}

#[test]
fn test_normalization_of_negatives() {
    // Results land in [0, m) whatever the signs of the inputs.
    let f = Modular(5);
    assert_eq!(f.add(-3, 2), 4);
    assert_eq!(f.sub(3, 4), 4);
    assert_eq!(f.mul(-3, 4), 3);
    assert_eq!(f.neg(3), 2);
    assert_eq!(f.neg(-3), 3);
    for a in -10..10i64 {
        for b in -10..10i64 {
            let s = f.add(a, b);
            let p = f.mul(a, b);
            let n = f.neg(a);
            assert!(0 <= s && s < 5);
            assert!(0 <= p && p < 5);
            assert!(0 <= n && n < 5);
        }
    }
}

#[test]
fn test_inverse_correctness() {
    // For every a coprime to m, mul(a, inv(a)) == 1.
    let f = Modular(7);
    for a in 1..7i64 {
        let inv = f.inv(a).unwrap();
        assert_eq!(f.mul(a, inv), 1);
    }
    let g = Modular(12);
    for a in [1i64, 5, 7, 11] {
        let inv = g.inv(a).unwrap();
        assert_eq!(g.mul(a, inv), 1);
    }
}

#[test]
fn test_no_inverse() {
    let f = Modular(12);
    for a in [0i64, 2, 3, 4, 6, 8, 9, 10] {
        assert_eq!(f.inv(a), Err(MathError::NoInverse));
    }
    assert_eq!(f.div(1, 2), Err(MathError::NoInverse));
}

#[test]
fn test_division_by_zero() {
    // div(a, 0) fails with DivisionByZero for every a.
    let f = Modular(5);
    for a in -7..8i64 {
        assert_eq!(f.div(a, 0), Err(MathError::DivisionByZero));
    }
    // A divisor congruent to zero counts as zero.
    assert_eq!(f.div(3, 5), Err(MathError::DivisionByZero));
    assert_eq!(f.div(3, -10), Err(MathError::DivisionByZero));
}
