use curvemath::extended_euclid::extended_euclid;
use curvemath::extended_gcd::extended_gcd;

#[test]
fn test_extended_euclid() {
    let result = extended_euclid(12, 5).unwrap();
    assert_eq!(result, (1, -2, 5))
}

#[test]
fn test_extended_euclid2() {
    let result = extended_euclid(45, 10).unwrap();
    assert_eq!(result, (5, 1, -4))
}

#[test]
fn test_extended_gcd() {
    assert_eq!(extended_gcd(12, 5), (-2, 5, 1));
    assert_eq!(extended_gcd(45, 10), (1, -4, 5));
}

#[test]
fn test_extended_gcd_zero() {
    assert_eq!(extended_gcd(0, 0), (1, 0, 0));
    assert_eq!(extended_gcd(7, 0), (1, 0, 7));
}
