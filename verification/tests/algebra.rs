use curvemath::cyclic_group_exponentiation::cge;
use curvemath::efficient_scalar_multiplication::esm;

#[test]
fn test_cge() {
    assert_eq!(cge(3, 5, 13), 9);
    assert_eq!(cge(5, 3, 23), 10);
    assert_eq!(cge(7, 0, 11), 1);
    assert_eq!(cge(0, 5, 11), 0);
}

#[test]
fn test_esm() {
    assert_eq!(esm(3, 10, 13), 4);
    assert_eq!(esm(7, 10, 23), 1);
    assert_eq!(esm(0, 10, 13), 0);
    assert_eq!(esm(3, 0, 13), 0);
}

#[test]
fn test_cge_trivial_modulus() {
    assert_eq!(cge(5, 3, 1), 0);
    assert_eq!(cge(5, 0, 1), 1);
}

#[test]
fn test_esm_large_operands() {
    // 2^40 doublings stay reduced throughout.
    assert_eq!(esm(1 << 40, 1 << 40, 97), (((1u128 << 80) % 97) as u64));
}
