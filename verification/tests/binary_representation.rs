use curvemath::binary_representation::binary_representation;

#[test]
fn test_binary_representation() {
    let result = binary_representation(2).unwrap();
    assert_eq!(result, "10".to_string());
}

#[test]
fn test_binary_representation2() {
    let result = binary_representation(3).unwrap();
    assert_eq!(result, "11".to_string());
}

#[test]
fn test_binary_representation_zero() {
    let result = binary_representation(0).unwrap();
    assert_eq!(result, "0".to_string());
}

#[test]
fn test_binary_representation_large_number() {
    let result = binary_representation(255).unwrap();
    assert_eq!(result, "11111111".to_string());
}

#[test]
fn test_binary_representation_power_of_two() {
    let result = binary_representation(1024).unwrap();
    assert_eq!(result, "10000000000".to_string());
}
