use curvemath::hash_to_zn::{hash_to_zn, u128_le_bytes};

#[test]
fn test_hash_to_zn() {
    let n = 1000;
    let k = 16;
    let seed = b"example_seed";

    let result = hash_to_zn(n, k, seed);
    println!("z = {}", result);
}

#[test]
fn test_hash_to_zn_known_values() {
    // Pinned against an independent SHA-256 computation: the first counter
    // whose masked digest falls below the bound is 62 for this seed.
    assert_eq!(hash_to_zn(1000, 16, b"example_seed"), 788);
    assert_eq!(hash_to_zn(100000, 20, b"seed"), 79124);
}

#[test]
fn test_hash_to_zn_below_bound() {
    for n in 1..20u128 {
        assert!(hash_to_zn(n, 8, b"bound") < n);
    }
}

#[test]
fn test_u128_le_bytes() {
    let bytes = u128_le_bytes(0x0201);
    assert_eq!(bytes.len(), 16);
    assert_eq!(bytes[0], 1);
    assert_eq!(bytes[1], 2);
    assert_eq!(&bytes[2..], &[0u8; 14]);
    assert_eq!(u128_le_bytes(u128::MAX), vec![0xffu8; 16]);
}
