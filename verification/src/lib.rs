//! Finite-field-backed elliptic-curve arithmetic, together with the
//! self-contained number-theoretic utilities it is built on: modular
//! arithmetic with extended-Euclid inverses, the Chinese remainder theorem,
//! long division, binary representation, and hash-to-range derivation.

pub mod binary_representation;
pub mod chinese_remainder;
pub mod cyclic_group_exponentiation;
pub mod efficient_scalar_multiplication;
pub mod elliptic_curve_operations;
pub mod error;
pub mod extended_euclid;
pub mod extended_gcd;
pub mod hash_to_zn;
pub mod long_division;
pub mod modular_operations;
pub mod number_theory;
