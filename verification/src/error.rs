use vstd::prelude::*;

verus! {

/// The failure conditions reported by the library's fallible operations.
///
/// Every fallible step returns one of these values to its caller; no
/// expected-invalid input panics.
#[derive(Clone, Copy, Debug, PartialEq, Eq, Structural)]
pub enum MathError {
    /// A divisor was congruent to zero modulo the active modulus.
    DivisionByZero,
    /// An operand had no multiplicative inverse modulo the active modulus.
    NoInverse,
    /// A point failed the curve-membership test.
    PointNotOnCurve,
    /// A modulus was non-positive, or a set of moduli was not pairwise coprime.
    InvalidModulus,
    /// Two paired input sequences had different lengths.
    LengthMismatch,
}

} // verus!
