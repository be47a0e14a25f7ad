use vstd::prelude::*;

verus! {

use crate::error::MathError;
use crate::extended_gcd::extended_gcd;
use crate::number_theory::{gcd, lemma_unit_factor_cancel};
use vstd::arithmetic::div_mod::{
    lemma_add_mod_noop_right, lemma_mod_add_multiples_vanish, lemma_mod_bound,
    lemma_mod_multiples_vanish, lemma_mul_mod_noop_left, lemma_mul_mod_noop_right,
};

/// A modular-arithmetic context holding one positive modulus.
///
/// Every operation normalizes its result into `[0, m)` with the Euclidean
/// remainder, whatever the signs of the inputs.
#[derive(Debug, Copy, Clone, PartialEq, Eq, Structural)]
pub struct Modular(pub i64);

/// Euclidean residue of `a` modulo `m`: the representative in `[0, m)`.
pub(crate) fn euclid_rem(a: i64, m: i64) -> (r: i64)
    requires
        m >= 1,
    ensures
        r == a as int % m as int,
        0 <= r < m,
{
    proof {
        lemma_mod_bound(a as int, m as int);
    }
    a.checked_rem_euclid(m).unwrap()
}

impl Modular {
    /// Modular sum, normalized into `[0, m)`.
    pub fn add(&self, a: i64, b: i64) -> (r: i64)
        requires
            self.0 >= 1,
        ensures
            r == (a + b) % (self.0 as int),
            0 <= r < self.0,
    {
        let m = self.0 as i128;
        let sum = a as i128 + b as i128;
        proof {
            lemma_mod_bound(sum as int, m as int);
        }
        sum.checked_rem_euclid(m).unwrap() as i64
    }

    /// Modular negation: the additive inverse of `a`, normalized into `[0, m)`.
    pub fn neg(&self, a: i64) -> (r: i64)
        requires
            self.0 >= 1,
        ensures
            r == -(a as int) % (self.0 as int),
            0 <= r < self.0,
    {
        let m = self.0 as i128;
        let d = m - a as i128;
        proof {
            lemma_mod_bound(d as int, m as int);
            lemma_mod_add_multiples_vanish(-(a as int), m as int);
        }
        d.checked_rem_euclid(m).unwrap() as i64
    }

    /// Modular difference, computed as the sum with the negated subtrahend.
    pub fn sub(&self, a: i64, b: i64) -> (r: i64)
        requires
            self.0 >= 1,
        ensures
            r == (a - b) % (self.0 as int),
            0 <= r < self.0,
    {
        let nb = self.neg(b);
        let r = self.add(a, nb);
        proof {
            lemma_add_mod_noop_right(a as int, -(b as int), self.0 as int);
        }
        r
    }

    /// Modular product, normalized into `[0, m)`.
    pub fn mul(&self, a: i64, b: i64) -> (r: i64)
        requires
            self.0 >= 1,
        ensures
            r == (a * b) % (self.0 as int),
            0 <= r < self.0,
    {
        proof {
            assert(-(0x8000_0000_0000_0000i128 * 0x8000_0000_0000_0000i128) <= (a as int) * (
            b as int) <= 0x8000_0000_0000_0000i128 * 0x8000_0000_0000_0000i128)
                by (nonlinear_arith)
                requires
                    -0x8000_0000_0000_0000i128 <= a as int <= 0x7fff_ffff_ffff_ffffi128,
                    -0x8000_0000_0000_0000i128 <= b as int <= 0x7fff_ffff_ffff_ffffi128,
            ;
        }
        let m = self.0 as i128;
        let p = (a as i128) * (b as i128);
        proof {
            lemma_mod_bound(p as int, m as int);
        }
        p.checked_rem_euclid(m).unwrap() as i64
    }

    /// Modular multiplicative inverse, through the extended Euclidean
    /// algorithm; fails with `NoInverse` exactly when the operand's residue
    /// is not coprime to the modulus.
    pub fn inv(&self, a: i64) -> (r: Result<i64, MathError>)
        requires
            self.0 >= 1,
        ensures
            ({
                let m = self.0 as int;
                match r {
                    Ok(v) => gcd((a as int % m) as nat, self.0 as nat) == 1 && 0 <= v < m && (
                    a as int * v) % m == 1int % m,
                    Err(e) => e == MathError::NoInverse && gcd(
                        (a as int % m) as nat,
                        self.0 as nat,
                    ) != 1,
                }
            }),
    {
        let m = self.0;
        let an = euclid_rem(a, m);
        let (s, t, g) = extended_gcd(an, m);
        if g == 1 {
            let v = euclid_rem(s, m);
            proof {
                let mi = m as int;
                assert((an as int) * s == mi * (-(t as int)) + 1) by (nonlinear_arith)
                    requires
                        s * an + t * m == 1,
                        mi == m as int,
                ;
                lemma_mod_multiples_vanish(-(t as int), 1int, mi);
                assert((an as int * s) % mi == 1int % mi);
                lemma_mul_mod_noop_left(a as int, s as int, mi);
                assert((a as int * s) % mi == 1int % mi);
                lemma_mul_mod_noop_right(a as int, s as int, mi);
                assert((a as int * v) % mi == 1int % mi);
            }
            Ok(v)
        } else {
            Err(MathError::NoInverse)
        }
    }

    /// Modular division `a / b`: fails with `DivisionByZero` when `b` is
    /// congruent to zero, and with `NoInverse` when `b`'s residue has no
    /// inverse; otherwise returns the unique reduced `r` with `r*b == a`
    /// modulo `m`.
    pub fn div(&self, a: i64, b: i64) -> (r: Result<i64, MathError>)
        requires
            self.0 >= 1,
        ensures
            ({
                let m = self.0 as int;
                &&& (b as int % m == 0 ==> r == Err::<i64, MathError>(MathError::DivisionByZero))
                &&& (b as int % m != 0 && gcd((b as int % m) as nat, self.0 as nat) != 1 ==> r
                    == Err::<i64, MathError>(MathError::NoInverse))
                &&& (b as int % m != 0 && gcd((b as int % m) as nat, self.0 as nat) == 1 ==> (r
                    matches Ok(v) && 0 <= v < m && (v * b) % m == a as int % m))
            }),
    {
        let m = self.0;
        let bn = euclid_rem(b, m);
        if bn == 0 {
            return Err(MathError::DivisionByZero);
        }
        let ib = match self.inv(b) {
            Ok(v) => v,
            Err(e) => {
                return Err(e);
            },
        };
        let r = self.mul(a, ib);
        proof {
            let mi = m as int;
            // r*b == (a*ib)*b == a*(b*ib), and b*ib is congruent to one.
            lemma_mul_mod_noop_left(a as int * ib, b as int, mi);
            assert((r * b) % mi == ((a as int * ib) * (b as int)) % mi);
            assert((a as int * ib) * (b as int) == (a as int) * ((b as int) * ib))
                by (nonlinear_arith);
            lemma_mul_mod_noop_left(a as int, (b as int) * ib, mi);
            assert(((a as int) * ((b as int) * ib)) % mi == ((a as int % mi) * ((b as int) * ib))
                % mi);
            lemma_mod_bound(a as int, mi);
            lemma_unit_factor_cancel(a as int % mi, b as int, ib as int, mi);
            assert((r * b) % mi == a as int % mi);
        }
        Ok(r)
    }
}

/// Inverse correctness: a residue times the inverse that `inv` returns is
/// one in any field with more than one element.  Together with the
/// contracts of `mul` and `inv`, this states that
/// `mul(a, inv(a)) == 1` whenever `a` is coprime to the modulus.
pub proof fn lemma_mul_inv_one(m: int, a: int, v: int)
    requires
        m >= 2,
        (a * v) % m == 1int % m,
    ensures
        (a * v) % m == 1,
{
    vstd::arithmetic::div_mod::lemma_small_mod(1nat, m as nat);
}

} // verus!
