use vstd::prelude::*;

verus! {

use vstd::arithmetic::div_mod::{
    lemma_mod_bound, lemma_mul_mod_noop_left, lemma_mul_mod_noop_right, lemma_small_mod,
};
use vstd::arithmetic::power::{
    lemma_pow_mod_noop, lemma_pow_multiplies, lemma_square_is_pow2, pow,
};

/// Cyclic-group exponentiation: `(g ^ x) mod n` by square-and-multiply,
/// consuming the exponent's bits from least to most significant.  A zero
/// exponent returns the initial accumulator `1` unreduced, as the loop is
/// never entered.
pub fn cge(g: u64, x: u64, n: u64) -> (r: u64)
    requires
        n >= 1,
    ensures
        x == 0 ==> r == 1,
        x > 0 ==> r == pow(g as int, x as nat) % (n as int),
{
    let mut result: u64 = 1;
    let mut base: u64 = g;
    let mut xv: u64 = x;
    while xv > 0
        invariant
            n >= 1,
            (result * pow(base as int, xv as nat)) % (n as int) == pow(g as int, x as nat) % (
            n as int),
            result == 1 || result < n,
            xv == 0 ==> (x == 0 || result < n),
            x == 0 ==> (xv == 0 && result == 1),
        decreases xv,
    {
        let ghost ni = n as int;
        let ghost b0 = base as int;
        let ghost r0 = result as int;
        let ghost k0 = xv as nat;
        let ghost k1 = k0 / 2;
        proof {
            assert(r0 * b0 <= 0xffff_ffff_ffff_ffffu128 * 0xffff_ffff_ffff_ffffu128)
                by (nonlinear_arith)
                requires
                    0 <= r0 <= 0xffff_ffff_ffff_ffffu128,
                    0 <= b0 <= 0xffff_ffff_ffff_ffffu128,
            ;
            assert(b0 * b0 <= 0xffff_ffff_ffff_ffffu128 * 0xffff_ffff_ffff_ffffu128)
                by (nonlinear_arith)
                requires
                    0 <= b0 <= 0xffff_ffff_ffff_ffffu128,
            ;
            lemma_square_is_pow2(b0);
            lemma_pow_multiplies(b0, 2, k1);
            lemma_pow_mod_noop(b0 * b0, k1, ni);
        }
        if xv % 2 == 1 {
            let prod = (result as u128) * (base as u128);
            proof {
                lemma_mod_bound(prod as int, ni);
            }
            result = (prod % (n as u128)) as u64;
            proof {
                // pow(b, k0) == b * pow(b*b, k0/2) for odd k0.
                reveal(pow);
                assert(pow(b0, k0) == b0 * pow(b0, (k0 - 1) as nat));
                assert((k0 - 1) as nat == 2 * k1);
                assert(pow(b0, k0) == b0 * pow(b0 * b0, k1));
                assert(r0 * (b0 * pow(b0 * b0, k1)) == (r0 * b0) * pow(b0 * b0, k1))
                    by (nonlinear_arith);
                lemma_mul_mod_noop_left(r0 * b0, pow(b0 * b0, k1), ni);
                assert((result * pow(b0 * b0, k1)) % ni == (r0 * pow(b0, k0)) % ni);
            }
        }
        let sq = (base as u128) * (base as u128);
        proof {
            lemma_mod_bound(sq as int, ni);
        }
        base = (sq % (n as u128)) as u64;
        xv = xv / 2;
        proof {
            if k0 % 2 == 0 {
                assert(pow(b0, k0) == pow(b0 * b0, k1)) by {
                    assert(k0 == 2 * k1);
                };
            }
            // Replacing the squared base by its residue preserves the
            // invariant.
            lemma_mul_mod_noop_right(result as int, pow(base as int, k1), ni);
            lemma_mul_mod_noop_right(result as int, pow(b0 * b0, k1), ni);
            assert(pow(base as int, k1) % ni == pow(b0 * b0, k1) % ni);
            assert((result * pow(base as int, xv as nat)) % ni == pow(g as int, x as nat) % ni);
        }
    }
    proof {
        if x > 0 {
            reveal(pow);
            assert(pow(base as int, 0) == 1);
            lemma_small_mod(result as nat, n as nat);
        }
    }
    result
}

} // verus!
