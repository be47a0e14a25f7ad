use vstd::prelude::*;

verus! {

use vstd::arithmetic::div_mod::{
    lemma_add_mod_noop_right, lemma_mod_bound, lemma_mul_mod_noop_left, lemma_small_mod,
};

/// Scalar multiplication in the additive group modulo `n`: computes
/// `(g * x) mod n` by double-and-add, consuming the scalar's bits from
/// least to most significant.
pub fn esm(g: u64, x: u64, n: u64) -> (r: u64)
    requires
        n >= 1,
    ensures
        r == (g as int * x as int) % (n as int),
{
    let mut result: u64 = 0;
    let mut base: u64 = g;
    let mut xv: u64 = x;
    while xv > 0
        invariant
            n >= 1,
            0 <= result < n,
            (result + base * xv) % (n as int) == (g as int * x as int) % (n as int),
        decreases xv,
    {
        let ghost ni = n as int;
        let ghost b0 = base as int;
        let ghost r0 = result as int;
        let ghost k0 = xv as nat;
        let ghost k1 = k0 / 2;
        if xv % 2 == 1 {
            let sum = (result as u128) + (base as u128);
            proof {
                lemma_mod_bound(sum as int, ni);
            }
            result = (sum % (n as u128)) as u64;
        }
        let ghost r1 = result as int;
        let dbl = (base as u128) * 2;
        proof {
            lemma_mod_bound(dbl as int, ni);
        }
        base = (dbl % (n as u128)) as u64;
        xv = xv / 2;
        proof {
            // The distributed sum is unchanged: for odd k0 the base moved
            // into the accumulator; in both cases the doubled base carries
            // the halved scalar.
            if k0 % 2 == 1 {
                assert(r0 + b0 * k0 == (r0 + b0) + (2 * b0) * k1) by (nonlinear_arith)
                    requires
                        k0 == 2 * k1 + 1,
                ;
            } else {
                assert(r0 + b0 * k0 == r0 + (2 * b0) * k1) by (nonlinear_arith)
                    requires
                        k0 == 2 * k1,
                ;
            }
            // Reduce the new base and the new accumulator one at a time.
            lemma_mul_mod_noop_left(2 * b0, k1 as int, ni);
            assert((base * xv) % ni == ((2 * b0) * k1) % ni);
            lemma_add_mod_noop_right(r1, (base * xv) as int, ni);
            lemma_add_mod_noop_right(r1, (2 * b0) * k1, ni);
            assert((r1 + base * xv) % ni == (r1 + (2 * b0) * k1) % ni);
            if k0 % 2 == 1 {
                lemma_add_mod_noop_right((2 * b0) * k1, r0 + b0, ni);
                assert((r1 + (2 * b0) * k1) % ni == ((r0 + b0) + (2 * b0) * k1) % ni);
            }
            assert((result + base * xv) % ni == (g as int * x as int) % ni);
        }
    }
    proof {
        lemma_small_mod(result as nat, n as nat);
    }
    result
}

} // verus!
