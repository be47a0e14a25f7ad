use vstd::prelude::*;

verus! {

use crate::number_theory::{bezout_pair, gcd};
use vstd::arithmetic::div_mod::{lemma_fundamental_div_mod, lemma_mod_bound};

/// Extended Euclidean algorithm on non-negative inputs.
///
/// Returns `(s, t, g)` where `g` is the greatest common divisor of `x` and
/// `y` and `s`, `t` are exactly the Bezout coefficients of the Euclidean
/// recursion, with `s*x + t*y == g`.  The coefficients are bounded by the
/// opposite input, which lets callers rule out overflow in arithmetic that
/// combines them.
pub fn extended_gcd(x: i64, y: i64) -> (res: (i64, i64, i64))
    requires
        x >= 0,
        y >= 0,
    ensures
        ({
            let (s, t, g) = res;
            &&& g == gcd(x as nat, y as nat)
            &&& (s as int, t as int) == bezout_pair(x as nat, y as nat)
            &&& s * x + t * y == g
            &&& -(if y > 0 { y as int } else { 1int }) <= s <= (if y > 0 { y as int } else { 1int })
            &&& -(if x > 0 { x as int } else { 1int }) <= t <= (if x > 0 { x as int } else { 1int })
        }),
{
    let ghost ybnd: int = if y > 0 { y as int } else { 1int };
    let ghost xbnd: int = if x > 0 { x as int } else { 1int };
    let mut old_r: i64 = x;
    let mut r: i64 = y;
    let mut old_s: i128 = 1;
    let mut s: i128 = 0;
    let mut old_t: i128 = 0;
    let mut t: i128 = 1;

    while r != 0
        invariant
            x >= 0,
            y >= 0,
            0 <= old_r,
            0 <= r,
            old_s * x + old_t * y == old_r,
            s * x + t * y == r,
            gcd(old_r as nat, r as nat) == gcd(x as nat, y as nat),
            bezout_pair(x as nat, y as nat).0 == old_s * bezout_pair(old_r as nat, r as nat).0
                + s * bezout_pair(old_r as nat, r as nat).1,
            bezout_pair(x as nat, y as nat).1 == old_t * bezout_pair(old_r as nat, r as nat).0
                + t * bezout_pair(old_r as nat, r as nat).1,
            old_r * s - r * old_s == y as int || old_r * s - r * old_s == -(y as int),
            old_r * t - r * old_t == x as int || old_r * t - r * old_t == -(x as int),
            -ybnd <= old_s <= ybnd,
            -ybnd <= s <= ybnd,
            -xbnd <= old_t <= xbnd,
            -xbnd <= t <= xbnd,
            ybnd == (if y > 0 { y as int } else { 1int }),
            xbnd == (if x > 0 { x as int } else { 1int }),
        decreases r,
    {
        let q = old_r / r;
        proof {
            lemma_fundamental_div_mod(old_r as int, r as int);
            lemma_mod_bound(old_r as int, r as int);
        }
        let new_r = old_r - q * r;
        assert(new_r == old_r as int % r as int);
        assert(0 <= new_r < r);
        proof {
            assert(q * s <= ybnd * q && -(ybnd * q) <= q * s && ybnd * q
                <= 0x8000_0000_0000_0000i128 * 0x7fff_ffff_ffff_ffffi128) by (nonlinear_arith)
                requires
                    0 <= q <= 0x7fff_ffff_ffff_ffffi128,
                    -ybnd <= s <= ybnd,
                    1 <= ybnd <= 0x8000_0000_0000_0000i128,
            ;
            assert(q * t <= xbnd * q && -(xbnd * q) <= q * t && xbnd * q
                <= 0x8000_0000_0000_0000i128 * 0x7fff_ffff_ffff_ffffi128) by (nonlinear_arith)
                requires
                    0 <= q <= 0x7fff_ffff_ffff_ffffi128,
                    -xbnd <= t <= xbnd,
                    1 <= xbnd <= 0x8000_0000_0000_0000i128,
            ;
        }
        let new_s = old_s - (q as i128) * s;
        let new_t = old_t - (q as i128) * t;
        proof {
            // The linear combinations are preserved.
            assert((old_s - q * s) * x + (old_t - q * t) * y == old_r - q * r)
                by (nonlinear_arith)
                requires
                    old_s * x + old_t * y == old_r,
                    s * x + t * y == r,
            ;
            // The gcd of the working pair is preserved.
            assert(new_r as nat == (old_r as nat) % (r as nat));
            assert(gcd(old_r as nat, r as nat) == gcd(r as nat, new_r as nat));
            // The Bezout pair of the whole problem, written over the pair
            // of the reduced problem, keeps its shape across the rotation.
            let bp_next = bezout_pair(r as nat, new_r as nat);
            assert((old_r as nat) / (r as nat) == q);
            assert(bezout_pair(old_r as nat, r as nat) == (bp_next.1, bp_next.0 - q
                * bp_next.1));
            assert(old_s * bp_next.1 + s * (bp_next.0 - q * bp_next.1) == s * bp_next.0 + (old_s
                - q * s) * bp_next.1) by (nonlinear_arith);
            assert(old_t * bp_next.1 + t * (bp_next.0 - q * bp_next.1) == t * bp_next.0 + (old_t
                - q * t) * bp_next.1) by (nonlinear_arith);
            // The determinant alternates sign, which bounds the coefficients.
            assert(r * new_s - new_r * s == -(old_r * s - r * old_s)) by (nonlinear_arith)
                requires
                    new_s == old_s - q * s,
                    new_r == old_r - q * r,
            ;
            assert(r * new_t - new_r * t == -(old_r * t - r * old_t)) by (nonlinear_arith)
                requires
                    new_t == old_t - q * t,
                    new_r == old_r - q * r,
            ;
            assert(-ybnd <= new_s <= ybnd) by (nonlinear_arith)
                requires
                    1 <= r,
                    0 <= new_r < r,
                    -ybnd <= s <= ybnd,
                    0 <= y as int <= ybnd,
                    r * new_s - new_r * s == y as int || r * new_s - new_r * s == -(y as int),
            ;
            assert(-xbnd <= new_t <= xbnd) by (nonlinear_arith)
                requires
                    1 <= r,
                    0 <= new_r < r,
                    -xbnd <= t <= xbnd,
                    0 <= x as int <= xbnd,
                    r * new_t - new_r * t == x as int || r * new_t - new_r * t == -(x as int),
            ;
        }
        old_r = r;
        r = new_r;
        old_s = s;
        s = new_s;
        old_t = t;
        t = new_t;
    }
    proof {
        assert(bezout_pair(old_r as nat, r as nat) == (1int, 0int));
        assert(bezout_pair(x as nat, y as nat).0 == old_s * 1 + s * 0);
        assert(bezout_pair(x as nat, y as nat).1 == old_t * 1 + t * 0);
    }
    (old_s as i64, old_t as i64, old_r)
}

} // verus!
