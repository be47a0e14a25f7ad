use vstd::prelude::*;

verus! {

use crate::error::MathError;
use crate::extended_gcd::extended_gcd;
use crate::number_theory::{bezout_pair, gcd, lemma_gcd_sym};

/// Extended Euclid on unsigned inputs: orders the pair so the larger comes
/// first and returns `(g, s, t)` where `g` is the gcd of the inputs and
/// `s`, `t` are exactly the Bezout coefficients of the Euclidean recursion
/// on the reordered pair, so that `s*max(a,b) + t*min(a,b) == g`, with
/// each coefficient bounded by the opposite input.  The inputs are capped
/// at `i64::MAX` so that the coefficient arithmetic stays within machine
/// bounds.
pub fn extended_euclid(a: u64, b: u64) -> (res: Result<(u64, i64, i64), MathError>)
    requires
        a <= 0x7fff_ffff_ffff_ffff,
        b <= 0x7fff_ffff_ffff_ffff,
    ensures
        ({
            let hi: int = if a >= b { a as int } else { b as int };
            let lo: int = if a >= b { b as int } else { a as int };
            &&& res matches Ok((g, s, t))
            &&& g == gcd(a as nat, b as nat)
            &&& (s as int, t as int) == bezout_pair(hi as nat, lo as nat)
            &&& s * hi + t * lo == g
            &&& -(if lo > 0 { lo } else { 1int }) <= s <= (if lo > 0 { lo } else { 1int })
            &&& -(if hi > 0 { hi } else { 1int }) <= t <= (if hi > 0 { hi } else { 1int })
        }),
{
    let (hi, lo) = if a < b { (b, a) } else { (a, b) };
    let (s, t, g) = extended_gcd(hi as i64, lo as i64);
    proof {
        lemma_gcd_sym(a as nat, b as nat);
    }
    Ok((g as u64, s, t))
}

} // verus!
