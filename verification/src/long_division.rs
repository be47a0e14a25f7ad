use vstd::prelude::*;

verus! {

use crate::error::MathError;
use crate::number_theory::int_seq;
use vstd::arithmetic::div_mod::{
    lemma_div_denominator, lemma_div_nonincreasing, lemma_fundamental_div_mod,
    lemma_fundamental_div_mod_converse, lemma_mod_bound,
};
use vstd::arithmetic::power::{lemma_pow_increases, lemma_pow_positive, pow};

/// Schoolbook long division of a non-negative dividend: walks the decimal
/// digits from most to least significant, carrying the running remainder
/// and building the quotient by repeated subtraction.  Returns the
/// Euclidean quotient and remainder, or `DivisionByZero` for a zero
/// divisor.
pub fn long_division(dividend: i64, divisor: i64) -> (r: Result<(i64, u64), MathError>)
    requires
        divisor >= 0,
        divisor > 0 ==> dividend >= 0,
    ensures
        divisor == 0 ==> r == Err::<(i64, u64), MathError>(MathError::DivisionByZero),
        divisor > 0 ==> (r matches Ok((q, rem)) && q == dividend as int / divisor as int && rem
            == dividend as int % divisor as int),
{
    if divisor == 0 {
        return Err(MathError::DivisionByZero);
    }
    // The decimal digits of the dividend, least significant first:
    // digits[j] == (dividend / 10^j) % 10.
    let mut digits: Vec<i64> = Vec::new();
    let mut cur: i64 = dividend;
    proof {
        reveal(pow);
        vstd::arithmetic::div_mod::lemma_div_basics(dividend as int);
        assert(cur == dividend as int / pow(10, digits@.len()));
    }
    while cur != 0
        invariant
            divisor > 0,
            dividend >= 0,
            0 <= cur,
            cur == dividend as int / pow(10, digits@.len()),
            forall|j: int|
                0 <= j < digits@.len() ==> digits@[j] == (dividend as int / pow(10, j as nat))
                    % 10,
        decreases cur,
    {
        let ghost k = digits@.len();
        proof {
            lemma_pow_positive(10, k);
            lemma_mod_bound(cur as int, 10);
        }
        digits.push(cur % 10);
        proof {
            lemma_div_denominator(dividend as int, pow(10, k), 10);
            reveal(pow);
            assert(pow(10, k + 1) == 10 * pow(10, k));
        }
        cur = cur / 10;
    }

    let mut carry: i64 = 0;
    let mut quotient: i64 = 0;
    let mut i: usize = digits.len();
    proof {
        lemma_pow_positive(10, i as nat);
        assert(dividend as int / pow(10, i as nat) == 0);
        vstd::arithmetic::div_mod::lemma_small_mod(0nat, divisor as nat);
        assert(0int / divisor as int == 0 && 0int % divisor as int == 0) by {
            vstd::arithmetic::div_mod::lemma_div_of0(divisor as int);
        };
    }
    while i > 0
        invariant
            divisor > 0,
            dividend >= 0,
            i <= digits@.len(),
            forall|j: int|
                0 <= j < digits@.len() ==> digits@[j] == (dividend as int / pow(10, j as nat))
                    % 10,
            carry == (dividend as int / pow(10, i as nat)) % divisor as int,
            quotient == (dividend as int / pow(10, i as nat)) / divisor as int,
        decreases i,
    {
        i = i - 1;
        let digit = digits[i];
        let ghost c0 = carry as int;
        let ghost q0 = quotient as int;
        let ghost hi_prev = dividend as int / pow(10, (i + 1) as nat);
        let ghost hi = dividend as int / pow(10, i as nat);
        proof {
            lemma_pow_positive(10, i as nat);
            lemma_pow_positive(10, (i + 1) as nat);
            vstd::arithmetic::div_mod::lemma_div_pos_is_pos(dividend as int, pow(10, i as nat));
            // hi == 10 * hi_prev + digit.
            lemma_div_denominator(dividend as int, pow(10, i as nat), 10);
            reveal(pow);
            assert(pow(10, (i + 1) as nat) == 10 * pow(10, i as nat));
            assert(hi / 10 == hi_prev);
            lemma_fundamental_div_mod(hi, 10);
            assert(hi == 10 * hi_prev + digit);
            // Everything in this step is bounded by the dividend.
            lemma_div_nonincreasing(dividend as int, pow(10, i as nat));
            assert(hi <= dividend);
            lemma_fundamental_div_mod(hi_prev, divisor as int);
            lemma_mod_bound(hi_prev, divisor as int);
            vstd::arithmetic::div_mod::lemma_div_pos_is_pos(hi_prev, divisor as int);
            // carry <= hi_prev and quotient <= hi_prev, so the scaled values
            // stay below hi.
            assert(carry <= hi_prev) by (nonlinear_arith)
                requires
                    hi_prev == quotient * divisor + carry,
                    quotient >= 0,
                    divisor >= 1,
                    carry >= 0,
            ;
            assert(quotient <= hi_prev) by (nonlinear_arith)
                requires
                    hi_prev == quotient * divisor + carry,
                    quotient >= 0,
                    divisor >= 1,
                    carry >= 0,
            ;
            assert(carry * 10 <= hi_prev * 10 && quotient * 10 <= hi_prev * 10)
                by (nonlinear_arith)
                requires
                    carry <= hi_prev,
                    quotient <= hi_prev,
                    0 <= carry,
                    0 <= quotient,
            ;
            lemma_mod_bound(hi, 10);
            assert(10 * hi_prev <= hi);
        }
        carry = carry * 10 + digit;
        quotient = quotient * 10;
        proof {
            // The rescaled pair still decomposes hi.
            assert(quotient * divisor + carry == hi) by (nonlinear_arith)
                requires
                    hi == 10 * hi_prev + digit,
                    hi_prev == q0 * divisor + c0,
                    carry == c0 * 10 + digit,
                    quotient == q0 * 10,
            ;
        }
        while carry >= divisor
            invariant
                divisor > 0,
                0 <= carry,
                0 <= quotient,
                hi <= dividend,
                quotient * divisor + carry == hi,
            decreases carry,
        {
            proof {
                assert(quotient + 1 <= hi) by (nonlinear_arith)
                    requires
                        quotient * divisor + carry == hi,
                        carry >= divisor,
                        divisor >= 1,
                        quotient >= 0,
                ;
                assert((quotient + 1) * divisor + (carry - divisor) == hi) by (nonlinear_arith)
                    requires
                        quotient * divisor + carry == hi,
                ;
            }
            carry = carry - divisor;
            quotient = quotient + 1;
        }
        proof {
            lemma_fundamental_div_mod_converse(hi, divisor as int, quotient as int, carry as int);
        }
    }
    proof {
        reveal(pow);
        assert(pow(10, 0) == 1);
        assert(dividend as int / 1 == dividend) by {
            vstd::arithmetic::div_mod::lemma_div_basics(dividend as int);
        };
    }
    Ok((quotient, carry as u64))
}


/// The coefficient standing at index `i` of a padded coefficient sequence:
/// the entry itself inside the sequence and zero beyond it.
pub open spec fn coeff_at(s: Seq<int>, i: int) -> int {
    if 0 <= i < s.len() {
        s[i]
    } else {
        0
    }
}

/// The partial convolution of `q` and `b` at index `i`: the terms with
/// `j < jmax` of the product coefficient.
pub open spec fn conv_sum(q: Seq<int>, b: Seq<int>, i: int, jmax: nat) -> int
    decreases jmax,
{
    if jmax == 0 {
        0
    } else {
        conv_sum(q, b, i, (jmax - 1) as nat) + coeff_at(q, jmax - 1) * coeff_at(b, i - (jmax - 1))
    }
}

/// Coefficient `i` of the polynomial product `q*b`, constant term first.
pub open spec fn conv_coeff(q: Seq<int>, b: Seq<int>, i: int) -> int {
    conv_sum(q, b, i, q.len())
}

/// The largest coefficient magnitude, zero for an empty list.
pub open spec fn max_abs(s: Seq<int>) -> int
    decreases s.len(),
{
    if s.len() == 0 {
        0
    } else {
        let rest = max_abs(s.drop_last());
        let hd = if s.last() >= 0 {
            s.last()
        } else {
            -s.last()
        };
        if hd >= rest {
            hd
        } else {
            rest
        }
    }
}

/// The maximum magnitude is non-negative.
pub proof fn lemma_max_abs_nonneg(s: Seq<int>)
    ensures
        max_abs(s) >= 0,
    decreases s.len(),
{
    if s.len() > 0 {
        lemma_max_abs_nonneg(s.drop_last());
    }
}

/// Every entry of a sequence is bounded by its maximum magnitude.
pub proof fn lemma_max_abs(s: Seq<int>, i: int)
    requires
        0 <= i < s.len(),
    ensures
        max_abs(s) >= 0,
        -max_abs(s) <= s[i] <= max_abs(s),
    decreases s.len(),
{
    lemma_max_abs_nonneg(s);
    if i == s.len() - 1 {
        lemma_max_abs_nonneg(s.drop_last());
    } else {
        lemma_max_abs(s.drop_last(), i);
        assert(s.drop_last()[i] == s[i]);
    }
}

/// A convolution with an all-zero left factor vanishes.
proof fn lemma_conv_sum_zero(q: Seq<int>, b: Seq<int>, i: int, jmax: nat)
    requires
        forall|j: int| 0 <= j < q.len() ==> q[j] == 0,
        jmax <= q.len(),
    ensures
        conv_sum(q, b, i, jmax) == 0,
    decreases jmax,
{
    if jmax > 0 {
        lemma_conv_sum_zero(q, b, i, (jmax - 1) as nat);
    }
}

/// Changing one coefficient of the left factor shifts each product
/// coefficient by the corresponding single term.
proof fn lemma_conv_sum_update(q1: Seq<int>, q2: Seq<int>, b: Seq<int>, i: int, k: int, jmax: nat)
    requires
        q1.len() == q2.len(),
        0 <= k < q1.len(),
        forall|j: int| 0 <= j < q1.len() && j != k ==> q1[j] == q2[j],
    ensures
        conv_sum(q2, b, i, jmax) == conv_sum(q1, b, i, jmax) + (if k < jmax {
            (q2[k] - q1[k]) * coeff_at(b, i - k)
        } else {
            0
        }),
    decreases jmax,
{
    if jmax > 0 {
        lemma_conv_sum_update(q1, q2, b, i, k, (jmax - 1) as nat);
        if k == jmax - 1 {
            assert(q2[k] * coeff_at(b, i - k) - q1[k] * coeff_at(b, i - k) == (q2[k] - q1[k])
                * coeff_at(b, i - k)) by (nonlinear_arith);
        }
    }
}

/// All entries of a coefficient sequence lie within `[-bound, bound]`.
pub open spec fn bounded_by(s: Seq<int>, bound: int) -> bool {
    forall|i: int| 0 <= i < s.len() ==> -bound <= #[trigger] s[i] <= bound
}

/// The coefficient-growth cap for `steps` cancellation steps: each step can
/// scale magnitudes by at most one plus the divisor's largest magnitude.
pub open spec fn growth_bound(a: Seq<int>, b: Seq<int>, steps: nat) -> int {
    (max_abs(a) + 1) * pow(max_abs(b) + 1, steps)
}

/// The defining property of polynomial division with remainder:
/// `a == q*b + rem`, coefficient by coefficient.
pub open spec fn poly_div_identity(a: Seq<int>, b: Seq<int>, q: Seq<int>, rem: Seq<int>) -> bool {
    forall|i: int| 0 <= i < a.len() ==> #[trigger] a[i] == conv_coeff(q, b, i) + coeff_at(rem, i)
}

/// What `poly_long_division` accepts: a divisor with leading coefficient
/// `1` or `-1`, a dividend of no smaller degree, and coefficients small
/// enough that no intermediate value can leave the machine range.
pub open spec fn poly_div_accepts(a: Seq<i64>, b: Seq<i64>) -> bool {
    &&& b.len() >= 1
    &&& a.len() + 1 >= b.len()
    &&& (b[b.len() - 1] == 1 || b[b.len() - 1] == -1)
    &&& growth_bound(int_seq(a), int_seq(b), (a.len() - b.len() + 1) as nat) <= i64::MAX
}

/// What `poly_long_division` returns: the quotient of the expected degree
/// and a remainder of smaller degree than the divisor, which together
/// recompose the dividend.
pub open spec fn poly_div_returns(a: Seq<i64>, b: Seq<i64>, q: Seq<i64>, rem: Seq<i64>) -> bool {
    &&& q.len() == a.len() - b.len() + 1
    &&& rem.len() == b.len() - 1
    &&& poly_div_identity(int_seq(a), int_seq(b), int_seq(q), int_seq(rem))
}

/// A quotient-and-remainder pair of coefficient vectors.
pub type PolyPair = (Vec<i64>, Vec<i64>);

/// Polynomial long division, constant term first, for divisors whose
/// leading coefficient is `1` or `-1`: repeatedly cancels the leading
/// coefficient of the running remainder against the divisor.  Returns the
/// quotient and the remainder, which together satisfy `a == q*b + rem`
/// coefficient by coefficient, with the remainder of strictly smaller
/// degree than the divisor.  A dividend already shorter than the divisor
/// yields an empty quotient and itself as the remainder.  The bound in
/// the precondition keeps every
/// intermediate coefficient within machine range: each cancellation step
/// can grow coefficients by at most a factor of one plus the divisor's
/// largest magnitude.
pub fn poly_long_division(a: Vec<i64>, b: Vec<i64>) -> (r: Result<PolyPair, MathError>)
    requires
        poly_div_accepts(a@, b@),
    ensures
        ({
            r matches Ok(qr) && poly_div_returns(a@, b@, qr.0@, qr.1@)
        }),
{
    let ghost ai = int_seq(a@);
    let ghost bi = int_seq(b@);
    let ghost a1 = max_abs(ai) + 1;
    let ghost b1 = max_abs(bi) + 1;
    let ghost total = (a@.len() - b@.len() + 1) as nat;
    proof {
        lemma_max_abs_nonneg(ai);
        lemma_max_abs_nonneg(bi);
        lemma_pow_positive(b1, total);
    }
    let bl = b.len();
    let mut p: Vec<i64> = Vec::new();
    let mut ci: usize = 0;
    while ci < a.len()
        invariant
            ci <= a@.len(),
            p@.len() == ci,
            forall|t: int| 0 <= t < ci ==> p@[t] == a@[t],
        decreases a@.len() - ci,
    {
        p.push(a[ci]);
        ci = ci + 1;
    }
    let qlen = a.len() - (bl - 1);
    let mut q: Vec<i64> = Vec::new();
    while q.len() < qlen
        invariant
            q@.len() <= qlen,
            forall|t: int| 0 <= t < q@.len() ==> q@[t] == 0i64,
        decreases qlen - q@.len(),
    {
        q.push(0);
    }
    proof {
        assert(int_seq(p@) =~= ai);
        assert(forall|j: int| 0 <= j < int_seq(q@).len() ==> int_seq(q@)[j] == 0);
        assert forall|i: int| 0 <= i < ai.len() implies ai[i] == conv_coeff(int_seq(q@), bi, i)
            + coeff_at(int_seq(p@), i) by {
            lemma_conv_sum_zero(int_seq(q@), bi, i, int_seq(q@).len());
        };
        assert forall|idx: int| 0 <= idx < p@.len() implies -a1 <= #[trigger] int_seq(p@)[idx] <= a1 by {
            lemma_max_abs(ai, idx);
        };
        reveal(pow);
        assert(pow(b1, 0) == 1);
        assert(p@.len() == a@.len());
        assert((a@.len() - p@.len()) as nat == 0);
        assert(a1 * pow(b1, 0) == a1);
        assert(bounded_by(int_seq(p@), a1 * pow(b1, (a@.len() - p@.len()) as nat)));
    }
    while p.len() > bl - 1
        invariant
            bl == b@.len(),
            b@.len() >= 1,
            a@.len() + 1 >= b@.len(),
            b@[b@.len() - 1] == 1 || b@[b@.len() - 1] == -1,
            a1 == max_abs(ai) + 1,
            b1 == max_abs(bi) + 1,
            a1 >= 1,
            b1 >= 1,
            total == (a@.len() - b@.len() + 1) as nat,
            a1 * pow(b1, total) <= i64::MAX,
            ai == int_seq(a@),
            bi == int_seq(b@),
            bl - 1 <= p@.len() <= a@.len(),
            q@.len() == a@.len() - b@.len() + 1,
            forall|j: int|
                0 <= j <= p@.len() - b@.len() && j < q@.len() ==> int_seq(q@)[j] == 0,
            poly_div_identity(ai, bi, int_seq(q@), int_seq(p@)),
            bounded_by(int_seq(p@), a1 * pow(b1, (a@.len() - p@.len()) as nat)),
        decreases p@.len(),
    {
        let ghost steps = (a@.len() - p@.len()) as nat;
        let ghost bound_cur = a1 * pow(b1, steps);
        let ghost bound_next = a1 * pow(b1, (steps + 1) as nat);
        proof {
            lemma_pow_positive(b1, steps);
            lemma_pow_positive(b1, (steps + 1) as nat);
            // bound_cur * b1 == bound_next, and both fit below the cap.
            reveal(pow);
            assert(pow(b1, (steps + 1) as nat) == b1 * pow(b1, steps));
            assert(bound_next == bound_cur * b1) by (nonlinear_arith)
                requires
                    bound_cur == a1 * pow(b1, steps),
                    bound_next == a1 * (b1 * pow(b1, steps)),
            ;
            lemma_pow_increases(b1 as nat, (steps + 1) as nat, total);
            assert(bound_next <= a1 * pow(b1, total)) by (nonlinear_arith)
                requires
                    a1 >= 1,
                    bound_next == a1 * pow(b1, (steps + 1) as nat),
                    pow(b1, (steps + 1) as nat) <= pow(b1, total),
            ;
            assert(bound_cur >= 1) by (nonlinear_arith)
                requires
                    a1 >= 1,
                    pow(b1, steps) >= 1,
                    bound_cur == a1 * pow(b1, steps),
            ;
            assert(bound_cur <= bound_next) by (nonlinear_arith)
                requires
                    bound_cur >= 1,
                    b1 >= 1,
                    bound_next == bound_cur * b1,
            ;
        }
        let k = p.len() - bl;
        let ghost lastp = int_seq(p@)[p@.len() - 1];
        let ghost lastb = bi[bl - 1];
        proof {
            assert(lastp == p@[p@.len() - 1] as int);
            assert(lastb == b@[bl - 1] as int);
            assert(-bound_cur <= lastp <= bound_cur);
        }
        // Dividing by a leading coefficient of 1 or -1 is exact.
        let s_coef = if b[bl - 1] == 1 {
            p[p.len() - 1]
        } else {
            -p[p.len() - 1]
        };
        let ghost si = s_coef as int;
        proof {
            assert(si * lastb == lastp && -bound_cur <= si <= bound_cur);
        }
        let ghost q0 = int_seq(q@);
        q[k] = s_coef;
        proof {
            assert(int_seq(q@) =~= q0.update(k as int, si));
            assert forall|i: int| 0 <= i < ai.len() implies conv_coeff(int_seq(q@), bi, i)
                == conv_coeff(q0, bi, i) + si * coeff_at(bi, i - k) by {
                lemma_conv_sum_update(q0, int_seq(q@), bi, i, k as int, q0.len());
            };
        }
        let ghost p0 = int_seq(p@);
        let mut j: usize = 0;
        while j < bl
            invariant
                bl == b@.len(),
                b@.len() >= 1,
                j <= bl,
                bi == int_seq(b@),
                p@.len() == p0.len(),
                k == p0.len() - bl,
                si == s_coef as int,
                -bound_cur <= si <= bound_cur,
                bound_next == bound_cur * b1,
                bound_cur >= 1,
                b1 == max_abs(bi) + 1,
                b1 >= 1,
                bound_next <= i64::MAX,
                forall|t: int|
                    0 <= t < j ==> int_seq(p@)[k + t] == p0[k + t] - si * coeff_at(bi, t),
                forall|idx: int|
                    0 <= idx < p@.len() && !(k <= idx < k + j) ==> int_seq(p@)[idx] == p0[idx],
                bounded_by(p0, bound_cur),
                bounded_by(int_seq(p@), bound_next),
            decreases bl - j,
        {
            proof {
                lemma_max_abs(bi, j as int);
                assert(-(bound_cur * (b1 - 1)) <= si * bi[j as int] <= bound_cur * (b1 - 1))
                    by (nonlinear_arith)
                    requires
                        -bound_cur <= si <= bound_cur,
                        -(b1 - 1) <= bi[j as int] <= b1 - 1,
                        bound_cur >= 1,
                        b1 >= 1,
                ;
                assert(bound_cur * (b1 - 1) + bound_cur == bound_next) by (nonlinear_arith)
                    requires
                        bound_next == bound_cur * b1,
                ;
                assert(int_seq(p@)[k + j] == p@[k + j] as int);
                assert(int_seq(p@)[k + j] == p0[k + j]);
                assert(bi[j as int] == b@[j as int] as int);
                assert(-bound_cur <= p0[k + j] <= bound_cur);
            }
            // Reading the length as a machine word bounds the index sum.
            let plen = p.len();
            proof {
                assert(k + j < plen);
            }
            let newv = p[k + j] - s_coef * b[j];
            let ghost pprev = int_seq(p@);
            p[k + j] = newv;
            proof {
                assert(int_seq(p@) =~= pprev.update((k + j) as int, newv as int));
            }
            j = j + 1;
        }
        proof {
            // The subtraction cancelled exactly the term the quotient update
            // added, for every coefficient index.
            assert forall|i: int| 0 <= i < ai.len() implies coeff_at(int_seq(p@), i) == coeff_at(
                p0,
                i,
            ) - si * coeff_at(bi, i - k) by {
                if k <= i < k + bl {
                    assert(int_seq(p@)[i] == p0[i] - si * coeff_at(bi, i - k));
                } else if 0 <= i < p@.len() {
                    assert(int_seq(p@)[i] == p0[i]);
                }
            };
            // The leading coefficient is now zero.
            assert(coeff_at(bi, (p@.len() - 1) - k) == lastb);
            assert(int_seq(p@)[p@.len() - 1] == lastp - si * lastb);
            assert(lastp - si * lastb == 0);
        }
        let ghost pfull = int_seq(p@);
        proof {
            assert(p@[p@.len() - 1] as int == int_seq(p@)[p@.len() - 1]);
            assert(p@[p@.len() - 1] == 0i64);
        }
        if p.len() > 0 && p[p.len() - 1] == 0 {
            p.pop();
            proof {
                assert(int_seq(p@) =~= pfull.drop_last());
                assert forall|i: int| 0 <= i < ai.len() implies coeff_at(int_seq(p@), i)
                    == coeff_at(pfull, i) by {
                    if i == pfull.len() - 1 {
                        assert(pfull[i] == 0);
                    }
                };
                assert forall|idx: int|
                    0 <= idx < p@.len() implies -bound_next <= #[trigger] int_seq(p@)[idx]
                    <= bound_next by {
                    assert(int_seq(p@)[idx] == pfull[idx]);
                };
            }
        }
        proof {
            assert(p@.len() == p0.len() - 1);
            assert((a@.len() - p@.len()) as nat == steps + 1);
            assert(bound_next == a1 * pow(b1, (a@.len() - p@.len()) as nat));
            assert(bounded_by(int_seq(p@), a1 * pow(b1, (a@.len() - p@.len()) as nat)));
            assert forall|i: int| 0 <= i < ai.len() implies #[trigger] ai[i] == conv_coeff(
                int_seq(q@),
                bi,
                i,
            ) + coeff_at(int_seq(p@), i) by {
                assert(ai[i] == conv_coeff(q0, bi, i) + coeff_at(p0, i));
                assert(conv_coeff(int_seq(q@), bi, i) == conv_coeff(q0, bi, i) + si * coeff_at(
                    bi,
                    i - k,
                ));
                assert(coeff_at(pfull, i) == coeff_at(p0, i) - si * coeff_at(bi, i - k));
                assert(coeff_at(int_seq(p@), i) == coeff_at(pfull, i));
            };
            assert(poly_div_identity(ai, bi, int_seq(q@), int_seq(p@)));
        }
    }
    proof {
        assert(p@.len() == bl - 1);
    }
    Ok((q, p))
}

} // verus!
