use vstd::prelude::*;

verus! {

use crate::error::MathError;
use crate::extended_gcd::extended_gcd;
use crate::modular_operations::Modular;
use crate::number_theory::{
    gcd, int_seq, lemma_coprime_prod, lemma_prod_pos, lemma_prod_remove, lemma_prod_split,
    lemma_prod_take_succ, prod_seq,
};
use vstd::arithmetic::div_mod::{
    lemma_div_by_multiple, lemma_fundamental_div_mod, lemma_mod_mod,
    lemma_mod_multiples_basic, lemma_mod_multiples_vanish, lemma_mul_mod_noop_left,
    lemma_small_mod,
};

/// All moduli are at least one.
pub open spec fn all_positive(n: Seq<int>) -> bool {
    forall|i: int| 0 <= i < n.len() ==> #[trigger] n[i] >= 1
}

/// The moduli are pairwise coprime.
pub open spec fn pairwise_coprime(n: Seq<int>) -> bool {
    forall|i: int, j: int|
        0 <= i < n.len() && 0 <= j < n.len() && i != j ==> gcd(
            #[trigger] n[i] as nat,
            #[trigger] n[j] as nat,
        ) == 1
}

/// The systems the solver accepts: remainders and moduli of equal number,
/// every modulus positive, and the moduli pairwise coprime.
pub open spec fn crt_accepts(a: Seq<i64>, n: Seq<i64>) -> bool {
    &&& a.len() == n.len()
    &&& all_positive(int_seq(n))
    &&& pairwise_coprime(int_seq(n))
}

/// What the solver returns on an accepted system: the smallest non-negative
/// solution of every congruence `x == a[j] (mod n[j])`.
pub open spec fn crt_returns(a: Seq<i64>, n: Seq<i64>, x: i64) -> bool {
    &&& 0 <= x < prod_seq(int_seq(n))
    &&& forall|j: int|
        0 <= j < n.len() ==> x as int % #[trigger] int_seq(n)[j] == a[j] as int % int_seq(n)[j]
}

/// Solves a system of congruences by the Chinese remainder theorem: each
/// remainder is scaled by the product of the other moduli and by that
/// product's inverse modulo its own modulus, and the scaled terms are
/// accumulated modulo the product of all moduli.  Mismatched lengths are a
/// `LengthMismatch`; non-positive or non-coprime moduli are an
/// `InvalidModulus`.
pub fn chinese_remainder_solver(a: Vec<i64>, n: Vec<i64>) -> (r: Result<i64, MathError>)
    requires
        crt_accepts(a@, n@) ==> prod_seq(int_seq(n@)) <= i64::MAX,
    ensures
        a@.len() != n@.len() ==> r == Err::<i64, MathError>(MathError::LengthMismatch),
        a@.len() == n@.len() && !all_positive(int_seq(n@)) ==> r == Err::<i64, MathError>(
            MathError::InvalidModulus,
        ),
        a@.len() == n@.len() && all_positive(int_seq(n@)) && !pairwise_coprime(int_seq(n@))
            ==> r == Err::<i64, MathError>(MathError::InvalidModulus),
        crt_accepts(a@, n@) ==> (r matches Ok(x) && crt_returns(a@, n@, x)),
{
    if n.len() != a.len() {
        return Err(MathError::LengthMismatch);
    }
    let len = n.len();
    let ghost ni = int_seq(n@);

    // Every modulus must be positive.
    let mut i: usize = 0;
    while i < len
        invariant
            len == n@.len(),
            a@.len() == len,
            ni == int_seq(n@),
            i <= len,
            forall|t: int| 0 <= t < i ==> #[trigger] ni[t] >= 1,
        decreases len - i,
    {
        if n[i] <= 0 {
            proof {
                assert(ni[i as int] == n@[i as int] as int);
                assert(!all_positive(ni));
            }
            return Err(MathError::InvalidModulus);
        }
        i = i + 1;
    }
    proof {
        assert(all_positive(ni));
    }

    // The moduli must be pairwise coprime.
    let mut i: usize = 0;
    while i < len
        invariant
            len == n@.len(),
            a@.len() == len,
            ni == int_seq(n@),
            all_positive(ni),
            i <= len,
            forall|t: int, u: int|
                0 <= t < i && 0 <= u < len && t != u ==> gcd(
                    #[trigger] ni[t] as nat,
                    #[trigger] ni[u] as nat,
                ) == 1,
        decreases len - i,
    {
        let mut j: usize = 0;
        while j < len
            invariant
                len == n@.len(),
                a@.len() == len,
                ni == int_seq(n@),
                all_positive(ni),
                i < len,
                j <= len,
                forall|t: int, u: int|
                    0 <= t < i && 0 <= u < len && t != u ==> gcd(
                        #[trigger] ni[t] as nat,
                        #[trigger] ni[u] as nat,
                    ) == 1,
                forall|u: int|
                    0 <= u < j && u != i ==> gcd(ni[i as int] as nat, #[trigger] ni[u] as nat)
                        == 1,
            decreases len - j,
        {
            if i != j {
                proof {
                    assert(ni[i as int] == n@[i as int] as int);
                    assert(ni[j as int] == n@[j as int] as int);
                }
                let (_s, _t, g) = extended_gcd(n[i], n[j]);
                if g != 1 {
                    proof {
                        assert(gcd(ni[i as int] as nat, ni[j as int] as nat) != 1);
                        assert(!pairwise_coprime(ni));
                    }
                    return Err(MathError::InvalidModulus);
                }
            }
            j = j + 1;
        }
        i = i + 1;
    }
    proof {
        assert(pairwise_coprime(ni));
        assert(crt_accepts(a@, n@));
    }

    // The combined modulus: the product of all moduli.
    let mut n_product: i64 = 1;
    let mut k: usize = 0;
    proof {
        assert(ni.take(0) =~= Seq::<int>::empty());
    }
    while k < len
        invariant
            len == n@.len(),
            a@.len() == len,
            ni == int_seq(n@),
            all_positive(ni),
            pairwise_coprime(ni),
            prod_seq(ni) <= i64::MAX,
            k <= len,
            n_product == prod_seq(ni.take(k as int)),
            1 <= n_product,
        decreases len - k,
    {
        proof {
            lemma_prod_take_succ(ni, k as int);
            lemma_prod_split(ni, k + 1);
            assert(forall|t: int|
                0 <= t < ni.take(k + 1).len() ==> #[trigger] ni.take(k + 1)[t] >= 1);
            lemma_prod_pos(ni.take(k + 1));
            assert(forall|t: int|
                0 <= t < ni.skip(k + 1).len() ==> #[trigger] ni.skip(k + 1)[t] >= 1);
            lemma_prod_pos(ni.skip(k + 1));
            assert(prod_seq(ni.take(k + 1)) <= prod_seq(ni)) by (nonlinear_arith)
                requires
                    prod_seq(ni) == prod_seq(ni.take(k + 1)) * prod_seq(ni.skip(k + 1)),
                    prod_seq(ni.take(k + 1)) >= 1,
                    prod_seq(ni.skip(k + 1)) >= 1,
            ;
            assert(ni[k as int] == n@[k as int] as int);
        }
        n_product = n_product * n[k];
        k = k + 1;
    }
    proof {
        assert(ni.take(len as int) =~= ni);
    }

    // Accumulate one scaled term per congruence.
    let fld = Modular(n_product);
    let mut x: i64 = 0;
    let mut j: usize = 0;
    proof {
        assert forall|t: int| 0 <= t < len implies 0int % #[trigger] ni[t] == 0 by {
            lemma_small_mod(0nat, ni[t] as nat);
        };
    }
    while j < len
        invariant
            len == n@.len(),
            a@.len() == len,
            ni == int_seq(n@),
            all_positive(ni),
            pairwise_coprime(ni),
            prod_seq(ni) <= i64::MAX,
            n_product == prod_seq(ni),
            1 <= n_product,
            fld.0 == n_product,
            j <= len,
            0 <= x < n_product,
            forall|t: int|
                0 <= t < j ==> x as int % #[trigger] ni[t] == a@[t] as int % ni[t],
            forall|t: int| j <= t < len ==> x as int % #[trigger] ni[t] == 0,
        decreases len - j,
    {
        let ghost np = n_product as int;
        let ghost nj_i = ni[j as int];
        let nj = n[j];
        proof {
            assert(nj as int == nj_i);
            lemma_prod_remove(ni, j as int);
            assert(forall|t: int|
                0 <= t < ni.remove(j as int).len() ==> #[trigger] ni.remove(j as int)[t] >= 1);
            lemma_prod_pos(ni.remove(j as int));
            lemma_div_by_multiple(prod_seq(ni.remove(j as int)), nj_i);
            assert(np / nj_i == prod_seq(ni.remove(j as int)));
            assert(prod_seq(ni.remove(j as int)) <= np) by (nonlinear_arith)
                requires
                    np == prod_seq(ni.remove(j as int)) * nj_i,
                    prod_seq(ni.remove(j as int)) >= 1,
                    nj_i >= 1,
            ;
        }
        let npj = n_product / nj;
        proof {
            assert(npj as int == prod_seq(ni.remove(j as int)));
            // The product of the other moduli is coprime to this modulus.
            assert forall|t: int|
                0 <= t < ni.remove(j as int).len() implies gcd(
                #[trigger] ni.remove(j as int)[t] as nat,
                nj_i as nat,
            ) == 1 by {
                if t < j {
                    assert(ni.remove(j as int)[t] == ni[t]);
                } else {
                    assert(ni.remove(j as int)[t] == ni[t + 1]);
                }
            };
            lemma_coprime_prod(ni.remove(j as int), nj_i as nat);
        }
        let (sj, tj, g) = extended_gcd(npj, nj);
        proof {
            assert(g == 1);
        }
        let term = fld.mul(fld.mul(a[j], sj), npj);
        let ghost x0 = x as int;
        let ghost raw = (a@[j as int] as int * sj) * (npj as int);
        proof {
            lemma_mul_mod_noop_left(a@[j as int] as int * sj, npj as int, np);
            assert(term == raw % np);
        }
        x = fld.add(x, term);
        proof {
            let aj = a@[j as int] as int;
            let xn = x as int;
            // Reducing modulo the full product first changes nothing modulo
            // any single modulus.
            assert forall|t: int| 0 <= t < len implies (xn % #[trigger] ni[t] == (x0 + term)
                % ni[t] && term as int % ni[t] == raw % ni[t]) by {
                let nt = ni[t];
                let kt = prod_seq(ni.remove(t));
                lemma_prod_remove(ni, t);
                assert(forall|u: int|
                    0 <= u < ni.remove(t).len() ==> #[trigger] ni.remove(t)[u] >= 1);
                lemma_prod_pos(ni.remove(t));
                assert(nt * kt == np) by (nonlinear_arith)
                    requires
                        np == kt * nt,
                ;
                lemma_mod_mod(x0 + term, nt, kt);
                lemma_mod_mod(raw, nt, kt);
            };
            // Terms of other congruences are multiples of this modulus.
            assert forall|t: int| 0 <= t < len && t != j implies raw % #[trigger] ni[t]
                == 0 by {
                let tp: int = if t < j {
                    t
                } else {
                    t - 1
                };
                let rem = ni.remove(j as int);
                assert(rem[tp] == ni[t]);
                lemma_prod_remove(rem, tp);
                let c = prod_seq(rem.remove(tp));
                assert(npj as int == c * ni[t]);
                assert(raw == ((aj * sj) * c) * ni[t]) by (nonlinear_arith)
                    requires
                        raw == (aj * sj) * (npj as int),
                        npj as int == c * ni[t],
                ;
                lemma_mod_multiples_basic((aj * sj) * c, ni[t]);
            };
            // Residues settled in earlier rounds are untouched.
            assert forall|t: int| 0 <= t < j implies xn % #[trigger] ni[t] == a@[t] as int
                % ni[t] by {
                lemma_fundamental_div_mod(term as int, ni[t]);
                assert(term as int == ni[t] * (term as int / ni[t]));
                lemma_mod_multiples_vanish(term as int / ni[t], x0, ni[t]);
            };
            // This round's congruence is now satisfied.
            assert(xn % ni[j as int] == aj % ni[j as int]) by {
                let nt = ni[j as int];
                assert(raw == nt * (-(aj * tj)) + aj) by (nonlinear_arith)
                    requires
                        sj * (npj as int) + tj * nt == 1,
                        raw == (aj * sj) * (npj as int),
                ;
                lemma_mod_multiples_vanish(-(aj * tj), aj, nt);
                assert(raw % nt == aj % nt);
                lemma_fundamental_div_mod(x0, nt);
                assert(x0 == nt * (x0 / nt));
                lemma_mod_multiples_vanish(x0 / nt, term as int, nt);
                assert((x0 + term) % nt == term as int % nt);
            };
            // Later rounds still see a multiple of their modulus.
            assert forall|t: int| j + 1 <= t < len implies xn % #[trigger] ni[t] == 0 by {
                let nt = ni[t];
                lemma_fundamental_div_mod(term as int, nt);
                assert(term as int == nt * (term as int / nt));
                lemma_fundamental_div_mod(x0, nt);
                assert(x0 == nt * (x0 / nt));
                assert(x0 + term == (x0 / nt + term as int / nt) * nt) by (nonlinear_arith)
                    requires
                        term as int == nt * (term as int / nt),
                        x0 == nt * (x0 / nt),
                ;
                lemma_mod_multiples_basic(x0 / nt + term as int / nt, nt);
            };
        }
        j = j + 1;
    }
    Ok(x)
}

} // verus!
