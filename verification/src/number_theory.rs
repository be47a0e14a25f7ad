use vstd::prelude::*;

verus! {

use vstd::arithmetic::div_mod::{
    lemma_fundamental_div_mod, lemma_mod_bound, lemma_mul_mod_noop_right,
    lemma_mod_multiples_vanish,
};

/// Greatest common divisor, defined by the Euclidean recurrence.
pub open spec fn gcd(a: nat, b: nat) -> nat
    decreases b,
{
    if b == 0 {
        a
    } else {
        gcd(b, a % b)
    }
}

/// The gcd is symmetric in its arguments.
pub proof fn lemma_gcd_sym(a: nat, b: nat)
    ensures
        gcd(a, b) == gcd(b, a),
{
    if a == b {
    } else if b == 0 {
        // gcd(a, 0) == a and, for a > 0, gcd(0, a) == gcd(a, 0 % a) == a.
        assert(0nat % a == 0) by {
            vstd::arithmetic::div_mod::lemma_small_mod(0nat, a);
        };
    } else if a == 0 {
        assert(0nat % b == 0) by {
            vstd::arithmetic::div_mod::lemma_small_mod(0nat, b);
        };
    } else if a < b {
        assert(a % b == a) by {
            vstd::arithmetic::div_mod::lemma_small_mod(a, b);
        };
        assert(gcd(a, b) == gcd(b, a % b));
    } else {
        assert(b % a == b) by {
            vstd::arithmetic::div_mod::lemma_small_mod(b, a);
        };
        assert(gcd(b, a) == gcd(a, b % a));
    }
}

/// The Bezout coefficient pair produced by the extended Euclidean
/// recursion: `(1, 0)` at the base, and at each step the pair of the
/// reduced problem rotated by the quotient.  This is the exact pair the
/// executable algorithms return.
pub open spec fn bezout_pair(a: nat, b: nat) -> (int, int)
    decreases b,
{
    if b == 0 {
        (1int, 0int)
    } else {
        let (s, t) = bezout_pair(b, a % b);
        (t, s - (a / b) * t)
    }
}

/// A vector of machine integers as mathematical integers.
pub open spec fn int_seq(s: Seq<i64>) -> Seq<int> {
    s.map_values(|v: i64| v as int)
}

/// The product of a sequence of integers; one for the empty sequence.
pub open spec fn prod_seq(s: Seq<int>) -> int
    decreases s.len(),
{
    if s.len() == 0 {
        1
    } else {
        prod_seq(s.drop_last()) * s.last()
    }
}

/// A product of positive factors is positive.
pub proof fn lemma_prod_pos(s: Seq<int>)
    requires
        forall|i: int| 0 <= i < s.len() ==> #[trigger] s[i] >= 1,
    ensures
        prod_seq(s) >= 1,
    decreases s.len(),
{
    if s.len() > 0 {
        lemma_prod_pos(s.drop_last());
        assert(s.last() >= 1);
        assert(prod_seq(s.drop_last()) * s.last() >= 1) by (nonlinear_arith)
            requires
                prod_seq(s.drop_last()) >= 1,
                s.last() >= 1,
        ;
    }
}

/// Extending a prefix by one element multiplies its product by it.
pub proof fn lemma_prod_take_succ(s: Seq<int>, k: int)
    requires
        0 <= k < s.len(),
    ensures
        prod_seq(s.take(k + 1)) == prod_seq(s.take(k)) * s[k],
{
    assert(s.take(k + 1).drop_last() =~= s.take(k));
    assert(s.take(k + 1).last() == s[k]);
}

/// The product splits at any cut point.
pub proof fn lemma_prod_split(s: Seq<int>, k: int)
    requires
        0 <= k <= s.len(),
    ensures
        prod_seq(s) == prod_seq(s.take(k)) * prod_seq(s.skip(k)),
    decreases s.len() - k,
{
    if k == s.len() {
        assert(s.take(k) =~= s);
        assert(prod_seq(s.skip(k)) == 1) by {
            assert(s.skip(k) =~= Seq::<int>::empty());
        };
    } else {
        lemma_prod_split(s, k + 1);
        lemma_prod_take_succ(s, k);
        // prod(skip(k)) == s[k] * prod(skip(k + 1)).
        lemma_prod_skip_succ(s, k);
        assert(prod_seq(s.take(k + 1)) * prod_seq(s.skip(k + 1)) == (prod_seq(s.take(k)) * s[k])
            * prod_seq(s.skip(k + 1)));
        assert((prod_seq(s.take(k)) * s[k]) * prod_seq(s.skip(k + 1)) == prod_seq(s.take(k)) * (
        s[k] * prod_seq(s.skip(k + 1)))) by (nonlinear_arith);
    }
}

/// Peeling the first element of a suffix divides its product.
pub proof fn lemma_prod_skip_succ(s: Seq<int>, k: int)
    requires
        0 <= k < s.len(),
    ensures
        prod_seq(s.skip(k)) == s[k] * prod_seq(s.skip(k + 1)),
    decreases s.len(),
{
    if k == s.len() - 1 {
        let single = s.skip(k);
        assert(single =~= seq![s[k]]);
        assert(single.drop_last() =~= Seq::<int>::empty());
        assert(prod_seq(single.drop_last()) == 1);
        assert(single.last() == s[k]);
        assert(prod_seq(single) == 1 * s[k]);
        assert(s.skip(k + 1) =~= Seq::<int>::empty());
        assert(prod_seq(s.skip(k + 1)) == 1);
    } else {
        let dl = s.drop_last();
        assert(s.skip(k).drop_last() =~= dl.skip(k));
        assert(s.skip(k).last() == s.last());
        assert(s.skip(k).len() > 0);
        assert(prod_seq(s.skip(k)) == prod_seq(s.skip(k).drop_last()) * s.skip(k).last());
        assert(prod_seq(s.skip(k)) == prod_seq(dl.skip(k)) * s.last());
        assert(s.skip(k + 1).drop_last() =~= dl.skip(k + 1));
        assert(s.skip(k + 1).last() == s.last());
        assert(s.skip(k + 1).len() > 0);
        assert(prod_seq(s.skip(k + 1)) == prod_seq(s.skip(k + 1).drop_last()) * s.skip(
            k + 1,
        ).last());
        assert(prod_seq(s.skip(k + 1)) == prod_seq(dl.skip(k + 1)) * s.last());
        lemma_prod_skip_succ(dl, k);
        assert(dl[k] == s[k]);
        assert(prod_seq(dl.skip(k)) == s[k] * prod_seq(dl.skip(k + 1)));
        assert((s[k] * prod_seq(dl.skip(k + 1))) * s.last() == s[k] * (prod_seq(dl.skip(k + 1))
            * s.last())) by (nonlinear_arith);
        assert(prod_seq(s.skip(k)) == s[k] * prod_seq(s.skip(k + 1)));
    }
}

/// Removing one element factors the product as the element times the rest.
pub proof fn lemma_prod_remove(s: Seq<int>, j: int)
    requires
        0 <= j < s.len(),
    ensures
        prod_seq(s) == prod_seq(s.remove(j)) * s[j],
{
    lemma_prod_split(s, j);
    lemma_prod_skip_succ(s, j);
    lemma_prod_split(s.remove(j), j);
    assert(s.remove(j).take(j) =~= s.take(j));
    assert(s.remove(j).skip(j) =~= s.skip(j + 1));
    assert(prod_seq(s.take(j)) * (s[j] * prod_seq(s.skip(j + 1))) == (prod_seq(s.take(j))
        * prod_seq(s.skip(j + 1))) * s[j]) by (nonlinear_arith);
}

/// A number coprime to every factor is coprime to the product.
pub proof fn lemma_coprime_prod(s: Seq<int>, c: nat)
    requires
        forall|i: int| 0 <= i < s.len() ==> #[trigger] s[i] >= 1,
        forall|i: int| 0 <= i < s.len() ==> gcd(#[trigger] s[i] as nat, c) == 1,
    ensures
        prod_seq(s) >= 1,
        gcd(prod_seq(s) as nat, c) == 1,
    decreases s.len(),
{
    lemma_prod_pos(s);
    if s.len() == 0 {
        lemma_gcd_one_left(c);
    } else {
        lemma_coprime_prod(s.drop_last(), c);
        lemma_coprime_mul(prod_seq(s.drop_last()) as nat, s.last() as nat, c);
        assert((prod_seq(s.drop_last()) as nat) * (s.last() as nat) == prod_seq(s) as nat) by {
            lemma_prod_pos(s.drop_last());
        };
    }
}

/// One is coprime to everything.
pub proof fn lemma_gcd_one_left(c: nat)
    ensures
        gcd(1, c) == 1,
{
    lemma_gcd_sym(1, c);
    lemma_gcd_divides(c, 1);
    let g = gcd(c, 1) as int;
    let k = choose|k: int| 1int == #[trigger] (k * g);
    assert(g == 1) by (nonlinear_arith)
        requires
            1int == k * g,
            g >= 0,
    ;
}

/// `d` divides `x`.
pub open spec fn divides(d: int, x: int) -> bool {
    exists|k: int| x == #[trigger] (k * d)
}

/// A prime modulus: at least two, and divisible by no positive number
/// other than one and itself.
pub open spec fn is_prime(m: int) -> bool {
    m >= 2 && forall|d: int| 1 <= d < m && #[trigger] divides(d, m) ==> d == 1
}

/// Over a prime modulus, every residue that is not congruent to zero is a
/// unit: its gcd with the modulus is one.
pub proof fn lemma_prime_residue_unit(z: int, m: int)
    requires
        is_prime(m),
        z % m != 0,
    ensures
        gcd((z % m) as nat, m as nat) == 1,
{
    lemma_mod_bound(z, m);
    let zr = z % m;
    let g = gcd(zr as nat, m as nat) as int;
    lemma_gcd_divides(zr as nat, m as nat);
    let k = choose|k: int| zr == #[trigger] (k * g);
    assert(zr == k * g);
    assert(g >= 1 && g <= zr) by (nonlinear_arith)
        requires
            zr == k * g,
            1 <= zr,
            g >= 0,
    ;
    assert(divides(g, m));
    assert(g == 1);
}

/// The gcd of two numbers divides both of them.
pub proof fn lemma_gcd_divides(a: nat, b: nat)
    ensures
        divides(gcd(a, b) as int, a as int),
        divides(gcd(a, b) as int, b as int),
    decreases b,
{
    if b == 0 {
        assert(a as int == 1 * (gcd(a, b) as int));
        assert(0int == 0 * (gcd(a, b) as int));
    } else {
        lemma_gcd_divides(b, a % b);
        let g = gcd(a, b) as int;
        assert(divides(g, b as int));
        assert(divides(g, (a % b) as int));
        let k1 = choose|k: int| b as int == #[trigger] (k * g);
        assert(b as int == k1 * g);
        let k2 = choose|k: int| (a % b) as int == #[trigger] (k * g);
        assert((a % b) as int == k2 * g);
        lemma_fundamental_div_mod(a as int, b as int);
        let q = a as int / b as int;
        assert(a as int == q * (b as int) + (a % b));
        assert(q * (k1 * g) + k2 * g == (q * k1 + k2) * g) by (nonlinear_arith);
        assert(a as int == (q * k1 + k2) * g);
    }
}

/// Bezout's identity: some integer combination of `a` and `b` equals their gcd.
pub proof fn lemma_bezout(a: nat, b: nat)
    ensures
        exists|s: int, t: int| #[trigger] (s * (a as int)) + #[trigger] (t * (b as int)) == gcd(a, b),
    decreases b,
{
    if b == 0 {
        assert(1 * (a as int) + 0 * (b as int) == gcd(a, b));
    } else {
        lemma_bezout(b, a % b);
        let (s0, t0) = choose|s0: int, t0: int|
            #[trigger] (s0 * (b as int)) + #[trigger] (t0 * ((a % b) as int)) == gcd(b, a % b);
        lemma_fundamental_div_mod(a as int, b as int);
        let q = a as int / b as int;
        let rr = (a % b) as int;
        assert(rr == a as int - q * (b as int));
        assert(t0 * (a as int) + (s0 - t0 * q) * (b as int) == s0 * (b as int) + t0 * (a as int
            - q * (b as int))) by (nonlinear_arith);
        assert(t0 * (a as int) + (s0 - t0 * q) * (b as int) == gcd(a, b));
    }
}

/// A common divisor of `x` and `y` divides any integer combination of them.
pub proof fn lemma_divides_linear(d: int, x: int, y: int, s: int, t: int)
    requires
        divides(d, x),
        divides(d, y),
    ensures
        divides(d, s * x + t * y),
{
    let kx = choose|k: int| x == #[trigger] (k * d);
    let ky = choose|k: int| y == #[trigger] (k * d);
    assert(s * x + t * y == (s * kx + t * ky) * d) by (nonlinear_arith)
        requires
            x == kx * d,
            y == ky * d,
    ;
}

/// If an integer combination of `a` and `b` equals one, they are coprime.
pub proof fn lemma_linear_one_implies_coprime(a: nat, b: nat, s: int, t: int)
    requires
        s * (a as int) + t * (b as int) == 1,
    ensures
        gcd(a, b) == 1,
{
    lemma_gcd_divides(a, b);
    let g = gcd(a, b) as int;
    lemma_divides_linear(g, a as int, b as int, s, t);
    let k = choose|k: int| 1int == #[trigger] (k * g);
    assert(g == 1) by (nonlinear_arith)
        requires
            1int == k * g,
            g >= 0,
    ;
}

/// Two numbers coprime to `c` have a product coprime to `c`.
pub proof fn lemma_coprime_mul(a: nat, b: nat, c: nat)
    requires
        gcd(a, c) == 1,
        gcd(b, c) == 1,
    ensures
        gcd(a * b, c) == 1,
{
    lemma_bezout(a, c);
    lemma_bezout(b, c);
    let (s1, t1) = choose|s1: int, t1: int| #[trigger] (s1 * (a as int)) + #[trigger] (t1 * (c as int)) == gcd(a, c);
    let (s2, t2) = choose|s2: int, t2: int| #[trigger] (s2 * (b as int)) + #[trigger] (t2 * (c as int)) == gcd(b, c);
    let ai = a as int;
    let bi = b as int;
    let ci = c as int;
    let sp = s1 * s2;
    let tp = t1 + t2 - t1 * t2 * ci;
    assert((a * b) as int == ai * bi);
    assert((s1 * s2) * (ai * bi) == (s1 * ai) * (s2 * bi)) by (nonlinear_arith);
    assert(s1 * ai == 1 - t1 * ci);
    assert(s2 * bi == 1 - t2 * ci);
    assert((1 - t1 * ci) * (1 - t2 * ci) == 1 - (t1 + t2 - t1 * t2 * ci) * ci)
        by (nonlinear_arith);
    assert(sp * ((a * b) as int) + tp * ci == 1);
    lemma_linear_one_implies_coprime(a * b, c, sp, tp);
}

/// A residue coprime to the modulus has a multiplicative inverse.
pub proof fn lemma_coprime_mod_inverse(a: int, m: int)
    requires
        m >= 1,
        0 <= a < m,
        gcd(a as nat, m as nat) == 1,
    ensures
        exists|v: int| 0 <= v < m && #[trigger] ((a * v) % m) == 1int % m,
{
    lemma_bezout(a as nat, m as nat);
    let (s, t) = choose|s: int, t: int| #[trigger] (s * a) + #[trigger] (t * m) == gcd(
        a as nat,
        m as nat,
    );
    assert(s * a + t * m == 1);
    assert(a * s == m * (-t) + 1) by (nonlinear_arith)
        requires
            s * a + t * m == 1,
    ;
    lemma_mod_multiples_vanish(-t, 1, m);
    assert((a * s) % m == 1int % m);
    lemma_mod_bound(s, m);
    let v = s % m;
    lemma_mul_mod_noop_right(a, s, m);
    assert((a * v) % m == 1int % m);
}

/// Multiplication by a unit can be cancelled on reduced residues.
pub proof fn lemma_mod_mul_cancel(x: int, y: int, c: int, m: int)
    requires
        m >= 1,
        0 <= x < m,
        0 <= y < m,
        gcd((c % m) as nat, m as nat) == 1,
        (x * c) % m == (y * c) % m,
    ensures
        x == y,
{
    lemma_mod_bound(c, m);
    lemma_coprime_mod_inverse(c % m, m);
    let v = choose|v: int| 0 <= v < m && #[trigger] (((c % m) * v) % m) == 1int % m;
    vstd::arithmetic::div_mod::lemma_mul_mod_noop_left(c, v, m);
    assert((c * v) % m == 1int % m);
    // x == (x * (c * v)) % m, and likewise for y.
    lemma_unit_factor_cancel(x, c, v, m);
    lemma_unit_factor_cancel(y, c, v, m);
    assert((x * c) * v == x * (c * v)) by (nonlinear_arith);
    assert((y * c) * v == y * (c * v)) by (nonlinear_arith);
    vstd::arithmetic::div_mod::lemma_mul_mod_noop_left(x * c, v, m);
    vstd::arithmetic::div_mod::lemma_mul_mod_noop_left(y * c, v, m);
    assert((x * (c * v)) % m == (((x * c) % m) * v) % m);
    assert((y * (c * v)) % m == (((y * c) % m) * v) % m);
    assert(x == y);
}

/// Multiplying a reduced residue by a product congruent to one leaves it unchanged.
pub proof fn lemma_unit_factor_cancel(x: int, c: int, v: int, m: int)
    requires
        m >= 1,
        0 <= x < m,
        (c * v) % m == 1int % m,
    ensures
        (x * (c * v)) % m == x,
{
    lemma_mul_mod_noop_right(x, c * v, m);
    assert((x * (c * v)) % m == (x * ((c * v) % m)) % m);
    if m == 1 {
        assert(x == 0);
        assert((x * (c * v)) % m == 0) by {
            lemma_mod_bound(x * (c * v), m);
        };
    } else {
        assert(1int % m == 1) by {
            vstd::arithmetic::div_mod::lemma_small_mod(1nat, m as nat);
        };
        assert((x * ((c * v) % m)) % m == (x * 1int) % m);
        assert((x * 1int) % m == x) by {
            vstd::arithmetic::div_mod::lemma_small_mod(x as nat, m as nat);
        };
    }
}

} // verus!
