use vstd::prelude::*;

verus! {

use crate::error::MathError;
use crate::modular_operations::{euclid_rem, Modular};
use crate::number_theory::{gcd, is_prime, lemma_mod_mul_cancel, lemma_prime_residue_unit};
use vstd::arithmetic::div_mod::{
    lemma_add_mod_noop, lemma_add_mod_noop_right, lemma_mod_twice,
    lemma_mul_mod_noop, lemma_mul_mod_noop_left, lemma_mul_mod_noop_right, lemma_small_mod,
    lemma_sub_mod_noop,
};

/// A projective point `(X : Y : Z)`.  The identity (point at infinity) is
/// canonically represented as `(0, 1, 0)`.
#[derive(Debug, Copy, Clone, PartialEq, Eq, Structural)]
pub struct Point {
    pub x: i64,
    pub y: i64,
    pub z: i64,
}

/// The identity element: the point at infinity `(0, 1, 0)`.
pub open spec fn identity_point() -> Point {
    Point { x: 0, y: 1, z: 0 }
}

/// A point in the data model's canonical form: the identity is exactly
/// `(0, 1, 0)`, and every other point is an affine representative with
/// `z == 1`.  `Point::new` only ever builds such points.
pub open spec fn canonical_point(p: Point) -> bool {
    if p.z == 0 {
        p == identity_point()
    } else {
        p.z == 1
    }
}

impl Point {
    /// Builds the affine-as-projective point `(x, y, 1)`.  Any other `z`
    /// collapses to the identity: callers supply either a normalized affine
    /// representative with `z == 1` or request the identity explicitly.
    pub fn new(x: i64, y: i64, z: i64) -> (p: Point)
        ensures
            p == (if z == 1 {
                Point { x, y, z: 1i64 }
            } else {
                identity_point()
            }),
    {
        if z == 1 {
            Point { x, y, z }
        } else {
            Point { x: 0, y: 1, z: 0 }
        }
    }

    /// Whether this point is a representation of the point at infinity.
    pub fn is_infinity(&self) -> (r: bool)
        ensures
            r == (self.z == 0),
    {
        self.z == 0
    }
}

/// The supported curve families.
#[derive(Debug, Copy, Clone, PartialEq, Eq, Structural)]
pub enum CurveForm {
    ShortWeierstrass,
    Montgomery,
    TwistedEdwards,
}

/// An elliptic curve: a family tag, a modular field, and the two curve
/// coefficients.  The configuration is immutable; all operations are pure.
pub struct EllipticCurve {
    pub form: CurveForm,
    pub field: Modular,
    pub a: i64,
    pub b: i64,
}

impl EllipticCurve {
    /// A curve is usable when its field modulus is positive.
    pub open spec fn wf(self) -> bool {
        self.field.0 >= 1
    }

    /// The modulus of the underlying field.
    pub open spec fn modulus(self) -> int {
        self.field.0 as int
    }

    /// The curve equation of the active family, with both sides reduced
    /// modulo `m` before comparison:
    ///   - short Weierstrass: `y^2 == x^3 + a*x + b`
    ///   - Montgomery:        `b*y^2 == x^3 + a*x^2 + x`
    ///   - twisted Edwards:   `a*x^2 == 1 + b*y^2*x^2`
    ///
    /// The Montgomery family is fixed to the form with the quadratic
    /// middle term `a*x^2`.
    pub open spec fn curve_eq_holds(self, x: int, y: int) -> bool {
        let m = self.modulus();
        match self.form {
            CurveForm::ShortWeierstrass => (y * y) % m == (x * x * x + self.a * x + self.b) % m,
            CurveForm::Montgomery => (self.b * y * y) % m == (x * x * x + self.a * x * x + x) % m,
            CurveForm::TwistedEdwards => (self.a * x * x) % m == (1 + self.b * y * y * x * x) % m,
        }
    }

    /// Membership: every representation of the identity (`z == 0`) is on the
    /// curve; any other point must satisfy the curve equation.
    pub open spec fn spec_on_curve(self, p: Point) -> bool {
        p.z == 0 || self.curve_eq_holds(p.x as int, p.y as int)
    }

    /// The negated point: the identity (any representation with `z == 0`)
    /// stays the canonical identity, and any other point keeps `x` and `z`
    /// while `y` is negated in the field.
    pub open spec fn spec_inverse(self, p: Point) -> Point {
        if p.z == 0 {
            identity_point()
        } else {
            Point { x: p.x, y: (-(p.y as int) % self.modulus()) as i64, z: p.z }
        }
    }

    /// Builds a curve from its family tag, field, and coefficients.
    pub fn new(form: CurveForm, field: Modular, a: i64, b: i64) -> (c: Self)
        ensures
            c == (EllipticCurve { form, field, a, b }),
    {
        EllipticCurve { form, field, a, b }
    }

    /// Decides curve membership by evaluating the family's equation under
    /// field arithmetic, comparing both sides as reduced residues.
    pub fn is_point_on_curve(&self, point: Point) -> (r: bool)
        requires
            self.wf(),
        ensures
            r == self.spec_on_curve(point),
    {
        if point.z == 0 {
            return true;
        }
        let f = self.field;
        let ghost m = self.modulus();
        let ghost xi = point.x as int;
        let ghost yi = point.y as int;
        match self.form {
            CurveForm::ShortWeierstrass => {
                let lhs = f.mul(point.y, point.y);
                let x2 = f.mul(point.x, point.x);
                let x3 = f.mul(x2, point.x);
                let ax = f.mul(self.a, point.x);
                let sum = f.add(x3, ax);
                let rhs = f.add(sum, self.b);
                proof {
                    lemma_mul_mod_noop_left(xi * xi, xi, m);
                    lemma_add_mod_noop(xi * xi * xi, self.a * xi, m);
                    lemma_add_mod_noop_right(self.b as int, xi * xi * xi + self.a * xi, m);
                    assert(rhs == (xi * xi * xi + self.a * xi + self.b) % m);
                }
                lhs == rhs
            },
            CurveForm::Montgomery => {
                let by = f.mul(self.b, point.y);
                let lhs = f.mul(by, point.y);
                let x2 = f.mul(point.x, point.x);
                let x3 = f.mul(x2, point.x);
                let ax = f.mul(self.a, point.x);
                let ax2 = f.mul(ax, point.x);
                let sum = f.add(x3, ax2);
                let rhs = f.add(sum, point.x);
                proof {
                    lemma_mul_mod_noop_left(self.b * yi, yi, m);
                    lemma_mul_mod_noop_left(xi * xi, xi, m);
                    lemma_mul_mod_noop_left(self.a * xi, xi, m);
                    lemma_add_mod_noop(xi * xi * xi, self.a * xi * xi, m);
                    lemma_add_mod_noop_right(xi, xi * xi * xi + self.a * xi * xi, m);
                    assert(rhs == (xi * xi * xi + self.a * xi * xi + xi) % m);
                }
                lhs == rhs
            },
            CurveForm::TwistedEdwards => {
                let ax = f.mul(self.a, point.x);
                let lhs = f.mul(ax, point.x);
                let by = f.mul(self.b, point.y);
                let byy = f.mul(by, point.y);
                let byyx = f.mul(byy, point.x);
                let byyxx = f.mul(byyx, point.x);
                let rhs = f.add(1, byyxx);
                proof {
                    lemma_mul_mod_noop_left(self.a * xi, xi, m);
                    lemma_mul_mod_noop_left(self.b * yi, yi, m);
                    lemma_mul_mod_noop_left(self.b * yi * yi, xi, m);
                    lemma_mul_mod_noop_left(self.b * yi * yi * xi, xi, m);
                    lemma_add_mod_noop_right(1int, self.b * yi * yi * xi * xi, m);
                    assert(rhs == (1 + self.b * yi * yi * xi * xi) % m);
                }
                lhs == rhs
            },
        }
    }

    /// Negates a point on the curve: `(x, y, z)` becomes `(x, -y, z)` with
    /// the negation performed in the field, and the identity stays the
    /// canonical `(0, 1, 0)`, so that a point plus its inverse is always
    /// the identity.  Fails with `PointNotOnCurve` exactly when the
    /// membership test fails.
    pub fn inverse(&self, point: Point) -> (r: Result<Point, MathError>)
        requires
            self.wf(),
        ensures
            r == (if self.spec_on_curve(point) {
                Ok::<Point, MathError>(self.spec_inverse(point))
            } else {
                Err::<Point, MathError>(MathError::PointNotOnCurve)
            }),
    {
        if self.is_point_on_curve(point) {
            if point.z == 0 {
                Ok(Point::new(0, 1, 0))
            } else {
                Ok(Point { x: point.x, y: self.field.neg(point.y), z: point.z })
            }
        } else {
            Err(MathError::PointNotOnCurve)
        }
    }
}

impl EllipticCurve {
    /// First projected comparison value of the addition law: `z1*y2` mod `m`.
    pub open spec fn pa_u1(self, p1: Point, p2: Point) -> int {
        (p1.z * p2.y) % self.modulus()
    }

    /// Second projected comparison value: `y1*z2` mod `m`.
    pub open spec fn pa_u2(self, p1: Point, p2: Point) -> int {
        (p1.y * p2.z) % self.modulus()
    }

    /// First projected `x`-value: `z1*x2` mod `m`.
    pub open spec fn pa_v1(self, p1: Point, p2: Point) -> int {
        (p1.z * p2.x) % self.modulus()
    }

    /// Second projected `x`-value: `x1*z2` mod `m`.
    pub open spec fn pa_v2(self, p1: Point, p2: Point) -> int {
        (p1.x * p2.z) % self.modulus()
    }

    /// Numerators and denominator produced by the tangent (doubling) formula
    /// at `p`.
    pub open spec fn dbl_triple(self, p: Point) -> (int, int, int) {
        let w = self.a * p.z * p.z + 3 * p.x * p.x;
        let s = p.y * p.z;
        let b = p.x * p.y * s;
        let h = w * w - 8 * b;
        (2 * h * s, w * (4 * b - h) - 8 * p.y * p.y * s * s, 8 * s * s * s)
    }

    /// Numerators and denominator produced by the chord formula through `p1`
    /// and `p2`; the projected values it starts from are reduced modulo `m`,
    /// which leaves every result unchanged modulo `m`.
    pub open spec fn chord_triple(self, p1: Point, p2: Point) -> (int, int, int) {
        let u = self.pa_u1(p1, p2) - self.pa_u2(p1, p2);
        let v = self.pa_v1(p1, p2) - self.pa_v2(p1, p2);
        let w = p1.z * p2.z;
        let aa = u * u * w - v * v * v - 2 * v * v * self.pa_v2(p1, p2);
        (
            v * aa,
            u * (v * v * self.pa_v2(p1, p2) - aa) - v * v * v * self.pa_u2(p1, p2),
            v * v * v * w,
        )
    }

    /// The unique reduced residue `q` with `q * zn == xn` modulo `m`; it
    /// exists and is unique whenever `zn`'s residue is a unit.
    pub open spec fn mod_div(self, xn: int, zn: int) -> int {
        choose|q: int|
            0 <= q < self.modulus() && #[trigger] ((q * zn) % self.modulus()) == xn
                % self.modulus()
    }

    /// Normalizes a projective triple back to the `z == 1` scale by field
    /// division, or reports why the division fails: `DivisionByZero` when
    /// the denominator is congruent to zero, `NoInverse` when its residue
    /// is not a unit.
    pub open spec fn quotient_result(self, t: (int, int, int)) -> Result<Point, MathError> {
        let m = self.modulus();
        let (xn, yn, zn) = t;
        if zn % m == 0 {
            Err(MathError::DivisionByZero)
        } else if gcd((zn % m) as nat, self.field.0 as nat) != 1 {
            Err(MathError::NoInverse)
        } else {
            Ok(
                Point {
                    x: self.mod_div(xn, zn) as i64,
                    y: self.mod_div(yn, zn) as i64,
                    z: 1i64,
                },
            )
        }
    }

    /// The complete projective-addition law as a function of the operands:
    /// identity absorption, the inverse-pair case, two-torsion, the tangent
    /// (doubling) formula, and the general chord formula.
    pub open spec fn spec_projective_add(self, p1: Point, p2: Point) -> Result<Point, MathError> {
        if p1 == identity_point() {
            Ok(p2)
        } else if p2 == identity_point() {
            Ok(p1)
        } else if self.pa_v1(p1, p2) == self.pa_v2(p1, p2) {
            if self.pa_u1(p1, p2) != self.pa_u2(p1, p2) {
                Ok(identity_point())
            } else if p1.y as int % self.modulus() == 0 {
                Ok(identity_point())
            } else {
                self.quotient_result(self.dbl_triple(p1))
            }
        } else {
            self.quotient_result(self.chord_triple(p1, p2))
        }
    }

    /// Divides a reduced projective triple by its denominator, returning the
    /// canonical `z == 1` representative or the division failure.
    fn normalize_triple(&self, x: i64, y: i64, z: i64, Ghost(t): Ghost<(int, int, int)>) -> (r:
        Result<Point, MathError>)
        requires
            self.wf(),
            0 <= x < self.field.0,
            0 <= y < self.field.0,
            0 <= z < self.field.0,
            x == t.0 % self.modulus(),
            y == t.1 % self.modulus(),
            z == t.2 % self.modulus(),
        ensures
            r == self.quotient_result(t),
    {
        let f = self.field;
        let ghost m = self.modulus();
        proof {
            lemma_small_mod(x as nat, m as nat);
            lemma_small_mod(y as nat, m as nat);
            lemma_small_mod(z as nat, m as nat);
            lemma_mod_twice(t.0, m);
            lemma_mod_twice(t.1, m);
            lemma_mod_twice(t.2, m);
        }
        let xr = match f.div(x, z) {
            Ok(v) => v,
            Err(e) => {
                return Err(e);
            },
        };
        let yr = match f.div(y, z) {
            Ok(v) => v,
            Err(e) => {
                return Err(e);
            },
        };
        let zr = match f.div(z, z) {
            Ok(v) => v,
            Err(e) => {
                return Err(e);
            },
        };
        proof {
            let zn = t.2;
            assert(z as int == zn % m);
            assert(gcd((zn % m) as nat, self.field.0 as nat) == 1);
            // The three quotients satisfy the defining congruences of the
            // specification-level quotients, which are unique.
            lemma_mul_mod_noop_right(xr as int, zn, m);
            lemma_mul_mod_noop_right(yr as int, zn, m);
            assert((xr * zn) % m == t.0 % m);
            assert((yr * zn) % m == t.1 % m);
            let qx = self.mod_div(t.0, zn);
            assert(0 <= qx < m && (qx * zn) % m == t.0 % m);
            lemma_mod_mul_cancel(qx, xr as int, zn, m);
            let qy = self.mod_div(t.1, zn);
            assert(0 <= qy < m && (qy * zn) % m == t.1 % m);
            lemma_mod_mul_cancel(qy, yr as int, zn, m);
            // The denominator divided by itself is one.
            assert(1int * (z as int) == z as int);
            assert((zr * (z as int)) % m == (1int * (z as int)) % m);
            lemma_mod_mul_cancel(zr as int, 1int, z as int, m);
        }
        Ok(Point::new(xr, yr, zr))
    }

    /// Adds two projective points with the unified addition law: identity
    /// operands are absorbed, a point plus its inverse yields the identity,
    /// doubling a two-torsion point yields the identity, and the tangent or
    /// chord formula is applied otherwise, normalized back to `z == 1` by
    /// field division.  Comparisons are made on residues reduced modulo `m`.
    pub fn projective_add(&self, point_1: Point, point_2: Point) -> (r: Result<Point, MathError>)
        requires
            self.wf(),
        ensures
            r == self.spec_projective_add(point_1, point_2),
    {
        let f = self.field;
        let id = Point::new(0, 1, 0);
        if point_1 == id {
            Ok(point_2)
        } else if point_2 == id {
            Ok(point_1)
        } else {
            let ghost m = self.modulus();
            let ghost x1 = point_1.x as int;
            let ghost y1 = point_1.y as int;
            let ghost z1 = point_1.z as int;
            let ghost x2 = point_2.x as int;
            let ghost y2 = point_2.y as int;
            let ghost z2 = point_2.z as int;
            let u_1 = f.mul(point_1.z, point_2.y);
            let u_2 = f.mul(point_1.y, point_2.z);
            let v_1 = f.mul(point_1.z, point_2.x);
            let v_2 = f.mul(point_1.x, point_2.z);

            if v_1 == v_2 {
                if u_1 != u_2 {
                    Ok(Point::new(0, 1, 0))
                } else if euclid_rem(point_1.y, self.field.0) == 0 {
                    Ok(Point::new(0, 1, 0))
                } else {
                    let ghost t = self.dbl_triple(point_1);
                    let ghost ws = self.a * z1 * z1 + 3 * x1 * x1;
                    let ghost ss = y1 * z1;
                    let ghost bs = x1 * y1 * ss;
                    let ghost hs = ws * ws - 8 * bs;
                    let w = f.add(
                        f.mul(f.mul(self.a, point_1.z), point_1.z),
                        f.mul(3, f.mul(point_1.x, point_1.x)),
                    );
                    proof {
                        lemma_mul_mod_noop_left(self.a * z1, z1, m);
                        lemma_mul_mod_noop_right(3int, x1 * x1, m);
                        assert(3 * (x1 * x1) == 3 * x1 * x1) by (nonlinear_arith);
                        lemma_add_mod_noop(self.a * z1 * z1, 3 * x1 * x1, m);
                        assert(w == ws % m);
                    }
                    let s = f.mul(point_1.y, point_1.z);
                    let b = f.mul(f.mul(point_1.x, point_1.y), s);
                    proof {
                        lemma_mul_mod_noop_left(x1 * y1, s as int, m);
                        lemma_mul_mod_noop_right(x1 * y1, ss, m);
                        assert(b == bs % m);
                    }
                    let h = f.sub(f.mul(w, w), f.mul(8, b));
                    proof {
                        lemma_mul_mod_noop(ws, ws, m);
                        lemma_mul_mod_noop_right(8int, bs, m);
                        lemma_sub_mod_noop(ws * ws, 8 * bs, m);
                        assert(h == hs % m);
                    }
                    let x = f.mul(f.mul(2, h), s);
                    proof {
                        lemma_mul_mod_noop_right(2int, hs, m);
                        lemma_mul_mod_noop(2 * hs, ss, m);
                        assert(2 * hs * ss == t.0) by (nonlinear_arith)
                            requires
                                t.0 == 2 * (ws * ws - 8 * (x1 * y1 * (y1 * z1))) * (y1 * z1),
                                hs == ws * ws - 8 * (x1 * y1 * (y1 * z1)),
                                ss == y1 * z1,
                        ;
                        assert(x == t.0 % m);
                    }
                    let y = f.sub(
                        f.mul(w, f.sub(f.mul(4, b), h)),
                        f.mul(8, f.mul(f.mul(point_1.y, point_1.y), f.mul(s, s))),
                    );
                    proof {
                        lemma_mul_mod_noop_right(4int, bs, m);
                        lemma_sub_mod_noop(4 * bs, hs, m);
                        lemma_mul_mod_noop(ws, 4 * bs - hs, m);
                        lemma_mul_mod_noop(ss, ss, m);
                        lemma_mul_mod_noop(y1 * y1, ss * ss, m);
                        lemma_mul_mod_noop_right(8int, (y1 * y1) * (ss * ss), m);
                        assert(8 * ((y1 * y1) * (ss * ss)) == 8 * y1 * y1 * ss * ss)
                            by (nonlinear_arith);
                        lemma_sub_mod_noop(ws * (4 * bs - hs), 8 * y1 * y1 * ss * ss, m);
                        assert(y == t.1 % m);
                    }
                    let z = f.mul(8, f.mul(f.mul(s, s), s));
                    proof {
                        lemma_mul_mod_noop(ss, ss, m);
                        lemma_mul_mod_noop(ss * ss, ss, m);
                        lemma_mul_mod_noop_right(8int, ss * ss * ss, m);
                        assert(8 * (ss * ss * ss) == 8 * ss * ss * ss) by (nonlinear_arith);
                        assert(z == t.2 % m);
                    }
                    self.normalize_triple(x, y, z, Ghost(t))
                }
            } else {
                let ghost t = self.chord_triple(point_1, point_2);
                let ghost us = self.pa_u1(point_1, point_2) - self.pa_u2(point_1, point_2);
                let ghost vs = self.pa_v1(point_1, point_2) - self.pa_v2(point_1, point_2);
                let ghost w2s = z1 * z2;
                let ghost v2s = self.pa_v2(point_1, point_2);
                let ghost u2s = self.pa_u2(point_1, point_2);
                let ghost aas = us * us * w2s - vs * vs * vs - 2 * vs * vs * v2s;
                let u = f.sub(u_1, u_2);
                let v = f.sub(v_1, v_2);
                let w = f.mul(point_1.z, point_2.z);
                proof {
                    assert(u == us % m);
                    assert(v == vs % m);
                    assert(w == w2s % m);
                }
                let uuw = f.mul(f.mul(u, u), w);
                let vvv = f.mul(f.mul(v, v), v);
                let vv2 = f.mul(f.mul(v, v), v_2);
                proof {
                    lemma_mul_mod_noop(us, us, m);
                    lemma_mul_mod_noop(us * us, w2s, m);
                    assert((us * us) * w2s == us * us * w2s) by (nonlinear_arith);
                    assert(uuw == (us * us * w2s) % m);
                    lemma_mul_mod_noop(vs, vs, m);
                    lemma_mul_mod_noop_left(vs * vs, vs % m, m);
                    lemma_mul_mod_noop_right(vs * vs, vs, m);
                    assert(vvv == (vs * vs * vs) % m);
                    lemma_mul_mod_noop_left(vs * vs, v2s, m);
                    assert(vv2 == (vs * vs * v2s) % m);
                }
                let aa = f.sub(f.sub(uuw, vvv), f.mul(2, vv2));
                proof {
                    lemma_sub_mod_noop(us * us * w2s, vs * vs * vs, m);
                    lemma_mul_mod_noop_right(2int, vs * vs * v2s, m);
                    assert(2 * (vs * vs * v2s) == 2 * vs * vs * v2s) by (nonlinear_arith);
                    lemma_sub_mod_noop(us * us * w2s - vs * vs * vs, 2 * vs * vs * v2s, m);
                    assert(aa == aas % m);
                }
                let x = f.mul(v, aa);
                proof {
                    lemma_mul_mod_noop(vs, aas, m);
                    assert(x == t.0 % m);
                }
                let y = f.sub(f.mul(u, f.sub(vv2, aa)), f.mul(vvv, u_2));
                proof {
                    lemma_sub_mod_noop(vs * vs * v2s, aas, m);
                    lemma_mul_mod_noop(us, vs * vs * v2s - aas, m);
                    lemma_mul_mod_noop_left(vs * vs * vs, u2s, m);
                    lemma_sub_mod_noop(us * (vs * vs * v2s - aas), vs * vs * vs * u2s, m);
                    assert(y == t.1 % m);
                }
                let z = f.mul(vvv, w);
                proof {
                    lemma_mul_mod_noop(vs * vs * vs, w2s, m);
                    assert((vs * vs * vs) * w2s == vs * vs * vs * w2s) by (nonlinear_arith);
                    assert(z == t.2 % m);
                }
                self.normalize_triple(x, y, z, Ghost(t))
            }
        }
    }
}

impl EllipticCurve {
    /// The double-and-add loop, expressed as a function of the loop state:
    /// the scalar's low bit decides whether the accumulator absorbs the
    /// base; the base is then doubled and the scalar halved.  Failures of
    /// the addition law propagate exactly as the executable loop propagates
    /// them, including a failure of the final doubling.
    pub open spec fn spec_esm_loop(self, acc: Point, base: Point, k: nat) -> Result<
        Point,
        MathError,
    >
        decreases k,
    {
        if k == 0 {
            Ok(acc)
        } else {
            let acc2 = if k % 2 == 1 {
                self.spec_projective_add(acc, base)
            } else {
                Ok(acc)
            };
            match acc2 {
                Err(e) => Err(e),
                Ok(acc3) => match self.spec_projective_add(base, base) {
                    Err(e) => Err(e),
                    Ok(b2) => self.spec_esm_loop(acc3, b2, k / 2),
                },
            }
        }
    }

    /// Double-and-add scalar multiplication.  Membership of the input point
    /// is validated once; a zero scalar returns the identity immediately;
    /// otherwise the scalar's bits are consumed from least to most
    /// significant and any failure of the addition law aborts the whole
    /// computation.  Negative scalars are outside the contract.
    pub fn esm(&self, point: Point, scalar: i64) -> (r: Result<Point, MathError>)
        requires
            self.wf(),
            scalar >= 0,
        ensures
            r == (if self.spec_on_curve(point) {
                self.spec_esm_loop(identity_point(), point, scalar as nat)
            } else {
                Err::<Point, MathError>(MathError::PointNotOnCurve)
            }),
    {
        if !self.is_point_on_curve(point) {
            return Err(MathError::PointNotOnCurve);
        }
        if scalar == 0 {
            return Ok(Point::new(0, 1, 0));
        }
        let mut result = Point::new(0, 1, 0);
        let mut base = point;
        let mut sc = scalar;
        while sc > 0
            invariant
                self.wf(),
                self.spec_on_curve(point),
                0 <= sc,
                self.spec_esm_loop(result, base, sc as nat) == self.spec_esm_loop(
                    identity_point(),
                    point,
                    scalar as nat,
                ),
            decreases sc,
        {
            let ghost k = sc as nat;
            if sc % 2 == 1 {
                result = match self.projective_add(result, base) {
                    Ok(p) => p,
                    Err(e) => {
                        return Err(e);
                    },
                };
            }
            base = match self.projective_add(base, base) {
                Ok(p) => p,
                Err(e) => {
                    return Err(e);
                },
            };
            sc = sc / 2;
            proof {
                assert(sc as nat == k / 2);
            }
        }
        Ok(result)
    }
}

/// Identity laws of the addition operation: adding the identity on either
/// side of a point returns that point unchanged.
pub proof fn lemma_projective_add_identity(c: EllipticCurve, p: Point)
    requires
        c.spec_on_curve(p),
    ensures
        c.spec_projective_add(identity_point(), p) == Ok::<Point, MathError>(p),
        c.spec_projective_add(p, identity_point()) == Ok::<Point, MathError>(p),
{
}

/// Scalar multiplication by zero yields the identity: the double-and-add
/// loop on a zero scalar is the identity accumulator.
pub proof fn lemma_esm_zero(c: EllipticCurve, p: Point)
    ensures
        c.spec_esm_loop(identity_point(), p, 0) == Ok::<Point, MathError>(identity_point()),
{
}

/// The reduced residue of a negated reduced residue: zero stays zero and
/// any other `y` becomes `m - y`.
proof fn lemma_neg_residue(y: int, m: int)
    requires
        m >= 1,
        0 <= y < m,
    ensures
        (-y) % m == (if y == 0 {
            0int
        } else {
            m - y
        }),
{
    if y == 0 {
        lemma_small_mod(0nat, m as nat);
    } else {
        vstd::arithmetic::div_mod::lemma_mod_add_multiples_vanish(-y, m);
        lemma_small_mod((m - y) as nat, m as nat);
    }
}

/// Negating a point preserves curve membership: in each curve family the
/// `y`-coordinate occurs only squared.
pub proof fn lemma_inverse_on_curve(c: EllipticCurve, p: Point)
    requires
        c.wf(),
        c.spec_on_curve(p),
        p.z != 0 ==> 0 <= p.y < c.field.0,
    ensures
        c.spec_on_curve(c.spec_inverse(p)),
{
    let m = c.modulus();
    let x = p.x as int;
    let y = p.y as int;
    let q = c.spec_inverse(p);
    if p.z == 0 {
    } else {
        lemma_neg_residue(y, m);
        let yq = q.y as int;
        assert(yq == (-y) % m);
        lemma_mul_mod_noop(-y, -y, m);
        assert(((-y) % m * ((-y) % m)) % m == ((-y) * (-y)) % m);
        assert((-y) * (-y) == y * y) by (nonlinear_arith);
        lemma_mul_mod_noop(y, y, m);
        lemma_mul_mod_noop(yq, yq, m);
        lemma_small_mod(yq as nat, m as nat);
        assert((yq * yq) % m == (y * y) % m);
        match c.form {
            CurveForm::ShortWeierstrass => {
                assert(c.curve_eq_holds(x, yq));
            },
            CurveForm::Montgomery => {
                assert(c.b * yq * yq == c.b * (yq * yq)) by (nonlinear_arith);
                assert(c.b * y * y == c.b * (y * y)) by (nonlinear_arith);
                lemma_mul_mod_noop_right(c.b as int, yq * yq, m);
                lemma_mul_mod_noop_right(c.b as int, y * y, m);
                assert((c.b * yq * yq) % m == (c.b * y * y) % m);
                assert(c.curve_eq_holds(x, yq));
            },
            CurveForm::TwistedEdwards => {
                assert(1 + c.b * yq * yq * x * x == 1 + (c.b * (x * x)) * (yq * yq))
                    by (nonlinear_arith);
                assert(1 + c.b * y * y * x * x == 1 + (c.b * (x * x)) * (y * y))
                    by (nonlinear_arith);
                lemma_mul_mod_noop_right(c.b * (x * x), yq * yq, m);
                lemma_mul_mod_noop_right(c.b * (x * x), y * y, m);
                lemma_add_mod_noop_right(1int, (c.b * (x * x)) * (yq * yq), m);
                lemma_add_mod_noop_right(1int, (c.b * (x * x)) * (y * y), m);
                assert((1 + c.b * yq * yq * x * x) % m == (1 + c.b * y * y * x * x) % m);
                assert(c.curve_eq_holds(x, yq));
            },
        }
    }
}

/// Round trip of negation: taking the inverse twice returns the original
/// point, for canonical points whose `y`-coordinate is a reduced residue.
pub proof fn lemma_inverse_involution(c: EllipticCurve, p: Point)
    requires
        c.wf(),
        canonical_point(p),
        p.z != 0 ==> 0 <= p.y < c.field.0,
    ensures
        c.spec_inverse(c.spec_inverse(p)) == p,
{
    let m = c.modulus();
    let y = p.y as int;
    if p.z != 0 {
        lemma_neg_residue(y, m);
        let q = c.spec_inverse(p);
        lemma_neg_residue(q.y as int, m);
    }
}

/// Over a prime modulus every denominator that is not congruent to zero
/// is a unit, so normalization cannot fail with `NoInverse`: the addition
/// law's tangent and chord branches succeed and return the canonical
/// `z == 1` scale whenever their denominator does not vanish.
pub proof fn lemma_quotient_result_prime(c: EllipticCurve, t: (int, int, int))
    requires
        c.wf(),
        is_prime(c.modulus()),
        t.2 % c.modulus() != 0,
    ensures
        (c.quotient_result(t) matches Ok(q) && q.z == 1),
{
    lemma_prime_residue_unit(t.2, c.modulus());
}

/// The inverse-sum law: adding an on-curve point to its inverse yields the
/// identity, for every canonical on-curve point.  The single excluded
/// family of inputs is a non-zero `y` with `2*y` congruent to zero (only
/// possible when the modulus is even), where the tangent formula's
/// denominator degenerates instead.
pub proof fn lemma_projective_add_inverse(c: EllipticCurve, p: Point)
    requires
        c.wf(),
        c.spec_on_curve(p),
        canonical_point(p),
        p.z != 0 ==> 0 <= p.y < c.field.0,
        p.z != 0 && (2 * p.y) % c.modulus() == 0 ==> p.y == 0,
    ensures
        c.spec_projective_add(p, c.spec_inverse(p)) == Ok::<Point, MathError>(identity_point()),
{
    if p.z != 0 {
        let m = c.modulus();
        let y = p.y as int;
        lemma_neg_residue(y, m);
        let q = c.spec_inverse(p);
        assert(q.z == 1);
        assert(p != identity_point());
        assert(q != identity_point());
        // Both projected x-values are the residue of p.x.
        assert(c.pa_v1(p, q) == (p.z * q.x) % m);
        assert(p.z * q.x == p.x as int) by (nonlinear_arith)
            requires
                p.z == 1,
                q.x == p.x,
        ;
        assert(p.x * q.z == p.x as int) by (nonlinear_arith)
            requires
                q.z == 1,
        ;
        assert(c.pa_v1(p, q) == c.pa_v2(p, q));
        // The projected y-values are the residues of -y and y.
        assert(p.z * q.y == q.y as int) by (nonlinear_arith)
            requires
                p.z == 1,
        ;
        assert(p.y * q.z == p.y as int) by (nonlinear_arith)
            requires
                q.z == 1,
        ;
        lemma_small_mod(q.y as nat, m as nat);
        lemma_small_mod(p.y as nat, m as nat);
        assert(c.pa_u1(p, q) == q.y as int);
        assert(c.pa_u2(p, q) == p.y as int);
        if p.y == 0 {
            assert(q.y == 0);
            assert(c.pa_u1(p, q) == c.pa_u2(p, q));
            assert(p.y as int % m == 0) by {
                lemma_small_mod(0nat, m as nat);
            };
        } else {
            // q.y == m - y; equality with y would force 2*y == m.
            if q.y as int == y {
                assert(2 * y == m);
                assert((2 * p.y) % m == 0) by {
                    vstd::arithmetic::div_mod::lemma_mod_self_0(m);
                };
                assert(false);
            }
            assert(c.pa_u1(p, q) != c.pa_u2(p, q));
        }
    }
}

} // verus!
