use curvemath::elliptic_curve_operations::CurveForm::ShortWeierstrass;
use curvemath::elliptic_curve_operations::{EllipticCurve, Point};
use curvemath::error::MathError;
use curvemath::modular_operations::Modular;

fn on_curve_points(e: &EllipticCurve, m: i64) -> Vec<Point> {
    let mut pts = vec![Point::new(0, 1, 0)];
    for x in 0..m {
        for y in 0..m {
            let p = Point::new(x, y, 1);
            if e.is_point_on_curve(p) {
                pts.push(p);
            }
        }
    }
    pts
}

#[test]
fn test_identity_laws() {
    // identity + P == P and P + identity == P for every on-curve P.
    let e = EllipticCurve::new(ShortWeierstrass, Modular(13), 8, 8);
    let id = Point::new(0, 1, 0);
    for p in on_curve_points(&e, 13) {
        assert_eq!(e.projective_add(id, p).unwrap(), p);
        assert_eq!(e.projective_add(p, id).unwrap(), p);
    }
}

#[test]
fn test_inverse_sum_law() {
    // P + (-P) == identity for every on-curve P, the identity included.
    let e = EllipticCurve::new(ShortWeierstrass, Modular(13), 8, 8);
    let id = Point::new(0, 1, 0);
    for p in on_curve_points(&e, 13) {
        let q = e.inverse(p).unwrap();
        assert_eq!(e.projective_add(p, q).unwrap(), id);
    }
}

#[test]
fn test_inverse_of_identity_is_identity() {
    let e = EllipticCurve::new(ShortWeierstrass, Modular(5), 1, 1);
    let id = Point::new(0, 1, 0);
    assert_eq!(e.inverse(id).unwrap(), id);
    assert_eq!(e.inverse(e.inverse(id).unwrap()).unwrap(), id);
    assert_eq!(e.projective_add(id, e.inverse(id).unwrap()).unwrap(), id);
}

#[test]
fn test_inverse_round_trip() {
    // inverse(inverse(P)) == P for every on-curve P.
    let e = EllipticCurve::new(ShortWeierstrass, Modular(13), 8, 8);
    for p in on_curve_points(&e, 13) {
        let q = e.inverse(p).unwrap();
        assert_eq!(e.inverse(q).unwrap(), p);
    }
}

#[test]
fn test_scalar_mult_at_zero() {
    // esm(P, 0) == identity for every on-curve P.
    let e = EllipticCurve::new(ShortWeierstrass, Modular(13), 8, 8);
    let id = Point::new(0, 1, 0);
    for p in on_curve_points(&e, 13) {
        assert_eq!(e.esm(p, 0).unwrap(), id);
    }
}

#[test]
fn test_scalar_mult_consistency() {
    // esm(P, k) equals k-fold repeated addition of P, for small k.
    let e = EllipticCurve::new(ShortWeierstrass, Modular(13), 8, 8);
    let p = Point::new(9, 4, 1);
    let mut repeated = Point::new(0, 1, 0);
    for k in 0..20i64 {
        assert_eq!(e.esm(p, k).unwrap(), repeated);
        repeated = e.projective_add(repeated, p).unwrap();
    }
}

#[test]
fn test_point_not_on_curve_errors() {
    let e = EllipticCurve::new(ShortWeierstrass, Modular(13), 8, 8);
    let off = Point::new(1, 1, 1);
    assert!(!e.is_point_on_curve(off));
    assert_eq!(e.inverse(off), Err(MathError::PointNotOnCurve));
    assert_eq!(e.esm(off, 3), Err(MathError::PointNotOnCurve));
}

#[test]
fn test_point_constructor_collapses() {
    // Any z other than one collapses to the canonical identity.
    assert_eq!(Point::new(3, 4, 2), Point::new(0, 1, 0));
    assert_eq!(Point::new(3, 4, 0), Point::new(0, 1, 0));
    let p = Point::new(3, 4, 1);
    assert_eq!((p.x, p.y, p.z), (3, 4, 1));
    assert!(Point::new(5, 5, 0).is_infinity());
    assert!(!p.is_infinity());
}

#[test]
fn test_projective_add_division_by_zero() {
    // Over a composite modulus the chord denominator can be congruent to
    // zero: v == 3 gives z == 27 == 0 (mod 9).
    let e = EllipticCurve::new(ShortWeierstrass, Modular(9), 0, 1);
    let p = Point::new(2, 3, 1);
    let q = Point::new(5, 3, 1);
    assert!(e.is_point_on_curve(p));
    assert!(e.is_point_on_curve(q));
    assert_eq!(e.projective_add(p, q), Err(MathError::DivisionByZero));
}

#[test]
fn test_projective_add_no_inverse() {
    // Doubling (1, 5) on y^2 = x^3 + 9 over 15 yields the denominator 10,
    // which shares a factor with the modulus.
    let e = EllipticCurve::new(ShortWeierstrass, Modular(15), 0, 9);
    let p = Point::new(1, 5, 1);
    assert!(e.is_point_on_curve(p));
    assert_eq!(e.projective_add(p, p), Err(MathError::NoInverse));
}
