use elliptic_curves::curve::{EllipticCurve, Point};
use elliptic_curves::field::F;

fn curve7() -> EllipticCurve {
    EllipticCurve { a: F::new(7, 1), b: F::new(7, 1) }
}

fn finite_points(c: &EllipticCurve, p: u64) -> Vec<Point> {
    let mut pts = Vec::new();
    for x in 0..p {
        for y in 0..p {
            let pt = Point::Fini(F::new(p, x as i64), F::new(p, y as i64));
            if c.contient(pt) {
                pts.push(pt);
            }
        }
    }
    pts
}

#[test]
fn contient_concrete_points() {
    let c = curve7();
    assert!(c.contient(Point::Infini));
    assert!(c.contient(Point::Fini(F::new(7, 0), F::new(7, 1))));
    assert!(!c.contient(Point::Fini(F::new(7, 0), F::new(7, 2))));
}

#[test]
fn get_point_returns_smallest_ordinate() {
    let c = curve7();
    let pt = c.get_point(F::new(7, 0));
    assert_eq!(pt, Point::Fini(F::new(7, 0), F::new(7, 1)));
}

#[test]
fn get_point_without_ordinate_is_infinity() {
    let c = curve7();
    // x^3 + x + 1 at x = 1 is 3, which is not a square modulo 7.
    assert_eq!(c.get_point(F::new(7, 1)), Point::Infini);
}

#[test]
fn discriminant_mod_seven() {
    // -16 * (4 + 27) = -496 = 1 (mod 7)
    assert_eq!(curve7().discriminant(), F::new(7, 1));
}

#[test]
fn discriminant_mod_757() {
    // -16 * (4 * 70^3 + 27 * 17^2) = -16 * 1379803 = 300 (mod 757)
    let c = EllipticCurve { a: F::new(757, 70), b: F::new(757, 17) };
    assert_eq!(c.discriminant(), F::new(757, 300));
}

#[test]
fn infinity_is_identity() {
    let c = curve7();
    let mut pts = finite_points(&c, 7);
    pts.push(Point::Infini);
    for pt in pts {
        assert_eq!(c.add(pt, Point::Infini), pt);
        assert_eq!(c.add(Point::Infini, pt), pt);
    }
}

#[test]
fn opposite_points_add_to_infinity() {
    let c = curve7();
    for pt in finite_points(&c, 7) {
        if let Point::Fini(x, y) = pt {
            assert_eq!(c.add(pt, Point::Fini(x, y.neg())), Point::Infini);
        }
    }
}

#[test]
fn scalar_mul_matches_repeated_addition() {
    let c = curve7();
    let mut pts = finite_points(&c, 7);
    pts.push(Point::Infini);
    for pt in pts {
        assert_eq!(c.mul(pt, 0), Point::Infini);
        for k in 1u64..=10 {
            assert_eq!(c.mul(pt, k), c.add(c.mul(pt, k - 1), pt));
        }
    }
}

#[test]
fn group_law_is_closed() {
    let c = curve7();
    let mut pts = finite_points(&c, 7);
    pts.push(Point::Infini);
    for &p1 in &pts {
        for &p2 in &pts {
            assert!(c.contient(c.add(p1, p2)));
        }
    }
    for &pt in &pts {
        for k in 0u64..12 {
            assert!(c.contient(c.mul(pt, k)));
        }
    }
}

#[test]
fn doubling_stays_on_curve_and_orbit_terminates() {
    let c = curve7();
    let pt = Point::Fini(F::new(7, 0), F::new(7, 1));
    let doubled = c.add(pt, pt);
    assert!(c.contient(doubled));
    // the cyclic subgroup generated by pt reaches infinity within P + 1 steps
    let mut reached = false;
    for k in 1u64..=8 {
        if c.mul(pt, k) == Point::Infini {
            reached = true;
            break;
        }
    }
    assert!(reached);
}

#[test]
fn orbit_mod_757_stays_on_curve() {
    let c = EllipticCurve { a: F::new(757, 70), b: F::new(757, 17) };
    let pt = c.get_point(F::new(757, 0));
    assert!(c.contient(pt));
    assert!(matches!(pt, Point::Fini(_, _)));
    for k in 0u64..20 {
        assert!(c.contient(c.mul(pt, k)));
    }
}
