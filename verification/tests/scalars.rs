//! Exact scalar and point arithmetic.

use plane_geometry::rat::Rat;
use plane_geometry::Point;

fn rat(n: i64, d: i64) -> Rat {
    Rat::new(n, d).unwrap()
}

#[test]
fn rational_sum_is_exact() {
    let a = rat(1, 2);
    let b = rat(1, 3);
    let s = a.add(b).unwrap();
    assert_eq!(s, rat(5, 6));
}

#[test]
fn rational_construction_reduces() {
    let r = rat(2, 4);
    assert_eq!(r.num, 1);
    assert_eq!(r.den, 2);
    let r = rat(-6, -4);
    assert_eq!(r.num, 3);
    assert_eq!(r.den, 2);
    let r = rat(6, -4);
    assert_eq!(r.num, -3);
    assert_eq!(r.den, 2);
}

#[test]
fn rational_division_and_order() {
    let a = rat(3, 4);
    let b = rat(1, 2);
    let q = a.div(b).unwrap();
    assert_eq!(q, rat(3, 2));
    assert!(b.lt(a));
    assert!(b.le(a));
    assert!(!a.le(b));
    assert!(a.eq_val(rat(6, 8)));
}

#[test]
fn rational_equality_ignores_representation() {
    let a = Rat { num: 1, den: 2 };
    let b = Rat { num: 2, den: 4 };
    assert!(a.eq_val(b));
    assert!(b.eq_val(a));
    assert!(!a.eq_val(Rat { num: 1, den: 3 }));
}

#[test]
fn point_arithmetic_is_exact() {
    let p = Point::from_ints(1, 2);
    let q = Point::new(rat(1, 2), rat(1, 3)).unwrap();
    let s = p.add(q).unwrap();
    let expect = Point::new(rat(3, 2), rat(7, 3)).unwrap();
    assert!(s.eq_pt(expect));
    let d = p.sub(q).unwrap();
    let expect = Point::new(rat(1, 2), rat(5, 3)).unwrap();
    assert!(d.eq_pt(expect));
    let dot = p.dot(q).unwrap();
    assert!(dot.eq_val(rat(7, 6)));
}

#[test]
fn reflecting_a_point_twice_through_a_point_restores_it() {
    let p = Point::from_ints(3, 4);
    let o = Point::from_ints(1, 1);
    let q = p.reflect_over_point(o).unwrap();
    assert!(q.eq_pt(Point::from_ints(-1, -2)));
    let r = q.reflect_over_point(o).unwrap();
    assert!(r.eq_pt(p));
}

#[test]
fn inverting_a_point_twice_in_a_circle_restores_it() {
    let c = plane_geometry::Circle::new(Point::from_ints(0, 0), Rat::from_int(1));
    let p = Point::from_ints(2, 0);
    let q = p.invert_over_circle(c).unwrap();
    assert!(q.eq_pt(Point::new(rat(1, 2), rat(0, 1)).unwrap()));
    let r = q.invert_over_circle(c).unwrap();
    assert!(r.eq_pt(p));
}

#[test]
fn inversion_is_undefined_at_the_centre() {
    let c = plane_geometry::Circle::new(Point::from_ints(3, 4), Rat::from_int(2));
    let p = Point::from_ints(3, 4);
    assert!(p.invert_over_circle(c).is_none());
}

#[test]
fn inversion_swaps_inside_and_outside() {
    let c = plane_geometry::Circle::new(Point::from_ints(0, 0), Rat::from_int(2));
    let p = Point::from_ints(8, 0);
    // image at r^2 / |p| = 4 / 8 = 1/2
    let q = p.invert_over_circle(c).unwrap();
    assert!(q.eq_pt(Point::new(rat(1, 2), rat(0, 1)).unwrap()));
}
