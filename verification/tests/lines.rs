//! Lines and bounded segments.

use plane_geometry::rat::Rat;
use plane_geometry::{Line, LineSegment, Point};

fn pt(x: i64, y: i64) -> Point {
    Point::from_ints(x, y)
}

fn rat(n: i64, d: i64) -> Rat {
    Rat::new(n, d).unwrap()
}

#[test]
fn line_through_two_points_contains_both() {
    let a = pt(0, 0);
    let b = pt(3, 7);
    let l = Line::new_through(a, b).unwrap();
    assert!(l.contains(a));
    assert!(l.contains(b));
    assert!(!l.contains(pt(1, 1)));
}

#[test]
fn line_through_equal_points_is_undefined() {
    assert!(Line::new_through(pt(2, 2), pt(2, 2)).is_none());
}

#[test]
fn line_construction_normalises_coefficients() {
    // normal (2, 4), offset 6 reduces to x + 2y + 3 = 0
    let l = Line::new(pt(2, 4), Rat::from_int(6)).unwrap();
    assert_eq!(l.a, 1);
    assert_eq!(l.b, 2);
    assert_eq!(l.c, 3);
}

#[test]
fn intersection_of_the_axes_is_the_origin() {
    let x_axis = Line::new(pt(0, 1), Rat::from_int(0)).unwrap();
    let y_axis = Line::new(pt(1, 0), Rat::from_int(0)).unwrap();
    let p = x_axis.intersect(y_axis).unwrap();
    assert!(p.eq_pt(pt(0, 0)));
}

#[test]
fn intersection_point_is_exact() {
    // y = x and x + y = 3 meet at (3/2, 3/2)
    let l1 = Line::new_through(pt(0, 0), pt(1, 1)).unwrap();
    let l2 = Line::new_through(pt(3, 0), pt(0, 3)).unwrap();
    let p = l1.intersect(l2).unwrap();
    assert!(p.eq_pt(Point::new(rat(3, 2), rat(3, 2)).unwrap()));
}

#[test]
fn parallel_lines_do_not_intersect() {
    let l1 = Line::new(pt(1, 0), Rat::from_int(0)).unwrap();
    let l2 = Line::new(pt(1, 0), Rat::from_int(-1)).unwrap();
    assert!(l1.intersect(l2).is_none());
    // coincident lines signal the same way
    assert!(l1.intersect(l1).is_none());
}

#[test]
fn side_signs_classify_the_half_planes() {
    let l = Line::new(pt(1, 0), Rat::from_int(0)).unwrap();  // x = 0
    assert_eq!(l.side_sign(pt(5, 2)), 1);
    assert_eq!(l.side_sign(pt(-5, 2)), -1);
    assert_eq!(l.side_sign(pt(0, 9)), 0);
    assert!(l.is_on_side(pt(5, 2), 1));
    assert!(!l.is_on_side(pt(5, 2), -1));
    assert!(l.is_on_side(pt(0, 9), 1));
    assert!(l.is_on_side(pt(0, 9), -1));
}

#[test]
fn closest_point_is_the_orthogonal_projection() {
    let l = Line::new(pt(0, 1), Rat::from_int(0)).unwrap();  // y = 0
    let q = l.closest_point(pt(4, 7)).unwrap();
    assert!(q.eq_pt(pt(4, 0)));
    assert!(l.contains(q));
}

#[test]
fn perpendicular_through_passes_through_the_point() {
    let l = Line::new_through(pt(0, 0), pt(1, 1)).unwrap();
    let p = pt(5, 0);
    let perp = l.perpendicular_through(p).unwrap();
    assert!(perp.contains(p));
    // orthogonal normals
    assert_eq!(perp.a as i128 * l.a as i128 + perp.b as i128 * l.b as i128, 0);
}

#[test]
fn segment_contains_is_exact() {
    let s = LineSegment::new(pt(0, 0), pt(4, 4));
    assert!(s.contains(pt(2, 2)));
    assert!(s.contains(pt(0, 0)));
    assert!(s.contains(pt(4, 4)));
    assert!(!s.contains(pt(5, 5)));
    assert!(!s.contains(pt(2, 1)));
    let half = Point::new(rat(1, 2), rat(1, 2)).unwrap();
    assert!(s.contains(half));
}

#[test]
fn on_strip_accepts_the_perpendicular_band() {
    let s = LineSegment::new(pt(0, 0), pt(10, 0));
    assert!(s.on_strip(pt(5, 3)));
    assert!(!s.on_strip(pt(15, 0)));
    assert!(s.on_strip(pt(0, -7)));
    assert!(!s.on_strip(pt(-1, 0)));
}

#[test]
fn mid_point_is_exact() {
    let s = LineSegment::new(pt(0, 0), pt(3, 5));
    let m = s.mid_point().unwrap();
    assert!(m.eq_pt(Point::new(rat(3, 2), rat(5, 2)).unwrap()));
}

#[test]
fn split_cuts_at_an_interior_crossing() {
    let s = LineSegment::new(pt(-2, 0), pt(2, 0));
    let cutter = Line::new(pt(1, 0), Rat::from_int(0)).unwrap();  // x = 0
    let pieces = s.split(cutter);
    assert_eq!(pieces.len(), 2);
    assert!(pieces[0].start.eq_pt(pt(-2, 0)));
    assert!(pieces[0].end.eq_pt(pt(0, 0)));
    assert!(pieces[1].start.eq_pt(pt(0, 0)));
    assert!(pieces[1].end.eq_pt(pt(2, 0)));
}

#[test]
fn split_leaves_a_missed_segment_whole() {
    let s = LineSegment::new(pt(1, 0), pt(2, 0));
    let cutter = Line::new(pt(1, 0), Rat::from_int(0)).unwrap();  // x = 0
    let pieces = s.split(cutter);
    assert_eq!(pieces.len(), 1);
    assert_eq!(pieces[0], s);
}

#[test]
fn segment_crop_keeps_the_piece_on_the_side() {
    let s = LineSegment::new(pt(-2, 0), pt(2, 0));
    let boundary = Line::new(pt(1, 0), Rat::from_int(0)).unwrap();
    let kept = s.crop_to_halfplane(boundary, 1).unwrap();
    assert!(kept.start.eq_pt(pt(0, 0)));
    assert!(kept.end.eq_pt(pt(2, 0)));
    let kept = s.crop_to_halfplane(boundary, -1).unwrap();
    assert!(kept.start.eq_pt(pt(-2, 0)));
    assert!(kept.end.eq_pt(pt(0, 0)));
}

#[test]
fn segment_crop_rejects_a_fully_excluded_segment() {
    let s = LineSegment::new(pt(1, 1), pt(2, 1));
    let boundary = Line::new(pt(0, 1), Rat::from_int(0)).unwrap();  // y = 0
    assert!(s.crop_to_halfplane(boundary, -1).is_none());
}

#[test]
fn reflecting_a_segment_over_the_diagonal_swaps_coordinates() {
    let s = LineSegment::new(pt(0, 0), pt(2, 0));
    let diagonal = Line::new_through(pt(0, 0), pt(1, 1)).unwrap();
    let t = s.reflect_over_line(diagonal).unwrap();
    assert!(t.start.eq_pt(pt(0, 0)));
    assert!(t.end.eq_pt(pt(0, 2)));
    // reflecting twice restores the segment
    let u = t.reflect_over_line(diagonal).unwrap();
    assert!(u.start.eq_pt(s.start));
    assert!(u.end.eq_pt(s.end));
}

#[test]
fn reflecting_a_segment_through_a_point_twice_restores_it() {
    let s = LineSegment::new(pt(1, 2), pt(3, 4));
    let o = pt(-1, 5);
    let t = s.reflect_over_point(o).unwrap();
    assert!(t.start.eq_pt(pt(-3, 8)));
    assert!(t.end.eq_pt(pt(-5, 6)));
    let u = t.reflect_over_point(o).unwrap();
    assert!(u.start.eq_pt(s.start));
    assert!(u.end.eq_pt(s.end));
}

#[test]
fn interpolate_position_walks_the_segment() {
    let s = LineSegment::new(pt(0, 0), pt(4, 0));
    let q = s.interpolate_position(rat(1, 1), rat(3, 1)).unwrap();
    assert!(q.eq_pt(pt(1, 0)));
    let q = s.interpolate_position(rat(0, 1).abs(), Rat::from_int(1)).unwrap();
    assert!(q.eq_pt(pt(0, 0)));
    let q = s.interpolate_position(Rat::from_int(1), Rat::new(0, 5).unwrap()).unwrap();
    assert!(q.eq_pt(pt(4, 0)));
}

#[test]
fn length_squared_is_exact() {
    let s = LineSegment::new(pt(0, 0), pt(3, 4));
    let l2 = s.length_squared().unwrap();
    assert!(l2.eq_val(Rat::from_int(25)));
}
