//! Polygons: winding, area, clipping, sanitisation, reflection and the
//! boundary adapters.

use plane_geometry::adapters::{polyline_edge_indices, triangle_fan_indices};
use plane_geometry::rat::Rat;
use plane_geometry::utils::{cross, num_integrate, signed_area, split_weight_function};
use plane_geometry::{Circle, Line, LineSegment, Point, Polygon};

fn pt(x: i64, y: i64) -> Point {
    Point::from_ints(x, y)
}

fn rat(n: i64, d: i64) -> Rat {
    Rat::new(n, d).unwrap()
}

fn square() -> Polygon {
    let verts = vec![pt(-1, -1), pt(1, -1), pt(1, 1), pt(-1, 1)];
    let tex = vec![pt(0, 0), pt(1, 0), pt(1, 1), pt(0, 1)];
    Polygon::new(verts, tex).unwrap()
}

fn has_vertex(p: &Polygon, v: Point) -> bool {
    p.vertices().iter().any(|q| q.eq_pt(v))
}

#[test]
fn winding_is_restored_for_clockwise_input() {
    // the ring below runs clockwise; construction must reverse it
    let verts = vec![pt(0, 0), pt(0, 2), pt(2, 2), pt(2, 0)];
    let tex = vec![pt(0, 0), pt(0, 1), pt(1, 1), pt(1, 0)];
    let p = Polygon::new(verts, tex).unwrap();
    let a = p.area().unwrap();
    assert!(a.eq_val(Rat::from_int(4)));
    assert!(a.num >= 0);
    // the texture ring was reversed in lockstep
    assert!(p.vertices()[0].eq_pt(pt(2, 0)));
    assert!(p.texture_coords()[0].eq_pt(pt(1, 0)));
}

#[test]
fn area_of_a_counter_clockwise_ring_is_kept() {
    let p = square();
    assert!(p.area().unwrap().eq_val(Rat::from_int(4)));
    assert_eq!(p.num_vertices(), 4);
    assert!(p.vertices()[0].eq_pt(pt(-1, -1)));
}

#[test]
fn area_never_comes_out_negative() {
    for ring in [
        vec![pt(0, 0), pt(5, 0), pt(5, 3), pt(0, 3)],
        vec![pt(0, 3), pt(5, 3), pt(5, 0), pt(0, 0)],
        vec![pt(7, 7), pt(9, 8), pt(8, 9)],
        vec![pt(8, 9), pt(9, 8), pt(7, 7)],
    ] {
        let tex = ring.clone();
        let p = Polygon::new(ring, tex).unwrap();
        assert!(p.area().unwrap().num >= 0);
    }
}

#[test]
fn border_walks_the_ring() {
    let p = square();
    let b = p.border();
    assert_eq!(b.len(), 4);
    assert!(b[0].start.eq_pt(pt(-1, -1)) && b[0].end.eq_pt(pt(1, -1)));
    assert!(b[3].start.eq_pt(pt(-1, 1)) && b[3].end.eq_pt(pt(-1, -1)));
}

#[test]
fn clipping_the_square_to_a_half_plane_gives_the_rectangle() {
    let p = square();
    let boundary = Line::new(pt(1, 0), Rat::from_int(0)).unwrap();  // x = 0
    let right = p.crop_to_halfplane(boundary, 1).unwrap();
    assert_eq!(right.num_vertices(), 4);
    for v in [pt(0, -1), pt(1, -1), pt(1, 1), pt(0, 1)] {
        assert!(has_vertex(&right, v));
    }
    assert!(right.area().unwrap().eq_val(Rat::from_int(2)));
}

#[test]
fn clip_pieces_partition_the_area() {
    let p = square();
    let boundary = Line::new(pt(1, 0), Rat::from_int(0)).unwrap();
    let right = p.crop_to_halfplane(boundary, 1).unwrap();
    let left = p.crop_to_halfplane(boundary, -1).unwrap();
    let sum = right.area().unwrap().add(left.area().unwrap()).unwrap();
    assert!(sum.eq_val(p.area().unwrap()));
}

#[test]
fn clip_vertices_stay_on_the_kept_side() {
    let p = square();
    // a slanted boundary through the interior: x + y = 1/2
    let boundary = Line::new(pt(2, 2), Rat::from_int(-1)).unwrap();
    let kept = p.crop_to_halfplane(boundary, 1).unwrap();
    for v in kept.vertices() {
        assert!(boundary.is_on_side(*v, 1));
    }
}

#[test]
fn clipping_away_the_whole_polygon_returns_nothing() {
    let p = square();
    let boundary = Line::new(pt(1, 0), Rat::from_int(-5)).unwrap();  // x = 5
    assert!(p.crop_to_halfplane(boundary, 1).is_none());
}

#[test]
fn clipping_with_an_exterior_boundary_keeps_everything() {
    let p = square();
    let boundary = Line::new(pt(1, 0), Rat::from_int(5)).unwrap();  // x = -5
    let kept = p.crop_to_halfplane(boundary, 1).unwrap();
    assert_eq!(kept.num_vertices(), 4);
    assert!(kept.area().unwrap().eq_val(Rat::from_int(4)));
}

#[test]
fn clip_inserts_interpolated_texture_coordinates() {
    // square with unit texture ring, cut at x = 0: the inserted boundary
    // vertices sit halfway along their edges in texture space too
    let p = square();
    let boundary = Line::new(pt(1, 0), Rat::from_int(0)).unwrap();
    let right = p.crop_to_halfplane(boundary, 1).unwrap();
    let vs = right.vertices();
    let ts = right.texture_coords();
    let half = Point::new(rat(1, 2), rat(0, 1)).unwrap();
    let half_top = Point::new(rat(1, 2), rat(1, 1)).unwrap();
    for i in 0..vs.len() {
        if vs[i].eq_pt(pt(0, -1)) {
            assert!(ts[i].eq_pt(half));
        }
        if vs[i].eq_pt(pt(0, 1)) {
            assert!(ts[i].eq_pt(half_top));
        }
    }
}

#[test]
fn sanitize_merges_a_close_vertex_pair() {
    let verts = vec![pt(0, 0), pt(10, 0), pt(10, 10), pt(0, 10), pt(0, 9)];
    let tex = verts.clone();
    let p = Polygon::new(verts, tex).unwrap();
    let q = p.sanitize_polynomial(Rat::from_int(2), rat(1, 2)).unwrap();
    assert_eq!(q.num_vertices(), 4);
    assert!(!has_vertex(&q, pt(0, 9)));
}

#[test]
fn sanitize_rejects_a_polygon_that_collapses() {
    let verts = vec![pt(0, 0), pt(1, 0), pt(0, 1)];
    let tex = verts.clone();
    let p = Polygon::new(verts, tex).unwrap();
    assert!(p.sanitize_polynomial(Rat::from_int(5), rat(1, 2)).is_none());
}

#[test]
fn sanitize_keeps_a_well_spaced_polygon_unchanged() {
    let p = square();
    let q = p.sanitize_polynomial(rat(1, 2), rat(1, 2)).unwrap();
    assert_eq!(q.num_vertices(), 4);
    assert!(q.area().unwrap().eq_val(Rat::from_int(4)));
}

#[test]
fn sanitize_rejects_a_sliver_below_the_area_threshold() {
    let verts = vec![pt(0, 0), pt(10, 0), pt(10, 1), pt(0, 1)];
    let tex = verts.clone();
    let p = Polygon::new(verts, tex).unwrap();
    // area 10 clears a threshold of 5 but not one of 20
    assert!(p.sanitize_polynomial(rat(1, 10), Rat::from_int(5)).is_some());
    assert!(p.sanitize_polynomial(rat(1, 10), Rat::from_int(20)).is_none());
}

#[test]
fn reflecting_a_polygon_over_a_line_maps_every_vertex() {
    let p = square();
    let diagonal = Line::new_through(pt(0, 0), pt(1, 1)).unwrap();
    let q = p.reflect_over_line(diagonal).unwrap();
    assert_eq!(q.num_vertices(), 4);
    // the square is symmetric in the diagonal: same vertex set
    for v in [pt(-1, -1), pt(1, -1), pt(1, 1), pt(-1, 1)] {
        assert!(has_vertex(&q, v));
    }
    assert!(q.area().unwrap().eq_val(Rat::from_int(4)));
}

#[test]
fn reflecting_a_polygon_twice_restores_the_vertices() {
    let verts = vec![pt(0, 0), pt(4, 0), pt(4, 2), pt(0, 3)];
    let tex = vec![pt(0, 0), pt(1, 0), pt(1, 1), pt(0, 1)];
    let p = Polygon::new(verts, tex).unwrap();
    let axis = Line::new_through(pt(7, 0), pt(7, 1)).unwrap();  // x = 7
    let once = p.reflect_over_line(axis).unwrap();
    for v in [pt(14, 0), pt(10, 0), pt(10, 2), pt(14, 3)] {
        assert!(has_vertex(&once, v));
    }
    let twice = once.reflect_over_line(axis).unwrap();
    assert_eq!(twice.num_vertices(), 4);
    for i in 0..4 {
        assert!(twice.vertices()[i].eq_pt(p.vertices()[i]));
        assert!(twice.texture_coords()[i].eq_pt(p.texture_coords()[i]));
    }
}

#[test]
fn reflecting_a_polygon_through_a_point_twice_restores_the_vertices() {
    let verts = vec![pt(0, 0), pt(4, 0), pt(4, 2), pt(0, 3)];
    let tex = vec![pt(0, 0), pt(1, 0), pt(1, 1), pt(0, 1)];
    let p = Polygon::new(verts, tex).unwrap();
    let o = pt(5, 5);
    let once = p.reflect_over_point(o).unwrap();
    for v in [pt(10, 10), pt(6, 10), pt(6, 8), pt(10, 7)] {
        assert!(has_vertex(&once, v));
    }
    let twice = once.reflect_over_point(o).unwrap();
    assert_eq!(twice.num_vertices(), 4);
    for i in 0..4 {
        assert!(twice.vertices()[i].eq_pt(p.vertices()[i]));
    }
}

#[test]
fn utility_cross_and_signed_area_agree_with_the_shoelace() {
    let c = cross(pt(2, 0), pt(0, 3)).unwrap();
    assert!(c.eq_val(Rat::from_int(6)));
    let ring = vec![pt(0, 0), pt(2, 0), pt(2, 2), pt(0, 2)];
    let a = signed_area(&ring).unwrap();
    assert!(a.eq_val(Rat::from_int(4)));
    let rev = vec![pt(0, 2), pt(2, 2), pt(2, 0), pt(0, 0)];
    let a = signed_area(&rev).unwrap();
    assert!(a.eq_val(Rat::from_int(-4)));
}

#[test]
fn weight_function_is_quantised_reciprocal_distance() {
    // distance 3: weight floor(64/3)/64 = 21/64
    let w = split_weight_function(pt(3, 0), pt(0, 0));
    assert!(w.eq_val(rat(21, 64)));
    // distance 1/200: weight exactly 200, matching 1/distance
    let p = Point::new(rat(1, 200), rat(0, 1)).unwrap();
    let w = split_weight_function(p, pt(0, 0));
    assert!(w.eq_val(Rat::from_int(200)));
    // within 1/300 of the centre the weight saturates to zero
    let p = Point::new(rat(1, 400), rat(0, 1)).unwrap();
    let w = split_weight_function(p, pt(0, 0));
    assert!(w.eq_val(rat(0, 1)));
    // and at the centre itself
    let w = split_weight_function(pt(0, 0), pt(0, 0));
    assert!(w.eq_val(rat(0, 1)));
}

#[test]
fn num_integrate_accumulates_the_weights() {
    let seg = LineSegment::new(pt(1, 0), pt(2, 0));
    let table = num_integrate(seg, 2, pt(0, 0)).unwrap();
    assert_eq!(table.len(), 3);
    assert!(table[0].eq_val(rat(0, 1)));
    // samples at (1, 0) and (3/2, 0): weights 1 and floor(2*64/3)/64
    assert!(table[1].eq_val(rat(1, 1)));
    assert!(table[2].eq_val(rat(53, 32)));
}

#[test]
fn triangle_fan_indices_cover_the_ring() {
    let idx = triangle_fan_indices(5);
    assert_eq!(idx, vec![0, 1, 2, 0, 2, 3, 0, 3, 4]);
}

#[test]
fn polyline_edges_close_the_ring() {
    let edges = polyline_edge_indices(4);
    assert_eq!(edges, vec![(0, 1), (1, 2), (2, 3), (3, 0)]);
}

#[test]
fn circle_accessors_hand_back_the_parts() {
    let c = Circle::new(pt(2, 3), rat(5, 2));
    assert!(c.center().eq_pt(pt(2, 3)));
    assert!(c.radius().eq_val(rat(5, 2)));
}

#[test]
fn segment_inversion_yields_a_chained_image() {
    let s = LineSegment::new(pt(2, 1), pt(3, 1));
    let c = Circle::new(pt(0, 0), Rat::from_int(1));
    let pieces = s.invert_over_circle(c).unwrap();
    // the image is a chain of short segments approximating the arc
    assert!(pieces.len() >= 2);
    for i in 0..pieces.len() - 1 {
        assert!(pieces[i].end.eq_pt(pieces[i + 1].start));
    }
    // the first image point is the inversion of the segment's start
    let inv_start = pt(2, 1).invert_over_circle(c).unwrap();
    assert!(pieces[0].start.eq_pt(inv_start));
}

#[test]
fn polygon_inversion_yields_a_resampled_image() {
    let verts = vec![pt(2, 1), pt(3, 1), pt(3, 2), pt(2, 2)];
    let tex = vec![pt(0, 0), pt(1, 0), pt(1, 1), pt(0, 1)];
    let p = Polygon::new(verts, tex).unwrap();
    let c = Circle::new(pt(0, 0), Rat::from_int(1));
    let q = p.invert_over_circle(c).unwrap();
    // a denser counter-clockwise ring inside the unit circle
    assert!(q.num_vertices() >= 4);
    assert!(q.num_vertices() <= 123);
    assert!(q.area().unwrap().num >= 0);
    let one = Rat::from_int(1);
    for v in q.vertices() {
        let d2 = v.dot(*v).unwrap();
        assert!(d2.lt(one));
    }
}
