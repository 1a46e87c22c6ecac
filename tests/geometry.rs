use walknav::point::{point, vector, Point};
use walknav::polygon::Polygon;
use walknav::segment::{line_segment, LineSegment};

fn p(x: i32, y: i32) -> Point {
    point(x, y)
}

fn linesegments() -> Vec<(LineSegment, LineSegment, bool)> {
    vec![
        (line_segment(p(0, 0), p(2, 8)), line_segment(p(8, 0), p(0, 20)), false),
        (line_segment(p(0, 10), p(2, 0)), line_segment(p(10, 0), p(0, 5)), true),
        (line_segment(p(0, 0), p(0, 10)), line_segment(p(2, 0), p(2, 10)), false),
        (line_segment(p(0, 0), p(5, 5)), line_segment(p(2, 0), p(7, 5)), false),
        (line_segment(p(0, 0), p(5, 5)), line_segment(p(2, 2), p(7, 2)), true),
        (line_segment(p(0, 0), p(5, 5)), line_segment(p(7, 7), p(10, 10)), false),
        (line_segment(p(4, 0), p(6, 10)), line_segment(p(0, 3), p(10, 7)), true),
        (line_segment(p(0, 0), p(1, 1)), line_segment(p(1, 2), p(4, 5)), false),
    ]
}

#[test]
fn test_lineseg() {
    let line = line_segment(p(8, 3), p(4, 8));
    let points = line.points();
    assert_eq!(points.len(), 5);
}

#[test]
fn line_test_closest_point() {
    let l0 = line_segment(p(1, 1), p(4, 4));
    assert_eq!(l0.closest_point(p(1, 3)), p(2, 2));

    let l1 = line_segment(p(10, 10), p(40, 10));
    assert_eq!(l1.closest_point(p(20, 30)), p(20, 10));

    let l1 = line_segment(p(10, 10), p(40, 40));
    assert_eq!(l1.closest_point(p(30, 40)), p(35, 35));

    let l1 = line_segment(p(40, 40), p(10, 10));
    assert_eq!(l1.closest_point(p(30, 40)), p(35, 35));

    let l2 = line_segment(p(88, 1111), p(555, 22));
    assert_eq!(l2.closest_point(p(1234, 101)), p(555, 22));
}

#[test]
fn test_linesegment_crosses() {
    for (a, b, c) in linesegments() {
        assert_eq!(a.intersects(&b), c);
        assert_eq!(a.intersects2(&b).is_some(), c);
        assert_eq!(a.intersects3(&b), c);
    }
}

#[test]
fn test_line_ord() {
    let l1 = line_segment(p(10, 20), p(20, 30));
    let l2 = line_segment(p(10, 20), p(21, 31));
    assert!(l1 < l2);
}

#[test]
fn test_point_add() {
    assert_eq!(p(11, 11) + p(3, 0), vector(14, 11));
    assert_eq!(p(4, 1) + p(0, 10), vector(4, 11));
    assert_eq!(p(-4, 1) + p(0, -10), vector(-4, -9));
}

#[test]
fn test_polygon_edges() {
    let v = vec![p(5, 5), p(6, 6), p(7, 7), p(9, 15), p(13, 25)];
    let ls = Polygon::new(v);
    let ll = ls.edges();
    assert_eq!(ll[0].end, p(6, 6));
    assert_eq!(ll[1].end, p(7, 7));
    assert_eq!(ll.len(), 5);
    assert_eq!(ll[4], line_segment(p(13, 25), p(5, 5)));
}

#[test]
fn test_polygon_vertices() {
    let cv1 = p(25, 25);
    let cv2 = p(35, 35);
    let ls = Polygon::new(vec![p(5, 5), p(50, 5), cv1, p(50, 50), cv2, p(5, 50)]);
    assert_eq!(ls.concave_vertices(), vec![cv1, cv2]);

    let cv1 = p(3, 3);
    let ls = Polygon::new(vec![cv1, p(3, 1), p(10, 1), p(10, 10), p(1, 10), p(1, 3)]);
    assert_eq!(ls.concave_vertices(), vec![cv1]);
}

#[test]
fn segments_sharing_an_endpoint_do_not_cross() {
    let a = line_segment(p(0, 0), p(10, 10));
    for b in [
        line_segment(p(0, 0), p(10, 0)),
        line_segment(p(10, 10), p(0, 10)),
        line_segment(p(-5, 7), p(0, 0)),
        line_segment(p(20, 3), p(10, 10)),
    ] {
        assert!(!a.crosses(&b));
        assert!(!b.crosses(&a));
    }
}

#[test]
fn parallel_segments_do_not_cross() {
    let a = line_segment(p(0, 0), p(10, 5));
    let b = line_segment(p(0, 3), p(20, 13));
    assert!(!a.crosses(&b));
    let c = line_segment(p(2, 1), p(8, 4));
    assert!(!a.crosses(&c));
}

#[test]
fn proper_crossing_is_reported() {
    let a = line_segment(p(0, 0), p(10, 10));
    let b = line_segment(p(0, 10), p(10, 0));
    assert!(a.crosses(&b));
    let c = line_segment(p(0, 10), p(5, 5));
    assert!(!a.crosses(&c));
}

#[test]
fn closest_point_of_endpoints() {
    let s = line_segment(p(3, -7), p(-12, 40));
    assert_eq!(s.closest_point(p(3, -7)), p(3, -7));
    assert_eq!(s.closest_point(p(-12, 40)), p(-12, 40));
    let d = line_segment(p(5, 5), p(5, 5));
    assert_eq!(d.closest_point(p(9, 1)), p(5, 5));
}

#[test]
fn closest_point_clamps_before_start() {
    let s = line_segment(p(10, 0), p(20, 0));
    assert_eq!(s.closest_point(p(0, 5)), p(10, 0));
    assert_eq!(s.closest_point(p(14, 5)), p(14, 0));
}

#[test]
fn segment_length_is_fixed_point() {
    assert_eq!(line_segment(p(0, 0), p(3, 4)).length(), 5 * 65536);
    assert_eq!(line_segment(p(1, 1), p(1, 1)).length(), 0);
    // sqrt(2) * 65536 = 92681.9...
    assert_eq!(line_segment(p(0, 0), p(1, 1)).length(), 92681);
}

#[test]
fn vector_products() {
    let a = vector(1, 3);
    let b = vector(5, 9);
    assert_eq!(a.dot(b), 32);
    assert_eq!(a.cross(b), -6);
    assert_eq!(vector(8, 9).length_sq(), 145);
    assert_eq!(p(7, 2) - p(3, 5), vector(4, -3));
}

#[test]
fn raster_points_follow_the_segment() {
    let pts = line_segment(p(0, 0), p(4, 2)).points();
    assert_eq!(pts, vec![p(0, 0), p(1, 1), p(2, 1), p(3, 2)]);
    assert!(line_segment(p(3, 3), p(3, 3)).points().is_empty());
}

#[test]
fn convex_quadrilateral_has_no_concave_vertex() {
    let quad = Polygon::new(vec![p(0, 0), p(40, 5), p(50, 30), p(-5, 45)]);
    assert!(quad.concave_vertices().is_empty());
    assert_eq!(quad.convex_vertices().len(), 4);
}

#[test]
fn single_notch_gives_one_concave_vertex() {
    let notch = p(20, 15);
    let poly = Polygon::new(vec![p(0, 0), p(10, 0), notch, p(30, 0), p(40, 0), p(40, 40), p(0, 40)]);
    assert_eq!(poly.concave_vertices(), vec![notch]);
}

#[test]
fn intersection_point_is_rounded() {
    let a = line_segment(p(0, 0), p(10, 10));
    let b = line_segment(p(0, 10), p(10, 0));
    assert_eq!(a.intersects2(&b), Some(p(5, 5)));
    let c = line_segment(p(0, 0), p(0, 10));
    let d = line_segment(p(1, 0), p(1, 10));
    assert_eq!(c.intersects2(&d), None);
}

#[test]
fn line_coefficients() {
    let l = walknav::segment::line_through(p(1, 2), p(4, 6));
    assert_eq!((l.a, l.b, l.c), (4, -3, 2));
}

#[test]
fn half_plane_test_agrees_off_the_lines() {
    let pairs = [
        (line_segment(p(0, 0), p(2, 8)), line_segment(p(8, 0), p(0, 20))),
        (line_segment(p(0, 10), p(2, 0)), line_segment(p(10, 0), p(0, 5))),
        (line_segment(p(0, 0), p(5, 5)), line_segment(p(2, 0), p(7, 5))),
        (line_segment(p(4, 0), p(6, 10)), line_segment(p(0, 3), p(10, 7))),
        (line_segment(p(0, 0), p(1, 1)), line_segment(p(1, 2), p(4, 5))),
    ];
    for (a, b) in pairs {
        assert_eq!(a.intersects3(&b), a.crosses(&b));
    }
    // touching at an endpoint: the half-plane test reports it, crossing does not
    let a = line_segment(p(0, 0), p(5, 5));
    let b = line_segment(p(2, 2), p(7, 2));
    assert!(a.intersects3(&b));
    assert!(!a.crosses(&b));
}
