use vaabbit::solve::{
    overlaps_edge_circle, overlaps_edge_edge, overlaps_poly_circle, overlaps_poly_edge, overlaps_poly_poly, Edge,
};
use vaabbit::{point, Circle, AABB};

fn e(x0: i32, y0: i32, x1: i32, y1: i32) -> Edge {
    Edge { a: point(x0, y0), b: point(x1, y1) }
}

fn b(x0: i32, y0: i32, x1: i32, y1: i32) -> AABB {
    AABB::new(point(x0, y0), point(x1, y1))
}

#[test]
fn edges_that_cross() {
    assert!(overlaps_edge_edge(&e(0, 0, 10, 10), &e(0, 10, 10, 0)));
    assert!(overlaps_edge_edge(&e(0, 0, 10, 0), &e(10, -5, 10, 5)));
    assert!(!overlaps_edge_edge(&e(0, 0, 10, 0), &e(11, -5, 11, 5)));
    assert!(!overlaps_edge_edge(&e(0, 0, 10, 0), &e(0, 1, 10, 1)));
    assert!(!overlaps_edge_edge(&e(0, 0, 10, 0), &e(2, 0, 8, 0)));
    assert!(e(0, 0, 10, 10).overlaps_edge(&e(0, 10, 10, 0)));
}

#[test]
fn edge_and_circle() {
    let seg = e(0, 0, 10, 0);
    assert!(overlaps_edge_circle(&seg, &Circle { pos: point(5, 3), radius: 4 }));
    assert!(!overlaps_edge_circle(&seg, &Circle { pos: point(5, 3), radius: 3 }));
    assert!(overlaps_edge_circle(&seg, &Circle { pos: point(-3, 0), radius: 4 }));
    assert!(!overlaps_edge_circle(&seg, &Circle { pos: point(14, 3), radius: 5 }));
    assert!(overlaps_edge_circle(&seg, &Circle { pos: point(13, 4), radius: 6 }));
    assert!(seg.overlaps_circle(&Circle { pos: point(5, 3), radius: 4 }));
}

#[test]
fn box_sides_and_corners() {
    let a = b(0, 0, 4, 3);
    let sides = a.edges();
    assert_eq!(sides, vec![e(0, 0, 4, 0), e(4, 0, 4, 3), e(4, 3, 0, 3), e(0, 3, 0, 0)]);
    assert_eq!(a.vertices(), vec![point(0, 0), point(4, 0), point(4, 3), point(0, 3)]);
    assert_eq!(sides[0].perpendicular_dir(), (0, 4));
    assert_eq!(sides[1].perpendicular_dir(), (-3, 0));
}

#[test]
fn separating_axis_on_boxes() {
    assert!(overlaps_poly_poly(&b(0, 0, 10, 10), &b(5, 5, 15, 15)));
    assert!(overlaps_poly_poly(&b(0, 0, 10, 10), &b(10, 0, 20, 10)));
    assert!(!overlaps_poly_poly(&b(0, 0, 10, 10), &b(11, 0, 20, 10)));
    assert!(!overlaps_poly_poly(&b(0, 0, 10, 10), &b(0, 20, 10, 30)));
    assert!(overlaps_poly_poly(&b(0, 0, 10, 10), &b(2, 2, 3, 3)));
}

#[test]
fn box_against_segment_and_circle() {
    assert!(overlaps_poly_edge(&b(0, 0, 10, 10), &e(-5, 5, 5, 5)));
    assert!(!overlaps_poly_edge(&b(0, 0, 10, 10), &e(2, 5, 5, 5)));
    assert!(overlaps_poly_circle(&b(0, 0, 10, 10), &Circle { pos: point(12, 5), radius: 3 }));
    assert!(!overlaps_poly_circle(&b(0, 0, 10, 10), &Circle { pos: point(14, 5), radius: 3 }));
    assert!(overlaps_poly_circle(&b(0, 0, 100, 100), &Circle { pos: point(50, 50), radius: 1 }));
    assert!(!overlaps_poly_circle(&b(0, 0, 10, 10), &Circle { pos: point(11, 5), radius: 1 }));
    assert!(!overlaps_poly_circle(&b(0, 0, 10, 10), &Circle { pos: point(15, 5), radius: 5 }));
    assert!(overlaps_poly_circle(&b(0, 0, 10, 10), &Circle { pos: point(14, 5), radius: 5 }));
}

#[test]
fn edge_and_circle_far_from_the_origin() {
    let seg = e(-2_000_000_000, 0, 2_000_000_000, 0);
    assert!(overlaps_edge_circle(&seg, &Circle { pos: point(0, 10), radius: 11 }));
    assert!(!overlaps_edge_circle(&seg, &Circle { pos: point(0, 10), radius: 10 }));
    assert!(!overlaps_edge_circle(&e(i32::MIN, i32::MIN, i32::MAX, i32::MAX), &Circle { pos: point(i32::MIN, i32::MAX), radius: 5 }));
}
