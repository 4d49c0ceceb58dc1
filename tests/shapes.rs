use vaabbit::{point, Circle, CollisionShape, Point, AABB};

fn b(x0: i32, y0: i32, x1: i32, y1: i32) -> AABB {
    AABB::new(point(x0, y0), point(x1, y1))
}

#[test]
fn aabb_overlap_counts_touching_edges() {
    assert!(b(0, 0, 10, 10).overlaps_aabb(&b(10, 10, 20, 20)));
    assert!(b(0, 0, 10, 10).overlaps_aabb(&b(5, -5, 6, 20)));
    assert!(!b(0, 0, 10, 10).overlaps_aabb(&b(11, 0, 20, 10)));
    assert!(!b(0, 0, 10, 10).overlaps_aabb(&b(0, 11, 10, 20)));
}

#[test]
fn aabb_within_needs_both_corners_inside() {
    assert!(b(2, 2, 8, 8).is_within_aabb(&b(0, 0, 10, 10)));
    assert!(b(0, 0, 10, 10).is_within_aabb(&b(0, 0, 10, 10)));
    assert!(!b(2, 2, 11, 8).is_within_aabb(&b(0, 0, 10, 10)));
}

#[test]
fn aabb_union_perimeter_area() {
    let u = b(0, 0, 10, 10).union(&b(-5, 3, 4, 20));
    assert_eq!(u, b(-5, 0, 10, 20));
    assert_eq!(u.perimeter(), 2 * (15 + 20));
    assert_eq!(u.area(), 15 * 20);
    assert_eq!(u.size(), (15, 20));
}

#[test]
fn aabb_corners_and_center() {
    let a = b(0, 0, 10, 21);
    assert_eq!(a.center(), point(5, 10));
    assert_eq!(a.bottom_left(), point(0, 0));
    assert_eq!(a.bottom_right(), point(10, 0));
    assert_eq!(a.top_left(), point(0, 21));
    assert_eq!(a.top_right(), point(10, 21));
    assert_eq!(a.pos(), point(0, 0));
}

#[test]
fn aabb_from_pos_size_and_expand() {
    let a = AABB::from_pos_size(point(3, 4), point(10, 20));
    assert_eq!(a, b(3, 4, 13, 24));
    assert_eq!(a.expand(2), b(1, 2, 15, 26));
    let edge = b(i32::MIN, 0, i32::MAX, 1).expand(5);
    assert_eq!(edge, b(i32::MIN, -5, i32::MAX, 6));
}

#[test]
fn circle_overlaps() {
    let c = Circle { pos: point(0, 0), radius: 5 };
    assert!(c.overlaps_circle(&Circle { pos: point(9, 0), radius: 5 }));
    assert!(!c.overlaps_circle(&Circle { pos: point(10, 0), radius: 5 }));
    assert!(c.overlaps_aabb(&b(4, -1, 10, 1)));
    assert!(!c.overlaps_aabb(&b(4, 4, 10, 10)));
    assert!(c.overlaps_aabb(&b(-100, -100, 100, 100)));
    assert!(c.overlaps_aabb(&b(5, -1, 10, 1)));
    assert!(!c.overlaps_aabb(&b(6, -1, 10, 1)));
    assert!(!c.meets_aabb(&b(5, -1, 10, 1)));
    assert!(c.meets_aabb(&b(4, -1, 10, 1)));
    assert_eq!(c.bounds(), b(-5, -5, 5, 5));
    assert_eq!(c.diameter(), 10);
}

#[test]
fn collision_shape_overlap_and_bounds() {
    let sq = CollisionShape::AABB(b(0, 0, 10, 10));
    let ci = CollisionShape::CIRCLE(Circle { pos: point(14, 5), radius: 5 });
    let far = CollisionShape::CIRCLE(Circle { pos: point(30, 30), radius: 2 });
    assert!(sq.overlaps(&ci));
    assert!(ci.overlaps(&sq));
    assert!(!sq.overlaps(&far));
    assert_eq!(ci.bounds(), b(9, 0, 19, 10));
    let p: Point = point(1, 2);
    assert_eq!((p.x, p.y), (1, 2));
}

#[test]
fn shape_centroid_and_point() {
    let sq = CollisionShape::AABB(b(0, 0, 10, 20));
    let ci = CollisionShape::CIRCLE(Circle { pos: point(3, 4), radius: 5 });
    assert_eq!(sq.centroid(), point(5, 10));
    assert_eq!(ci.centroid(), point(3, 4));
    assert!(sq.overlaps_point(point(10, 20)));
    assert!(!sq.overlaps_point(point(11, 20)));
    assert!(ci.overlaps_point(point(0, 0)) == false);
    assert!(ci.overlaps_point(point(1, 1)));
}
