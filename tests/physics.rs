use vaabbit::physics::{Physics, PhysicsBody, PhysicsData, NO_BODY};
use vaabbit::{point, CollisionShape, HasBounds, TypedID, AABB};

fn body(x: i32, y: i32, side: i32, index: u64) -> PhysicsBody {
    PhysicsBody::Solid(PhysicsData {
        pos: point(x, y),
        body: Some(CollisionShape::AABB(AABB::new(point(0, 0), point(side, side)))),
        id: TypedID { index, type_id: 0 },
    })
}

fn region() -> AABB {
    AABB::new(point(-100, -100), point(100, 100))
}

#[test]
fn body_bounds_follow_position() {
    assert_eq!(body(5, 6, 10, 0).bounds(), AABB::new(point(5, 6), point(15, 16)));
    assert_eq!(PhysicsBody::Node.bounds(), AABB::new(point(0, 0), point(0, 0)));
}

#[test]
fn deleted_body_is_gone_and_its_slot_reused() {
    let mut ph = Physics::new(region());
    ph.register_type(3);
    ph.add_body(0, body(0, 0, 10, 1));
    ph.add_body(0, body(50, 50, 10, 2));
    assert_eq!(ph.get_body(0, 0), Some(&body(0, 0, 10, 1)));
    ph.delete_body(0, 0);
    assert_eq!(ph.get_body(0, 0), None);
    assert_eq!(ph.entities[0].body_indices[0], NO_BODY);
    assert!(ph.query(&AABB::new(point(0, 0), point(5, 5))).is_empty());
    ph.cleanup();
    assert!(ph.to_delete.is_empty());
    ph.add_body(0, body(20, 20, 4, 3));
    assert_eq!(ph.physics_bodies.len(), 2);
    assert_eq!(ph.query(&AABB::new(point(21, 21), point(22, 22))), vec![body(20, 20, 4, 3)]);
    assert_eq!(ph.get_body(0, 1), Some(&body(50, 50, 10, 2)));
}

#[test]
fn update_body_moves_the_entry() {
    let mut ph = Physics::new(region());
    ph.register_type(3);
    ph.add_body(0, body(0, 0, 10, 1));
    ph.update_body(0, 0, body(40, 40, 10, 1));
    assert!(ph.query(&AABB::new(point(1, 1), point(2, 2))).is_empty());
    assert_eq!(ph.query(&AABB::new(point(45, 45), point(46, 46))).len(), 1);
    assert_eq!(ph.get_debug_info().len(), 1);
}
