use vaabbit::events::EventQueue;
use vaabbit::registry::Registry;
use vaabbit::world::{Deferred, World};
use vaabbit::{point, CollisionShape, TypedID, AABB, ID};

#[derive(Clone, Debug, PartialEq)]
struct Counter {
    n: i32,
    hits: Vec<TypedID>,
}

fn counter(n: i32) -> Counter {
    Counter { n, hits: Vec::new() }
}

type TestWorld = World<Counter, i32, u32>;

fn apply(e: &Counter, d: &Deferred<i32>) -> Counter {
    match d {
        Deferred::With { msg, .. } => Counter { n: e.n + msg, hits: e.hits.clone() },
        Deferred::Collision { other, .. } => {
            let mut hits = e.hits.clone();
            hits.push(*other);
            Counter { n: e.n, hits }
        },
    }
}

fn square(x0: i32, y0: i32, side: i32) -> CollisionShape {
    CollisionShape::AABB(AABB::new(point(x0, y0), point(x0 + side, y0 + side)))
}

#[test]
fn registry_keeps_insertion_order() {
    let mut r: Registry<&str> = Registry::new();
    let a = r.insert(7, "a");
    let b = r.insert(7, "b");
    let c = r.insert(7, "c");
    let other = r.insert(9, "z");
    assert_eq!(r.entities_of(7), vec![a, b, c]);
    assert_eq!(r.entities_of(9), vec![other]);
    assert_eq!(r.get(&a), Some(&"a"));
    assert_eq!(r.get(&b), Some(&"b"));
    assert_eq!(r.get(&c), Some(&"c"));
    assert_eq!(r.types, vec![7, 9]);
    assert_ne!(a, b);
    assert_ne!(a.index, b.index);
}

#[test]
fn registry_rejects_unknown_identities() {
    let mut r: Registry<&str> = Registry::new();
    let a = r.insert(1, "a");
    assert_eq!(r.get(&ID { index: a.index, type_tag: 2 }), None);
    assert_eq!(r.get(&ID { index: a.index ^ (1u64 << 40), type_tag: 1 }), None);
    assert_eq!(r.get(&ID { index: 12345, type_tag: 1 }), None);
    assert_eq!(r.replace(&a, "b"), Some("a"));
    assert_eq!(r.get(&a), Some(&"b"));
    assert_eq!(r.locate(&a), Some((0, 0)));
}

#[test]
fn world_iterates_three_in_order() {
    let mut w: TestWorld = World::new();
    let x = w.add_actor(1, counter(1));
    let y = w.add_actor(1, counter(2));
    let z = w.add_actor(1, counter(3));
    let ids = w.query_id(1);
    assert_eq!(ids, vec![x, y, z]);
    assert_eq!(w.get(&ids[0]).unwrap().n, 1);
    assert_eq!(w.get(&ids[1]).unwrap().n, 2);
    assert_eq!(w.get(&ids[2]).unwrap().n, 3);
}

#[test]
fn moving_onto_another_reports_one_collision() {
    let mut w: TestWorld = World::new();
    let a = w.add_actor_at(1, counter(0), point(0, 0), square(0, 0, 10));
    let bb = w.add_actor_at(1, counter(0), point(10, 10), square(0, 0, 10));
    let c = w.add_actor_at(2, counter(0), point(1000, 1000), square(0, 0, 10));
    w.set_pos(&a, point(5, 5));
    assert_eq!(w.get_pos(&a), point(5, 5));
    assert_eq!(w.deferred.len(), 1);
    match &w.deferred[0] {
        Deferred::Collision { target, other } => {
            assert_eq!(*target, a);
            assert_eq!(*other, TypedID::from_id(bb));
        },
        _ => panic!("expected a collision"),
    }
    let skipped = w.flush_events(apply);
    assert!(skipped.is_empty());
    assert_eq!(w.get(&a).unwrap().hits, vec![TypedID::from_id(bb)]);
    assert!(w.get(&bb).unwrap().hits.is_empty());
    assert!(w.get(&c).unwrap().hits.is_empty());
}

#[test]
fn move_by_adds_delta_and_skips_far_bodies() {
    let mut w: TestWorld = World::new();
    let a = w.add_actor(1, counter(0));
    let far = w.add_actor_at(1, counter(0), point(500, 500), square(0, 0, 32));
    assert_eq!(w.move_by(&a, &point(3, -4)), point(3, -4));
    assert_eq!(w.get_pos(&a), point(3, -4));
    assert!(w.deferred.is_empty());
    assert_eq!(w.move_by(&a, &point(480, 484)), point(483, 480));
    assert_eq!(w.deferred.len(), 1);
    w.finish_update();
    assert_eq!(w.get_pos(&far), point(500, 500));
    let all = w.physics.query(&AABB::new(point(-3000, -3000), point(3000, 3000)));
    assert_eq!(all.len(), 2);
}

#[test]
fn deferred_change_shows_only_after_flush() {
    let mut w: TestWorld = World::new();
    let x = w.add_actor(1, counter(10));
    let y = w.add_actor(2, counter(0));
    w.with(&x, 5);
    assert_eq!(w.get(&x).unwrap().n, 10);
    assert_eq!(w.get(&y).unwrap().n, 0);
    let skipped = w.flush_events(apply);
    assert!(skipped.is_empty());
    assert_eq!(w.get(&x).unwrap().n, 15);
    assert!(w.deferred.is_empty());
}

#[test]
fn deferred_change_to_unknown_entity_is_skipped() {
    let mut w: TestWorld = World::new();
    let x = w.add_actor(1, counter(1));
    let ghost = ID { index: 999, type_tag: 3 };
    w.with(&ghost, 1);
    w.with(&x, 2);
    w.with(&x, 3);
    let skipped = w.flush_events(apply);
    assert_eq!(skipped, vec![ghost]);
    assert_eq!(w.get(&x).unwrap().n, 6);
}

#[test]
fn emit_reaches_each_subscription_once() {
    let mut w: TestWorld = World::new();
    let e = w.add_actor(1, counter(0));
    let l = w.add_actor(2, counter(0));
    let m = w.add_actor(2, counter(0));
    w.subscribe(e, l, 4, 100);
    w.subscribe(e, m, 4, 200);
    w.subscribe(e, l, 5, 300);
    assert_eq!(w.emit(e, 4), vec![(l, 100), (m, 200)]);
    assert_eq!(w.emit(e, 5), vec![(l, 300)]);
    assert_eq!(w.emit(l, 4), vec![]);
    let mut q: EventQueue<u32> = EventQueue::new();
    q.subscribe(e, l, 4, 1);
    assert_eq!(q.get_listeners(e, 4), vec![(l, 1)]);
}

#[test]
fn update_pass_follows_registration_then_insertion_order() {
    let mut w: TestWorld = World::new();
    let b1 = w.add_actor(2, counter(0));
    let a1 = w.add_actor(1, counter(0));
    let b2 = w.add_actor(2, counter(0));
    let mut pass = w.begin_update();
    let mut order = Vec::new();
    while let Some(id) = w.next_update(&mut pass) {
        order.push(id);
    }
    assert_eq!(order, vec![b1, b2, a1]);
    let info = w.debug_get_tree();
    assert!(!info.is_empty());
}

#[test]
fn moving_reuses_body_slots_after_cleanup() {
    let mut w: TestWorld = World::new();
    let a = w.add_actor(1, counter(0));
    for _ in 0..10 {
        w.move_by(&a, &point(1, 1));
        w.finish_update();
    }
    assert_eq!(w.get_pos(&a), point(10, 10));
    assert!(w.physics.physics_bodies.len() <= 2);
    let hits = w.physics.query(&AABB::new(point(10, 10), point(11, 11)));
    assert_eq!(hits.len(), 1);
}

#[test]
fn query_lists_entities_of_a_type() {
    let mut w: TestWorld = World::new();
    w.add_actor(1, counter(4));
    w.add_actor(2, counter(5));
    w.add_actor(1, counter(6));
    let ns: Vec<i32> = w.query(1).iter().map(|e| e.n).collect();
    assert_eq!(ns, vec![4, 6]);
    assert!(w.query(9).is_empty());
    let t = TypedID::from_id(ID { index: 8, type_tag: 2 });
    assert_eq!(ID::from(t), ID { index: 8, type_tag: 2 });
    assert_eq!(t.is(2), Some(ID { index: 8, type_tag: 2 }));
    assert_eq!(t.is(3), None);
}

#[test]
fn moving_an_unknown_entity_changes_nothing() {
    let mut w: TestWorld = World::new();
    let a = w.add_actor(1, counter(0));
    let ghost = ID { index: 4242, type_tag: 1 };
    assert_eq!(w.move_by(&ghost, &point(5, 5)), point(0, 0));
    w.set_pos(&ghost, point(9, 9));
    assert!(w.deferred.is_empty());
    assert_eq!(w.get_pos(&a), point(0, 0));
    assert_eq!(w.physics.physics_bodies.len(), 1);
}

#[test]
fn update_pass_skips_types_without_entities() {
    let mut w: TestWorld = World::new();
    let x = w.add_actor(1, counter(0));
    w.registry.create_entry(5);
    w.physics.register_type(5);
    let y = w.add_actor(2, counter(0));
    let mut pass = w.begin_update();
    assert_eq!(w.next_update(&mut pass), Some(x));
    assert_eq!(w.next_update(&mut pass), Some(y));
    assert_eq!(pass.type_index, 3);
    assert_eq!(w.next_update(&mut pass), None);
}
