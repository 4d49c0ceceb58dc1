use vstd::prelude::*;
use crate::id::TypedID;
use crate::quadtree::{hits, QuadTree};
use crate::shapes::{AABB, Circle, CollisionShape, HasBounds, Point};

verus! {

broadcast use vstd::seq_lib::group_seq_lib_default;

/// The depth a rebuilt tree may split to.
pub const REBUILD_DEPTH: u8 = 12;

/// The size passed to the tree that cleanup rebuilds: it spans
/// `1.5 * REBUILD_EXTENT` from the origin in each direction.
pub const REBUILD_EXTENT: i32 = 2048;

/// The body index of an entity whose body was deleted.
pub const NO_BODY: usize = usize::MAX;

/// The depth the tree of a new physics layer may split to.
pub const INITIAL_DEPTH: u8 = 8;

/// `v` clamped to the range of `i32`.
pub open spec fn clamp32(v: int) -> i32 {
    if v < i32::MIN {
        i32::MIN
    } else if v > i32::MAX {
        i32::MAX
    } else {
        v as i32
    }
}

/// `a + b`, clamped to the range of `i32`.
pub fn clamp_add(a: i32, b: i64) -> (r: i32)
    requires
        -0x1_0000_0000 <= b <= 0x1_0000_0000,
    ensures
        r == clamp32(a + b),
{
    let v = a as i64 + b;
    if v < i32::MIN as i64 {
        i32::MIN
    } else if v > i32::MAX as i64 {
        i32::MAX
    } else {
        v as i32
    }
}

/// `s` moved by `p`, each coordinate clamped to the range of `i32`.
pub open spec fn placed(s: CollisionShape, p: Point) -> CollisionShape {
    match s {
        CollisionShape::AABB(b) => CollisionShape::AABB(
            AABB {
                min: Point { x: clamp32(b.min.x + p.x), y: clamp32(b.min.y + p.y) },
                max: Point { x: clamp32(b.max.x + p.x), y: clamp32(b.max.y + p.y) },
            },
        ),
        CollisionShape::CIRCLE(c) => CollisionShape::CIRCLE(
            Circle {
                pos: Point { x: clamp32(c.pos.x + p.x), y: clamp32(c.pos.y + p.y) },
                radius: c.radius,
            },
        ),
    }
}

/// The box around `s` moved by `p`, clamped to the range of `i32`.
pub open spec fn placed_bounds(s: CollisionShape, p: Point) -> AABB {
    match s {
        CollisionShape::AABB(b) => AABB {
            min: Point { x: clamp32(b.min.x + p.x), y: clamp32(b.min.y + p.y) },
            max: Point { x: clamp32(b.max.x + p.x), y: clamp32(b.max.y + p.y) },
        },
        CollisionShape::CIRCLE(c) => AABB {
            min: Point { x: clamp32(c.pos.x + p.x - c.radius), y: clamp32(c.pos.y + p.y - c.radius) },
            max: Point { x: clamp32(c.pos.x + p.x + c.radius), y: clamp32(c.pos.y + p.y + c.radius) },
        },
    }
}

fn place(s: &CollisionShape, p: Point) -> (r: CollisionShape)
    ensures
        r == placed(*s, p),
{
    match s {
        CollisionShape::AABB(b) => CollisionShape::AABB(
            AABB {
                min: Point { x: clamp_add(b.min.x, p.x as i64), y: clamp_add(b.min.y, p.y as i64) },
                max: Point { x: clamp_add(b.max.x, p.x as i64), y: clamp_add(b.max.y, p.y as i64) },
            },
        ),
        CollisionShape::CIRCLE(c) => CollisionShape::CIRCLE(
            Circle {
                pos: Point { x: clamp_add(c.pos.x, p.x as i64), y: clamp_add(c.pos.y, p.y as i64) },
                radius: c.radius,
            },
        ),
    }
}

fn place_bounds(s: &CollisionShape, p: Point) -> (r: AABB)
    ensures
        r == placed_bounds(*s, p),
{
    match s {
        CollisionShape::AABB(b) => AABB {
            min: Point { x: clamp_add(b.min.x, p.x as i64), y: clamp_add(b.min.y, p.y as i64) },
            max: Point { x: clamp_add(b.max.x, p.x as i64), y: clamp_add(b.max.y, p.y as i64) },
        },
        CollisionShape::CIRCLE(c) => {
            let r = c.radius as i64;
            AABB {
                min: Point {
                    x: clamp_add(c.pos.x, p.x as i64 - r),
                    y: clamp_add(c.pos.y, p.y as i64 - r),
                },
                max: Point {
                    x: clamp_add(c.pos.x, p.x as i64 + r),
                    y: clamp_add(c.pos.y, p.y as i64 + r),
                },
            }
        },
    }
}

/// Where a body is, the shape it collides with (relative to `pos`), and the
/// entity it belongs to.
#[derive(Clone, Copy, Debug, PartialEq, Eq, Structural)]
pub struct PhysicsData {
    pub pos: Point,
    pub body: Option<CollisionShape>,
    pub id: TypedID,
}

impl PhysicsData {
    /// The shape in world coordinates, if the body has one.
    pub open spec fn world_shape(self) -> Option<CollisionShape> {
        match self.body {
            Some(s) => Some(placed(s, self.pos)),
            None => None,
        }
    }

    pub fn shape_in_world(&self) -> (r: Option<CollisionShape>)
        ensures
            r == self.world_shape(),
    {
        match &self.body {
            Some(s) => Some(place(s, self.pos)),
            None => None,
        }
    }
}

impl HasBounds for PhysicsData {
    /// The box around the placed shape; a body without a shape is the point
    /// at `pos`.
    open spec fn bounds_spec(&self) -> AABB {
        match self.body {
            Some(s) => placed_bounds(s, self.pos),
            None => AABB { min: self.pos, max: self.pos },
        }
    }

    fn bounds(&self) -> (r: AABB) {
        match &self.body {
            Some(s) => place_bounds(s, self.pos),
            None => AABB { min: self.pos, max: self.pos },
        }
    }
}

/// A body of the physics layer.
#[derive(Clone, Copy, Debug, PartialEq, Eq, Structural)]
pub enum PhysicsBody {
    Actor(PhysicsData),
    Solid(PhysicsData),
    Zone(PhysicsData),
    Node,
}

impl PhysicsBody {
    pub open spec fn data_of(self) -> Option<PhysicsData> {
        match self {
            PhysicsBody::Actor(d) => Some(d),
            PhysicsBody::Solid(d) => Some(d),
            PhysicsBody::Zone(d) => Some(d),
            PhysicsBody::Node => None,
        }
    }

    pub fn data(&self) -> (r: Option<PhysicsData>)
        ensures
            r == self.data_of(),
    {
        match self {
            PhysicsBody::Actor(d) => Some(*d),
            PhysicsBody::Solid(d) => Some(*d),
            PhysicsBody::Zone(d) => Some(*d),
            PhysicsBody::Node => None,
        }
    }

    /// The same kind of body with its data replaced.
    pub open spec fn with_data_spec(self, d: PhysicsData) -> PhysicsBody {
        match self {
            PhysicsBody::Actor(_) => PhysicsBody::Actor(d),
            PhysicsBody::Solid(_) => PhysicsBody::Solid(d),
            PhysicsBody::Zone(_) => PhysicsBody::Zone(d),
            PhysicsBody::Node => PhysicsBody::Node,
        }
    }

    pub fn with_data(&self, d: PhysicsData) -> (r: PhysicsBody)
        ensures
            r == self.with_data_spec(d),
    {
        match self {
            PhysicsBody::Actor(_) => PhysicsBody::Actor(d),
            PhysicsBody::Solid(_) => PhysicsBody::Solid(d),
            PhysicsBody::Zone(_) => PhysicsBody::Zone(d),
            PhysicsBody::Node => PhysicsBody::Node,
        }
    }
}

impl HasBounds for PhysicsBody {
    open spec fn bounds_spec(&self) -> AABB {
        match self.data_of() {
            Some(d) => d.bounds_spec(),
            None => AABB { min: Point { x: 0, y: 0 }, max: Point { x: 0, y: 0 } },
        }
    }

    fn bounds(&self) -> (r: AABB) {
        match self {
            PhysicsBody::Actor(d) => d.bounds(),
            PhysicsBody::Solid(d) => d.bounds(),
            PhysicsBody::Zone(d) => d.bounds(),
            PhysicsBody::Node => AABB { min: Point { x: 0, y: 0 }, max: Point { x: 0, y: 0 } },
        }
    }
}

/// The bodies of one entity type: the body index of each entity, by the
/// entity's position in its store.
pub struct PhyysicsEntry {
    pub type_tag: u32,
    pub body_indices: Vec<usize>,
}

/// Bodies, the quadtree over them, and the bodies waiting to leave it.
pub struct Physics {
    pub physics_bodies: Vec<Option<PhysicsBody>>,
    pub entities: Vec<PhyysicsEntry>,
    pub tree: QuadTree<usize>,
    pub to_delete: Vec<usize>,
    pub owners: Vec<(usize, usize)>,
    pub free: Vec<usize>,
    /// The size the layer was created with.
    pub width: i32,
    pub height: i32,
}

impl Physics {
    /// Whether body `i` is live.
    pub open spec fn live(self, i: int) -> bool {
        0 <= i < self.physics_bodies@.len() && self.physics_bodies@[i].is_some()
    }

    pub open spec fn body(self, i: int) -> PhysicsBody {
        self.physics_bodies@[i].unwrap()
    }

    /// The body index of the entity at position `p` of type slot `t`.
    pub open spec fn index_of(self, t: int, p: int) -> int {
        self.entities@[t].body_indices@[p] as int
    }

    pub open spec fn wf(self) -> bool {
        &&& self.tree.wf()
        &&& 0 <= self.width <= 0x4000_0000
        &&& 0 <= self.height <= 0x4000_0000
        &&& self.owners@.len() == self.physics_bodies@.len()
        &&& self.tree_ok()
        &&& self.live_in_tree()
        &&& self.table_ok()
        &&& self.retired_ok()
        &&& self.free_ok()
        &&& self.slots_owned()
    }

    /// Every live slot is the body of the entity recorded as its owner, so
    /// live bodies are exactly the entities' bodies.
    pub open spec fn slots_owned(self) -> bool {
        forall|i: int| #[trigger] self.live(i) ==> {
            let (t, p) = self.owners@[i];
            &&& t < self.entities@.len()
            &&& p < self.entities@[t as int].body_indices@.len()
            &&& self.index_of(t as int, p as int) == i
        }
    }

    /// Each tree entry names a slot that is not free, and a live slot's
    /// entry carries the body's bounds.
    pub open spec fn tree_ok(self) -> bool {
        forall|e: (usize, AABB)| #[trigger] self.tree.elems().contains(e) ==> {
            &&& e.0 < self.physics_bodies@.len()
            &&& !self.free@.contains(e.0)
            &&& self.live(e.0 as int) ==> e.1 == self.body(e.0 as int).bounds_spec()
        }
    }

    /// How many tree entries equal `e`.
    pub open spec fn entries_of(self, e: (usize, AABB)) -> nat {
        self.tree.elems().to_multiset().count(e)
    }

    /// Every live body is in the tree exactly once, under its bounds.
    pub open spec fn live_in_tree(self) -> bool {
        forall|i: int| #[trigger] self.live(i) ==> self.entries_of((i as usize, self.body(i).bounds_spec())) == 1
    }

    /// Each entity's body index is either `NO_BODY` or a live slot that the
    /// entity alone owns.
    pub open spec fn table_ok(self) -> bool {
        forall|t: int, p: int|
            0 <= t < self.entities@.len() && 0 <= p < self.entities@[t].body_indices@.len() ==> {
                ||| #[trigger] self.index_of(t, p) == NO_BODY
                ||| (self.live(self.index_of(t, p)) && self.owners@[self.index_of(t, p)].0 == t
                    && self.owners@[self.index_of(t, p)].1 == p)
            }
    }

    /// Retired slots are dead.
    pub open spec fn retired_ok(self) -> bool {
        forall|k: int| 0 <= k < self.to_delete@.len() ==> {
            &&& #[trigger] self.to_delete@[k] < self.physics_bodies@.len()
            &&& !self.live(self.to_delete@[k] as int)
        }
    }

    /// Free slots are dead, distinct, out of the tree and not retired.
    pub open spec fn free_ok(self) -> bool {
        &&& forall|k: int| 0 <= k < self.free@.len() ==> {
            &&& #[trigger] self.free@[k] < self.physics_bodies@.len()
            &&& !self.live(self.free@[k] as int)
            &&& !self.to_delete@.contains(self.free@[k])
        }
        &&& forall|a: int, b: int| 0 <= a < self.free@.len() && 0 <= b < self.free@.len() && a != b
            ==> #[trigger] self.free@[a] != #[trigger] self.free@[b]
    }

    /// The live body of the entity at position `p` of type slot `t`.
    pub open spec fn body_of(self, t: int, p: int) -> Option<PhysicsBody> {
        if 0 <= t < self.entities@.len() && 0 <= p < self.entities@[t].body_indices@.len()
            && self.live(self.index_of(t, p)) {
            Some(self.body(self.index_of(t, p)))
        } else {
            None
        }
    }

    /// What a query over `q` reports: the live bodies among the tree's
    /// answers, in the tree's order.
    pub open spec fn query_spec(self, q: AABB) -> Seq<PhysicsBody> {
        self.tree.query_spec(q).filter(self.live_entry()).map_values(self.entry_body())
    }

    /// Keeps a tree entry whose body is live.
    pub open spec fn live_entry(self) -> spec_fn((usize, AABB)) -> bool {
        |e: (usize, AABB)| self.live(e.0 as int)
    }

    /// The body a tree entry names.
    pub open spec fn entry_body(self) -> spec_fn((usize, AABB)) -> PhysicsBody {
        |e: (usize, AABB)| self.body(e.0 as int)
    }

    /// A layer whose tree spans `size` in each direction from the origin,
    /// and half as much again.
    pub fn new(size: AABB) -> (r: Physics)
        requires
            0 <= size.max.x - size.min.x <= 0x4000_0000,
            0 <= size.max.y - size.min.y <= 0x4000_0000,
        ensures
            r.wf(),
            r.physics_bodies@ == Seq::<Option<PhysicsBody>>::empty(),
            r.entities@ == Seq::<PhyysicsEntry>::empty(),
            r.to_delete@ == Seq::<usize>::empty(),
            r.free@ == Seq::<usize>::empty(),
    {
        let (w, h) = size.size();
        let width = w as i32;
        let height = h as i32;
        Physics {
            physics_bodies: Vec::new(),
            entities: Vec::new(),
            tree: QuadTree::new(width, height, INITIAL_DEPTH),
            to_delete: Vec::new(),
            owners: Vec::new(),
            free: Vec::new(),
            width,
            height,
        }
    }

    /// Adds an empty body table for the type `tag`.
    pub fn register_type(&mut self, tag: u32)
        requires
            old(self).wf(),
        ensures
            final(self).wf(),
            final(self).physics_bodies@ == old(self).physics_bodies@,
            final(self).entities@.len() == old(self).entities@.len() + 1,
            forall|t: int| 0 <= t < old(self).entities@.len() ==> #[trigger] final(self).entities@[t] == old(self).entities@[t],
            final(self).entities@.last().body_indices@ == Seq::<usize>::empty(),
            final(self).entities@.last().type_tag == tag,
            final(self).tree == old(self).tree,
    {
        self.entities.push(PhyysicsEntry { type_tag: tag, body_indices: Vec::new() });
        proof {
            assert forall|t: int, p: int|
                0 <= t < self.entities@.len() && 0 <= p < self.entities@[t].body_indices@.len()
                    implies {
                ||| #[trigger] self.index_of(t, p) == NO_BODY
                ||| (self.live(self.index_of(t, p)) && self.owners@[self.index_of(t, p)].0 == t
                    && self.owners@[self.index_of(t, p)].1 == p)
            } by {
                assert(t < old(self).entities@.len());
                assert(old(self).index_of(t, p) == self.index_of(t, p));
            }
            self.lemma_same_slots(*old(self));
            assert forall|i: int| #[trigger] self.live(i) implies {
                let (t, p) = self.owners@[i];
                &&& t < self.entities@.len()
                &&& p < self.entities@[t as int].body_indices@.len()
                &&& self.index_of(t as int, p as int) == i
            } by {
                assert(old(self).live(i));
                let (t, p) = old(self).owners@[i];
                assert(old(self).index_of(t as int, p as int) == self.index_of(t as int, p as int));
            }
        }
    }

    /// The clauses that speak only of the slots, the tree and the lists hold
    /// when those are as in a well-formed `before`.
    proof fn lemma_same_slots(self, before: Physics)
        requires
            before.wf(),
            self.physics_bodies@ == before.physics_bodies@,
            self.tree == before.tree,
            self.to_delete@ == before.to_delete@,
            self.free@ == before.free@,
        ensures
            self.tree_ok(),
            self.live_in_tree(),
            self.retired_ok(),
            self.free_ok(),
    {
        assert forall|i: int| #[trigger] self.live(i) implies self.entries_of((i as usize, self.body(i).bounds_spec())) == 1 by {
            assert(before.live(i));
        }
        assert forall|e: (usize, AABB)| #[trigger] self.tree.elems().contains(e) implies {
            &&& e.0 < self.physics_bodies@.len()
            &&& !self.free@.contains(e.0)
            &&& self.live(e.0 as int) ==> e.1 == self.body(e.0 as int).bounds_spec()
        } by {
            assert(before.tree.elems().contains(e));
        }
        assert forall|k: int| 0 <= k < self.to_delete@.len() implies {
            &&& #[trigger] self.to_delete@[k] < self.physics_bodies@.len()
            &&& !self.live(self.to_delete@[k] as int)
        } by {
            assert(before.to_delete@[k] == self.to_delete@[k]);
        }
        assert forall|k: int| 0 <= k < self.free@.len() implies {
            &&& #[trigger] self.free@[k] < self.physics_bodies@.len()
            &&& !self.live(self.free@[k] as int)
            &&& !self.to_delete@.contains(self.free@[k])
        } by {
            assert(before.free@[k] == self.free@[k]);
        }
    }

    /// Takes a slot for `body`, owned by position `p` of type slot `t`: the
    /// last free slot if there is one, else a new slot at the end.
    fn take_slot(&mut self, body: PhysicsBody, t: usize, p: usize) -> (r: usize)
        requires
            old(self).wf(),
            old(self).physics_bodies@.len() < usize::MAX,
        ensures
            r <= old(self).physics_bodies@.len(),
            !old(self).live(r as int),
            !old(self).free@.contains(r) ==> r == old(self).physics_bodies@.len(),
            forall|e: (usize, AABB)| #[trigger] old(self).tree.elems().contains(e) ==> e.0 != r,
            !old(self).to_delete@.contains(r),
            final(self).physics_bodies@ == if r < old(self).physics_bodies@.len() {
                old(self).physics_bodies@.update(r as int, Some(body))
            } else {
                old(self).physics_bodies@.push(Some(body))
            },
            final(self).owners@ == if r < old(self).owners@.len() {
                old(self).owners@.update(r as int, (t, p))
            } else {
                old(self).owners@.push((t, p))
            },
            final(self).free@ == if r < old(self).physics_bodies@.len() {
                old(self).free@.drop_last()
            } else {
                old(self).free@
            },
            r < old(self).physics_bodies@.len() ==> old(self).free@.len() > 0 && r == old(self).free@.last(),
            final(self).tree == old(self).tree,
            final(self).entities@ == old(self).entities@,
            final(self).to_delete@ == old(self).to_delete@,
            final(self).width == old(self).width,
            final(self).height == old(self).height,
    {
        match self.free.pop() {
            Some(r) => {
                proof {
                    let k = old(self).free@.len() - 1;
                    assert(old(self).free@[k] == r);
                    assert(old(self).free@.contains(r));
                    assert forall|e: (usize, AABB)| #[trigger] old(self).tree.elems().contains(e) implies e.0 != r by {}
                }
                self.physics_bodies.set(r, Some(body));
                self.owners.set(r, (t, p));
                r
            },
            None => {
                let r = self.physics_bodies.len();
                proof {
                    assert forall|e: (usize, AABB)| #[trigger] old(self).tree.elems().contains(e) implies e.0 != r by {}
                    if old(self).to_delete@.contains(r) {
                        let k = choose|k: int| 0 <= k < old(self).to_delete@.len() && old(self).to_delete@[k] == r;
                        assert(old(self).to_delete@[k] < old(self).physics_bodies@.len());
                    }
                }
                self.physics_bodies.push(Some(body));
                self.owners.push((t, p));
                r
            },
        }
    }

    /// After `take_slot` gave slot `r` to `body`: the slots, the tree with the
    /// new entry, and the lists are in order again.
    proof fn lemma_after_take_slot(self, before: Physics, r: usize, body: PhysicsBody)
        requires
            before.wf(),
            r <= before.physics_bodies@.len(),
            !before.live(r as int),
            !before.free@.contains(r) ==> r == before.physics_bodies@.len(),
            forall|e: (usize, AABB)| #[trigger] before.tree.elems().contains(e) ==> e.0 != r,
            !before.to_delete@.contains(r),
            self.physics_bodies@ == if r < before.physics_bodies@.len() {
                before.physics_bodies@.update(r as int, Some(body))
            } else {
                before.physics_bodies@.push(Some(body))
            },
            self.free@ == if r < before.physics_bodies@.len() {
                before.free@.drop_last()
            } else {
                before.free@
            },
            r < before.physics_bodies@.len() ==> before.free@.len() > 0 && r == before.free@.last(),
            self.to_delete@ == before.to_delete@,
            self.tree.elems().to_multiset() =~= before.tree.elems().to_multiset().insert((r, body.bounds_spec())),
        ensures
            self.tree_ok(),
            self.live_in_tree(),
            self.retired_ok(),
            self.free_ok(),
            self.live(r as int),
            forall|i: int| #[trigger] self.live(i) == (before.live(i) || i == r),
            forall|i: int| 0 <= i < before.physics_bodies@.len() && i != r ==> #[trigger] self.physics_bodies@[i] == before.physics_bodies@[i],
    {
        lemma_contains_after_insert(before.tree.elems(), self.tree.elems(), (r, body.bounds_spec()));
        assert forall|i: int| #[trigger] self.live(i) == (before.live(i) || i == r) by {
            if 0 <= i < before.physics_bodies@.len() && i != r {
                assert(self.physics_bodies@[i] == before.physics_bodies@[i]);
            }
        }
        assert forall|x: usize| #[trigger] self.free@.contains(x) implies before.free@.contains(x) && x != r by {
            let k = choose|k: int| 0 <= k < self.free@.len() && self.free@[k] == x;
            assert(before.free@[k] == x);
            if x == r {
                assert(r < before.physics_bodies@.len());
                assert(before.free@[before.free@.len() - 1] == r);
            }
        }
        assert forall|e: (usize, AABB)| #[trigger] self.tree.elems().contains(e) implies {
            &&& e.0 < self.physics_bodies@.len()
            &&& !self.free@.contains(e.0)
            &&& self.live(e.0 as int) ==> e.1 == self.body(e.0 as int).bounds_spec()
        } by {
            if e != (r, body.bounds_spec()) {
                assert(before.tree.elems().contains(e));
                assert(e.0 != r);
            }
        }
        assert forall|i: int| #[trigger] self.live(i) implies self.entries_of((i as usize, self.body(i).bounds_spec())) == 1 by {
            broadcast use vstd::seq_lib::to_multiset_contains, vstd::multiset::group_multiset_axioms;
            if i != r {
                assert(before.live(i));
                assert(self.physics_bodies@[i] == before.physics_bodies@[i]);
                assert(before.entries_of((i as usize, self.body(i).bounds_spec())) == 1);
            } else {
                let e = (r, body.bounds_spec());
                assert(!before.tree.elems().contains(e));
                assert(before.tree.elems().to_multiset().count(e) == 0);
            }
        }
        assert forall|k: int| 0 <= k < self.to_delete@.len() implies {
            &&& #[trigger] self.to_delete@[k] < self.physics_bodies@.len()
            &&& !self.live(self.to_delete@[k] as int)
        } by {
            assert(before.to_delete@[k] == self.to_delete@[k]);
            assert(!before.live(before.to_delete@[k] as int));
            assert(before.to_delete@.contains(self.to_delete@[k]));
        }
        assert forall|k: int| 0 <= k < self.free@.len() implies {
            &&& #[trigger] self.free@[k] < self.physics_bodies@.len()
            &&& !self.live(self.free@[k] as int)
            &&& !self.to_delete@.contains(self.free@[k])
        } by {
            assert(before.free@[k] == self.free@[k]);
            assert(self.free@.contains(self.free@[k]));
        }
        assert forall|a: int, b: int| 0 <= a < self.free@.len() && 0 <= b < self.free@.len() && a != b
            implies #[trigger] self.free@[a] != #[trigger] self.free@[b] by {
            assert(before.free@[a] == self.free@[a]);
            assert(before.free@[b] == self.free@[b]);
        }
    }

    /// Stores `body` as the body of the next entity of type slot `t` and
    /// adds it to the tree under its bounds.
    pub fn add_body(&mut self, t: usize, body: PhysicsBody)
        requires
            old(self).wf(),
            t < old(self).entities@.len(),
            old(self).physics_bodies@.len() < usize::MAX,
        ensures
            final(self).wf(),
            final(self).entities@.len() == old(self).entities@.len(),
            forall|u: int| 0 <= u < old(self).entities@.len() && u != t
                ==> #[trigger] final(self).entities@[u] == old(self).entities@[u],
            final(self).entities@[t as int].type_tag == old(self).entities@[t as int].type_tag,
            final(self).entities@[t as int].body_indices@.len() == old(self).entities@[t as int].body_indices@.len() + 1,
            forall|u: int, p: int| 0 <= u < old(self).entities@.len() && 0 <= p < old(self).entities@[u].body_indices@.len()
                ==> #[trigger] final(self).body_of(u, p) == old(self).body_of(u, p),
            final(self).body_of(t as int, old(self).entities@[t as int].body_indices@.len() as int) == Some(body),
            final(self).physics_bodies@.len() <= old(self).physics_bodies@.len() + 1,
    {
        let bounds = body.bounds();
        let p = self.entities[t].body_indices.len();
        let idx = self.take_slot(body, t, p);
        let ghost mid = *self;
        self.tree.insert(idx, &bounds);
        self.entities[t].body_indices.push(idx);
        proof {
            self.lemma_after_take_slot(*old(self), idx, body);
            assert forall|u: int, q: int|
                0 <= u < self.entities@.len() && 0 <= q < self.entities@[u].body_indices@.len() implies {
                    ||| #[trigger] self.index_of(u, q) == NO_BODY
                    ||| (self.live(self.index_of(u, q)) && self.owners@[self.index_of(u, q)].0 == u
                        && self.owners@[self.index_of(u, q)].1 == q)
                } by {
                if u != t || q != p {
                    assert(old(self).index_of(u, q) == self.index_of(u, q));
                    if old(self).live(old(self).index_of(u, q)) {
                        assert(self.index_of(u, q) != idx);
                    }
                }
            }
            assert forall|u: int, q: int| 0 <= u < old(self).entities@.len() && 0 <= q < old(self).entities@[u].body_indices@.len()
                implies #[trigger] self.body_of(u, q) == old(self).body_of(u, q) by {
                let i = old(self).index_of(u, q);
                assert(i == self.index_of(u, q));
                if old(self).live(i) {
                    assert(i != idx);
                    assert(self.physics_bodies@[i] == old(self).physics_bodies@[i]);
                } else if i != idx && 0 <= i < old(self).physics_bodies@.len() {
                    assert(self.physics_bodies@[i] == old(self).physics_bodies@[i]);
                } else if i == idx {
                    assert(old(self).index_of(u, q) == NO_BODY);
                }
            }
        }
    }

    /// The live body of the entity at position `p` of type slot `t`.
    pub fn get_body(&self, t: usize, p: usize) -> (r: Option<&PhysicsBody>)
        requires
            self.wf(),
        ensures
            match r {
                Some(b) => self.body_of(t as int, p as int) == Some(*b),
                None => self.body_of(t as int, p as int).is_none(),
            },
    {
        if t < self.entities.len() && p < self.entities[t].body_indices.len() {
            let idx = self.entities[t].body_indices[p];
            if idx < self.physics_bodies.len() {
                match &self.physics_bodies[idx] {
                    Some(b) => Some(b),
                    None => None,
                }
            } else {
                None
            }
        } else {
            None
        }
    }

    /// Gives the entity at position `p` of type slot `t` the new `body`: the
    /// body takes a slot and goes into the tree afresh, and the old body is
    /// retired, its stale tree entry left until the next cleanup.
    pub fn update_body(&mut self, t: usize, p: usize, body: PhysicsBody)
        requires
            old(self).wf(),
            t < old(self).entities@.len(),
            p < old(self).entities@[t as int].body_indices@.len(),
            old(self).physics_bodies@.len() < usize::MAX,
        ensures
            final(self).wf(),
            final(self).entities@.len() == old(self).entities@.len(),
            forall|u: int| 0 <= u < old(self).entities@.len()
                ==> (#[trigger] final(self).entities@[u]).body_indices@.len() == old(self).entities@[u].body_indices@.len()
                    && final(self).entities@[u].type_tag == old(self).entities@[u].type_tag,
            forall|u: int, q: int| 0 <= u < old(self).entities@.len() && 0 <= q < old(self).entities@[u].body_indices@.len()
                && (u != t || q != p) ==> #[trigger] final(self).body_of(u, q) == old(self).body_of(u, q),
            final(self).body_of(t as int, p as int) == Some(body),
            final(self).physics_bodies@.len() <= old(self).physics_bodies@.len() + 1,
            old(self).index_of(t as int, p as int) != NO_BODY ==> {
                &&& final(self).to_delete@ == old(self).to_delete@.push(old(self).index_of(t as int, p as int) as usize)
                &&& !final(self).live(old(self).index_of(t as int, p as int))
            },
            old(self).index_of(t as int, p as int) == NO_BODY ==> final(self).to_delete@ == old(self).to_delete@,
    {
        let bounds = body.bounds();
        let old_idx = self.entities[t].body_indices[p];
        let new_idx = self.take_slot(body, t, p);
        self.entities[t].body_indices.set(p, new_idx);
        self.tree.insert(new_idx, &bounds);
        let ghost mid = *self;
        proof {
            mid.lemma_after_take_slot(*old(self), new_idx, body);
            assert(old(self).index_of(t as int, p as int) == old_idx);
            if old_idx != NO_BODY {
                assert(old(self).live(old_idx as int));
                assert(old_idx != new_idx);
            }
        }
        if old_idx < self.physics_bodies.len() {
            proof {
                assert(old_idx != NO_BODY);
            }
            self.physics_bodies.set(old_idx, None);
            self.to_delete.push(old_idx);
            proof {
                self.lemma_after_retire(mid, old_idx);
            }
        }
        proof {
            assert forall|u: int, q: int|
                0 <= u < self.entities@.len() && 0 <= q < self.entities@[u].body_indices@.len() implies {
                    ||| #[trigger] self.index_of(u, q) == NO_BODY
                    ||| (self.live(self.index_of(u, q)) && self.owners@[self.index_of(u, q)].0 == u
                        && self.owners@[self.index_of(u, q)].1 == q)
                } by {
                if u != t || q != p {
                    let i = old(self).index_of(u, q);
                    assert(i == self.index_of(u, q));
                    if old(self).live(i) {
                        assert(i != new_idx);
                        assert(i != old_idx);
                        assert(mid.live(i));
                    }
                } else {
                    assert(self.index_of(u, q) == new_idx);
                }
            }
            assert forall|u: int, q: int| 0 <= u < old(self).entities@.len() && 0 <= q < old(self).entities@[u].body_indices@.len()
                && (u != t || q != p) implies #[trigger] self.body_of(u, q) == old(self).body_of(u, q) by {
                let i = old(self).index_of(u, q);
                assert(i == self.index_of(u, q));
                if old(self).live(i) {
                    assert(i != new_idx);
                    assert(i != old_idx);
                    assert(self.physics_bodies@[i] == old(self).physics_bodies@[i]);
                } else {
                    assert(i == NO_BODY);
                }
            }
        }
    }

    /// After slot `k`, live and in the tree, is retired.
    proof fn lemma_after_retire(self, before: Physics, k: usize)
        requires
            before.tree_ok(),
            before.live_in_tree(),
            before.retired_ok(),
            before.free_ok(),
            before.live(k as int),
            self.physics_bodies@ == before.physics_bodies@.update(k as int, None),
            self.to_delete@ == before.to_delete@.push(k),
            self.tree == before.tree,
            self.free@ == before.free@,
        ensures
            self.tree_ok(),
            self.live_in_tree(),
            self.retired_ok(),
            self.free_ok(),
            forall|i: int| #[trigger] self.live(i) == (before.live(i) && i != k),
    {
        assert forall|i: int| #[trigger] self.live(i) == (before.live(i) && i != k) by {}
        assert forall|e: (usize, AABB)| #[trigger] self.tree.elems().contains(e) implies {
            &&& e.0 < self.physics_bodies@.len()
            &&& !self.free@.contains(e.0)
            &&& self.live(e.0 as int) ==> e.1 == self.body(e.0 as int).bounds_spec()
        } by {
            assert(before.tree.elems().contains(e));
        }
        assert forall|i: int| #[trigger] self.live(i) implies self.entries_of((i as usize, self.body(i).bounds_spec())) == 1 by {
            assert(before.live(i));
        }
        assert forall|j: int| 0 <= j < self.to_delete@.len() implies {
            &&& #[trigger] self.to_delete@[j] < self.physics_bodies@.len()
            &&& !self.live(self.to_delete@[j] as int)
        } by {
            if j < before.to_delete@.len() {
                assert(before.to_delete@[j] == self.to_delete@[j]);
            }
        }
        assert forall|j: int| 0 <= j < self.free@.len() implies {
            &&& #[trigger] self.free@[j] < self.physics_bodies@.len()
            &&& !self.live(self.free@[j] as int)
            &&& !self.to_delete@.contains(self.free@[j])
        } by {
            assert(before.free@[j] == self.free@[j]);
            assert(!before.live(before.free@[j] as int));
            if self.to_delete@.contains(self.free@[j]) {
                let m = choose|m: int| 0 <= m < self.to_delete@.len() && self.to_delete@[m] == self.free@[j];
                if m < before.to_delete@.len() {
                    assert(before.to_delete@[m] == self.free@[j]);
                    assert(before.to_delete@.contains(self.free@[j]));
                }
            }
        }
    }

    /// Retires the body of the entity at position `p` of type slot `t`; the
    /// entity is left with no body.
    pub fn delete_body(&mut self, t: usize, p: usize)
        requires
            old(self).wf(),
            t < old(self).entities@.len(),
            p < old(self).entities@[t as int].body_indices@.len(),
        ensures
            final(self).wf(),
            final(self).entities@.len() == old(self).entities@.len(),
            forall|u: int| 0 <= u < old(self).entities@.len()
                ==> (#[trigger] final(self).entities@[u]).body_indices@.len() == old(self).entities@[u].body_indices@.len()
                    && final(self).entities@[u].type_tag == old(self).entities@[u].type_tag,
            forall|u: int, q: int| 0 <= u < old(self).entities@.len() && 0 <= q < old(self).entities@[u].body_indices@.len()
                && (u != t || q != p) ==> #[trigger] final(self).body_of(u, q) == old(self).body_of(u, q),
            final(self).body_of(t as int, p as int).is_none(),
            final(self).physics_bodies@.len() == old(self).physics_bodies@.len(),
            old(self).index_of(t as int, p as int) != NO_BODY ==> {
                &&& final(self).to_delete@ == old(self).to_delete@.push(old(self).index_of(t as int, p as int) as usize)
                &&& !final(self).live(old(self).index_of(t as int, p as int))
            },
            old(self).index_of(t as int, p as int) == NO_BODY ==> final(self).to_delete@ == old(self).to_delete@,
    {
        let idx = self.entities[t].body_indices[p];
        self.entities[t].body_indices.set(p, NO_BODY);
        let ghost mid = *self;
        proof {
            assert(old(self).index_of(t as int, p as int) == idx);
            mid.lemma_same_slots(*old(self));
        }
        if idx < self.physics_bodies.len() {
            proof {
                assert(idx != NO_BODY);
                assert(old(self).live(idx as int));
            }
            self.physics_bodies.set(idx, None);
            self.to_delete.push(idx);
            proof {
                self.lemma_after_retire(mid, idx);
            }
        }
        proof {
            assert forall|u: int, q: int|
                0 <= u < self.entities@.len() && 0 <= q < self.entities@[u].body_indices@.len() implies {
                    ||| #[trigger] self.index_of(u, q) == NO_BODY
                    ||| (self.live(self.index_of(u, q)) && self.owners@[self.index_of(u, q)].0 == u
                        && self.owners@[self.index_of(u, q)].1 == q)
                } by {
                if u != t || q != p {
                    let i = old(self).index_of(u, q);
                    assert(i == self.index_of(u, q));
                    if old(self).live(i) {
                        assert(i != idx);
                    }
                }
            }
            assert forall|u: int, q: int| 0 <= u < old(self).entities@.len() && 0 <= q < old(self).entities@[u].body_indices@.len()
                && (u != t || q != p) implies #[trigger] self.body_of(u, q) == old(self).body_of(u, q) by {
                let i = old(self).index_of(u, q);
                assert(i == self.index_of(u, q));
                if old(self).live(i) {
                    assert(i != idx);
                    assert(self.physics_bodies@[i] == old(self).physics_bodies@[i]);
                } else {
                    assert(i == NO_BODY);
                }
            }
            assert forall|i: int| #[trigger] self.live(i) implies {
                let (t, p) = self.owners@[i];
                &&& t < self.entities@.len()
                &&& p < self.entities@[t as int].body_indices@.len()
                &&& self.index_of(t as int, p as int) == i
            } by {
                assert(old(self).live(i));
                let (t, p) = old(self).owners@[i];
                assert(old(self).index_of(t as int, p as int) == i);
                assert(old(self).index_of(t as int, p as int) == self.index_of(t as int, p as int));
            }
        }
    }

    /// The live bodies whose tree entries overlap `bounds`, in the tree's
    /// order; retired bodies still in the tree are skipped.
    pub fn query(&self, bounds: &AABB) -> (r: Vec<PhysicsBody>)
        requires
            self.wf(),
        ensures
            r@ == self.query_spec(*bounds),
    {
        let found = self.tree.query(bounds);
        let mut out: Vec<PhysicsBody> = Vec::new();
        let n = found.len();
        let mut i: usize = 0;
        while i < n
            invariant
                n == found@.len(),
                0 <= i <= n,
                out@ == found@.subrange(0, i as int).filter(self.live_entry()).map_values(self.entry_body()),
            decreases n - i,
        {
            let e = found[i];
            proof {
                assert(found@.subrange(0, i + 1) =~= found@.subrange(0, i as int).push(e));
                found@.subrange(0, i as int).lemma_filter_push(e, self.live_entry());
            }
            let ghost pre = found@.subrange(0, i as int).filter(self.live_entry());
            if e.0 < self.physics_bodies.len() {
                match &self.physics_bodies[e.0] {
                    Some(b) => {
                        proof {
                            assert(self.physics_bodies@[e.0 as int] == Some(*b));
                            assert(self.live(e.0 as int));
                            assert(self.live_entry()(e));
                            assert(self.entry_body()(e) == *b);
                            assert(pre.push(e).map_values(self.entry_body()) =~= pre.map_values(self.entry_body()).push(*b));
                        }
                        out.push(*b);
                    },
                    None => {
                        assert(!self.live_entry()(e));
                    },
                }
            } else {
                assert(!self.live_entry()(e));
            }
            i = i + 1;
        }
        proof {
            assert(found@.subrange(0, n as int) =~= found@);
        }
        out
    }

    /// Drops the retired bodies and rebuilds the tree from the live ones,
    /// splitting nodes as they fill; every dead slot becomes free for reuse.
    pub fn cleanup(&mut self)
        requires
            old(self).wf(),
        ensures
            final(self).wf(),
            final(self).physics_bodies@ == old(self).physics_bodies@,
            final(self).entities@ == old(self).entities@,
            final(self).to_delete@ == Seq::<usize>::empty(),
            forall|e: (usize, AABB)| #[trigger] final(self).tree.elems().contains(e) <==> (
                final(self).live(e.0 as int) && e.1 == final(self).body(e.0 as int).bounds_spec()),
            forall|e: (usize, AABB)| #[trigger] final(self).entries_of(e) == if final(self).live(e.0 as int)
                && e.1 == final(self).body(e.0 as int).bounds_spec() {
                1nat
            } else {
                0nat
            },
            forall|i: int| 0 <= i < final(self).physics_bodies@.len() && !final(self).live(i)
                ==> #[trigger] final(self).free@.contains(i as usize),
    {
        let nd = self.to_delete.len();
        let mut k: usize = 0;
        while k < nd
            invariant
                nd == self.to_delete@.len(),
                0 <= k <= nd,
                self.to_delete@ == old(self).to_delete@,
                self.physics_bodies@ == old(self).physics_bodies@,
                self.entities@ == old(self).entities@,
                self.owners@ == old(self).owners@,
                self.width == old(self).width,
                self.height == old(self).height,
                0 <= self.width <= 0x4000_0000,
                0 <= self.height <= 0x4000_0000,
                forall|j: int| 0 <= j < self.to_delete@.len() ==> {
                    &&& #[trigger] self.to_delete@[j] < self.physics_bodies@.len()
                    &&& !self.live(self.to_delete@[j] as int)
                },
            decreases nd - k,
        {
            let idx = self.to_delete[k];
            let ghost before = self.physics_bodies@;
            self.physics_bodies.set(idx, None);
            proof {
                assert(self.physics_bodies@ =~= before);
            }
            k = k + 1;
        }
        self.tree = QuadTree::new(REBUILD_EXTENT, REBUILD_EXTENT, REBUILD_DEPTH);
        proof {
            broadcast use vstd::seq_lib::to_multiset_contains;
            assert forall|e: (usize, AABB)| #[trigger] self.entries_of(e) == 0 by {
                assert(!self.tree.elems().contains(e));
            }
        }
        self.free.clear();
        self.to_delete.clear();
        let n = self.physics_bodies.len();
        let mut i: usize = 0;
        while i < n
            invariant
                n == self.physics_bodies@.len(),
                0 <= i <= n,
                self.physics_bodies@ == old(self).physics_bodies@,
                self.entities@ == old(self).entities@,
                self.owners@ == old(self).owners@,
                self.to_delete@ == Seq::<usize>::empty(),
                self.width == old(self).width,
                self.height == old(self).height,
                self.tree.wf(),
                forall|e: (usize, AABB)| #[trigger] self.tree.elems().contains(e) <==> (
                    e.0 < i && self.live(e.0 as int) && e.1 == self.body(e.0 as int).bounds_spec()),
                forall|e: (usize, AABB)| #[trigger] self.entries_of(e) == if e.0 < i && self.live(e.0 as int)
                    && e.1 == self.body(e.0 as int).bounds_spec() {
                    1nat
                } else {
                    0nat
                },
                forall|k: int| 0 <= k < self.free@.len() ==> #[trigger] self.free@[k] < i && !self.live(self.free@[k] as int),
                forall|a: int, b: int| 0 <= a < b < self.free@.len() ==> #[trigger] self.free@[a] < #[trigger] self.free@[b],
                forall|j: int| 0 <= j < i && !self.live(j) ==> #[trigger] self.free@.contains(j as usize),
            decreases n - i,
        {
            match &self.physics_bodies[i] {
                Some(b) => {
                    let ghost before = self.tree.elems();
                    let ghost pre = *self;
                    self.tree.insert_with_rebalance(i, b);
                    proof {
                        lemma_contains_after_insert(before, self.tree.elems(), (i, b.bounds_spec()));
                        assert forall|e: (usize, AABB)| #[trigger] self.entries_of(e) == if e.0 < i + 1 && self.live(e.0 as int)
                            && e.1 == self.body(e.0 as int).bounds_spec() {
                            1nat
                        } else {
                            0nat
                        } by {
                            assert(pre.entries_of(e) == if e.0 < i && pre.live(e.0 as int)
                                && e.1 == pre.body(e.0 as int).bounds_spec() { 1nat } else { 0nat });
                        }
                    }
                },
                None => {
                    let ghost pre = *self;
                    let ghost before = self.free@;
                    self.free.push(i);
                    proof {
                        assert forall|e: (usize, AABB)| #[trigger] self.entries_of(e) == if e.0 < i + 1 && self.live(e.0 as int)
                            && e.1 == self.body(e.0 as int).bounds_spec() {
                            1nat
                        } else {
                            0nat
                        } by {
                            assert(pre.entries_of(e) == if e.0 < i && pre.live(e.0 as int)
                                && e.1 == pre.body(e.0 as int).bounds_spec() { 1nat } else { 0nat });
                        }
                        assert forall|j: int| 0 <= j < i + 1 && !self.live(j) implies #[trigger] self.free@.contains(j as usize) by {
                            if j < i {
                                assert(!pre.live(j));
                                assert(pre.free@.contains(j as usize));
                                let m = choose|m: int| 0 <= m < before.len() && before[m] == j as usize;
                                assert(self.free@[m] == j as usize);
                            } else {
                                assert(self.free@[before.len() as int] == i);
                            }
                        }
                    }
                },
            }
            i = i + 1;
        }
        proof {
            assert forall|t: int, p: int|
                0 <= t < self.entities@.len() && 0 <= p < self.entities@[t].body_indices@.len() implies {
                    ||| #[trigger] self.index_of(t, p) == NO_BODY
                    ||| (self.live(self.index_of(t, p)) && self.owners@[self.index_of(t, p)].0 == t
                        && self.owners@[self.index_of(t, p)].1 == p)
                } by {
                assert(old(self).index_of(t, p) == self.index_of(t, p));
            }
            assert forall|j: int| #[trigger] self.live(j) implies self.entries_of((j as usize, self.body(j).bounds_spec())) == 1 by {
                assert((j as usize) as int == j);
            }
            assert forall|e: (usize, AABB)| #[trigger] self.tree.elems().contains(e) implies {
                &&& e.0 < self.physics_bodies@.len()
                &&& !self.free@.contains(e.0)
                &&& self.live(e.0 as int) ==> e.1 == self.body(e.0 as int).bounds_spec()
            } by {
                if self.free@.contains(e.0) {
                    let m = choose|m: int| 0 <= m < self.free@.len() && self.free@[m] == e.0;
                    assert(!self.live(self.free@[m] as int));
                }
            }
            assert forall|i: int| #[trigger] self.live(i) implies {
                let (t, p) = self.owners@[i];
                &&& t < self.entities@.len()
                &&& p < self.entities@[t as int].body_indices@.len()
                &&& self.index_of(t as int, p as int) == i
            } by {
                assert(old(self).live(i));
                let (t, p) = old(self).owners@[i];
                assert(old(self).index_of(t as int, p as int) == self.index_of(t as int, p as int));
            }
            assert forall|a: int, b: int| 0 <= a < self.free@.len() && 0 <= b < self.free@.len() && a != b
                implies #[trigger] self.free@[a] != #[trigger] self.free@[b] by {
                if a < b {
                    assert(self.free@[a] < self.free@[b]);
                } else {
                    assert(self.free@[b] < self.free@[a]);
                }
            }
        }
    }

    /// (bucket size, region) of every tree node, children before their parent.
    pub fn get_debug_info(&self) -> (r: Vec<(usize, AABB)>)
        ensures
            r@ == self.tree.root.nodes_post(),
    {
        self.tree.get_debug_info()
    }
}

/// Filtering keeps every copy of a value that the filter accepts.
pub proof fn lemma_filter_count<A>(s: Seq<A>, p: spec_fn(A) -> bool, x: A)
    requires
        p(x),
    ensures
        s.filter(p).to_multiset().count(x) == s.to_multiset().count(x),
    decreases s.len(),
{
    broadcast use vstd::seq_lib::group_to_multiset_ensures, vstd::multiset::group_multiset_axioms;
    if s.len() > 0 {
        let t = s.drop_last();
        lemma_filter_count(t, p, x);
        assert(s =~= t.push(s.last()));
        t.lemma_filter_push(s.last(), p);
    }
}

impl Physics {
    /// A live body whose bounds overlap the query region is in the tree's
    /// answer exactly once, so the broad phase reports it exactly once.
    pub proof fn lemma_live_body_found_once(self, q: AABB, i: int)
        requires
            self.wf(),
            self.live(i),
            self.body(i).bounds_spec().overlaps(q),
        ensures
            self.tree.query_spec(q).to_multiset().count((i as usize, self.body(i).bounds_spec())) == 1,
    {
        let e = (i as usize, self.body(i).bounds_spec());
        lemma_filter_count(self.tree.elems(), hits(q), e);
    }
}

proof fn lemma_contains_after_insert<A>(s1: Seq<A>, s2: Seq<A>, x: A)
    requires
        s2.to_multiset() =~= s1.to_multiset().insert(x),
    ensures
        forall|e: A| #[trigger] s2.contains(e) <==> (s1.contains(e) || e == x),
{
    broadcast use vstd::seq_lib::to_multiset_contains, vstd::multiset::group_multiset_axioms;
    assert forall|e: A| #[trigger] s2.contains(e) <==> (s1.contains(e) || e == x) by {
        assert(s2.to_multiset().count(e) == s1.to_multiset().insert(x).count(e));
        assert(s1.contains(e) <==> s1.to_multiset().count(e) > 0);
        assert(s2.contains(e) <==> s2.to_multiset().count(e) > 0);
    }
}

} // verus!
