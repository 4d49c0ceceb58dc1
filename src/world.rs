use vstd::prelude::*;
use crate::events::{reached, EventQueue};
use crate::id::{TypedID, ID};
use crate::physics::{clamp32, clamp_add, Physics, PhysicsBody, PhysicsData};
use crate::registry::{Registry, MAX_ENTITIES};
use crate::shapes::{AABB, CollisionShape, HasBounds, Point};

verus! {

broadcast use vstd::seq_lib::group_seq_lib_default;

/// The side of the square box a new actor collides with.
pub const ACTOR_SIZE: i32 = 32;

/// How far the world reaches from the origin along each axis.
pub const WORLD_EXTENT: i32 = 2048;

/// A change to one entity, queued while another entity updates and applied
/// once that update has returned.
pub enum Deferred<M> {
    /// Apply the user's message `msg` to `target`.
    With { target: ID, msg: M },
    /// Tell `target` that it ran into `other`.
    Collision { target: ID, other: TypedID },
}

impl<M> Deferred<M> {
    pub open spec fn target_spec(&self) -> ID {
        match self {
            Deferred::With { target, .. } => *target,
            Deferred::Collision { target, .. } => *target,
        }
    }

    pub fn target(&self) -> (r: ID)
        ensures
            r == self.target_spec(),
    {
        match self {
            Deferred::With { target, .. } => *target,
            Deferred::Collision { target, .. } => *target,
        }
    }
}

/// The target of an action.
pub open spec fn target_of_action<M>() -> spec_fn(Deferred<M>) -> ID {
    |d: Deferred<M>| d.target_spec()
}

/// Both bodies have shapes, and the shapes, placed in the world, overlap.
pub open spec fn bodies_overlap(a: PhysicsBody, b: PhysicsBody) -> bool {
    match (a.data_of(), b.data_of()) {
        (Some(x), Some(y)) => match (x.world_shape(), y.world_shape()) {
            (Some(s), Some(t)) => s.overlaps_spec(t),
            _ => false,
        },
        _ => false,
    }
}

/// `other` belongs to an entity other than `id`, and its shape overlaps the
/// shape of `mover`.
pub open spec fn collides_with(id: ID, mover: PhysicsBody) -> spec_fn(PhysicsBody) -> bool {
    |other: PhysicsBody|
        match other.data_of() {
            Some(d) => !(d.id.type_id == id.type_tag && d.id.index == id.index) && bodies_overlap(
                mover,
                other,
            ),
            None => false,
        }
}

/// The collision report, for `id`, of running into `other`.
pub open spec fn collision_with<M>(id: ID) -> spec_fn(PhysicsBody) -> Deferred<M> {
    |other: PhysicsBody| Deferred::Collision { target: id, other: other.data_of().unwrap().id }
}

/// The collision reports that `id`, now with body `mover`, gets from the
/// bodies `found` by the broad phase: one for each body of another entity
/// whose shape truly overlaps, in the order found.
pub open spec fn collision_events<M>(found: Seq<PhysicsBody>, id: ID, mover: PhysicsBody) -> Seq<Deferred<M>> {
    found.filter(collides_with(id, mover)).map_values(collision_with(id))
}

/// What applying action `a` with `f` does to its target: an entity that is
/// there becomes what `f` makes of it; an unknown target stays unknown.
pub open spec fn applied<E, M, F: Fn(&E, &Deferred<M>) -> E>(
    before: Registry<E>,
    after: Registry<E>,
    a: Deferred<M>,
    f: F,
) -> bool {
    match before.lookup(a.target_spec()) {
        Some(e) => after.lookup(a.target_spec()) is Some && call_ensures(
            f,
            (&e, &a),
            after.lookup(a.target_spec())->Some_0,
        ),
        None => after.lookup(a.target_spec()) is None,
    }
}

/// Keeps an action whose target `reg` does not hold.
pub open spec fn unknown_target<E, M>(reg: Registry<E>) -> spec_fn(Deferred<M>) -> bool {
    |d: Deferred<M>| reg.lookup(d.target_spec()) is None
}

/// `b` moved to `pos` and owned by `id`; a body without data stays as it is.
pub open spec fn relocated(b: PhysicsBody, id: ID, pos: Point) -> PhysicsBody {
    match b.data_of() {
        Some(d) => b.with_data_spec(
            PhysicsData { pos, body: d.body, id: TypedID { index: id.index, type_id: id.type_tag } },
        ),
        None => b,
    }
}

/// One step of a flush: action `a` applied to its target through `f`, every
/// other entity and every type's identities left as they were.
pub open spec fn flush_step<E, M, F: Fn(&E, &Deferred<M>) -> E>(
    before: Registry<E>,
    after: Registry<E>,
    a: Deferred<M>,
    f: F,
) -> bool {
    &&& applied(before, after, a, f)
    &&& forall|id: ID| id != a.target_spec() ==> #[trigger] after.lookup(id) == before.lookup(id)
    &&& forall|x: u32| #[trigger] after.ids_of(x) == before.ids_of(x)
}

/// `states` runs from `first` to `last`, each step applying the next action
/// of `actions` in order.
pub open spec fn flush_trace<E, M, F: Fn(&E, &Deferred<M>) -> E>(
    states: Seq<Registry<E>>,
    first: Registry<E>,
    last: Registry<E>,
    actions: Seq<Deferred<M>>,
    f: F,
) -> bool {
    &&& states.len() == actions.len() + 1
    &&& states[0] == first
    &&& states.last() == last
    &&& forall|k: int| 0 <= k < actions.len() ==> flush_step(#[trigger] states[k], states[k + 1], actions[k], f)
}

/// A queued change is seen only through the flush: queuing leaves the
/// registry as it is (see `World::with`), and a flush of that one change
/// leaves its target as `f` made it, every other entity untouched.
pub proof fn lemma_queued_change_seen_after_flush<E, M, F: Fn(&E, &Deferred<M>) -> E>(
    states: Seq<Registry<E>>,
    before: Registry<E>,
    after: Registry<E>,
    target: ID,
    msg: M,
    f: F,
)
    requires
        flush_trace(states, before, after, seq![Deferred::With { target, msg }], f),
        before.lookup(target) is Some,
    ensures
        after.lookup(target) is Some,
        call_ensures(f, (&before.lookup(target)->Some_0, &Deferred::With { target, msg }), after.lookup(target)->Some_0),
        forall|id: ID| id != target ==> #[trigger] after.lookup(id) == before.lookup(id),
{
    let a = Deferred::With { target, msg };
    assert(seq![a][0] == a);
    assert(flush_step(states[0], states[1], a, f));
    assert(states.last() == states[1]);
}

/// A body that carries data names `id` as its owner.
pub open spec fn owned_by(b: Option<PhysicsBody>, id: ID) -> bool {
    match b {
        Some(body) => match body.data_of() {
            Some(d) => d.id == (TypedID { index: id.index, type_id: id.type_tag }),
            None => true,
        },
        None => true,
    }
}

/// Mapping keeps the count of `f(x)` when no other element maps there.
proof fn lemma_map_count<A, B>(s: Seq<A>, f: spec_fn(A) -> B, x: A)
    requires
        forall|a: A| #[trigger] s.contains(a) && f(a) == f(x) ==> a == x,
    ensures
        s.map_values(f).to_multiset().count(f(x)) == s.to_multiset().count(x),
    decreases s.len(),
{
    broadcast use vstd::seq_lib::group_to_multiset_ensures, vstd::multiset::group_multiset_axioms;
    if s.len() > 0 {
        let t = s.drop_last();
        assert forall|a: A| #[trigger] t.contains(a) && f(a) == f(x) implies a == x by {
            let k = choose|k: int| 0 <= k < t.len() && t[k] == a;
            assert(s[k] == a);
            assert(s.contains(a));
        }
        lemma_map_count(t, f, x);
        assert(s =~= t.push(s.last()));
        assert(s.map_values(f) =~= t.map_values(f).push(f(s.last())));
        assert(s.contains(s.last()));
    }
}

fn overlap_bodies(a: &PhysicsBody, b: &PhysicsBody) -> (r: bool)
    ensures
        r == bodies_overlap(*a, *b),
{
    match (a.data(), b.data()) {
        (Some(x), Some(y)) => match (x.shape_in_world(), y.shape_in_world()) {
            (Some(s), Some(t)) => s.overlaps(&t),
            _ => false,
        },
        _ => false,
    }
}

/// Where an update pass stands: the next type to snapshot, the snapshot of
/// the type being updated, and the next position in it.
pub struct UpdatePass {
    pub type_index: usize,
    pub snapshot: Vec<ID>,
    pub pos: usize,
}

/// Entities with their bodies, the queue of deferred actions, and the event
/// subscriptions. `E` is the entity type, `M` the message type of deferred
/// actions, `H` the handler type of subscriptions.
pub struct World<E, M, H> {
    pub registry: Registry<E>,
    pub physics: Physics,
    pub deferred: Vec<Deferred<M>>,
    pub events: EventQueue<H>,
}

impl<E, M, H: Copy> World<E, M, H> {
    /// The registry and the physics layer agree type by type and entity by
    /// entity, and every entity has a live body.
    pub open spec fn wf(self) -> bool {
        &&& self.registry.wf()
        &&& self.physics.wf()
        &&& self.registry.types@.len() == self.physics.entities@.len()
        &&& forall|t: int| 0 <= t < self.registry.types@.len() ==> {
            &&& (#[trigger] self.physics.entities@[t]).type_tag == self.registry.types@[t]
            &&& self.physics.entities@[t].body_indices@.len() == self.registry.entries@[t].ids().len()
        }
        &&& forall|t: int, p: int|
            0 <= t < self.registry.types@.len() && 0 <= p < self.registry.entries@[t].ids().len()
                ==> (#[trigger] self.physics.body_of(t, p)) is Some
        &&& forall|t: int, p: int|
            0 <= t < self.registry.types@.len() && 0 <= p < self.registry.entries@[t].ids().len()
                ==> owned_by(#[trigger] self.physics.body_of(t, p), self.registry.entries@[t].ids()[p])
    }

    /// The position of `id` in its type's store.
    pub open spec fn position_of(self, id: ID) -> int {
        choose|p: int| 0 <= p < self.registry.ids_of(id.type_tag).len() && self.registry.ids_of(id.type_tag)[p] == id
    }

    /// The body of the entity `id`.
    pub open spec fn body_of_id(self, id: ID) -> Option<PhysicsBody> {
        if self.registry.ids_of(id.type_tag).contains(id) {
            self.physics.body_of(self.registry.slot_of(id.type_tag), self.position_of(id))
        } else {
            None
        }
    }

    pub fn new() -> (r: World<E, M, H>)
        ensures
            r.wf(),
            r.registry.types@ == Seq::<u32>::empty(),
            r.deferred@ == Seq::<Deferred<M>>::empty(),
            r.events.subscriptions@.len() == 0,
            r.physics.physics_bodies@ == Seq::<Option<PhysicsBody>>::empty(),
            r.physics.to_delete@ == Seq::<usize>::empty(),
    {
        let size = AABB {
            min: Point { x: -WORLD_EXTENT, y: -WORLD_EXTENT },
            max: Point { x: WORLD_EXTENT, y: WORLD_EXTENT },
        };
        World {
            registry: Registry::new(),
            physics: Physics::new(size),
            deferred: Vec::new(),
            events: EventQueue::new(),
        }
    }

    /// Adds `actor` as an entity of type `tag`, with a body at `pos` that
    /// collides with `shape`; the type is registered on first use.
    pub fn add_actor_at(&mut self, tag: u32, actor: E, pos: Point, shape: CollisionShape) -> (r: ID)
        requires
            old(self).wf(),
            old(self).registry.ids_of(tag).len() < MAX_ENTITIES,
            old(self).physics.physics_bodies@.len() < usize::MAX,
        ensures
            final(self).wf(),
            r.type_tag == tag,
            final(self).registry.types@ == if old(self).registry.registered(tag) {
                old(self).registry.types@
            } else {
                old(self).registry.types@.push(tag)
            },
            final(self).registry.ids_of(tag) == old(self).registry.ids_of(tag).push(r),
            forall|x: u32| x != tag ==> #[trigger] final(self).registry.ids_of(x) == old(self).registry.ids_of(x),
            final(self).registry.lookup(r) == Some(actor),
            forall|id: ID| id != r ==> #[trigger] final(self).registry.lookup(id) == old(self).registry.lookup(id),
            final(self).body_of_id(r) == Some(PhysicsBody::Actor(
                PhysicsData { pos, body: Some(shape), id: TypedID { index: r.index, type_id: tag } },
            )),
            final(self).deferred@ == old(self).deferred@,
            final(self).events == old(self).events,
            final(self).physics.physics_bodies@.len() <= old(self).physics.physics_bodies@.len() + 1,
    {
        let slot = match self.registry.type_slot(tag) {
            Some(t) => t,
            None => {
                let ghost before = *self;
                let t = self.registry.create_entry(tag);
                self.physics.register_type(tag);
                proof {
                    assert forall|u: int| 0 <= u < self.registry.types@.len() implies {
                        &&& (#[trigger] self.physics.entities@[u]).type_tag == self.registry.types@[u]
                        &&& self.physics.entities@[u].body_indices@.len() == self.registry.entries@[u].ids().len()
                    } by {
                        if u < before.registry.types@.len() {
                            assert(self.registry.ids_of(self.registry.types@[u]) == before.registry.ids_of(self.registry.types@[u]));
                            self.registry.lemma_slot_of(u);
                            before.registry.lemma_slot_of(u);
                        } else {
                            self.registry.lemma_slot_of(u);
                            assert(self.registry.ids_of(tag) == before.registry.ids_of(tag));
                        }
                    }
                    assert forall|u: int, p: int|
                        0 <= u < self.registry.types@.len() && 0 <= p < self.registry.entries@[u].ids().len()
                            implies (#[trigger] self.physics.body_of(u, p)) is Some by {
                        self.registry.lemma_slot_of(u);
                        if u < before.registry.types@.len() {
                            before.registry.lemma_slot_of(u);
                            assert(self.registry.ids_of(self.registry.types@[u]) == before.registry.ids_of(self.registry.types@[u]));
                            assert(self.physics.index_of(u, p) == before.physics.index_of(u, p));
                            assert(before.physics.body_of(u, p) is Some);
                        } else {
                            assert(self.registry.ids_of(tag) == before.registry.ids_of(tag));
                        }
                    }
                    assert forall|u: int, p: int|
                        0 <= u < self.registry.types@.len() && 0 <= p < self.registry.entries@[u].ids().len()
                            implies owned_by(#[trigger] self.physics.body_of(u, p), self.registry.entries@[u].ids()[p]) by {
                        self.registry.lemma_slot_of(u);
                        if u < before.registry.types@.len() {
                            before.registry.lemma_slot_of(u);
                            assert(self.registry.ids_of(self.registry.types@[u]) == before.registry.ids_of(self.registry.types@[u]));
                            assert(self.physics.index_of(u, p) == before.physics.index_of(u, p));
                            assert(owned_by(before.physics.body_of(u, p), before.registry.entries@[u].ids()[p]));
                        } else {
                            assert(self.registry.ids_of(tag) == before.registry.ids_of(tag));
                        }
                    }
                }
                t
            },
        };
        let ghost mid = *self;
        let id = self.registry.insert(tag, actor);
        let body = PhysicsBody::Actor(PhysicsData { pos, body: Some(shape), id: TypedID::from_id(id) });
        proof {
            mid.registry.lemma_slot_of(slot as int);
            self.registry.lemma_slot_of(slot as int);
        }
        let ghost mid2 = *self;
        self.physics.add_body(slot, body);
        proof {
            let p = mid.registry.ids_of(tag).len() as int;
            assert(self.registry.ids_of(tag)[p] == id);
            assert(self.registry.ids_of(tag).contains(id));
            assert(self.position_of(id) == p) by {
                let q = self.position_of(id);
                if q != p {
                    assert(self.registry.entries@[slot as int].entities@[q].index != self.registry.entries@[slot as int].entities@[p].index);
                }
            }
            assert forall|u: int| 0 <= u < self.registry.types@.len() implies {
                &&& (#[trigger] self.physics.entities@[u]).type_tag == self.registry.types@[u]
                &&& self.physics.entities@[u].body_indices@.len() == self.registry.entries@[u].ids().len()
            } by {
                self.registry.lemma_slot_of(u);
                mid.registry.lemma_slot_of(u);
                assert(mid.physics.entities@[u].type_tag == mid.registry.types@[u]);
                if u != slot {
                    assert(self.registry.ids_of(self.registry.types@[u]) == mid.registry.ids_of(self.registry.types@[u]));
                }
            }
            assert forall|u: int, q: int|
                0 <= u < self.registry.types@.len() && 0 <= q < self.registry.entries@[u].ids().len()
                    implies (#[trigger] self.physics.body_of(u, q)) is Some by {
                self.registry.lemma_slot_of(u);
                mid.registry.lemma_slot_of(u);
                if u != slot || q != p {
                    if u != slot {
                        assert(self.registry.ids_of(self.registry.types@[u]) == mid.registry.ids_of(self.registry.types@[u]));
                    }
                    assert(mid.physics.body_of(u, q) is Some);
                }
            }
            assert forall|u: int, q: int|
                0 <= u < self.registry.types@.len() && 0 <= q < self.registry.entries@[u].ids().len()
                    implies owned_by(#[trigger] self.physics.body_of(u, q), self.registry.entries@[u].ids()[q]) by {
                self.registry.lemma_slot_of(u);
                mid.registry.lemma_slot_of(u);
                if u != slot || q != p {
                    if u != slot {
                        assert(self.registry.ids_of(self.registry.types@[u]) == mid.registry.ids_of(self.registry.types@[u]));
                    } else {
                        assert(self.registry.ids_of(tag)[q] == mid.registry.ids_of(tag)[q]);
                    }
                    assert(owned_by(mid.physics.body_of(u, q), mid.registry.entries@[u].ids()[q]));
                }
            }
        }
        id
    }

    /// Adds `actor` as an entity of type `tag`, with a square body of side
    /// `ACTOR_SIZE` at the origin.
    pub fn add_actor(&mut self, tag: u32, actor: E) -> (r: ID)
        requires
            old(self).wf(),
            old(self).registry.ids_of(tag).len() < MAX_ENTITIES,
            old(self).physics.physics_bodies@.len() < usize::MAX,
        ensures
            final(self).wf(),
            r.type_tag == tag,
            final(self).registry.ids_of(tag) == old(self).registry.ids_of(tag).push(r),
            forall|x: u32| x != tag ==> #[trigger] final(self).registry.ids_of(x) == old(self).registry.ids_of(x),
            final(self).registry.lookup(r) == Some(actor),
            forall|id: ID| id != r ==> #[trigger] final(self).registry.lookup(id) == old(self).registry.lookup(id),
            final(self).body_of_id(r) == Some(PhysicsBody::Actor(
                PhysicsData {
                    pos: Point { x: 0, y: 0 },
                    body: Some(CollisionShape::AABB(AABB {
                        min: Point { x: 0, y: 0 },
                        max: Point { x: ACTOR_SIZE, y: ACTOR_SIZE },
                    })),
                    id: TypedID { index: r.index, type_id: tag },
                },
            )),
            final(self).deferred@ == old(self).deferred@,
            final(self).events == old(self).events,
            final(self).registry.types@ == if old(self).registry.registered(tag) {
                old(self).registry.types@
            } else {
                old(self).registry.types@.push(tag)
            },
            final(self).physics.physics_bodies@.len() <= old(self).physics.physics_bodies@.len() + 1,
    {
        let shape = CollisionShape::AABB(AABB {
            min: Point { x: 0, y: 0 },
            max: Point { x: ACTOR_SIZE, y: ACTOR_SIZE },
        });
        self.add_actor_at(tag, actor, Point { x: 0, y: 0 }, shape)
    }

    /// The entity `id`; nothing for an identity the world never issued.
    pub fn get(&self, id: &ID) -> (r: Option<&E>)
        requires
            self.wf(),
        ensures
            match r {
                Some(e) => self.registry.lookup(*id) == Some(*e),
                None => self.registry.lookup(*id).is_none(),
            },
    {
        self.registry.get(id)
    }

    /// The identities of type `tag`, in insertion order.
    pub fn query_id(&self, tag: u32) -> (r: Vec<ID>)
        requires
            self.wf(),
        ensures
            r@ == self.registry.ids_of(tag),
    {
        self.registry.entities_of(tag)
    }

    /// The entities of type `tag`, in insertion order.
    pub fn query(&self, tag: u32) -> (r: Vec<&E>)
        requires
            self.wf(),
        ensures
            r@.len() == self.registry.ids_of(tag).len(),
            forall|i: int| 0 <= i < r@.len() ==> self.registry.lookup(self.registry.ids_of(tag)[i]) == Some(*#[trigger] r@[i]),
    {
        let ids = self.registry.entities_of(tag);
        let mut out: Vec<&E> = Vec::new();
        let n = ids.len();
        let mut i: usize = 0;
        while i < n
            invariant
                self.wf(),
                ids@ == self.registry.ids_of(tag),
                n == ids@.len(),
                0 <= i <= n,
                out@.len() == i,
                forall|k: int| 0 <= k < i ==> self.registry.lookup(ids@[k]) == Some(*#[trigger] out@[k]),
            decreases n - i,
        {
            let id = ids[i];
            proof {
                assert(ids@.contains(id));
                self.lemma_live_lookup(id, tag, i as int);
            }
            match self.registry.get(&id) {
                Some(e) => out.push(e),
                None => {
                    assert(false);
                },
            }
            i = i + 1;
        }
        out
    }

    /// Every listed identity of a type resolves.
    proof fn lemma_live_lookup(self, id: ID, tag: u32, i: int)
        requires
            self.wf(),
            0 <= i < self.registry.ids_of(tag).len(),
            self.registry.ids_of(tag)[i] == id,
        ensures
            self.registry.lookup(id) is Some,
    {
        self.registry.lemma_listed_resolves(tag, i);
    }

    /// Queues `msg` for `id`; it takes effect at the next flush, and the
    /// entities stay as they are until then.
    pub fn with(&mut self, id: &ID, msg: M)
        ensures
            final(self).deferred@ == old(self).deferred@.push(Deferred::With { target: *id, msg }),
            final(self).registry == old(self).registry,
            final(self).physics == old(self).physics,
            final(self).events == old(self).events,
    {
        self.deferred.push(Deferred::With { target: *id, msg });
    }

    /// Where `id` is stored, with the facts that tie it to `body_of_id`.
    fn locate_live(&self, id: &ID) -> (r: (usize, usize))
        requires
            self.wf(),
            self.registry.lookup(*id) is Some,
        ensures
            r.0 < self.registry.types@.len(),
            r.0 == self.registry.slot_of(id.type_tag),
            r.1 < self.registry.entries@[r.0 as int].ids().len(),
            r.1 == self.position_of(*id),
            self.registry.entries@[r.0 as int].ids()[r.1 as int] == *id,
            self.body_of_id(*id) == self.physics.body_of(r.0 as int, r.1 as int),
            self.body_of_id(*id) is Some,
    {
        match self.registry.locate(id) {
            Some((t, p)) => {
                proof {
                    assert(self.registry.ids_of(id.type_tag).contains(*id));
                    let q = self.position_of(*id);
                    self.registry.lemma_position_unique(*id, p as int, q);
                }
                (t, p)
            },
            None => {
                assert(false);
                (0, 0)
            },
        }
    }

    /// Gives `id` the body `new_body`, then queues a collision report for
    /// each body of another entity that the broad phase finds around the
    /// new bounds and whose shape truly overlaps.
    fn relocate(&mut self, id: &ID, t: usize, p: usize, new_body: PhysicsBody)
        requires
            old(self).wf(),
            old(self).physics.physics_bodies@.len() < usize::MAX,
            t < old(self).registry.types@.len(),
            p < old(self).registry.entries@[t as int].ids().len(),
            owned_by(Some(new_body), old(self).registry.entries@[t as int].ids()[p as int]),
        ensures
            final(self).wf(),
            final(self).registry == old(self).registry,
            final(self).events == old(self).events,
            final(self).physics.physics_bodies@.len() <= old(self).physics.physics_bodies@.len() + 1,
            final(self).physics.body_of(t as int, p as int) == Some(new_body),
            forall|u: int, q: int| (u != t || q != p) ==> #[trigger] final(self).physics.body_of(u, q) == old(self).physics.body_of(u, q),
            final(self).deferred@ == old(self).deferred@ + collision_events(
                final(self).physics.query_spec(new_body.bounds_spec()),
                *id,
                new_body,
            ),
    {
        let bounds = new_body.bounds();
        let ghost before = *self;
        self.physics.update_body(t, p, new_body);
        proof {
            assert forall|u: int, q: int| (u != t || q != p) implies #[trigger] self.physics.body_of(u, q) == before.physics.body_of(u, q) by {
                if 0 <= u < before.physics.entities@.len() && 0 <= q < before.physics.entities@[u].body_indices@.len() {
                } else {
                    if 0 <= u < before.physics.entities@.len() {
                        assert(self.physics.entities@[u].body_indices@.len() == before.physics.entities@[u].body_indices@.len());
                    }
                }
            }
            assert forall|u: int| 0 <= u < self.registry.types@.len() implies {
                &&& (#[trigger] self.physics.entities@[u]).type_tag == self.registry.types@[u]
                &&& self.physics.entities@[u].body_indices@.len() == self.registry.entries@[u].ids().len()
            } by {
                assert(before.physics.entities@[u].type_tag == before.registry.types@[u]);
            }
            assert forall|u: int, q: int|
                0 <= u < self.registry.types@.len() && 0 <= q < self.registry.entries@[u].ids().len()
                    implies (#[trigger] self.physics.body_of(u, q)) is Some by {
                if u != t || q != p {
                    assert(before.physics.body_of(u, q) is Some);
                }
            }
            assert forall|u: int, q: int|
                0 <= u < self.registry.types@.len() && 0 <= q < self.registry.entries@[u].ids().len()
                    implies owned_by(#[trigger] self.physics.body_of(u, q), self.registry.entries@[u].ids()[q]) by {
                if u != t || q != p {
                    assert(owned_by(before.physics.body_of(u, q), before.registry.entries@[u].ids()[q]));
                }
            }
        }
        let found = self.physics.query(&bounds);
        let n = found.len();
        let mut i: usize = 0;
        while i < n
            invariant
                n == found@.len(),
                0 <= i <= n,
                found@ == self.physics.query_spec(bounds),
                bounds == new_body.bounds_spec(),
                self.wf(),
                self.registry == before.registry,
                self.events == before.events,
                self.physics.physics_bodies@.len() <= before.physics.physics_bodies@.len() + 1,
                self.physics.body_of(t as int, p as int) == Some(new_body),
                forall|u: int, q: int| (u != t || q != p) ==> #[trigger] self.physics.body_of(u, q) == before.physics.body_of(u, q),
                self.deferred@ == before.deferred@ + collision_events(found@.subrange(0, i as int), *id, new_body),
            decreases n - i,
        {
            let other = found[i];
            let ghost pre = found@.subrange(0, i as int).filter(collides_with(*id, new_body));
            proof {
                assert(found@.subrange(0, i + 1) =~= found@.subrange(0, i as int).push(other));
                found@.subrange(0, i as int).lemma_filter_push(other, collides_with(*id, new_body));
            }
            match other.data() {
                Some(d) => {
                    if !d.id.same(id) && overlap_bodies(&new_body, &other) {
                        proof {
                            assert(pre.push(other).map_values(collision_with::<M>(*id)) =~= pre.map_values(collision_with::<M>(*id)).push(
                                Deferred::Collision { target: *id, other: d.id },
                            ));
                        }
                        self.deferred.push(Deferred::Collision { target: *id, other: d.id });
                        proof {
                            assert(self.deferred@ =~= before.deferred@ + collision_events(found@.subrange(0, i + 1), *id, new_body));
                        }
                    }
                },
                None => {},
            }
            i = i + 1;
        }
        proof {
            assert(found@.subrange(0, n as int) =~= found@);
        }
    }

    /// Moves `id` by `delta` (clamped to the range of `i32`), reports the
    /// collisions of its new shape, and returns the new position. A body
    /// without data stays where it is and the origin is returned.
    pub fn move_by(&mut self, id: &ID, delta: &Point) -> (r: Point)
        requires
            old(self).wf(),
            old(self).physics.physics_bodies@.len() < usize::MAX,
        ensures
            final(self).wf(),
            final(self).registry == old(self).registry,
            final(self).events == old(self).events,
            final(self).physics.physics_bodies@.len() <= old(self).physics.physics_bodies@.len() + 1,
            old(self).registry.lookup(*id) is None ==> *final(self) == *old(self) && r == (Point { x: 0, y: 0 }),
            old(self).registry.lookup(*id) is Some ==> ({
                let b0 = old(self).body_of_id(*id)->Some_0;
                &&& r == match b0.data_of() {
                    Some(d) => Point { x: clamp32(d.pos.x + delta.x), y: clamp32(d.pos.y + delta.y) },
                    None => Point { x: 0, y: 0 },
                }
                &&& final(self).body_of_id(*id) == Some(relocated(b0, *id, r))
                &&& final(self).deferred@ == old(self).deferred@ + collision_events(
                    final(self).physics.query_spec(relocated(b0, *id, r).bounds_spec()),
                    *id,
                    relocated(b0, *id, r),
                )
            }),
            forall|x: ID| x != *id ==> #[trigger] final(self).body_of_id(x) == old(self).body_of_id(x),
    {
        if self.registry.get(id).is_none() {
            return Point { x: 0, y: 0 };
        }
        let (t, p) = self.locate_live(id);
        let body = *self.physics.get_body(t, p).unwrap();
        let (new_pos, new_body) = match body.data() {
            Some(d) => {
                let np = Point { x: clamp_add(d.pos.x, delta.x as i64), y: clamp_add(d.pos.y, delta.y as i64) };
                (np, body.with_data(PhysicsData { pos: np, body: d.body, id: TypedID::from_id(*id) }))
            },
            None => (Point { x: 0, y: 0 }, body),
        };
        let ghost before = *self;
        self.relocate(id, t, p, new_body);
        proof {
            self.lemma_body_of_others(before, *id, t as int, p as int);
        }
        new_pos
    }

    /// Moves `id` to `pos`, reports the collisions of its new shape.
    pub fn set_pos(&mut self, id: &ID, pos: Point)
        requires
            old(self).wf(),
            old(self).physics.physics_bodies@.len() < usize::MAX,
        ensures
            final(self).wf(),
            final(self).registry == old(self).registry,
            final(self).events == old(self).events,
            final(self).physics.physics_bodies@.len() <= old(self).physics.physics_bodies@.len() + 1,
            old(self).registry.lookup(*id) is None ==> *final(self) == *old(self),
            old(self).registry.lookup(*id) is Some ==> ({
                let b1 = relocated(old(self).body_of_id(*id)->Some_0, *id, pos);
                &&& final(self).body_of_id(*id) == Some(b1)
                &&& final(self).deferred@ == old(self).deferred@ + collision_events(
                    final(self).physics.query_spec(b1.bounds_spec()),
                    *id,
                    b1,
                )
            }),
            forall|x: ID| x != *id ==> #[trigger] final(self).body_of_id(x) == old(self).body_of_id(x),
    {
        if self.registry.get(id).is_none() {
            return;
        }
        let (t, p) = self.locate_live(id);
        let body = *self.physics.get_body(t, p).unwrap();
        let new_body = match body.data() {
            Some(d) => body.with_data(PhysicsData { pos, body: d.body, id: TypedID::from_id(*id) }),
            None => body,
        };
        let ghost before = *self;
        self.relocate(id, t, p, new_body);
        proof {
            self.lemma_body_of_others(before, *id, t as int, p as int);
        }
    }

    proof fn lemma_body_of_others(self, before: Self, id: ID, t: int, p: int)
        requires
            before.wf(),
            self.registry == before.registry,
            0 <= t < before.registry.types@.len(),
            t == before.registry.slot_of(id.type_tag),
            p == before.position_of(id),
            before.registry.ids_of(id.type_tag).contains(id),
            forall|u: int, q: int| (u != t || q != p) ==> #[trigger] self.physics.body_of(u, q) == before.physics.body_of(u, q),
        ensures
            forall|x: ID| x != id ==> #[trigger] self.body_of_id(x) == before.body_of_id(x),
            self.body_of_id(id) == self.physics.body_of(t, p),
    {
        assert forall|x: ID| x != id implies #[trigger] self.body_of_id(x) == before.body_of_id(x) by {
            if before.registry.ids_of(x.type_tag).contains(x) {
                let u = before.registry.slot_of(x.type_tag);
                let q = before.position_of(x);
                if u == t && q == p {
                    assert(before.registry.ids_of(x.type_tag) == before.registry.entries@[u].ids());
                    before.registry.lemma_slot_of(t);
                    assert(x.type_tag == before.registry.types@[u]);
                    assert(id.type_tag == before.registry.types@[t]);
                    assert(before.registry.ids_of(x.type_tag)[q] == x);
                    assert(before.registry.ids_of(id.type_tag)[p] == id);
                }
            }
        }
    }

    /// The position of `id`'s body; the origin when it has none.
    pub fn get_pos(&self, id: &ID) -> (r: Point)
        requires
            self.wf(),
        ensures
            r == match self.body_of_id(*id) {
                Some(b) => match b.data_of() {
                    Some(d) => d.pos,
                    None => Point { x: 0, y: 0 },
                },
                None => Point { x: 0, y: 0 },
            },
    {
        match self.registry.locate(id) {
            Some((t, p)) => {
                proof {
                    assert(self.registry.ids_of(id.type_tag).contains(*id));
                    let q = self.position_of(*id);
                    self.registry.lemma_position_unique(*id, p as int, q);
                }
                match self.physics.get_body(t, p) {
                    Some(b) => match b.data() {
                        Some(d) => d.pos,
                        None => Point { x: 0, y: 0 },
                    },
                    None => Point { x: 0, y: 0 },
                }
            },
            None => Point { x: 0, y: 0 },
        }
    }

    /// Applies every queued action in order, each to its target through
    /// `f`, and returns the targets that could not be found. The queue is
    /// taken whole before the first action runs.
    pub fn flush_events<F: Fn(&E, &Deferred<M>) -> E>(&mut self, f: F) -> (skipped: Vec<ID>)
        requires
            old(self).wf(),
            forall|e: &E, d: &Deferred<M>| #[trigger] f.requires((e, d)),
        ensures
            final(self).wf(),
            final(self).deferred@ == Seq::<Deferred<M>>::empty(),
            final(self).physics == old(self).physics,
            final(self).events == old(self).events,
            final(self).registry.types@ == old(self).registry.types@,
            forall|x: u32| #[trigger] final(self).registry.ids_of(x) == old(self).registry.ids_of(x),
            forall|id: ID|
                !old(self).deferred@.map_values(target_of_action()).contains(id)
                    ==> #[trigger] final(self).registry.lookup(id) == old(self).registry.lookup(id),
            skipped@ == old(self).deferred@.filter(unknown_target(old(self).registry)).map_values(target_of_action()),
            exists|states: Seq<Registry<E>>| flush_trace(states, old(self).registry, final(self).registry, old(self).deferred@, f),
            old(self).deferred@.len() == 1 ==> applied(old(self).registry, final(self).registry, old(self).deferred@[0], f),
    {
        let mut queue: Vec<Deferred<M>> = Vec::new();
        std::mem::swap(&mut self.deferred, &mut queue);
        let ghost before = *self;
        let mut skipped: Vec<ID> = Vec::new();
        let n = queue.len();
        let mut i: usize = 0;
        let ghost mut states: Seq<Registry<E>> = seq![self.registry];
        while i < n
            invariant
                n == queue@.len(),
                queue@ == old(self).deferred@,
                states.len() == i + 1,
                states[0] == old(self).registry,
                states[i as int] == self.registry,
                forall|k: int| 0 <= k < i ==> flush_step(#[trigger] states[k], states[k + 1], queue@[k], f),
                0 <= i <= n,
                forall|e: &E, d: &Deferred<M>| #[trigger] f.requires((e, d)),
                self.wf(),
                self.deferred@ == Seq::<Deferred<M>>::empty(),
                self.physics == old(self).physics,
                self.events == old(self).events,
                self.registry.types@ == old(self).registry.types@,
                self.registry.entries@.len() == old(self).registry.entries@.len(),
                forall|t: int| 0 <= t < old(self).registry.entries@.len() ==> #[trigger] self.registry.entries@[t].ids() == old(self).registry.entries@[t].ids(),
                forall|x: u32| #[trigger] self.registry.ids_of(x) == old(self).registry.ids_of(x),
                forall|id: ID| (#[trigger] self.registry.lookup(id) is None) == (old(self).registry.lookup(id) is None),
                forall|id: ID|
                    !queue@.subrange(0, i as int).map_values(target_of_action()).contains(id)
                        ==> #[trigger] self.registry.lookup(id) == old(self).registry.lookup(id),
                skipped@ == queue@.subrange(0, i as int).filter(unknown_target(old(self).registry)).map_values(target_of_action()),
                (n == 1 && i == 1) ==> applied(old(self).registry, self.registry, queue@[0], f),
            decreases n - i,
        {
            let a = &queue[i];
            let target = a.target();
            let ghost pre = queue@.subrange(0, i as int);
            let ghost kept = pre.filter(unknown_target(old(self).registry));
            proof {
                assert(queue@.subrange(0, i + 1) =~= pre.push(*a));
                pre.lemma_filter_push(*a, unknown_target(old(self).registry));
                assert(pre.push(*a).map_values(target_of_action()) =~= pre.map_values(target_of_action()).push(target));
                assert(kept.push(*a).map_values(target_of_action()) =~= kept.map_values(target_of_action()).push(target));
            }
            let ghost reg_before = self.registry;
            match self.registry.get(&target) {
                Some(e) => {
                    let v = f(e, a);
                    self.registry.replace(&target, v);
                    proof {
                        assert forall|t: int| 0 <= t < self.registry.types@.len() implies {
                            &&& (#[trigger] self.physics.entities@[t]).type_tag == self.registry.types@[t]
                            &&& self.physics.entities@[t].body_indices@.len() == self.registry.entries@[t].ids().len()
                        } by {
                            assert(self.registry.entries@[t].ids() == reg_before.entries@[t].ids());
                        }
                        assert forall|t: int, p: int|
                            0 <= t < self.registry.types@.len() && 0 <= p < self.registry.entries@[t].ids().len()
                                implies (#[trigger] self.physics.body_of(t, p)) is Some by {
                            assert(self.registry.entries@[t].ids() == reg_before.entries@[t].ids());
                        }
                    }
                },
                None => {
                    skipped.push(target);
                },
            }
            proof {
                let prev = states;
                states = states.push(self.registry);
                assert(states[i as int] == reg_before);
                assert(flush_step(states[i as int], states[i + 1], queue@[i as int], f));
                assert forall|k: int| 0 <= k < i + 1 implies flush_step(#[trigger] states[k], states[k + 1], queue@[k], f) by {
                    if k < i {
                        assert(states[k] == prev[k]);
                        assert(states[k + 1] == prev[k + 1]);
                    }
                }
                let tm = target_of_action::<M>();
                assert(queue@.subrange(0, i + 1).map_values(tm) == pre.map_values(tm).push(target));
                assert forall|id: ID| !queue@.subrange(0, i + 1).map_values(tm).contains(id)
                    implies #[trigger] self.registry.lookup(id) == old(self).registry.lookup(id) by {
                    assert(pre.map_values(tm).push(target)[pre.len() as int] == target);
                    if pre.map_values(tm).contains(id) {
                        let k = choose|k: int| 0 <= k < pre.map_values(tm).len() && pre.map_values(tm)[k] == id;
                        assert(pre.map_values(tm).push(target)[k] == id);
                    }
                }
            }
            i = i + 1;
        }
        proof {
            assert(queue@.subrange(0, n as int) =~= queue@);
            assert(flush_trace(states, old(self).registry, self.registry, old(self).deferred@, f));
        }
        skipped
    }

    /// Takes the whole queue of deferred actions, leaving it empty; actions
    /// queued while the taken ones run wait for the next flush.
    pub fn take_deferred(&mut self) -> (r: Vec<Deferred<M>>)
        ensures
            r@ == old(self).deferred@,
            final(self).deferred@ == Seq::<Deferred<M>>::empty(),
            final(self).registry == old(self).registry,
            final(self).physics == old(self).physics,
            final(self).events == old(self).events,
    {
        let mut queue: Vec<Deferred<M>> = Vec::new();
        std::mem::swap(&mut self.deferred, &mut queue);
        queue
    }

    /// Applies one action to its target through `f`; returns whether the
    /// target was found.
    pub fn apply_deferred<F: Fn(&E, &Deferred<M>) -> E>(&mut self, a: &Deferred<M>, f: F) -> (r: bool)
        requires
            old(self).wf(),
            forall|e: &E, d: &Deferred<M>| #[trigger] f.requires((e, d)),
        ensures
            final(self).wf(),
            r == old(self).registry.lookup(a.target_spec()) is Some,
            applied(old(self).registry, final(self).registry, *a, f),
            forall|id: ID| id != a.target_spec() ==> #[trigger] final(self).registry.lookup(id) == old(self).registry.lookup(id),
            forall|x: u32| #[trigger] final(self).registry.ids_of(x) == old(self).registry.ids_of(x),
            final(self).registry.types@ == old(self).registry.types@,
            final(self).physics == old(self).physics,
            final(self).events == old(self).events,
            final(self).deferred == old(self).deferred,
    {
        let target = a.target();
        match self.registry.get(&target) {
            Some(e) => {
                let v = f(e, a);
                let ghost reg_before = self.registry;
                self.registry.replace(&target, v);
                proof {
                    assert forall|t: int| 0 <= t < self.registry.types@.len() implies {
                        &&& (#[trigger] self.physics.entities@[t]).type_tag == self.registry.types@[t]
                        &&& self.physics.entities@[t].body_indices@.len() == self.registry.entries@[t].ids().len()
                    } by {
                        assert(self.registry.entries@[t].ids() == reg_before.entries@[t].ids());
                    }
                    assert forall|t: int, p: int|
                        0 <= t < self.registry.types@.len() && 0 <= p < self.registry.entries@[t].ids().len()
                            implies (#[trigger] self.physics.body_of(t, p)) is Some by {
                        assert(self.registry.entries@[t].ids() == reg_before.entries@[t].ids());
                    }
                }
                true
            },
            None => false,
        }
    }

    /// Registers `handler` of `listener` for events of kind `event` from
    /// `emitter`.
    pub fn subscribe(&mut self, emitter: ID, listener: ID, event: u32, handler: H)
        ensures
            final(self).events.subscriptions@ == old(self).events.subscriptions@.push(
                crate::events::Subscription { emitter, event, listener, handler },
            ),
            final(self).registry == old(self).registry,
            final(self).physics == old(self).physics,
            final(self).deferred == old(self).deferred,
    {
        self.events.subscribe(emitter, listener, event, handler);
    }

    /// The (listener, handler) pairs an event of kind `event` from `emitter`
    /// reaches, in order of subscription, to be invoked at once.
    pub fn emit(&self, emitter: ID, event: u32) -> (r: Vec<(ID, H)>)
        ensures
            r@ == reached(self.events.subscriptions@, emitter, event),
    {
        self.events.get_listeners(emitter, event)
    }

    /// (bucket size, region) of every node of the spatial index.
    pub fn debug_get_tree(&self) -> (r: Vec<(usize, AABB)>)
        ensures
            r@ == self.physics.tree.root.nodes_post(),
    {
        self.physics.get_debug_info()
    }

    /// A pass that starts with the first registered type.
    pub fn begin_update(&self) -> (r: UpdatePass)
        ensures
            r.type_index == 0,
            r.pos == 0,
            r.snapshot@ == Seq::<ID>::empty(),
    {
        UpdatePass { type_index: 0, snapshot: Vec::new(), pos: 0 }
    }

    /// The next entity to update: the rest of the current type's snapshot
    /// first; when it is used up, a snapshot of the next registered type is
    /// taken. Nothing once every type has been gone through.
    pub fn next_update(&self, pass: &mut UpdatePass) -> (r: Option<ID>)
        requires
            self.wf(),
        ensures
            match r {
                Some(id) => {
                    &&& 0 < final(pass).pos <= final(pass).snapshot@.len()
                    &&& final(pass).snapshot@[final(pass).pos - 1] == id
                    &&& (final(pass).type_index == old(pass).type_index
                        && final(pass).snapshot@ == old(pass).snapshot@
                        && final(pass).pos == old(pass).pos + 1)
                        || (old(pass).type_index < final(pass).type_index
                        && old(pass).pos >= old(pass).snapshot@.len()
                        && final(pass).type_index <= self.registry.types@.len()
                        && final(pass).snapshot@ == self.registry.ids_of(self.registry.types@[final(pass).type_index - 1])
                        && final(pass).pos == 1
                        && forall|k: int| old(pass).type_index <= k < final(pass).type_index - 1
                            ==> (#[trigger] self.registry.ids_of(self.registry.types@[k])).len() == 0)
                },
                None => {
                    &&& final(pass).type_index >= self.registry.types@.len()
                    &&& final(pass).pos >= final(pass).snapshot@.len()
                    &&& old(pass).pos >= old(pass).snapshot@.len()
                    &&& forall|k: int| old(pass).type_index <= k < self.registry.types@.len()
                        ==> (#[trigger] self.registry.ids_of(self.registry.types@[k])).len() == 0
                },
            },
    {
        let ghost start = *pass;
        while pass.pos >= pass.snapshot.len()
            invariant
                self.wf(),
                start == *old(pass),
                pass.type_index >= start.type_index,
                pass.type_index == start.type_index ==> (pass.snapshot@ == start.snapshot@ && pass.pos == start.pos),
                pass.type_index > start.type_index ==> (
                    pass.snapshot@ == self.registry.ids_of(self.registry.types@[pass.type_index - 1])
                    && pass.pos == 0 && pass.type_index <= self.registry.types@.len()
                    && start.pos >= start.snapshot@.len()
                    && forall|k: int| start.type_index <= k < pass.type_index - 1
                        ==> (#[trigger] self.registry.ids_of(self.registry.types@[k])).len() == 0),
            decreases self.registry.types@.len() - pass.type_index,
        {
            if pass.type_index >= self.registry.types.len() {
                proof {
                    if pass.type_index == start.type_index {
                        assert(pass.pos >= pass.snapshot@.len());
                        assert(start.pos >= start.snapshot@.len());
                    }
                    if pass.type_index > start.type_index {
                        assert(self.registry.ids_of(self.registry.types@[pass.type_index - 1]).len() == 0);
                        assert forall|k: int| start.type_index <= k < self.registry.types@.len()
                            implies (#[trigger] self.registry.ids_of(self.registry.types@[k])).len() == 0 by {
                            if k < pass.type_index - 1 {
                            }
                        }
                    }
                }
                return None;
            }
            let ghost prev = *pass;
            proof {
                if pass.type_index > start.type_index {
                    assert(self.registry.ids_of(self.registry.types@[pass.type_index - 1]).len() == 0);
                }
            }
            pass.snapshot = self.registry.entities_of(self.registry.types[pass.type_index]);
            pass.type_index = pass.type_index + 1;
            pass.pos = 0;
        }
        let id = pass.snapshot[pass.pos];
        pass.pos = pass.pos + 1;
        Some(id)
    }

    /// Ends an update pass: the retired bodies leave and the spatial index is
    /// rebuilt from the live ones.
    pub fn finish_update(&mut self)
        requires
            old(self).wf(),
        ensures
            final(self).wf(),
            final(self).registry == old(self).registry,
            final(self).deferred == old(self).deferred,
            final(self).events == old(self).events,
            final(self).physics.physics_bodies@ == old(self).physics.physics_bodies@,
            final(self).physics.to_delete@ == Seq::<usize>::empty(),
            forall|e: (usize, AABB)| #[trigger] final(self).physics.entries_of(e) == if final(self).physics.live(e.0 as int)
                && e.1 == final(self).physics.body(e.0 as int).bounds_spec() {
                1nat
            } else {
                0nat
            },
            forall|x: ID| #[trigger] final(self).body_of_id(x) == old(self).body_of_id(x),
    {
        let ghost before = *self;
        self.physics.cleanup();
        proof {
            assert forall|u: int, q: int|
                0 <= u < self.registry.types@.len() && 0 <= q < self.registry.entries@[u].ids().len()
                    implies owned_by(#[trigger] self.physics.body_of(u, q), self.registry.entries@[u].ids()[q]) by {
                assert(owned_by(before.physics.body_of(u, q), before.registry.entries@[u].ids()[q]));
            }
            assert forall|u: int, q: int|
                0 <= u < self.registry.types@.len() && 0 <= q < self.registry.entries@[u].ids().len()
                    implies (#[trigger] self.physics.body_of(u, q)) is Some by {
                assert(before.physics.body_of(u, q) is Some);
            }
            assert forall|x: ID| #[trigger] self.body_of_id(x) == before.body_of_id(x) by {
                if before.registry.ids_of(x.type_tag).contains(x) {
                    let u = before.registry.slot_of(x.type_tag);
                    let q = before.position_of(x);
                    assert(self.physics.body_of(u, q) == before.physics.body_of(u, q));
                }
            }
        }
    }

    /// A live body whose data names `other` is `other`'s own body.
    proof fn lemma_named_body(self, other: ID, j: int)
        requires
            self.wf(),
            self.registry.ids_of(other.type_tag).contains(other),
            self.physics.live(j),
            self.physics.body(j).data_of() is Some,
            self.physics.body(j).data_of()->Some_0.id == (TypedID { index: other.index, type_id: other.type_tag }),
        ensures
            j == self.physics.index_of(self.registry.slot_of(other.type_tag), self.position_of(other)),
    {
        let (t, p) = self.physics.owners@[j];
        let (t, p) = (t as int, p as int);
        assert(self.physics.index_of(t, p) == j);
        assert(self.physics.body_of(t, p) == Some(self.physics.body(j)));
        let idt = self.registry.entries@[t].ids()[p];
        assert(owned_by(self.physics.body_of(t, p), idt));
        self.registry.lemma_slot_of(t);
        assert(self.registry.ids_of(self.registry.types@[t]) == self.registry.entries@[t].ids());
        self.registry.lemma_listed_resolves(self.registry.types@[t], p);
        assert(idt == other);
        let q = self.position_of(other);
        assert(self.registry.ids_of(other.type_tag)[p] == other);
        self.registry.lemma_position_unique(other, p, q);
    }

    /// Another entity whose body truly overlaps the mover's new body, and
    /// whose bounds meet the query region, is reported exactly once among the
    /// collision reports; an entity whose body does not collide with the
    /// mover is never reported.
    pub proof fn lemma_reported_once(self, id: ID, mover: PhysicsBody, q: AABB, other: ID)
        requires
            self.wf(),
            self.registry.lookup(other) is Some,
            self.body_of_id(other) is Some,
            self.body_of_id(other)->Some_0.data_of() is Some,
        ensures
            ({
                let b = self.body_of_id(other)->Some_0;
                let count = collision_events::<M>(self.physics.query_spec(q), id, mover).to_multiset().count(
                    Deferred::Collision { target: id, other: TypedID { index: other.index, type_id: other.type_tag } },
                );
                &&& (collides_with(id, mover)(b) && b.bounds_spec().overlaps(q)) ==> count == 1
                &&& !collides_with(id, mover)(b) ==> count == 0
            }),
    {
        broadcast use vstd::seq_lib::group_to_multiset_ensures, vstd::seq_lib::to_multiset_contains;
        let tid = TypedID { index: other.index, type_id: other.type_tag };
        let y = Deferred::<M>::Collision { target: id, other: tid };
        assert(self.registry.ids_of(other.type_tag).contains(other)) by {
            assert(self.registry.registered(other.type_tag));
        }
        let tb = self.registry.slot_of(other.type_tag);
        let pb = self.position_of(other);
        let jb = self.physics.index_of(tb, pb);
        let b = self.physics.body(jb);
        assert(self.body_of_id(other) == Some(b));
        assert(self.physics.live(jb));
        let eb = (jb as usize, b.bounds_spec());
        let ph = self.physics;
        let tq = ph.tree.query_spec(q);
        let tl = tq.filter(ph.live_entry());
        let found = tl.map_values(ph.entry_body());
        let kept = found.filter(collides_with(id, mover));
        let cw = collision_with::<M>(id);
        // a kept body that reports `other` is `other`'s body
        assert forall|a: PhysicsBody| #[trigger] kept.contains(a) && cw(a) == cw(b) implies a == b by {
            let k2 = choose|k2: int| 0 <= k2 < kept.len() && kept[k2] == a;
            found.lemma_filter_pred(collides_with(id, mover), k2);
            assert(collides_with(id, mover)(a));
            found.lemma_filter_contains_rev(collides_with(id, mover), a);
            let k = choose|k: int| 0 <= k < found.len() && found[k] == a;
            assert(found.len() == tl.len());
            let en = tl[k];
            assert(found[k] == ph.entry_body()(en));
            assert(tl.contains(en));
            tq.lemma_filter_contains_rev(ph.live_entry(), en);
            let j = en.0 as int;
            assert(ph.live(j));
            self.lemma_named_body(other, j);
        }
        lemma_map_count(kept, cw, b);
        // an entry whose body is `other`'s body is `other`'s entry
        assert(ph.tree.elems().contains(eb)) by {
            assert(ph.entries_of(eb) == 1);
        }
        assert forall|en: (usize, AABB)| #[trigger] tl.contains(en) && ph.entry_body()(en) == ph.entry_body()(eb) implies en == eb by {
            tq.lemma_filter_contains_rev(ph.live_entry(), en);
            ph.tree.elems().lemma_filter_contains_rev(crate::quadtree::hits(q), en);
            let j = en.0 as int;
            assert(ph.live(j));
            self.lemma_named_body(other, j);
        }
        lemma_map_count(tl, ph.entry_body(), eb);
        if collides_with(id, mover)(b) {
            crate::physics::lemma_filter_count(found, collides_with(id, mover), b);
            crate::physics::lemma_filter_count(tq, ph.live_entry(), eb);
            if b.bounds_spec().overlaps(q) {
                ph.lemma_live_body_found_once(q, jb);
            }
        } else {
            assert(!kept.contains(b)) by {
                if kept.contains(b) {
                    found.lemma_filter_contains_rev(collides_with(id, mover), b);
                    let k = choose|k: int| 0 <= k < kept.len() && kept[k] == b;
                    found.lemma_filter_pred(collides_with(id, mover), k);
                }
            }
        }
    }
}

} // verus!
