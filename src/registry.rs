use vstd::prelude::*;
use crate::id::ID;
use crate::slots::{PositionSlots, slot_count, slot_positions, slots_get, slots_insert, slots_with_capacity};

verus! {

/// The slots a new store reserves up front.
pub const INITIAL_CAPACITY: usize = 1024;

/// The most entities one store holds, so that its slot map never fills.
pub const MAX_ENTITIES: usize = 0xFFFF_FFF0;

/// The store of one entity type: the entities with their own identities, in
/// insertion order, and a slot map from each identity's key to its position.
pub struct RegistryEntry<E> {
    pub type_tag: u32,
    pub slots: PositionSlots,
    pub arena: Vec<(ID, E)>,
    pub entities: Vec<ID>,
}

impl<E> RegistryEntry<E> {
    pub open spec fn ids(self) -> Seq<ID> {
        self.entities@
    }

    pub closed spec fn wf(self) -> bool {
        &&& self.arena@.len() == self.entities@.len()
        &&& self.entities@.len() <= MAX_ENTITIES
        &&& forall|i: int| 0 <= i < self.arena@.len() ==> (#[trigger] self.arena@[i]).0 == self.entities@[i]
        &&& forall|i: int| 0 <= i < self.entities@.len() ==> (#[trigger] self.entities@[i]).type_tag == self.type_tag
        &&& forall|i: int, j: int|
            0 <= i < self.entities@.len() && 0 <= j < self.entities@.len() && i != j
                ==> (#[trigger] self.entities@[i]).index != (#[trigger] self.entities@[j]).index
        &&& forall|i: int| 0 <= i < self.entities@.len() ==> {
            &&& slot_positions(self.slots).contains_key((#[trigger] self.entities@[i]).index)
            &&& slot_positions(self.slots)[self.entities@[i].index] == i
        }
        &&& slot_count(self.slots) <= self.entities@.len() + 1
    }

    /// The entity stored under `id`, if any.
    pub open spec fn lookup(self, id: ID) -> Option<E> {
        if exists|i: int| 0 <= i < self.ids().len() && self.ids()[i] == id {
            let i = choose|i: int| 0 <= i < self.ids().len() && self.ids()[i] == id;
            Some(self.arena@[i].1)
        } else {
            None
        }
    }

    pub fn new(type_tag: u32) -> (r: RegistryEntry<E>)
        ensures
            r.wf(),
            r.type_tag == type_tag,
            r.ids() == Seq::<ID>::empty(),
    {
        RegistryEntry {
            type_tag,
            slots: slots_with_capacity(INITIAL_CAPACITY),
            arena: Vec::new(),
            entities: Vec::new(),
        }
    }

    pub fn len(&self) -> (r: usize)
        requires
            self.wf(),
        ensures
            r == self.ids().len(),
    {
        self.entities.len()
    }

    /// Stores `entity` under a fresh identity, appended to the live list.
    pub fn insert(&mut self, entity: E) -> (r: ID)
        requires
            old(self).wf(),
            old(self).ids().len() < MAX_ENTITIES,
        ensures
            final(self).wf(),
            final(self).type_tag == old(self).type_tag,
            r.type_tag == old(self).type_tag,
            !old(self).ids().contains(r),
            final(self).ids() == old(self).ids().push(r),
            final(self).lookup(r) == Some(entity),
            forall|id: ID| id != r ==> #[trigger] final(self).lookup(id) == old(self).lookup(id),
    {
        let pos = self.arena.len();
        let key = slots_insert(&mut self.slots, pos);
        let id = ID { index: key, type_tag: self.type_tag };
        proof {
            if self.ids().contains(id) {
                let i = choose|i: int| 0 <= i < self.ids().len() && self.ids()[i] == id;
                assert(slot_positions(old(self).slots).contains_key(self.entities@[i].index));
            }
        }
        self.arena.push((id, entity));
        self.entities.push(id);
        proof {
            let n = self.ids().len() - 1;
            assert(self.ids()[n] == id);
            assert forall|x: ID| x != id implies #[trigger] self.lookup(x) == old(self).lookup(x) by {
                if exists|i: int| 0 <= i < self.ids().len() && self.ids()[i] == x {
                    let i = choose|i: int| 0 <= i < self.ids().len() && self.ids()[i] == x;
                    assert(old(self).ids()[i] == x);
                }
                if exists|i: int| 0 <= i < old(self).ids().len() && old(self).ids()[i] == x {
                    let i = choose|i: int| 0 <= i < old(self).ids().len() && old(self).ids()[i] == x;
                    assert(self.ids()[i] == x);
                    let j = choose|j: int| 0 <= j < self.ids().len() && self.ids()[j] == x;
                    assert(i == j);
                }
            }
            let j = choose|j: int| 0 <= j < self.ids().len() && self.ids()[j] == id;
            if j != n {
                assert(self.entities@[j].index != self.entities@[n].index);
            }
        }
        id
    }

    /// The position of `id` in the store, if it is there.
    fn position(&self, id: &ID) -> (r: Option<usize>)
        requires
            self.wf(),
        ensures
            match r {
                Some(p) => p < self.ids().len() && self.ids()[p as int] == *id,
                None => !self.ids().contains(*id),
            },
    {
        if id.type_tag != self.type_tag {
            proof {
                if self.ids().contains(*id) {
                    let i = choose|i: int| 0 <= i < self.ids().len() && self.ids()[i] == *id;
                    assert(self.entities@[i].type_tag == self.type_tag);
                }
            }
            return None;
        }
        match slots_get(&self.slots, id.index) {
            Some(p) => {
                if p < self.arena.len() && self.arena[p].0 == *id {
                    Some(p)
                } else {
                    proof {
                        if self.ids().contains(*id) {
                            let i = choose|i: int| 0 <= i < self.ids().len() && self.ids()[i] == *id;
                            assert(slot_positions(self.slots).contains_key(self.entities@[i].index));
                        }
                    }
                    None
                }
            },
            None => {
                proof {
                    if self.ids().contains(*id) {
                        let i = choose|i: int| 0 <= i < self.ids().len() && self.ids()[i] == *id;
                        assert(slot_positions(self.slots).contains_key(self.entities@[i].index));
                    }
                }
                None
            },
        }
    }

    /// The entity stored under `id`; nothing for an identity that was never
    /// issued by this store.
    pub fn get(&self, id: &ID) -> (r: Option<&E>)
        requires
            self.wf(),
        ensures
            match r {
                Some(e) => self.lookup(*id) == Some(*e),
                None => self.lookup(*id).is_none(),
            },
    {
        match self.position(id) {
            Some(p) => {
                proof {
                    self.lemma_unique_position(*id, p as int);
                }
                Some(&self.arena[p].1)
            },
            None => None,
        }
    }

    /// Replaces the entity stored under `id`, handing back the one that was
    /// there; nothing changes for an unknown identity.
    pub fn replace(&mut self, id: &ID, entity: E) -> (r: Option<E>)
        requires
            old(self).wf(),
        ensures
            final(self).wf(),
            final(self).type_tag == old(self).type_tag,
            final(self).ids() == old(self).ids(),
            r == old(self).lookup(*id),
            r.is_some() ==> final(self).lookup(*id) == Some(entity),
            forall|x: ID| x != *id ==> #[trigger] final(self).lookup(x) == old(self).lookup(x),
            r.is_none() ==> final(self).lookup(*id) == old(self).lookup(*id),
    {
        match self.position(id) {
            Some(p) => {
                proof {
                    self.lemma_unique_position(*id, p as int);
                }
                let ghost before = *self;
                let mut slot = (*id, entity);
                std::mem::swap(&mut self.arena[p], &mut slot);
                proof {
                    assert(self.arena@ == before.arena@.update(p as int, (*id, entity)));
                    self.lemma_unique_position(*id, p as int);
                    assert forall|x: ID| x != *id implies #[trigger] self.lookup(x) == before.lookup(x) by {
                        if exists|i: int| 0 <= i < self.ids().len() && self.ids()[i] == x {
                            let i = choose|i: int| 0 <= i < self.ids().len() && self.ids()[i] == x;
                            assert(i != p);
                        }
                    }
                }
                Some(slot.1)
            },
            None => None,
        }
    }

    proof fn lemma_unique_position(self, id: ID, p: int)
        requires
            self.wf(),
            0 <= p < self.ids().len(),
            self.ids()[p] == id,
        ensures
            self.lookup(id) == Some(self.arena@[p].1),
    {
        let i = choose|i: int| 0 <= i < self.ids().len() && self.ids()[i] == id;
        if i != p {
            assert(self.entities@[i].index != self.entities@[p].index);
        }
    }
}

/// Every entity store, one per type tag, in order of first registration.
pub struct Registry<E> {
    pub types: Vec<u32>,
    pub entries: Vec<RegistryEntry<E>>,
}

impl<E> Registry<E> {
    pub open spec fn wf(self) -> bool {
        &&& self.types@.len() == self.entries@.len()
        &&& forall|t: int| 0 <= t < self.entries@.len() ==> (#[trigger] self.entries@[t]).wf()
        &&& forall|t: int| 0 <= t < self.entries@.len() ==> (#[trigger] self.entries@[t]).type_tag == self.types@[t]
        &&& forall|t: int, u: int|
            0 <= t < self.types@.len() && 0 <= u < self.types@.len() && t != u
                ==> (#[trigger] self.types@[t]) != (#[trigger] self.types@[u])
    }

    /// Whether a store for `tag` exists.
    pub open spec fn registered(self, tag: u32) -> bool {
        self.types@.contains(tag)
    }

    /// The store slot of `tag`.
    pub open spec fn slot_of(self, tag: u32) -> int {
        choose|t: int| 0 <= t < self.types@.len() && self.types@[t] == tag
    }

    /// The live identities of type `tag`, in insertion order.
    pub open spec fn ids_of(self, tag: u32) -> Seq<ID> {
        if self.registered(tag) {
            self.entries@[self.slot_of(tag)].ids()
        } else {
            Seq::empty()
        }
    }

    /// The entity stored under `id`, if any.
    pub open spec fn lookup(self, id: ID) -> Option<E> {
        if self.registered(id.type_tag) {
            self.entries@[self.slot_of(id.type_tag)].lookup(id)
        } else {
            None
        }
    }

    /// A listed identity of type `tag` has that tag and resolves.
    pub proof fn lemma_listed_resolves(self, tag: u32, i: int)
        requires
            self.wf(),
            0 <= i < self.ids_of(tag).len(),
        ensures
            self.ids_of(tag)[i].type_tag == tag,
            self.lookup(self.ids_of(tag)[i]) is Some,
    {
        let t = self.slot_of(tag);
        let e = self.entries@[t];
        assert(e.wf());
        let id = self.ids_of(tag)[i];
        assert(e.entities@[i] == id);
        assert(exists|j: int| 0 <= j < e.ids().len() && e.ids()[j] == id);
    }

    /// An identity sits at one position only.
    pub proof fn lemma_position_unique(self, id: ID, p: int, q: int)
        requires
            self.wf(),
            0 <= p < self.ids_of(id.type_tag).len(),
            0 <= q < self.ids_of(id.type_tag).len(),
            self.ids_of(id.type_tag)[p] == id,
            self.ids_of(id.type_tag)[q] == id,
        ensures
            p == q,
    {
        let t = self.slot_of(id.type_tag);
        let e = self.entries@[t];
        assert(e.wf());
        if p != q {
            assert(e.entities@[p].index != e.entities@[q].index);
        }
    }

    /// The slot of the type registered at `t` is `t`.
    pub proof fn lemma_slot_of(self, t: int)
        requires
            self.wf(),
            0 <= t < self.types@.len(),
        ensures
            self.registered(self.types@[t]),
            self.slot_of(self.types@[t]) == t,
    {
        assert(self.types@[t] == self.types@[t]);
        let u = self.slot_of(self.types@[t]);
        assert(0 <= u < self.types@.len() && self.types@[u] == self.types@[t]);
    }

    pub fn new() -> (r: Registry<E>)
        ensures
            r.wf(),
            r.types@ == Seq::<u32>::empty(),
    {
        Registry { types: Vec::new(), entries: Vec::new() }
    }

    /// The store slot of `tag`, if it is registered.
    pub fn type_slot(&self, tag: u32) -> (r: Option<usize>)
        requires
            self.wf(),
        ensures
            match r {
                Some(t) => self.registered(tag) && t == self.slot_of(tag) && t < self.types@.len(),
                None => !self.registered(tag),
            },
    {
        let n = self.types.len();
        let mut i: usize = 0;
        while i < n
            invariant
                self.wf(),
                n == self.types@.len(),
                0 <= i <= n,
                forall|j: int| 0 <= j < i ==> self.types@[j] != tag,
            decreases n - i,
        {
            if self.types[i] == tag {
                proof {
                    self.lemma_slot_of(i as int);
                }
                return Some(i);
            }
            i = i + 1;
        }
        None
    }

    /// The store slot of `tag`, registering a new empty store first if there
    /// is none.
    pub fn create_entry(&mut self, tag: u32) -> (r: usize)
        requires
            old(self).wf(),
        ensures
            final(self).wf(),
            final(self).registered(tag),
            r == final(self).slot_of(tag),
            final(self).types@ == if old(self).registered(tag) {
                old(self).types@
            } else {
                old(self).types@.push(tag)
            },
            forall|x: u32| #[trigger] final(self).ids_of(x) == old(self).ids_of(x),
            forall|id: ID| #[trigger] final(self).lookup(id) == old(self).lookup(id),
    {
        match self.type_slot(tag) {
            Some(t) => t,
            None => {
                let ghost before = *self;
                self.types.push(tag);
                self.entries.push(RegistryEntry::new(tag));
                let t = self.types.len() - 1;
                proof {
                    self.lemma_slot_of(t as int);
                    assert forall|x: u32| #[trigger] self.ids_of(x) == before.ids_of(x) by {
                        if before.registered(x) {
                            let u = before.slot_of(x);
                            assert(self.types@[u] == x);
                            self.lemma_slot_of(u);
                        } else if x != tag {
                            assert(!self.registered(x));
                        } else {
                            assert(self.entries@[t as int].ids() =~= Seq::<ID>::empty());
                        }
                    }
                    assert forall|id: ID| #[trigger] self.lookup(id) == before.lookup(id) by {
                        let x = id.type_tag;
                        if before.registered(x) {
                            let u = before.slot_of(x);
                            assert(self.types@[u] == x);
                            self.lemma_slot_of(u);
                        } else if x != tag {
                            assert(!self.registered(x));
                        } else {
                            let e = self.entries@[t as int];
                            assert(!(exists|i: int| 0 <= i < e.ids().len() && e.ids()[i] == id));
                        }
                    }
                }
                t
            },
        }
    }

    /// Stores `entity` as type `tag` under a fresh identity, registering the
    /// type on first use.
    pub fn insert(&mut self, tag: u32, entity: E) -> (r: ID)
        requires
            old(self).wf(),
            old(self).ids_of(tag).len() < MAX_ENTITIES,
        ensures
            final(self).wf(),
            final(self).types@ == if old(self).registered(tag) {
                old(self).types@
            } else {
                old(self).types@.push(tag)
            },
            r.type_tag == tag,
            !old(self).ids_of(tag).contains(r),
            final(self).ids_of(tag) == old(self).ids_of(tag).push(r),
            forall|x: u32| x != tag ==> #[trigger] final(self).ids_of(x) == old(self).ids_of(x),
            final(self).lookup(r) == Some(entity),
            forall|id: ID| id != r ==> #[trigger] final(self).lookup(id) == old(self).lookup(id),
    {
        let t = self.create_entry(tag);
        let ghost mid = *self;
        assert(mid.ids_of(tag) == mid.entries@[t as int].ids());
        let r = self.entries[t].insert(entity);
        proof {
            assert(self.registered(tag));
            assert(self.slot_of(tag) == t);
            assert(self.ids_of(tag) == self.entries@[t as int].ids());
            assert(self.types@ == mid.types@);
            assert forall|u: int| 0 <= u < self.entries@.len() && u != t implies #[trigger] self.entries@[u] == mid.entries@[u] by {}
            assert forall|x: u32| x != tag implies #[trigger] self.ids_of(x) == mid.ids_of(x) by {
                if mid.registered(x) {
                    assert(mid.slot_of(x) != t);
                }
            }
            assert forall|id: ID| id != r implies #[trigger] self.lookup(id) == mid.lookup(id) by {
                if mid.registered(id.type_tag) && mid.slot_of(id.type_tag) != t {
                } 
            }
        }
        r
    }

    /// The entity stored under `id`; nothing for an identity this registry
    /// never issued.
    pub fn get(&self, id: &ID) -> (r: Option<&E>)
        requires
            self.wf(),
        ensures
            match r {
                Some(e) => self.lookup(*id) == Some(*e),
                None => self.lookup(*id).is_none(),
            },
    {
        match self.type_slot(id.type_tag) {
            Some(t) => self.entries[t].get(id),
            None => None,
        }
    }

    /// Where `id` is stored: its type's store slot and its position there.
    pub fn locate(&self, id: &ID) -> (r: Option<(usize, usize)>)
        requires
            self.wf(),
        ensures
            match r {
                Some((t, p)) => self.registered(id.type_tag) && t == self.slot_of(id.type_tag)
                    && p < self.ids_of(id.type_tag).len() && self.ids_of(id.type_tag)[p as int] == *id
                    && self.lookup(*id) == Some(self.entries@[t as int].arena@[p as int].1),
                None => self.lookup(*id).is_none(),
            },
    {
        match self.type_slot(id.type_tag) {
            Some(t) => {
                match self.entries[t].position(id) {
                    Some(p) => {
                        proof {
                            self.entries@[t as int].lemma_unique_position(*id, p as int);
                        }
                        Some((t, p))
                    },
                    None => None,
                }
            },
            None => None,
        }
    }

    /// Replaces the entity stored under `id`, handing back the one that was
    /// there; nothing changes for an unknown identity.
    pub fn replace(&mut self, id: &ID, entity: E) -> (r: Option<E>)
        requires
            old(self).wf(),
        ensures
            final(self).wf(),
            final(self).types@ == old(self).types@,
            forall|x: u32| #[trigger] final(self).ids_of(x) == old(self).ids_of(x),
            r == old(self).lookup(*id),
            r.is_some() ==> final(self).lookup(*id) == Some(entity),
            r.is_none() ==> final(self).lookup(*id) == old(self).lookup(*id),
            forall|x: ID| x != *id ==> #[trigger] final(self).lookup(x) == old(self).lookup(x),
            final(self).entries@.len() == old(self).entries@.len(),
            forall|t: int| 0 <= t < old(self).entries@.len() ==> #[trigger] final(self).entries@[t].ids() == old(self).entries@[t].ids(),
    {
        match self.type_slot(id.type_tag) {
            Some(t) => {
                let ghost mid = *self;
                let r = self.entries[t].replace(id, entity);
                proof {
                    assert forall|u: int| 0 <= u < self.entries@.len() && u != t implies #[trigger] self.entries@[u] == mid.entries@[u] by {}
                    assert forall|x: u32| #[trigger] self.ids_of(x) == mid.ids_of(x) by {}
                    assert forall|x: ID| x != *id implies #[trigger] self.lookup(x) == mid.lookup(x) by {}
                }
                r
            },
            None => None,
        }
    }

    /// A copy of the live identities of type `tag`, in insertion order.
    pub fn entities_of(&self, tag: u32) -> (r: Vec<ID>)
        requires
            self.wf(),
        ensures
            r@ == self.ids_of(tag),
    {
        match self.type_slot(tag) {
            Some(t) => self.entries[t].entities.clone(),
            None => Vec::new(),
        }
    }
}

} // verus!
