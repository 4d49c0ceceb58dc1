use vstd::prelude::*;

verus! {

/// The identity of an entity: its key in the store of its type, and the
/// tag of that type. Identities compare and hash by both parts and never
/// own the entity.
#[derive(Clone, Copy, Debug, PartialEq, Eq, Hash, Structural)]
pub struct ID {
    pub index: u64,
    pub type_tag: u32,
}

/// An identity seen without its type: the tag travels as a value, so that
/// collision reports can name entities of any type.
#[derive(Clone, Copy, Debug, PartialEq, Eq, Hash, Structural)]
pub struct TypedID {
    pub index: u64,
    pub type_id: u32,
}

impl ID {
    pub fn new(index: u64, type_tag: u32) -> (r: ID)
        ensures
            r == (ID { index, type_tag }),
    {
        ID { index, type_tag }
    }

    pub fn from(id: TypedID) -> (r: ID)
        ensures
            r == (ID { index: id.index, type_tag: id.type_id }),
    {
        ID { index: id.index, type_tag: id.type_id }
    }

    pub fn from_typed_id(id: TypedID) -> (r: ID)
        ensures
            r == (ID { index: id.index, type_tag: id.type_id }),
    {
        ID { index: id.index, type_tag: id.type_id }
    }

    pub fn type_id(&self) -> (r: u32)
        ensures
            r == self.type_tag,
    {
        self.type_tag
    }
}

impl TypedID {
    pub fn from_id(id: ID) -> (r: TypedID)
        ensures
            r == (TypedID { index: id.index, type_id: id.type_tag }),
    {
        TypedID { index: id.index, type_id: id.type_tag }
    }

    /// The identity, if it belongs to the type tagged `type_tag`.
    pub fn is(&self, type_tag: u32) -> (r: Option<ID>)
        ensures
            r == (if self.type_id == type_tag {
                Some(ID { index: self.index, type_tag })
            } else {
                None
            }),
    {
        if self.type_id == type_tag {
            Some(ID { index: self.index, type_tag })
        } else {
            None
        }
    }

    /// Whether both name the same entity.
    pub fn same(&self, id: &ID) -> (r: bool)
        ensures
            r == (self.type_id == id.type_tag && self.index == id.index),
    {
        self.type_id == id.type_tag && self.index == id.index
    }
}

} // verus!
