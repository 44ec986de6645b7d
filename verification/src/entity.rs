use vstd::prelude::*;

verus! {

/// A handle to an object of the world: nothing but its id.
#[derive(Debug, Clone, Copy, PartialEq, Eq, Structural, Hash)]
pub struct Entity {
    id: u32,
}

impl Entity {
    /// The entity with the given id.
    pub(crate) fn new(id: u32) -> (e: Self)
        ensures
            e.spec_id() == id,
    {
        Self { id }
    }

    /// The entity that carries `id`, as a handle handed out earlier.
    pub fn from_id(id: u32) -> (e: Self)
        ensures
            e.spec_id() == id,
    {
        Self::new(id)
    }

    /// The id of this entity.
    pub closed spec fn spec_id(self) -> u32 {
        self.id
    }

    /// The entity that carries `id`.
    pub closed spec fn spec_from_id(id: u32) -> Entity {
        Entity { id }
    }

    /// The entity made from an id carries that id.
    pub broadcast proof fn lemma_from_id(id: u32)
        ensures
            #[trigger] Entity::spec_from_id(id).spec_id() == id,
    {
    }

    /// Two entities are the same exactly when their ids are.
    pub broadcast proof fn lemma_id_determines(e1: Entity, e2: Entity)
        ensures
            #[trigger] e1.spec_id() == #[trigger] e2.spec_id() <==> e1 == e2,
    {
    }

    /// The id of this entity.
    pub fn id(self) -> (r: u32)
        ensures
            r == self.spec_id(),
    {
        self.id
    }
}

} // verus!
