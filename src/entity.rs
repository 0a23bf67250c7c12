use vstd::prelude::*;

verus! {

/// An opaque, non-zero id for an entity.
#[derive(Copy, Clone, Debug, PartialEq, Eq, Structural, PartialOrd, Ord, Hash)]
pub struct Entity(u64);

impl Entity {
    #[verifier::type_invariant]
    spec fn non_zero(self) -> bool {
        self.0 != 0
    }

    /// The numeric id of this entity.
    pub closed spec fn spec_id(&self) -> u64 {
        self.0
    }

    /// Returns the unique numeric identifier of this entity.
    #[verifier::when_used_as_spec(spec_id)]
    pub fn id(&self) -> (r: u64)
        ensures
            r == self.spec_id(),
            r != 0,
    {
        proof {
            use_type_invariant(self);
        }
        self.0
    }

    /// The entity with the given numeric id, which must not be zero.
    pub fn from_id(value: u64) -> (r: Entity)
        requires
            value != 0,
        ensures
            r.spec_id() == value,
    {
        Entity(value)
    }

    /// Two entities are the same exactly when their ids are.
    pub broadcast proof fn lemma_id_injective(a: Entity, b: Entity)
        ensures
            #[trigger] a.spec_id() == #[trigger] b.spec_id() <==> a == b,
    {
    }
}

/// Hands out entities with ids 1, 2, 3, ... in that order; an id is never
/// handed out twice.
pub struct EntityCounter {
    next: u64,
}

impl EntityCounter {
    /// The id that the next call of `inc` hands out.
    pub closed spec fn next_id(&self) -> u64 {
        self.next
    }

    pub closed spec fn wf(&self) -> bool {
        self.next >= 1
    }

    /// A counter whose first entity has id 1.
    pub fn new() -> (r: EntityCounter)
        ensures
            r.wf(),
            r.next_id() == 1,
    {
        EntityCounter { next: 1 }
    }

    /// Whether every id has been handed out already.
    pub fn is_exhausted(&self) -> (r: bool)
        ensures
            r == (self.next_id() == u64::MAX),
    {
        self.next == u64::MAX
    }

    /// Hands out a fresh entity: its id is larger than every id handed out
    /// before by this counter.
    pub fn inc(&mut self) -> (r: Entity)
        requires
            old(self).wf(),
            old(self).next_id() < u64::MAX,
        ensures
            final(self).wf(),
            r.spec_id() == old(self).next_id(),
            final(self).next_id() == old(self).next_id() + 1,
    {
        let e = Entity(self.next);
        self.next = self.next + 1;
        e
    }
}

} // verus!
