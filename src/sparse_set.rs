use std::collections::HashMap;
use vstd::prelude::*;

use crate::entity::Entity;

verus! {

broadcast use vstd::std_specs::hash::group_hash_axioms;

/// The values of one attribute type, kept as a sparse set.
///
/// `dense[i]` is the value owned by the entity `ids[i]`, and `sparse` maps an
/// entity's id to that position. Removal swaps the last entry into the hole,
/// so the order of `dense` is stable only until the next insert or remove.
pub struct SparseSet<C> {
    sparse: HashMap<u64, usize>,
    dense: Vec<C>,
    ids: Vec<Entity>,
}

impl<C> SparseSet<C> {
    /// The position of each entity's value, keyed by the entity's id.
    pub closed spec fn index_map(&self) -> Map<u64, usize> {
        self.sparse@
    }

    /// The owners of the values, in dense order.
    pub closed spec fn entities(&self) -> Seq<Entity> {
        self.ids@
    }

    /// The values, in dense order.
    pub closed spec fn values(&self) -> Seq<C> {
        self.dense@
    }

    /// The three parts agree: same lengths, and each id maps to the position
    /// of its owner's value.
    pub open spec fn wf(&self) -> bool {
        &&& self.entities().len() == self.values().len()
        &&& self.index_map().len() == self.entities().len()
        &&& self.index_map().dom().finite()
        &&& forall|k: u64| #[trigger]
            self.index_map().contains_key(k) ==> {
                &&& self.index_map()[k] < self.entities().len()
                &&& self.entities()[self.index_map()[k] as int].spec_id() == k
            }
        &&& forall|i: int|
            0 <= i < self.entities().len() ==> {
                &&& self.index_map().contains_key(#[trigger] self.entities()[i].spec_id())
                &&& self.index_map()[self.entities()[i].spec_id()] == i
            }
    }

    /// Number of stored values.
    pub open spec fn len_spec(&self) -> nat {
        self.entities().len()
    }

    /// Whether `e` has a value here.
    pub open spec fn has(&self, e: Entity) -> bool {
        self.index_map().contains_key(e.spec_id())
    }

    /// The value of `e`; meaningful where `has(e)`.
    pub open spec fn value_of(&self, e: Entity) -> C {
        self.values()[self.index_map()[e.spec_id()] as int]
    }

    /// The store as a map from entity id to value.
    pub open spec fn as_map(&self) -> Map<u64, C> {
        Map::new(|k: u64| self.index_map().contains_key(k), |k: u64| self.values()[self.index_map()[k] as int])
    }

    /// A store that holds one value, `component`, owned by `entity`.
    pub fn new(entity: Entity, component: C) -> (r: Self)
        ensures
            r.wf(),
            r.entities() == seq![entity],
            r.values() == seq![component],
            r.index_map() == map![entity.spec_id() => 0usize],
            r.as_map() == map![entity.spec_id() => component],
    {
        let mut sparse: HashMap<u64, usize> = HashMap::new();
        sparse.insert(entity.id(), 0);
        let r = SparseSet { sparse, dense: vec![component], ids: vec![entity] };
        proof {
            assert(r.index_map() =~= map![entity.spec_id() => 0usize]);
            assert(r.as_map() =~= map![entity.spec_id() => component]);
        }
        r
    }

    /// Whether `entity` has a value here.
    pub fn contains(&self, entity: Entity) -> (r: bool)
        ensures
            r == self.has(entity),
    {
        self.sparse.contains_key(&entity.id())
    }

    /// Number of stored values.
    pub fn len(&self) -> (r: usize)
        requires
            self.wf(),
        ensures
            r == self.len_spec(),
    {
        self.ids.len()
    }

    /// Appends `component` as the value of `entity`, which must not have one
    /// yet: attaching twice without detaching in between is a caller error.
    pub fn insert(&mut self, entity: Entity, component: C)
        requires
            old(self).wf(),
            !old(self).has(entity),
            old(self).len_spec() < usize::MAX,
        ensures
            final(self).wf(),
            final(self).entities() == old(self).entities().push(entity),
            final(self).values() == old(self).values().push(component),
            final(self).as_map() == old(self).as_map().insert(entity.spec_id(), component),
    {
        let ghost pre = *self;
        let n = self.dense.len();
        self.sparse.insert(entity.id(), n);
        self.dense.push(component);
        self.ids.push(entity);
        proof {
            assert forall|i: int| 0 <= i < self.entities().len() implies {
                &&& self.index_map().contains_key(#[trigger] self.entities()[i].spec_id())
                &&& self.index_map()[self.entities()[i].spec_id()] == i
            } by {
                if i < n {
                    assert(pre.entities()[i] == self.entities()[i]);
                    assert(pre.index_map().contains_key(pre.entities()[i].spec_id()));
                }
            }
            assert(self.as_map() =~= pre.as_map().insert(entity.spec_id(), component));
        }
    }

    /// Removes the value of `entity` and returns it, or `None` where it has
    /// none. The last entry moves into the vacated position.
    pub fn remove(&mut self, entity: Entity) -> (r: Option<C>)
        requires
            old(self).wf(),
        ensures
            final(self).wf(),
            !old(self).has(entity) ==> r is None && final(self).entities() == old(self).entities()
                && final(self).values() == old(self).values()
                && final(self).index_map() == old(self).index_map(),
            old(self).has(entity) ==> {
                let i = old(self).index_map()[entity.spec_id()] as int;
                &&& r == Some(old(self).value_of(entity))
                &&& final(self).entities() == swap_removed(old(self).entities(), i)
                &&& final(self).values() == swap_removed(old(self).values(), i)
            },
            final(self).as_map() == old(self).as_map().remove(entity.spec_id()),
    {
        let ghost pre = *self;
        let idx = match self.sparse.remove(&entity.id()) {
            Some(i) => i,
            None => {
                proof {
                    assert(self.as_map() =~= pre.as_map().remove(entity.spec_id()));
                }
                return None;
            },
        };
        let last = self.dense.len() - 1;
        if idx == last {
            self.ids.pop();
            let r = self.dense.pop();
            proof {
                assert(self.entities() =~= swap_removed(pre.entities(), idx as int));
                assert(self.values() =~= swap_removed(pre.values(), idx as int));
                assert forall|k: u64| #[trigger] self.index_map().contains_key(k) implies {
                    &&& self.index_map()[k] < self.entities().len()
                    &&& self.entities()[self.index_map()[k] as int].spec_id() == k
                } by {
                    assert(pre.index_map().contains_key(k));
                    if pre.index_map()[k] == last {
                        assert(pre.entities()[last as int].spec_id() == entity.spec_id());
                    }
                }
                assert(self.as_map() =~= pre.as_map().remove(entity.spec_id()));
            }
            r
        } else {
            self.ids.swap_remove(idx);
            let moved = self.ids[idx].id();
            self.sparse.insert(moved, idx);
            let r = self.dense.swap_remove(idx);
            proof {
                assert(self.entities() =~= swap_removed(pre.entities(), idx as int));
                assert(self.values() =~= swap_removed(pre.values(), idx as int));
                assert(pre.index_map().contains_key(moved));
                assert(pre.index_map()[moved] == last);
                assert(self.index_map() =~= pre.index_map().remove(entity.spec_id()).insert(moved, idx));
                assert forall|k: u64| #[trigger] self.index_map().contains_key(k) implies {
                    &&& self.index_map()[k] < self.entities().len()
                    &&& self.entities()[self.index_map()[k] as int].spec_id() == k
                } by {
                    assert(pre.index_map().contains_key(k));
                    if k != moved {
                        let j = pre.index_map()[k] as int;
                        assert(j != last) by {
                            assert(pre.entities()[last as int].spec_id() == moved);
                        }
                        assert(j != idx) by {
                            assert(pre.entities()[idx as int].spec_id() == entity.spec_id());
                        }
                    }
                }
                assert forall|i: int| 0 <= i < self.entities().len() implies {
                    &&& self.index_map().contains_key(#[trigger] self.entities()[i].spec_id())
                    &&& self.index_map()[self.entities()[i].spec_id()] == i
                } by {
                    if i != idx {
                        assert(self.entities()[i] == pre.entities()[i]);
                        assert(pre.index_map().contains_key(pre.entities()[i].spec_id()));
                        assert(pre.entities()[i].spec_id() != entity.spec_id());
                        assert(pre.entities()[i].spec_id() != moved);
                    }
                }
                assert(self.as_map() =~= pre.as_map().remove(entity.spec_id())) by {
                    assert forall|k: u64| #[trigger] self.as_map().contains_key(k) implies
                        self.as_map()[k] == pre.as_map()[k] by {
                        if k != moved {
                            let j = pre.index_map()[k] as int;
                            assert(j != last) by {
                                assert(pre.entities()[last as int].spec_id() == moved);
                            }
                        }
                    }
                }
            }
            Some(r)
        }
    }

    /// The value of `entity`, or `None` where it has none.
    pub fn get(&self, entity: Entity) -> (r: Option<&C>)
        requires
            self.wf(),
        ensures
            r is Some <==> self.has(entity),
            r matches Some(v) ==> *v == self.value_of(entity),
    {
        let id = *self.sparse.get(&entity.id())?;
        Some(&self.dense[id])
    }

    /// Mutable access to the value of `entity`, or `None` where it has none.
    /// Only that value can change through the result.
    pub fn get_mut(&mut self, entity: Entity) -> (r: Option<&mut C>)
        requires
            old(self).wf(),
        ensures
            r is Some <==> old(self).has(entity),
            r is None ==> *final(self) == *old(self),
            r matches Some(v) ==> {
                &&& *v == old(self).value_of(entity)
                &&& final(self).entities() == old(self).entities()
                &&& final(self).index_map() == old(self).index_map()
                &&& final(self).values() == old(self).values().update(
                    old(self).index_map()[entity.spec_id()] as int,
                    *final(v),
                )
            },
    {
        let id = *self.sparse.get(&entity.id())?;
        Some(&mut self.dense[id])
    }

    /// The owners of the values, in dense order.
    pub fn entity_ids(&self) -> (r: &[Entity])
        ensures
            r@ == self.entities(),
    {
        self.ids.as_slice()
    }

    /// The position of each entity's value, keyed by the entity's id.
    pub fn positions(&self) -> (r: &HashMap<u64, usize>)
        ensures
            r@ == self.index_map(),
    {
        &self.sparse
    }

    /// The owner of the value at dense position `i`.
    pub fn entity_at(&self, i: usize) -> (r: Option<Entity>)
        requires
            self.wf(),
        ensures
            r is Some <==> i < self.len_spec(),
            r matches Some(e) ==> e == self.entities()[i as int],
    {
        if i < self.ids.len() {
            Some(self.ids[i])
        } else {
            None
        }
    }

    /// The value at dense position `i`.
    pub fn value_at(&self, i: usize) -> (r: &C)
        requires
            self.wf(),
            i < self.len_spec(),
        ensures
            *r == self.values()[i as int],
    {
        &self.dense[i]
    }

    /// Mutable access to the value at dense position `i`.
    pub fn value_at_mut(&mut self, i: usize) -> (r: &mut C)
        requires
            old(self).wf(),
            i < old(self).len_spec(),
        ensures
            *r == old(self).values()[i as int],
            final(self).entities() == old(self).entities(),
            final(self).index_map() == old(self).index_map(),
            final(self).values() == old(self).values().update(i as int, *final(r)),
    {
        &mut self.dense[i]
    }

    /// Every entity with its value, in dense order.
    pub fn iter(&self) -> (r: Vec<(Entity, &C)>)
        requires
            self.wf(),
        ensures
            r@.len() == self.len_spec(),
            forall|i: int|
                0 <= i < r@.len() ==> #[trigger] r@[i] == (self.entities()[i], &self.values()[i]),
    {
        let mut r: Vec<(Entity, &C)> = Vec::new();
        let mut i: usize = 0;
        while i < self.ids.len()
            invariant
                self.wf(),
                i <= self.len_spec(),
                r@.len() == i,
                forall|j: int|
                    0 <= j < i ==> #[trigger] r@[j] == (self.entities()[j], &self.values()[j]),
            decreases self.len_spec() - i,
        {
            r.push((self.ids[i], &self.dense[i]));
            i = i + 1;
        }
        r
    }

    /// The owners in dense order, beside mutable access to the values in the
    /// same order. Values can change through the result; which entity owns
    /// which position cannot.
    pub fn iter_mut(&mut self) -> (r: (&[Entity], &mut [C]))
        requires
            old(self).wf(),
        ensures
            r.0@ == old(self).entities(),
            r.1@ == old(self).values(),
            final(self).entities() == old(self).entities(),
            final(self).index_map() == old(self).index_map(),
            final(self).values() == final(r.1)@,
    {
        (self.ids.as_slice(), self.dense.as_mut_slice())
    }

    /// Removes every value.
    pub fn clear(&mut self)
        ensures
            final(self).wf(),
            final(self).entities().len() == 0,
            final(self).values().len() == 0,
            final(self).index_map().is_empty(),
    {
        self.sparse.clear();
        self.dense.clear();
        self.ids.clear();
    }

    /// One step of a filtering pass over the store in dense order: `keep`
    /// says whether the value at position `idx` stays. Returns the position
    /// to look at next. A removed entry is replaced by the last one, which is
    /// therefore visited next, so no entry is skipped or visited twice.
    pub fn retain_at(&mut self, idx: usize, keep: bool) -> (next: usize)
        requires
            old(self).wf(),
            idx < old(self).len_spec(),
        ensures
            final(self).wf(),
            keep ==> next == idx + 1 && final(self).entities() == old(self).entities()
                && final(self).values() == old(self).values()
                && final(self).index_map() == old(self).index_map(),
            !keep ==> {
                &&& next == idx
                &&& final(self).entities() == swap_removed(old(self).entities(), idx as int)
                &&& final(self).values() == swap_removed(old(self).values(), idx as int)
                &&& final(self).as_map() == old(self).as_map().remove(
                    old(self).entities()[idx as int].spec_id(),
                )
            },
    {
        if keep {
            proof {
                assert(idx < self.ids.len());
            }
            idx + 1
        } else {
            let e = self.ids[idx];
            proof {
                assert(self.index_map().contains_key(e.spec_id()));
            }
            let _ = self.remove(e);
            idx
        }
    }

} // impl

/// The store is consistent after every operation: each id in the index map
/// points at a position owned by that entity, and the three parts have the
/// same length.
pub proof fn lemma_sparse_set_consistent<C>(s: &SparseSet<C>)
    requires
        s.wf(),
    ensures
        forall|k: u64| #[trigger]
            s.index_map().contains_key(k) ==> s.index_map()[k] < s.entities().len()
                && s.entities()[s.index_map()[k] as int].spec_id() == k,
        s.entities().len() == s.values().len(),
        s.values().len() == s.index_map().len(),
{
}

/// Round trip: after inserting `v` for `e`, `e` has the value `v`; removing
/// it afterwards hands back `v` and leaves `e` with no value.
pub proof fn lemma_round_trip<C>(
    before: &SparseSet<C>,
    inserted: &SparseSet<C>,
    removed: &SparseSet<C>,
    e: Entity,
    v: C,
)
    requires
        before.wf(),
        !before.has(e),
        inserted.wf(),
        inserted.as_map() == before.as_map().insert(e.spec_id(), v),
        removed.wf(),
        removed.as_map() == inserted.as_map().remove(e.spec_id()),
    ensures
        inserted.has(e),
        inserted.value_of(e) == v,
        !removed.has(e),
        removed.as_map() == before.as_map(),
{
    assert(inserted.as_map().contains_key(e.spec_id()));
    assert(inserted.as_map()[e.spec_id()] == v);
    assert(!removed.as_map().contains_key(e.spec_id()));
    assert(removed.as_map() =~= before.as_map());
}

/// Removing one entity leaves every other entity with the value it had, and
/// the owners left are exactly the others, in whatever order.
pub proof fn lemma_remove_keeps_others<C>(s: &SparseSet<C>, t: &SparseSet<C>, e: Entity)
    requires
        s.wf(),
        t.wf(),
        t.as_map() == s.as_map().remove(e.spec_id()),
    ensures
        forall|o: Entity|
            o != e && #[trigger] s.has(o) ==> t.has(o) && t.value_of(o) == s.value_of(o),
        t.entities().to_set() == s.entities().to_set().remove(e),
{
    broadcast use crate::entity::Entity::lemma_id_injective;

    assert forall|o: Entity| o != e && #[trigger] s.has(o) implies t.has(o) && t.value_of(o)
        == s.value_of(o) by {
        assert(o.spec_id() != e.spec_id());
        assert(s.as_map().contains_key(o.spec_id()));
        assert(t.as_map().contains_key(o.spec_id()));
        assert(t.as_map()[o.spec_id()] == s.as_map()[o.spec_id()]);
    }
    assert forall|o: Entity| #[trigger] t.entities().to_set().contains(o) <==> s.entities().to_set().remove(e).contains(o) by {
        if t.entities().to_set().contains(o) {
            let i = choose|i: int| 0 <= i < t.entities().len() && t.entities()[i] == o;
            assert(t.as_map().contains_key(o.spec_id()));
            let j = s.index_map()[o.spec_id()] as int;
            assert(s.entities()[j] == o);
        }
        if s.entities().to_set().remove(e).contains(o) {
            let i = choose|i: int| 0 <= i < s.entities().len() && s.entities()[i] == o;
            assert(s.as_map().contains_key(o.spec_id()));
            assert(t.as_map().contains_key(o.spec_id()));
            let j = t.index_map()[o.spec_id()] as int;
            assert(t.entities()[j] == o);
        }
    }
    assert(t.entities().to_set() =~= s.entities().to_set().remove(e));
}

/// `s` with its last element moved to position `i`, and shortened by one.
pub open spec fn swap_removed<T>(s: Seq<T>, i: int) -> Seq<T> {
    s.update(i, s.last()).drop_last()
}

} // verus!
