use std::collections::HashMap;
use vstd::prelude::*;

use crate::borrow::Access;
use crate::entity::Entity;

verus! {

broadcast use vstd::std_specs::hash::group_hash_axioms;

/// A marker for what may stand first in a query: a plain reference, which
/// always has a value. An optional request cannot drive the iteration.
pub trait Always {

}

impl<'a, T> Always for &'a T {

}

impl<'a, T> Always for &'a mut T {

}

/// One requested attribute type of a query: the position of its store
/// (`None` where no value of the type was ever attached), how it is
/// accessed, and whether entities without it are visited too.
#[derive(Copy, Clone, Debug, PartialEq, Eq, Structural)]
pub struct Request {
    pub store: Option<usize>,
    pub access: Access,
    pub optional: bool,
}

/// Why a list of requests is not a query.
#[derive(Copy, Clone, Debug, PartialEq, Eq, Structural)]
pub enum QueryError {
    /// No request at all: nothing would drive the iteration.
    Empty,
    /// The first request is optional; it must be the driver.
    OptionalFirst,
}

/// A checked list of requests: the first one, the driver, is not optional.
pub struct QueryPlan {
    requests: Vec<Request>,
}

impl QueryPlan {
    pub closed spec fn requests(&self) -> Seq<Request> {
        self.requests@
    }

    pub open spec fn wf(&self) -> bool {
        self.requests().len() > 0 && !self.requests()[0].optional
    }

    /// The locks that running the plan takes: one per request whose store
    /// exists, in request order.
    pub open spec fn lock_list(reqs: Seq<Request>) -> Seq<(usize, Access)>
        decreases reqs.len(),
    {
        if reqs.len() == 0 {
            Seq::empty()
        } else {
            let rest = Self::lock_list(reqs.drop_last());
            match reqs.last().store {
                Some(i) => rest.push((i, reqs.last().access)),
                None => rest,
            }
        }
    }

    /// Checks `requests`: there must be one at least, and the first must not
    /// be optional.
    pub fn new(requests: Vec<Request>) -> (r: Result<QueryPlan, QueryError>)
        ensures
            requests@.len() == 0 ==> r == Err::<QueryPlan, QueryError>(QueryError::Empty),
            requests@.len() > 0 && requests@[0].optional ==> r == Err::<QueryPlan, QueryError>(
                QueryError::OptionalFirst,
            ),
            requests@.len() > 0 && !requests@[0].optional ==> (r matches Ok(p) && p.wf()
                && p.requests() == requests@),
    {
        if requests.len() == 0 {
            Err(QueryError::Empty)
        } else if requests[0].optional {
            Err(QueryError::OptionalFirst)
        } else {
            Ok(QueryPlan { requests })
        }
    }

    /// The requests, driver first.
    pub fn requests_ref(&self) -> (r: &Vec<Request>)
        ensures
            r@ == self.requests(),
    {
        &self.requests
    }

    /// Whether every request that is not optional has a store. Where one has
    /// none, no entity has that type and the query visits nothing.
    pub fn can_match(&self) -> (r: bool)
        ensures
            r == (forall|k: int|
                0 <= k < self.requests().len() && !(#[trigger] self.requests()[k]).optional
                    ==> self.requests()[k].store is Some),
    {
        let mut k: usize = 0;
        while k < self.requests.len()
            invariant
                k <= self.requests().len(),
                forall|j: int|
                    0 <= j < k && !(#[trigger] self.requests()[j]).optional
                        ==> self.requests()[j].store is Some,
            decreases self.requests().len() - k,
        {
            if !self.requests[k].optional && self.requests[k].store.is_none() {
                return false;
            }
            k = k + 1;
        }
        true
    }

    /// The locks to take before running the plan, in request order.
    pub fn locks(&self) -> (r: Vec<(usize, Access)>)
        ensures
            r@ == Self::lock_list(self.requests()),
    {
        let mut r: Vec<(usize, Access)> = Vec::new();
        let mut k: usize = 0;
        proof {
            assert(self.requests().take(0) =~= Seq::<Request>::empty());
        }
        while k < self.requests.len()
            invariant
                k <= self.requests().len(),
                r@ == Self::lock_list(self.requests().take(k as int)),
            decreases self.requests().len() - k,
        {
            proof {
                assert(self.requests().take(k + 1).drop_last() =~= self.requests().take(k as int));
            }
            match self.requests[k].store {
                Some(i) => r.push((i, self.requests[k].access)),
                None => {},
            }
            k = k + 1;
        }
        proof {
            assert(self.requests().take(k as int) =~= self.requests());
        }
        r
    }
}

/// A store probed for each driver entity: its index map, if the store
/// exists, and whether a miss is allowed.
pub type Probe<'a> = (Option<&'a HashMap<u64, usize>>, bool);

/// Whether probe `p` finds an entity with id `id`.
pub open spec fn probe_hits(p: Probe, id: u64) -> bool {
    match p.0 {
        Some(m) => m@.contains_key(id),
        None => false,
    }
}

/// Where probe `p` holds the value of the entity with id `id`, if it does.
pub open spec fn probe_slot(p: Probe, id: u64) -> Option<usize> {
    match p.0 {
        Some(m) => if m@.contains_key(id) {
            Some(m@[id])
        } else {
            None
        },
        None => None,
    }
}

/// Whether the entity with id `id` has every type that is not optional.
pub open spec fn joins(probes: Seq<Probe>, id: u64) -> bool {
    forall|k: int| 0 <= k < probes.len() && !(#[trigger] probes[k]).1 ==> probe_hits(probes[k], id)
}

/// Whether the driver entity at position `j` is visited: it is not despawned
/// and joins.
pub open spec fn visited<V>(driver: Seq<Entity>, probes: Seq<Probe>, dead: Map<u64, V>, j: int) -> bool {
    !dead.contains_key(driver[j].spec_id()) && joins(probes, driver[j].spec_id())
}

/// One visited entity: its position in the driver store, and where each
/// probed store holds its value (`None` for an optional miss).
pub struct JoinRow {
    pub index: usize,
    pub entity: Entity,
    pub slots: Vec<Option<usize>>,
}

/// How far a join over a driver store has come: the next driver position
/// to look at.
pub struct JoinCursor {
    next: usize,
}

impl JoinCursor {
    pub closed spec fn position(&self) -> usize {
        self.next
    }

    /// A join that starts at the first driver position.
    pub fn new() -> (r: Self)
        ensures
            r.position() == 0,
    {
        JoinCursor { next: 0 }
    }

    /// The next visited driver entity at or after the cursor, which then
    /// moves past it; `None` where there is none. Each call looks at the
    /// stores as they are now, so an entity despawned meanwhile is skipped.
    pub fn next_match<V>(
        &mut self,
        driver: &[Entity],
        probes: &Vec<Probe>,
        dead: &HashMap<u64, V>,
    ) -> (r: Option<JoinRow>)
        ensures
            r is None ==> {
                &&& final(self).position() >= driver@.len()
                &&& forall|j: int|
                    old(self).position() <= j < driver@.len() ==> !#[trigger] visited(
                        driver@,
                        probes@,
                        dead@,
                        j,
                    )
            },
            r matches Some(row) ==> {
                &&& old(self).position() <= row.index < driver@.len()
                &&& final(self).position() == row.index + 1
                &&& row.entity == driver@[row.index as int]
                &&& visited(driver@, probes@, dead@, row.index as int)
                &&& forall|j: int|
                    old(self).position() <= j < row.index ==> !#[trigger] visited(
                        driver@,
                        probes@,
                        dead@,
                        j,
                    )
                &&& row.slots@.len() == probes@.len()
                &&& forall|k: int|
                    0 <= k < probes@.len() ==> #[trigger] row.slots@[k] == probe_slot(
                        probes@[k],
                        row.entity.spec_id(),
                    )
            },
    {
        while self.next < driver.len()
            invariant
                old(self).position() <= self.position(),
                forall|j: int|
                    old(self).position() <= j < self.position() ==> !#[trigger] visited(
                        driver@,
                        probes@,
                        dead@,
                        j,
                    ),
            decreases driver@.len() - self.position(),
        {
            let i = self.next;
            let e = driver[i];
            let id = e.id();
            self.next = i + 1;
            if !dead.contains_key(&id) {
                let mut slots: Vec<Option<usize>> = Vec::new();
                let mut k: usize = 0;
                let mut ok = true;
                while ok && k < probes.len()
                    invariant
                        !ok ==> k < probes@.len() && !probes@[k as int].1 && !probe_hits(
                            probes@[k as int],
                            id,
                        ),
                        k <= probes@.len(),
                        slots@.len() == k,
                        forall|j: int|
                            0 <= j < k ==> #[trigger] slots@[j] == probe_slot(probes@[j], id),
                        forall|j: int|
                            0 <= j < k && !(#[trigger] probes@[j]).1 ==> probe_hits(probes@[j], id),
                    decreases probes@.len() - k + (if ok { 1int } else { 0int }),
                {
                    let (m, optional) = probes[k];
                    let slot = match m {
                        Some(m) => match m.get(&id) {
                            Some(p) => Some(*p),
                            None => None,
                        },
                        None => None,
                    };
                    if slot.is_none() && !optional {
                        ok = false;
                    } else {
                        slots.push(slot);
                        k = k + 1;
                    }
                }
                if ok {
                    return Some(JoinRow { index: i, entity: e, slots });
                }
            }
        }
        None
    }
}

} // verus!
