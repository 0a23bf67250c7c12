use vstd::prelude::*;

verus! {

/// A unique id for a system, handed out when the system was registered.
/// Ids grow with each registration and are never reused, so the id of a
/// removed system never names another one.
#[derive(Copy, Clone, Debug, PartialEq, Eq, Structural)]
pub struct SysId(u64);

impl SysId {
    pub closed spec fn spec_value(&self) -> u64 {
        self.0
    }

    /// The numeric value of this id.
    #[verifier::when_used_as_spec(spec_value)]
    pub fn value(&self) -> (r: u64)
        ensures
            r == self.spec_value(),
    {
        self.0
    }
}

/// Where a run over the systems stands: the next system to run is the first
/// one, in list order, whose id is at least `from` and below `bound`.
pub struct RunCursor {
    from: u64,
    bound: u64,
}

impl RunCursor {
    pub closed spec fn spec_from(&self) -> u64 {
        self.from
    }

    pub closed spec fn spec_bound(&self) -> u64 {
        self.bound
    }
}

/// An ordered list of systems `S`, each under its id. Registration order is
/// run order. While a system runs it is taken out of its slot, so that it can
/// remove itself or others; it is put back only if its entry still exists.
pub struct Scheduler<S> {
    next_id: u64,
    systems: Vec<(SysId, Option<S>)>,
}

impl<S> Scheduler<S> {
    /// The id that the next registration hands out.
    pub closed spec fn next_id(&self) -> u64 {
        self.next_id
    }

    /// The ids of the resident systems, in run order.
    pub closed spec fn ids(&self) -> Seq<u64> {
        self.systems@.map_values(|e: (SysId, Option<S>)| e.0.spec_value())
    }

    /// The slot of each resident system: `None` while it is taken out.
    pub closed spec fn slots(&self) -> Seq<Option<S>> {
        self.systems@.map_values(|e: (SysId, Option<S>)| e.1)
    }

    /// Ids ascend along the list and all lie below `next_id`.
    pub open spec fn wf(&self) -> bool {
        &&& self.ids().len() == self.slots().len()
        &&& forall|i: int, j: int|
            0 <= i < j < self.ids().len() ==> #[trigger] self.ids()[i] < #[trigger] self.ids()[j]
        &&& forall|i: int| 0 <= i < self.ids().len() ==> #[trigger] self.ids()[i] < self.next_id()
    }

    /// Whether a system with id `id` is resident.
    pub open spec fn has_id(&self, id: u64) -> bool {
        self.ids().contains(id)
    }

    /// Whether the system with id `id` was registered once and is gone now.
    pub open spec fn gone(&self, id: u64) -> bool {
        id < self.next_id() && !self.has_id(id)
    }

    /// Whether the system with id `id` is resident and in its slot, so that a
    /// run can take it.
    pub open spec fn can_run(&self, id: u64) -> bool {
        exists|i: int| 0 <= i < self.ids().len() && #[trigger] self.ids()[i] == id && self.slots()[i] is Some
    }

    /// A scheduler with no systems.
    pub fn new() -> (r: Self)
        ensures
            r.wf(),
            r.ids().len() == 0,
            r.next_id() == 0,
    {
        Scheduler { next_id: 0, systems: Vec::new() }
    }

    /// Whether every id has been handed out already.
    pub fn is_exhausted(&self) -> (r: bool)
        ensures
            r == (self.next_id() == u64::MAX),
    {
        self.next_id == u64::MAX
    }

    /// Adds a system that runs after all systems that were added before it.
    pub fn register(&mut self, system: S) -> (r: SysId)
        requires
            old(self).wf(),
            old(self).next_id() < u64::MAX,
        ensures
            final(self).wf(),
            r.spec_value() == old(self).next_id(),
            final(self).next_id() == old(self).next_id() + 1,
            final(self).ids() == old(self).ids().push(r.spec_value()),
            final(self).slots() == old(self).slots().push(Some(system)),
            forall|x: u64| #[trigger] old(self).gone(x) ==> final(self).gone(x),
    {
        let id = SysId(self.next_id);
        self.next_id = self.next_id + 1;
        self.systems.push((id, Some(system)));
        proof {
            assert(self.ids() =~= old(self).ids().push(id.spec_value()));
            assert(self.slots() =~= old(self).slots().push(Some(system)));
            assert forall|x: u64| #[trigger] old(self).gone(x) implies self.gone(x) by {
                if self.ids().contains(x) {
                    let k = choose|k: int| 0 <= k < self.ids().len() && self.ids()[k] == x;
                    if k < old(self).ids().len() {
                        assert(old(self).ids()[k] == x);
                    }
                }
            }
        }
        id
    }

    /// Removes the system with id `id`; does nothing where there is none.
    pub fn deregister(&mut self, id: SysId)
        requires
            old(self).wf(),
        ensures
            final(self).wf(),
            final(self).next_id() == old(self).next_id(),
            !final(self).has_id(id.spec_value()),
            forall|x: u64| #[trigger] old(self).gone(x) ==> final(self).gone(x),
            !old(self).has_id(id.spec_value()) ==> final(self).ids() == old(self).ids()
                && final(self).slots() == old(self).slots(),
            old(self).has_id(id.spec_value()) ==> exists|p: int|
                0 <= p < old(self).ids().len() && #[trigger] old(self).ids()[p] == id.spec_value()
                    && final(self).ids() == old(self).ids().remove(p)
                    && final(self).slots() == old(self).slots().remove(p),
    {
        let mut i: usize = 0;
        while i < self.systems.len()
            invariant
                self.wf(),
                *self == *old(self),
                i <= self.ids().len(),
                forall|j: int| 0 <= j < i ==> #[trigger] self.ids()[j] != id.spec_value(),
            decreases self.ids().len() - i,
        {
            if self.systems[i].0.0 == id.0 {
                let _ = self.systems.remove(i);
                proof {
                    let p = i as int;
                    assert(self.ids() =~= old(self).ids().remove(p));
                    assert(self.slots() =~= old(self).slots().remove(p));
                    assert(old(self).ids()[p] == id.spec_value());
                    assert forall|k: int| 0 <= k < self.ids().len() implies #[trigger] self.ids()[k]
                        != id.spec_value() by {
                        if k < p {
                            assert(old(self).ids()[k] < old(self).ids()[p]);
                        } else {
                            assert(old(self).ids()[p] < old(self).ids()[k + 1]);
                        }
                    }
                    assert forall|x: u64| #[trigger] old(self).gone(x) implies self.gone(x) by {
                        if self.ids().contains(x) {
                            let k = choose|k: int| 0 <= k < self.ids().len() && self.ids()[k] == x;
                            if k < p {
                                assert(old(self).ids()[k] == x);
                            } else {
                                assert(old(self).ids()[k + 1] == x);
                            }
                        }
                    }
                }
                return;
            }
            i = i + 1;
        }
    }

    /// Starts a run over the systems that are resident now: systems
    /// registered during the run wait for the next one.
    pub fn begin_run(&self) -> (r: RunCursor)
        ensures
            r.spec_from() == 0,
            r.spec_bound() == self.next_id(),
    {
        RunCursor { from: 0, bound: self.next_id }
    }

    /// Takes the next system of a run out of its slot, or returns `None` when
    /// the run is over. The system taken is the first in list order whose id
    /// lies in the cursor's range and whose slot is filled; the cursor moves
    /// past it. Systems removed since the run began are not met again.
    pub fn take_next(&mut self, cursor: &mut RunCursor) -> (r: Option<(SysId, S)>)
        requires
            old(self).wf(),
        ensures
            final(self).wf(),
            final(self).next_id() == old(self).next_id(),
            final(self).ids() == old(self).ids(),
            final(cursor).spec_bound() == old(cursor).spec_bound(),
            forall|x: u64| #[trigger] old(self).gone(x) ==> final(self).gone(x),
            r matches Some((id, _)) ==> old(self).can_run(id.spec_value()),
            r is None ==> {
                &&& final(self).slots() == old(self).slots()
                &&& *final(cursor) == *old(cursor)
                &&& forall|i: int|
                    0 <= i < old(self).ids().len() && old(cursor).spec_from() <= #[trigger] old(self).ids()[i]
                        < old(cursor).spec_bound() ==> old(self).slots()[i] is None
            },
            r matches Some((id, s)) ==> exists|i: int|
                {
                    &&& 0 <= i < old(self).ids().len()
                    &&& #[trigger] old(self).ids()[i] == id.spec_value()
                    &&& old(cursor).spec_from() <= id.spec_value() < old(cursor).spec_bound()
                    &&& old(self).slots()[i] == Some(s)
                    &&& final(self).slots() == old(self).slots().update(i, None)
                    &&& final(cursor).spec_from() == id.spec_value() + 1
                    &&& forall|j: int|
                        0 <= j < i && old(cursor).spec_from() <= #[trigger] old(self).ids()[j]
                            ==> old(self).slots()[j] is None
                },
    {
        let mut i: usize = 0;
        while i < self.systems.len()
            invariant
                self.wf(),
                *self == *old(self),
                *cursor == *old(cursor),
                i <= self.ids().len(),
                forall|j: int|
                    0 <= j < i && cursor.spec_from() <= #[trigger] self.ids()[j] < cursor.spec_bound()
                        ==> self.slots()[j] is None,
            decreases self.ids().len() - i,
        {
            let id = self.systems[i].0;
            if id.0 >= cursor.bound {
                proof {
                    assert forall|j: int|
                        0 <= j < self.ids().len() && cursor.spec_from() <= #[trigger] self.ids()[j]
                            < cursor.spec_bound() implies self.slots()[j] is None by {
                        if j > i {
                            assert(self.ids()[i as int] < self.ids()[j]);
                        }
                    }
                }
                return None;
            }
            if id.0 >= cursor.from && self.systems[i].1.is_some() {
                let entry = &mut self.systems[i];
                let s = entry.1.take();
                match s {
                    Some(s) => {
                        proof {
                            assert(self.ids() =~= old(self).ids());
                            assert(self.slots() =~= old(self).slots().update(i as int, None));
                            assert forall|j: int|
                                0 <= j < i && old(cursor).spec_from() <= #[trigger] old(self).ids()[j]
                                    implies old(self).slots()[j] is None by {
                                assert(old(self).ids()[j] < old(self).ids()[i as int]);
                            }
                            assert(old(self).ids()[i as int] == id.spec_value());
                        }
                        cursor.from = id.0 + 1;
                        return Some((id, s));
                    },
                    None => {
                        return None;
                    },
                }
            }
            i = i + 1;
        }
        None
    }

    /// Puts a system that has run back into the slot of `id`, if that entry
    /// still exists and is empty; otherwise the system is dropped.
    pub fn restore(&mut self, id: SysId, system: S)
        requires
            old(self).wf(),
        ensures
            final(self).wf(),
            final(self).next_id() == old(self).next_id(),
            final(self).ids() == old(self).ids(),
            forall|x: u64| #[trigger] old(self).gone(x) ==> final(self).gone(x),
            (exists|i: int|
                0 <= i < old(self).ids().len() && #[trigger] old(self).ids()[i] == id.spec_value()
                    && old(self).slots()[i] is None) ==> exists|i: int|
                0 <= i < old(self).ids().len() && #[trigger] old(self).ids()[i] == id.spec_value()
                    && final(self).slots() == old(self).slots().update(i, Some(system)),
            !(exists|i: int|
                0 <= i < old(self).ids().len() && #[trigger] old(self).ids()[i] == id.spec_value()
                    && old(self).slots()[i] is None) ==> final(self).slots() == old(self).slots(),
    {
        let mut i: usize = 0;
        while i < self.systems.len()
            invariant
                self.wf(),
                *self == *old(self),
                i <= self.ids().len(),
                forall|j: int| 0 <= j < i ==> #[trigger] self.ids()[j] != id.spec_value(),
            decreases self.ids().len() - i,
        {
            if self.systems[i].0.0 == id.0 {
                if self.systems[i].1.is_none() {
                    self.systems.set(i, (id, Some(system)));
                    proof {
                        assert(self.ids() =~= old(self).ids());
                        assert(self.slots() =~= old(self).slots().update(i as int, Some(system)));
                        assert(old(self).ids()[i as int] == id.spec_value());
                    }
                } else {
                    proof {
                        assert forall|j: int|
                            0 <= j < self.ids().len() && #[trigger] self.ids()[j] == id.spec_value()
                                implies self.slots()[j] is Some by {
                            if j < i {
                                assert(self.ids()[j] < self.ids()[i as int]);
                            } else if j > i {
                                assert(self.ids()[i as int] < self.ids()[j]);
                            }
                        }
                    }
                }
                return;
            }
            i = i + 1;
        }
    }
}

/// A system that has been removed never runs again: its id stays unused by
/// every later operation (see the `gone` clauses of each one), and a run only
/// takes systems that `can_run`, which a removed one cannot.
pub proof fn lemma_removed_system_never_runs<S>(s: &Scheduler<S>, id: SysId)
    requires
        s.wf(),
        s.gone(id.spec_value()),
    ensures
        !s.can_run(id.spec_value()),
        !s.has_id(id.spec_value()),
{
    if s.can_run(id.spec_value()) {
        let i = choose|i: int| 0 <= i < s.ids().len() && #[trigger] s.ids()[i] == id.spec_value()
            && s.slots()[i] is Some;
        assert(s.ids().contains(id.spec_value()));
    }
}

} // verus!
