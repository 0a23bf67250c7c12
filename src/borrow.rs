use vstd::prelude::*;

use crate::entity::Entity;

verus! {

/// How a store is to be accessed.
#[derive(Copy, Clone, Debug, PartialEq, Eq, Structural)]
pub enum Access {
    Read,
    Write,
}

/// The borrow state of one store: any number of readers, or one writer.
#[derive(Copy, Clone, Debug, PartialEq, Eq, Structural)]
pub struct BorrowState {
    pub readers: usize,
    pub writing: bool,
}

/// The state after granting `a` on `s`, or `None` where `a` conflicts with
/// what is held: a read conflicts with a writer, a write with anyone.
pub open spec fn grant_one(s: BorrowState, a: Access) -> Option<BorrowState> {
    match a {
        Access::Read => if s.writing || s.readers == usize::MAX {
            None
        } else {
            Some(BorrowState { readers: (s.readers + 1) as usize, writing: false })
        },
        Access::Write => if s.writing || s.readers > 0 {
            None
        } else {
            Some(BorrowState { readers: 0, writing: true })
        },
    }
}

/// The state after giving back `a` on `s`.
pub open spec fn release_one(s: BorrowState, a: Access) -> BorrowState {
    match a {
        Access::Read => BorrowState {
            readers: if s.readers > 0 { (s.readers - 1) as usize } else { 0 },
            writing: s.writing,
        },
        Access::Write => BorrowState { readers: s.readers, writing: false },
    }
}

/// The states after granting each request of `reqs` in order, or `None`
/// where one of them conflicts with the states built up before it.
pub open spec fn grant_all(st: Seq<BorrowState>, reqs: Seq<(usize, Access)>) -> Option<
    Seq<BorrowState>,
>
    decreases reqs.len(),
{
    if reqs.len() == 0 {
        Some(st)
    } else {
        match grant_all(st, reqs.drop_last()) {
            None => None,
            Some(s1) => {
                let (i, a) = reqs.last();
                if i < s1.len() {
                    match grant_one(s1[i as int], a) {
                        None => None,
                        Some(si) => Some(s1.update(i as int, si)),
                    }
                } else {
                    None
                }
            },
        }
    }
}

/// The states after giving back each request of `reqs`, the last first.
pub open spec fn release_all_spec(st: Seq<BorrowState>, reqs: Seq<(usize, Access)>) -> Seq<
    BorrowState,
>
    decreases reqs.len(),
{
    if reqs.len() == 0 {
        st
    } else {
        let (i, a) = reqs.last();
        let s1 = if i < st.len() {
            st.update(i as int, release_one(st[i as int], a))
        } else {
            st
        };
        release_all_spec(s1, reqs.drop_last())
    }
}

/// Every store that `reqs` names exists in `st`.
pub open spec fn in_range(st: Seq<BorrowState>, reqs: Seq<(usize, Access)>) -> bool {
    forall|k: int| 0 <= k < reqs.len() ==> (#[trigger] reqs[k]).0 < st.len()
}

/// Giving back what was just granted restores the state before.
pub proof fn lemma_release_undoes_grant(s: BorrowState, a: Access)
    requires
        grant_one(s, a) is Some,
    ensures
        release_one(grant_one(s, a)->Some_0, a) == s,
{
}

/// Granting a list of requests and then giving all of them back, the last
/// first, restores the states from before.
pub proof fn lemma_release_all_undoes_grant_all(st: Seq<BorrowState>, reqs: Seq<(usize, Access)>)
    requires
        grant_all(st, reqs) is Some,
    ensures
        release_all_spec(grant_all(st, reqs)->Some_0, reqs) == st,
    decreases reqs.len(),
{
    if reqs.len() > 0 {
        let s1 = grant_all(st, reqs.drop_last())->Some_0;
        let (i, a) = reqs.last();
        lemma_release_undoes_grant(s1[i as int], a);
        let t = grant_all(st, reqs)->Some_0;
        assert(t.update(i as int, release_one(t[i as int], a)) =~= s1);
        lemma_release_all_undoes_grant_all(st, reqs.drop_last());
    }
}

/// Once a prefix of the requests conflicts, every longer prefix does.
pub proof fn lemma_grant_all_none_extends(st: Seq<BorrowState>, reqs: Seq<(usize, Access)>, k: int)
    requires
        0 <= k <= reqs.len(),
        grant_all(st, reqs.take(k)) is None,
    ensures
        grant_all(st, reqs) is None,
    decreases reqs.len() - k,
{
    if k < reqs.len() {
        assert(reqs.take(k + 1).drop_last() =~= reqs.take(k));
        lemma_grant_all_none_extends(st, reqs, k + 1);
    } else {
        assert(reqs.take(k) =~= reqs);
    }
}

/// Granting `a` and then `b` is granting `a + b`.
pub proof fn lemma_grant_all_append(st: Seq<BorrowState>, a: Seq<(usize, Access)>, b: Seq<(usize, Access)>)
    ensures
        grant_all(st, a + b) == match grant_all(st, a) {
            None => None,
            Some(t) => grant_all(t, b),
        },
    decreases b.len(),
{
    if b.len() == 0 {
        assert(a + b =~= a);
    } else {
        assert((a + b).drop_last() =~= a + b.drop_last());
        assert((a + b).last() == b.last());
        lemma_grant_all_append(st, a, b.drop_last());
    }
}

/// While store `i` is written, granting more requests keeps it written, and
/// fails where any of them names `i`.
pub proof fn lemma_writing_blocks(s: Seq<BorrowState>, reqs: Seq<(usize, Access)>, i: usize)
    requires
        i < s.len(),
        s[i as int].writing,
    ensures
        grant_all(s, reqs) matches Some(t) ==> t.len() == s.len() && t[i as int].writing,
        (exists|k: int| 0 <= k < reqs.len() && (#[trigger] reqs[k]).0 == i) ==> grant_all(
            s,
            reqs,
        ) is None,
    decreases reqs.len(),
{
    if reqs.len() > 0 {
        lemma_writing_blocks(s, reqs.drop_last(), i);
        if exists|k: int| 0 <= k < reqs.len() && (#[trigger] reqs[k]).0 == i {
            let k = choose|k: int| 0 <= k < reqs.len() && (#[trigger] reqs[k]).0 == i;
            if k < reqs.len() - 1 {
                assert(reqs.drop_last()[k] == reqs[k]);
            }
        }
    }
}

/// Granting a write on store `i` leaves it written.
pub proof fn lemma_write_grant_sets_writing(st: Seq<BorrowState>, reqs: Seq<(usize, Access)>, k: int)
    requires
        0 <= k < reqs.len(),
        reqs[k].1 == Access::Write,
        grant_all(st, reqs) is Some,
    ensures
        reqs[k].0 < st.len(),
        (grant_all(st, reqs)->Some_0)[reqs[k].0 as int].writing,
{
    let i = reqs[k].0;
    let a = reqs.take(k + 1);
    let b = reqs.skip(k + 1);
    assert(a + b =~= reqs);
    lemma_grant_all_append(st, a, b);
    assert(a.drop_last() =~= reqs.take(k));
    lemma_grant_all_len(st, a);
    lemma_grant_all_len(st, reqs.take(k));
    let t = grant_all(st, a)->Some_0;
    lemma_writing_blocks(t, b, i);
}

/// Granting never changes the number of stores.
pub proof fn lemma_grant_all_len(st: Seq<BorrowState>, reqs: Seq<(usize, Access)>)
    ensures
        grant_all(st, reqs) matches Some(t) ==> t.len() == st.len(),
    decreases reqs.len(),
{
    if reqs.len() > 0 {
        lemma_grant_all_len(st, reqs.drop_last());
    }
}

/// Aliasing is detected: while one query holds write access to a store, a
/// second query that requests that store in any way, nested inside the
/// first, is refused; and so is a single query that requests write access
/// to one store next to any other access to it.
pub proof fn lemma_write_excludes_others(
    st: Seq<BorrowState>,
    outer: Seq<(usize, Access)>,
    inner: Seq<(usize, Access)>,
    k: int,
    j: int,
)
    requires
        0 <= k < outer.len(),
        outer[k].1 == Access::Write,
        0 <= j < inner.len(),
        inner[j].0 == outer[k].0,
    ensures
        grant_all(st, outer) matches Some(t) ==> grant_all(t, inner) is None,
        grant_all(st, outer + inner) is None,
{
    lemma_grant_all_append(st, outer, inner);
    if grant_all(st, outer) is Some {
        lemma_write_grant_sets_writing(st, outer, k);
        let t = grant_all(st, outer)->Some_0;
        lemma_grant_all_len(st, outer);
        lemma_writing_blocks(t, inner, outer[k].0);
    }
}

/// A conflicting acquisition: `access` on the store `store`, whose
/// attribute type is called `attribute`.
pub struct AliasError {
    pub store: usize,
    pub attribute: String,
    pub access: Access,
}

/// One reader/writer state per store, with the name of each store's
/// attribute type. Stores are only ever appended.
pub struct BorrowTable {
    names: Vec<String>,
    states: Vec<BorrowState>,
}

impl BorrowTable {
    pub closed spec fn names(&self) -> Seq<Seq<char>> {
        self.names@.map_values(|n: String| n@)
    }

    pub closed spec fn states(&self) -> Seq<BorrowState> {
        self.states@
    }

    pub open spec fn wf(&self) -> bool {
        self.names().len() == self.states().len()
    }

    /// A table with no stores.
    pub fn new() -> (r: Self)
        ensures
            r.wf(),
            r.states().len() == 0,
    {
        BorrowTable { names: Vec::new(), states: Vec::new() }
    }

    /// Number of stores.
    pub fn len(&self) -> (r: usize)
        requires
            self.wf(),
        ensures
            r == self.states().len(),
    {
        self.states.len()
    }

    /// Adds a free store for the attribute type called `name`; returns its
    /// position.
    pub fn add_store(&mut self, name: String) -> (r: usize)
        requires
            old(self).wf(),
        ensures
            final(self).wf(),
            r == old(self).states().len(),
            final(self).names() == old(self).names().push(name@),
            final(self).states() == old(self).states().push(
                BorrowState { readers: 0, writing: false },
            ),
    {
        let r = self.states.len();
        self.names.push(name);
        self.states.push(BorrowState { readers: 0, writing: false });
        proof {
            assert(self.names() =~= old(self).names().push(name@));
        }
        r
    }

    /// The name of the attribute type of store `i`.
    pub fn name(&self, i: usize) -> (r: &String)
        requires
            self.wf(),
            i < self.states().len(),
        ensures
            r@ == self.names()[i as int],
    {
        &self.names[i]
    }

    /// The borrow state of store `i`.
    pub fn state(&self, i: usize) -> (r: BorrowState)
        requires
            self.wf(),
            i < self.states().len(),
        ensures
            r == self.states()[i as int],
    {
        self.states[i]
    }

    /// Whether nobody reads or writes store `i`, so that it can change shape.
    pub fn is_free(&self, i: usize) -> (r: bool)
        requires
            self.wf(),
            i < self.states().len(),
        ensures
            r == (self.states()[i as int].readers == 0 && !self.states()[i as int].writing),
    {
        self.states[i].readers == 0 && !self.states[i].writing
    }

    /// Takes `access` on store `i`, or fails, without waiting and without
    /// changing anything, where that conflicts with what is held.
    pub fn acquire(&mut self, i: usize, access: Access) -> (r: Result<(), AliasError>)
        requires
            old(self).wf(),
            i < old(self).states().len(),
        ensures
            final(self).wf(),
            final(self).names() == old(self).names(),
            match grant_one(old(self).states()[i as int], access) {
                Some(s) => r is Ok && final(self).states() == old(self).states().update(i as int, s),
                None => r matches Err(e) && e.store == i && e.access == access
                    && e.attribute@ == old(self).names()[i as int]
                    && final(self).states() == old(self).states(),
            },
    {
        let s = self.states[i];
        let ok = match access {
            Access::Read => !s.writing && s.readers < usize::MAX,
            Access::Write => !s.writing && s.readers == 0,
        };
        if !ok {
            return Err(AliasError { store: i, attribute: self.names[i].clone(), access });
        }
        let ns = match access {
            Access::Read => BorrowState { readers: s.readers + 1, writing: false },
            Access::Write => BorrowState { readers: 0, writing: true },
        };
        self.states.set(i, ns);
        Ok(())
    }

    /// Takes every request of `reqs` in order: all of them, or, where one
    /// conflicts with what is held or was taken before it in the list, none.
    /// The error then names the first request that conflicts.
    pub fn acquire_all(&mut self, reqs: &Vec<(usize, Access)>) -> (r: Result<(), AliasError>)
        requires
            old(self).wf(),
            in_range(old(self).states(), reqs@),
        ensures
            final(self).wf(),
            final(self).names() == old(self).names(),
            match grant_all(old(self).states(), reqs@) {
                Some(ns) => r is Ok && final(self).states() == ns,
                None => {
                    &&& final(self).states() == old(self).states()
                    &&& r matches Err(e) && exists|k: int|
                        {
                            &&& 0 <= k < reqs@.len()
                            &&& grant_all(old(self).states(), reqs@.take(k)) is Some
                            &&& grant_all(old(self).states(), #[trigger] reqs@.take(k + 1)) is None
                            &&& e.store == reqs@[k].0
                            &&& e.access == reqs@[k].1
                            &&& e.attribute@ == old(self).names()[e.store as int]
                        }
                },
            },
    {
        let ghost st0 = self.states();
        let mut k: usize = 0;
        proof {
            assert(reqs@.take(0) =~= Seq::<(usize, Access)>::empty());
        }
        while k < reqs.len()
            invariant
                self.wf(),
                self.names() == old(self).names(),
                self.states().len() == st0.len(),
                st0 == old(self).states(),
                in_range(st0, reqs@),
                k <= reqs@.len(),
                grant_all(st0, reqs@.take(k as int)) == Some(self.states()),
            decreases reqs@.len() - k,
        {
            let (i, a) = reqs[k];
            proof {
                assert(reqs@[k as int].0 < st0.len());
                assert(reqs@.take(k + 1).drop_last() =~= reqs@.take(k as int));
                assert(reqs@.take(k + 1).last() == reqs@[k as int]);
            }
            match self.acquire(i, a) {
                Ok(()) => {
                    k = k + 1;
                },
                Err(e) => {
                    let ghost failed = k as int;
                    let mut j: usize = k;
                    while j > 0
                        invariant
                            self.wf(),
                            self.names() == old(self).names(),
                            self.states().len() == st0.len(),
                            in_range(st0, reqs@),
                            j <= failed,
                            failed < reqs@.len(),
                            grant_all(st0, reqs@.take(j as int)) == Some(self.states()),
                        decreases j,
                    {
                        j = j - 1;
                        let (i2, a2) = reqs[j];
                        proof {
                            assert(reqs@[j as int].0 < st0.len());
                            assert(reqs@.take(j + 1).drop_last() =~= reqs@.take(j as int));
                            assert(reqs@.take(j + 1).last() == reqs@[j as int]);
                            let s1 = grant_all(st0, reqs@.take(j as int))->Some_0;
                            lemma_release_undoes_grant(s1[i2 as int], a2);
                            assert(self.states().update(
                                i2 as int,
                                release_one(self.states()[i2 as int], a2),
                            ) =~= s1);
                        }
                        self.release(i2, a2);
                    }
                    proof {
                        assert(reqs@.take(0) =~= Seq::<(usize, Access)>::empty());
                        lemma_grant_all_none_extends(st0, reqs@, failed + 1);
                    }
                    return Err(e);
                },
            }
        }
        proof {
            assert(reqs@.take(reqs@.len() as int) =~= reqs@);
        }
        Ok(())
    }

    /// Gives back every request of `reqs`, the last first.
    pub fn release_all(&mut self, reqs: &Vec<(usize, Access)>)
        requires
            old(self).wf(),
            in_range(old(self).states(), reqs@),
        ensures
            final(self).wf(),
            final(self).names() == old(self).names(),
            final(self).states() == release_all_spec(old(self).states(), reqs@),
    {
        let mut k: usize = reqs.len();
        proof {
            assert(reqs@.take(reqs@.len() as int) =~= reqs@);
        }
        while k > 0
            invariant
                self.wf(),
                self.names() == old(self).names(),
                self.states().len() == old(self).states().len(),
                in_range(old(self).states(), reqs@),
                k <= reqs@.len(),
                release_all_spec(old(self).states(), reqs@) == release_all_spec(
                    self.states(),
                    reqs@.take(k as int),
                ),
            decreases k,
        {
            k = k - 1;
            let (i, a) = reqs[k];
            proof {
                assert(reqs@[k as int].0 < old(self).states().len());
                assert(reqs@.take(k + 1).drop_last() =~= reqs@.take(k as int));
                assert(reqs@.take(k + 1).last() == reqs@[k as int]);
            }
            self.release(i, a);
        }
        proof {
            assert(reqs@.take(0) =~= Seq::<(usize, Access)>::empty());
        }
    }

    /// Gives back `access` on store `i`.
    pub fn release(&mut self, i: usize, access: Access)
        requires
            old(self).wf(),
            i < old(self).states().len(),
        ensures
            final(self).wf(),
            final(self).names() == old(self).names(),
            final(self).states() == old(self).states().update(
                i as int,
                release_one(old(self).states()[i as int], access),
            ),
    {
        let s = self.states[i];
        let ns = match access {
            Access::Read => BorrowState {
                readers: if s.readers > 0 {
                    s.readers - 1
                } else {
                    0
                },
                writing: s.writing,
            },
            Access::Write => BorrowState { readers: s.readers, writing: false },
        };
        self.states.set(i, ns);
    }
}

/// Removals of entities from stores that were borrowed when the entity was
/// despawned; each waits until its store is free.
pub struct PendingRemovals {
    items: Vec<(usize, Entity)>,
}

impl PendingRemovals {
    /// The waiting removals, oldest first: a store position and an entity.
    pub closed spec fn items(&self) -> Seq<(usize, Entity)> {
        self.items@
    }

    /// No removal waits.
    pub fn new() -> (r: Self)
        ensures
            r.items().len() == 0,
    {
        PendingRemovals { items: Vec::new() }
    }

    /// Whether no removal waits.
    pub fn is_empty(&self) -> (r: bool)
        ensures
            r == (self.items().len() == 0),
    {
        self.items.len() == 0
    }

    /// Records that `entity` is to leave store `store` once it is free.
    pub fn push(&mut self, store: usize, entity: Entity)
        ensures
            final(self).items() == old(self).items().push((store, entity)),
    {
        self.items.push((store, entity));
    }

    /// Plans the removal of `entity` from every store of `table`: returns the
    /// stores that are free now, in order, from which it can leave at once,
    /// and records a waiting removal for each of the others.
    pub fn plan_removal(&mut self, table: &BorrowTable, entity: Entity) -> (r: Vec<usize>)
        requires
            table.wf(),
        ensures
            r@ == all_stores(table.states().len()).filter(|i: usize| store_free(table.states(), i)),
            final(self).items() == old(self).items() + all_stores(table.states().len()).filter(
                |i: usize| !store_free(table.states(), i),
            ).map_values(|i: usize| (i, entity)),
    {
        let ghost st = table.states();
        let ghost free_fn = |i: usize| store_free(st, i);
        let ghost busy_fn = |i: usize| !store_free(st, i);
        let ghost pair_fn = |i: usize| (i, entity);
        let n = table.len();
        let mut now: Vec<usize> = Vec::new();
        let mut i: usize = 0;
        while i < n
            invariant
                i <= n,
                n == st.len(),
                table.wf(),
                st == table.states(),
                free_fn == (|i: usize| store_free(st, i)),
                busy_fn == (|i: usize| !store_free(st, i)),
                pair_fn == (|i: usize| (i, entity)),
                now@ == all_stores(i as nat).filter(free_fn),
                self.items() == old(self).items() + all_stores(i as nat).filter(busy_fn).map_values(
                    pair_fn,
                ),
            decreases n - i,
        {
            proof {
                let t = all_stores((i + 1) as nat);
                assert(t.drop_last() =~= all_stores(i as nat));
                assert(t.last() == i);
                reveal(Seq::filter);
                assert(free_fn(i) == store_free(st, i));
                assert(busy_fn(i) == !store_free(st, i));
            }
            if table.is_free(i) {
                now.push(i);
                proof {
                    assert(now@ =~= all_stores((i + 1) as nat).filter(free_fn));
                    assert(all_stores((i + 1) as nat).filter(busy_fn) =~= all_stores(i as nat).filter(busy_fn));
                }
            } else {
                self.items.push((i, entity));
                proof {
                    assert(all_stores((i + 1) as nat).filter(free_fn) =~= all_stores(i as nat).filter(free_fn));
                    let b = all_stores(i as nat).filter(busy_fn);
                    assert(all_stores((i + 1) as nat).filter(busy_fn) =~= b.push(i));
                    assert(b.push(i).map_values(pair_fn) =~= b.map_values(pair_fn).push((i, entity)));
                    assert(self.items() =~= old(self).items() + all_stores((i + 1) as nat).filter(
                        busy_fn,
                    ).map_values(pair_fn));
                }
            }
            i = i + 1;
        }
        now
    }

    /// Hands out, oldest first, the removals whose store is free in `table`
    /// now, and keeps the others, in their order.
    pub fn take_ready(&mut self, table: &BorrowTable) -> (r: Vec<(usize, Entity)>)
        requires
            table.wf(),
        ensures
            r@ == old(self).items().filter(|x: (usize, Entity)| store_free(table.states(), x.0)),
            final(self).items() == old(self).items().filter(
                |x: (usize, Entity)| !store_free(table.states(), x.0),
            ),
    {
        let ghost st = table.states();
        let ghost ready_fn = |x: (usize, Entity)| store_free(st, x.0);
        let ghost wait_fn = |x: (usize, Entity)| !store_free(st, x.0);
        let mut ready: Vec<(usize, Entity)> = Vec::new();
        let mut waiting: Vec<(usize, Entity)> = Vec::new();
        let mut k: usize = 0;
        proof {
            assert(self.items().take(0) =~= Seq::<(usize, Entity)>::empty());
        }
        while k < self.items.len()
            invariant
                k <= self.items().len(),
                *self == *old(self),
                table.wf(),
                st == table.states(),
                ready_fn == (|x: (usize, Entity)| store_free(st, x.0)),
                wait_fn == (|x: (usize, Entity)| !store_free(st, x.0)),
                ready@ == self.items().take(k as int).filter(ready_fn),
                waiting@ == self.items().take(k as int).filter(wait_fn),
            decreases self.items().len() - k,
        {
            let x = self.items[k];
            proof {
                let t = self.items().take(k + 1);
                assert(t.drop_last() =~= self.items().take(k as int));
                assert(t.last() == x);
                assert(t.filter(ready_fn) == t.drop_last().filter(ready_fn) + (if ready_fn(x) {
                    seq![x]
                } else {
                    Seq::empty()
                })) by {
                    reveal(Seq::filter);
                    assert(t.drop_last().filter(ready_fn) + (if ready_fn(x) {
                        seq![x]
                    } else {
                        Seq::empty()
                    }) =~= if ready_fn(x) {
                        t.drop_last().filter(ready_fn).push(x)
                    } else {
                        t.drop_last().filter(ready_fn)
                    });
                }
                assert(t.filter(wait_fn) == t.drop_last().filter(wait_fn) + (if wait_fn(x) {
                    seq![x]
                } else {
                    Seq::empty()
                })) by {
                    reveal(Seq::filter);
                    assert(t.drop_last().filter(wait_fn) + (if wait_fn(x) {
                        seq![x]
                    } else {
                        Seq::empty()
                    }) =~= if wait_fn(x) {
                        t.drop_last().filter(wait_fn).push(x)
                    } else {
                        t.drop_last().filter(wait_fn)
                    });
                }
            }
            proof {
                assert(ready_fn(x) == store_free(st, x.0));
                assert(wait_fn(x) == !store_free(st, x.0));
            }
            if x.0 < table.len() && table.is_free(x.0) {
                ready.push(x);
                proof {
                    assert(ready@ =~= self.items().take(k + 1).filter(ready_fn));
                    assert(waiting@ =~= self.items().take(k + 1).filter(wait_fn));
                }
            } else {
                waiting.push(x);
                proof {
                    assert(ready@ =~= self.items().take(k + 1).filter(ready_fn));
                    assert(waiting@ =~= self.items().take(k + 1).filter(wait_fn));
                }
            }
            k = k + 1;
        }
        proof {
            assert(self.items().take(k as int) =~= self.items());
        }
        self.items = waiting;
        ready
    }
}

/// The store positions `0, 1, ..., n - 1`.
pub open spec fn all_stores(n: nat) -> Seq<usize> {
    Seq::new(n, |i: int| i as usize)
}

/// Whether store `i` exists in `st` and nobody reads or writes it.
pub open spec fn store_free(st: Seq<BorrowState>, i: usize) -> bool {
    i < st.len() && st[i as int].readers == 0 && !st[i as int].writing
}

} // verus!
