//! The thread harness: thread identifiers, the one-shot outcome slot behind
//! each join handle, and the registry that carries work to new workers.
use vstd::prelude::*;

use crate::tracing::UNASSIGNED_THREAD;

verus! {

/// Hands out thread identifiers in increasing order, starting at 0. The
/// value `UNASSIGNED_THREAD` is never handed out.
pub struct ThreadIds {
    next: u32,
}

impl ThreadIds {
    /// The identifier the next request gets.
    pub closed spec fn spec_next(&self) -> u32 {
        self.next
    }

    pub fn new() -> (r: ThreadIds)
        ensures
            r.spec_next() == 0,
    {
        ThreadIds { next: 0 }
    }

    /// A fresh identifier, or `None` once every identifier is taken.
    pub fn next_available_thread_id(&mut self) -> (r: Option<u32>)
        ensures
            old(self).spec_next() < UNASSIGNED_THREAD ==> r == Some(old(self).spec_next())
                && final(self).spec_next() == old(self).spec_next() + 1,
            old(self).spec_next() == UNASSIGNED_THREAD ==> r is None && final(self).spec_next()
                == old(self).spec_next(),
    {
        if self.next < UNASSIGNED_THREAD {
            let id = self.next;
            self.next = id + 1;
            Some(id)
        } else {
            None
        }
    }
}

/// The identifier of the thread whose memorized identifier is `slot`: the
/// memorized one, or else a fresh one, which is memorized.
pub fn thread_id(slot: &mut Option<u32>, ids: &mut ThreadIds) -> (r: Option<u32>)
    ensures
        match *old(slot) {
            Some(id) => r == Some(id) && *final(slot) == *old(slot) && final(ids).spec_next()
                == old(ids).spec_next(),
            None => {
                &&& old(ids).spec_next() < UNASSIGNED_THREAD ==> r == Some(old(ids).spec_next())
                    && final(ids).spec_next() == old(ids).spec_next() + 1
                &&& old(ids).spec_next() == UNASSIGNED_THREAD ==> r is None
                    && final(ids).spec_next() == old(ids).spec_next()
                &&& *final(slot) == r
            },
        },
{
    match *slot {
        Some(id) => Some(id),
        None => {
            let id = ids.next_available_thread_id();
            *slot = id;
            id
        },
    }
}

/// Where a spawned thread stands: running, finished with its outcome
/// written, or joined with the outcome handed over.
pub enum JoinState<O> {
    Running,
    Finished(O),
    Joined,
}

/// The state once a worker writes `outcome`.
pub open spec fn spec_finish<O>(s: JoinState<O>, outcome: O) -> JoinState<O> {
    match s {
        JoinState::Running => JoinState::Finished(outcome),
        _ => s,
    }
}

/// What a join takes out of a slot in state `s`, and the state it leaves.
pub open spec fn spec_take<O>(s: JoinState<O>) -> (Option<O>, JoinState<O>) {
    match s {
        JoinState::Finished(o) => (Some(o), JoinState::Joined),
        _ => (None, s),
    }
}

/// The thread identifier and single-assignment outcome slot that a worker
/// shares with its join handle.
pub struct ThreadInternals<O> {
    tid: u32,
    state: JoinState<O>,
}

impl<O> ThreadInternals<O> {
    pub closed spec fn spec_tid(&self) -> u32 {
        self.tid
    }

    pub closed spec fn state(&self) -> JoinState<O> {
        self.state
    }

    pub fn new(tid: u32) -> (r: ThreadInternals<O>)
        ensures
            r.spec_tid() == tid,
            r.state() is Running,
    {
        ThreadInternals { tid, state: JoinState::Running }
    }

    pub fn tid(&self) -> (r: u32)
        ensures
            r == self.spec_tid(),
    {
        self.tid
    }

    /// Writes the worker's outcome; the slot is written once only.
    pub fn set_result(&mut self, result: O)
        requires
            old(self).state() is Running,
        ensures
            final(self).state() == spec_finish(old(self).state(), result),
            final(self).spec_tid() == old(self).spec_tid(),
    {
        self.state = JoinState::Finished(result);
    }

    pub fn is_finished(&self) -> (r: bool)
        ensures
            r == self.state() is Finished,
    {
        match self.state {
            JoinState::Finished(_) => true,
            _ => false,
        }
    }

    /// Hands the written outcome over, once.
    pub fn take_result(&mut self) -> (r: Option<O>)
        ensures
            (r, final(self).state()) == spec_take(old(self).state()),
            final(self).spec_tid() == old(self).spec_tid(),
    {
        let mut state = JoinState::Joined;
        std::mem::swap(&mut self.state, &mut state);
        match state {
            JoinState::Finished(o) => Some(o),
            other => {
                self.state = other;
                None
            },
        }
    }
}

/// A worker's outcome reaches its joiner unchanged, a failure included: a
/// running thread that finishes with `outcome` hands exactly `outcome` to its
/// one join, and nothing to any later join.
pub proof fn lemma_join_returns_outcome<T, E>(outcome: Result<T, E>)
    ensures
        spec_take(spec_finish(JoinState::Running, outcome)) == (
            Some(outcome),
            JoinState::<Result<T, E>>::Joined,
        ),
        spec_take(spec_take(spec_finish(JoinState::Running, outcome)).1).0 is None,
{
}

/// What `take` finds for `id` in a registry holding `m`.
pub open spec fn taken<T>(m: Map<usize, T>, id: usize) -> Option<T> {
    if m.contains_key(id) {
        Some(m[id])
    } else {
        None
    }
}

/// Pending one-shot work under small reusable identifiers. An identifier is
/// valid until its work is taken, once.
pub struct WorkRegistry<T> {
    slots: Vec<Option<T>>,
    free: Vec<usize>,
}

impl<T> WorkRegistry<T> {
    /// The pending work by identifier.
    pub closed spec fn view(&self) -> Map<usize, T> {
        Map::new(
            |id: usize| id < self.slots@.len() && self.slots@[id as int] is Some,
            |id: usize| self.slots@[id as int]->Some_0,
        )
    }

    /// Freed identifiers, the most recently freed last.
    pub closed spec fn free_ids(&self) -> Seq<usize> {
        self.free@
    }

    /// The identifier after the largest one ever handed out.
    pub closed spec fn next_fresh(&self) -> nat {
        self.slots@.len()
    }

    /// The identifier the next insert hands out: the most recently freed
    /// one, else a fresh one.
    pub open spec fn next_id(&self) -> int {
        if self.free_ids().len() > 0 {
            self.free_ids().last() as int
        } else {
            self.next_fresh() as int
        }
    }

    pub closed spec fn wf(&self) -> bool {
        &&& self.free@.no_duplicates()
        &&& forall|i: int|
            0 <= i < self.free@.len() ==> #[trigger] self.free@[i] < self.slots@.len()
                && self.slots@[self.free@[i] as int] is None
        &&& forall|id: int|
            0 <= id < self.slots@.len() && #[trigger] self.slots@[id] is None ==> self.free@.contains(
                id as usize,
            )
    }

    pub fn new() -> (r: WorkRegistry<T>)
        ensures
            r.wf(),
            r.view() == Map::<usize, T>::empty(),
            r.free_ids() == Seq::<usize>::empty(),
            r.next_fresh() == 0,
    {
        let r = WorkRegistry { slots: Vec::new(), free: Vec::new() };
        assert(r.view() =~= Map::<usize, T>::empty());
        r
    }

    /// Registers `work` under the most recently freed identifier, else under
    /// the next fresh one.
    pub fn insert(&mut self, work: T) -> (id: usize)
        requires
            old(self).wf(),
            old(self).free_ids().len() == 0 ==> old(self).next_fresh() < usize::MAX,
        ensures
            final(self).wf(),
            id == old(self).next_id(),
            !old(self).view().contains_key(id),
            final(self).view() == old(self).view().insert(id, work),
            final(self).free_ids() == if old(self).free_ids().len() > 0 {
                old(self).free_ids().drop_last()
            } else {
                old(self).free_ids()
            },
            final(self).next_fresh() == if old(self).free_ids().len() > 0 {
                old(self).next_fresh()
            } else {
                old(self).next_fresh() + 1
            },
    {
        let ghost old_self = *self;
        let slot_count: usize = self.slots.len();
        assert(old_self.slots@.len() == slot_count);
        match self.free.pop() {
            Some(id) => {
                assert(old_self.free@[old_self.free@.len() - 1] == id);
                self.slots.set(id, Some(work));
                proof {
                    assert forall|i: int| 0 <= i < self.free@.len() implies #[trigger] self.free@[i]
                        != id by {
                        assert(old_self.free@[i] == self.free@[i]);
                    }
                    assert forall|j: int|
                        0 <= j < self.slots@.len() && #[trigger] self.slots@[j]
                            is None implies self.free@.contains(j as usize) by {
                        assert(j != id);
                        assert(old_self.slots@[j] is None);
                        assert(old_self.free@.contains(j as usize));
                        let k = choose|k: int|
                            0 <= k < old_self.free@.len() && old_self.free@[k] == j as usize;
                        if k < self.free@.len() {
                            assert(self.free@[k] == j as usize);
                        } else {
                            assert(k == old_self.free@.len() - 1);
                        }
                    }
                    assert forall|i: int| 0 <= i < self.free@.len() implies #[trigger] self.free@[i]
                        < self.slots@.len() && self.slots@[self.free@[i] as int] is None by {
                        assert(old_self.free@[i] == self.free@[i]);
                    }
                }
                assert(self.view() =~= old_self.view().insert(id, work));
                id
            },
            None => {
                let id = self.slots.len();
                self.slots.push(Some(work));
                assert(self.view() =~= old_self.view().insert(id, work));
                id
            },
        }
    }

    /// Removes and returns the work under `id`, freeing the identifier. A
    /// second take of the same identifier finds nothing.
    pub fn take(&mut self, id: usize) -> (r: Option<T>)
        requires
            old(self).wf(),
        ensures
            final(self).wf(),
            r == taken(old(self).view(), id),
            final(self).view() == old(self).view().remove(id),
            final(self).free_ids() == if old(self).view().contains_key(id) {
                old(self).free_ids().push(id)
            } else {
                old(self).free_ids()
            },
            final(self).next_fresh() == old(self).next_fresh(),
    {
        let ghost old_self = *self;
        if id >= self.slots.len() {
            assert(self.view().remove(id) =~= self.view());
            return None;
        }
        let work = self.slots[id].take();
        match work {
            Some(w) => {
                proof {
                    assert(!old_self.free@.contains(id)) by {
                        if old_self.free@.contains(id) {
                            let k = choose|k: int|
                                0 <= k < old_self.free@.len() && old_self.free@[k] == id;
                            assert(old_self.slots@[old_self.free@[k] as int] is None);
                        }
                    }
                }
                self.free.push(id);
                proof {
                    assert forall|i: int| 0 <= i < self.free@.len() implies #[trigger] self.free@[i]
                        < self.slots@.len() && self.slots@[self.free@[i] as int] is None by {
                        if i < old_self.free@.len() {
                            assert(old_self.free@[i] == self.free@[i]);
                        }
                    }
                    assert forall|j: int|
                        0 <= j < self.slots@.len() && #[trigger] self.slots@[j]
                            is None implies self.free@.contains(j as usize) by {
                        if j != id {
                            assert(old_self.free@.contains(j as usize));
                            let k = choose|k: int|
                                0 <= k < old_self.free@.len() && old_self.free@[k] == j as usize;
                            assert(self.free@[k] == j as usize);
                        } else {
                            assert(self.free@[self.free@.len() - 1] == id);
                        }
                    }
                }
                assert(self.view() =~= old_self.view().remove(id));
                Some(w)
            },
            None => {
                assert(self.slots@ =~= old_self.slots@);
                assert(self.view().remove(id) =~= self.view());
                None
            },
        }
    }
}

/// Once a take of `id` has found work (`after` is what that take leaves of
/// `before`), a second take of `id` with no insert in between finds nothing,
/// and the next insert hands `id` out again.
pub proof fn lemma_take_once<T>(before: WorkRegistry<T>, after: WorkRegistry<T>, id: usize)
    requires
        before.view().contains_key(id),
        after.view() == before.view().remove(id),
        after.free_ids() == before.free_ids().push(id),
    ensures
        taken(after.view(), id) is None,
        after.next_id() == id,
{
}

} // verus!
