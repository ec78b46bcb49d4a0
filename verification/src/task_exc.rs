//! The executor's state machine.
//!
//! `ExecState` is the single source of truth of the cooperative executor:
//! a monotonically increasing ID counter, the table of in-flight tasks, and
//! the set of task IDs that are ready to be polled. The embedding program
//! guards one `ExecState` with a lock, builds wake handles around it, and
//! runs the scheduling loop by calling `take_ready`, `remove_task`,
//! `restore_task` and `no_tasks`; parking and unparking the executor thread
//! is its business, not this module's.

use std::collections::HashMap;
use vstd::prelude::*;

verus! {

broadcast use vstd::std_specs::hash::group_hash_axioms;

/// The result of one attempt to make progress on a task.
pub enum Async<T> {
    /// Work completed with a result of type `T`.
    Ready(T),
    /// Work was blocked; the task has arranged to be woken when it can
    /// continue.
    Pending,
}

/// An independent, non-blocking computation, polled with a wake handle of
/// type `W` that the task may hand to whoever will make it runnable again.
pub trait ToyTask<W> {
    /// Attempt to finish executing the task, returning `Async::Pending`
    /// if the task needs to wait for an event before it can complete.
    fn poll(&mut self, waker: W) -> Async<()>;
}

/// A capability that marks one specific task as ready to run again.
pub trait Wake: Send + Sync {
    /// Signals that the associated task is ready to be `poll`ed again.
    fn wake(&self);
}

/// The ready set after task `id` is woken: waking is a no-op when the ID is
/// already queued, and appends it otherwise.
pub open spec fn wake_seq(r: Seq<usize>, id: usize) -> Seq<usize> {
    if r.contains(id) {
        r
    } else {
        r.push(id)
    }
}

/// The executor's internal state: the task table and the ready set.
///
/// The type is generic over the stored task entry `T`, so the table can
/// hold whatever pairing of task and wake handle the embedding program
/// builds around it.
pub struct ExecState<T> {
    /// The next available task ID.
    pub next_id: usize,
    /// The complete table of in-flight tasks, keyed by ID.
    pub tasks: HashMap<usize, T>,
    /// The IDs of ready-to-run tasks, in the order they became ready.
    pub ready: Vec<usize>,
}

impl<T> ExecState<T> {
    /// Well-formedness: every live or ready ID was allocated below the
    /// counter, and no ID is queued twice, so one snapshot polls a task at
    /// most once.
    pub open spec fn wf(&self) -> bool {
        &&& forall|id: usize| #[trigger] self.tasks@.contains_key(id) ==> id < self.next_id
        &&& forall|i: int| 0 <= i < self.ready@.len() ==> #[trigger] self.ready@[i] < self.next_id
        &&& forall|i: int, j: int|
            0 <= i < j < self.ready@.len() ==> self.ready@[i] != self.ready@[j]
    }

    /// A fresh executor: no tasks, nothing ready, IDs start at zero.
    pub fn new() -> (s: ExecState<T>)
        ensures
            s.wf(),
            s.next_id == 0,
            s.tasks@ == Map::<usize, T>::empty(),
            s.ready@ == Seq::<usize>::empty(),
    {
        ExecState { next_id: 0, tasks: HashMap::new(), ready: Vec::new() }
    }

    /// Allocates the next task ID. The returned ID is fresh: it is neither
    /// a key of the task table nor queued in the ready set, so no two
    /// simultaneously-live tasks ever share an ID.
    pub fn alloc_id(&mut self) -> (id: usize)
        requires
            old(self).wf(),
            old(self).next_id < usize::MAX,
        ensures
            final(self).wf(),
            id == old(self).next_id,
            final(self).next_id == old(self).next_id + 1,
            final(self).tasks@ == old(self).tasks@,
            final(self).ready@ == old(self).ready@,
            !old(self).tasks@.contains_key(id),
            !old(self).ready@.contains(id),
    {
        let id = self.next_id;
        self.next_id = self.next_id + 1;
        id
    }

    /// Marks task `id` ready to run. Waking is idempotent: an ID already in
    /// the ready set stays queued exactly once, and waking an ID that is no
    /// longer in the task table is benign. The caller unblocks the executor
    /// thread after this returns.
    pub fn wake_task(&mut self, id: usize)
        requires
            old(self).wf(),
            id < old(self).next_id,
        ensures
            final(self).wf(),
            final(self).next_id == old(self).next_id,
            final(self).tasks@ == old(self).tasks@,
            final(self).ready@ == wake_seq(old(self).ready@, id),
            final(self).ready@.contains(id),
    {
        let mut i: usize = 0;
        let mut present = false;
        while i < self.ready.len()
            invariant
                0 <= i <= self.ready@.len(),
                present <==> exists|j: int| 0 <= j < i && self.ready@[j] == id,
                *self == *old(self),
            decreases self.ready@.len() - i,
        {
            if self.ready[i] == id {
                present = true;
            }
            i = i + 1;
        }
        if !present {
            self.ready.push(id);
            proof {
                assert(final(self).ready@[old(self).ready@.len() as int] == id);
            }
        }
    }

    /// Stores a freshly spawned task under the ID just allocated for it and
    /// immediately marks it ready, so the very next scheduling pass polls it
    /// at least once.
    pub fn enter_task(&mut self, id: usize, entry: T)
        requires
            old(self).wf(),
            id < old(self).next_id,
            !old(self).tasks@.contains_key(id),
        ensures
            final(self).wf(),
            final(self).next_id == old(self).next_id,
            final(self).tasks@ == old(self).tasks@.insert(id, entry),
            final(self).ready@ == wake_seq(old(self).ready@, id),
            final(self).ready@.contains(id),
    {
        self.tasks.insert(id, entry);
        self.wake_task(id);
    }

    /// Atomically takes the entire current ready set, leaving an empty one
    /// in its place. Wakes that arrive during the processing of the snapshot
    /// accumulate in the new set and are deferred, never lost.
    pub fn take_ready(&mut self) -> (snapshot: Vec<usize>)
        requires
            old(self).wf(),
        ensures
            final(self).wf(),
            snapshot@ == old(self).ready@,
            final(self).ready@ == Seq::<usize>::empty(),
            final(self).tasks@ == old(self).tasks@,
            final(self).next_id == old(self).next_id,
    {
        let mut snapshot: Vec<usize> = Vec::new();
        std::mem::swap(&mut snapshot, &mut self.ready);
        snapshot
    }

    /// Removes task `id` from the table, transferring exclusive ownership of
    /// its entry to the caller for the duration of the poll; until the entry
    /// is restored, a second removal of the same ID finds nothing. An ID no
    /// longer present yields `None`, which the caller skips silently.
    pub fn remove_task(&mut self, id: usize) -> (entry: Option<T>)
        requires
            old(self).wf(),
        ensures
            final(self).wf(),
            final(self).next_id == old(self).next_id,
            final(self).ready@ == old(self).ready@,
            final(self).tasks@ == old(self).tasks@.remove(id),
            match entry {
                Some(e) => old(self).tasks@.contains_key(id) && e == old(self).tasks@[id],
                None => !old(self).tasks@.contains_key(id),
            },
    {
        self.tasks.remove(&id)
    }

    /// Puts a still-pending task back in the table under its original ID,
    /// ending the exclusive ownership that `remove_task` handed out.
    pub fn restore_task(&mut self, id: usize, entry: T)
        requires
            old(self).wf(),
            id < old(self).next_id,
        ensures
            final(self).wf(),
            final(self).next_id == old(self).next_id,
            final(self).ready@ == old(self).ready@,
            final(self).tasks@ == old(self).tasks@.insert(id, entry),
    {
        self.tasks.insert(id, entry);
    }

    /// Settles one polled task: a still-pending one is put back in the
    /// table under its own ID, a completed one stays removed and its entry
    /// is dropped, releasing the task's resources.
    pub fn settle_poll(&mut self, id: usize, entry: T, outcome: Async<()>)
        requires
            old(self).wf(),
            id < old(self).next_id,
        ensures
            final(self).wf(),
            final(self).next_id == old(self).next_id,
            final(self).ready@ == old(self).ready@,
            final(self).tasks@ == match outcome {
                Async::Pending => old(self).tasks@.insert(id, entry),
                Async::Ready(_) => old(self).tasks@,
            },
    {
        match outcome {
            Async::Pending => self.restore_task(id, entry),
            Async::Ready(_) => {},
        }
    }

    /// True exactly when no task is left in the table: the scheduling
    /// loop's terminal condition.
    pub fn no_tasks(&self) -> (done: bool)
        ensures
            done <==> self.tasks@.dom() =~= Set::<usize>::empty(),
    {
        self.tasks.is_empty()
    }
}

/// Law: spawned IDs are unique. In a well-formed state the ID the executor
/// will hand the next task is neither a key of the task table nor queued in
/// the ready set, so no two simultaneously-live tasks ever share an ID.
pub proof fn lemma_fresh_id_unique<T>(s: ExecState<T>)
    requires
        s.wf(),
    ensures
        !s.tasks@.contains_key(s.next_id),
        !s.ready@.contains(s.next_id),
{
}

/// Law: waking is idempotent. Waking an ID a second time before the
/// executor takes its next snapshot leaves the ready set as it was, so the
/// task is polled once, not twice, per snapshot cycle.
pub proof fn lemma_wake_idempotent(r: Seq<usize>, id: usize)
    ensures
        wake_seq(wake_seq(r, id), id) == wake_seq(r, id),
{
    if !r.contains(id) {
        assert(r.push(id)[r.len() as int] == id);
    }
}

/// Law: no wake is lost. After a wake the ID stands in the ready set, and
/// `take_ready` hands the whole ready set to the next scheduling pass, so a
/// woken task is polled again in the very next pass.
pub proof fn lemma_wake_delivered(r: Seq<usize>, id: usize)
    ensures
        wake_seq(r, id).contains(id),
{
    if !r.contains(id) {
        assert(r.push(id)[r.len() as int] == id);
    }
}

/// Law: no concurrent self-poll. Removing a task's entry from the table
/// transfers exclusive ownership to the poll call: until the entry is put
/// back, a second removal of the same ID yields nothing, so a task is never
/// polled again while a poll of it is still in flight.
pub proof fn lemma_exclusive_poll<T>(m: Map<usize, T>, id: usize)
    ensures
        !m.remove(id).contains_key(id),
{
}

} // verus!
