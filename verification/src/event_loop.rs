//! The timer worker's state machine.
//!
//! `Worker` holds the active set of the timer subsystem: an ordered mapping
//! from deadline to the wake handles registered for exactly that deadline.
//! The embedding program runs the worker loop: it feeds each arriving
//! registration to `enroll`, asks `work_step` what to do next, and performs
//! the answer — invoke the handles a firing hands back, block on the
//! registration channel until the earliest deadline, or block indefinitely
//! when nothing is active. Deadlines are absolute instants, counted in
//! milliseconds from whatever epoch the embedding program picks.

use vstd::prelude::*;

verus! {

/// A wakeup request: invoke `wake` once the instant `at` has passed.
pub struct Registration<W> {
    /// The absolute deadline, in milliseconds.
    pub at: u64,
    /// The handle to invoke when the deadline elapses.
    pub wake: W,
}

/// What the worker's loop must do next, as decided by `work_step`.
pub enum TimerStep<W> {
    /// The earliest deadline has passed: it is removed, and the loop
    /// invokes every handle in the carried list, in registration order.
    Fired(u64, Vec<W>),
    /// The earliest active deadline is the carried instant, still ahead:
    /// the loop blocks for a new registration at most until then.
    Wait(u64),
    /// The active set is empty: the loop blocks until a registration
    /// arrives.
    Idle,
}

/// Whether some entry of the active list carries the deadline `at`.
pub open spec fn has_deadline<W>(s: Seq<(u64, Vec<W>)>, at: u64) -> bool {
    exists|i: int| 0 <= i < s.len() && (#[trigger] s[i]).0 == at
}

/// The position of the entry carrying deadline `at` (meaningful when the
/// deadline is present and keys are unique).
pub open spec fn deadline_index<W>(s: Seq<(u64, Vec<W>)>, at: u64) -> int {
    choose|i: int| 0 <= i < s.len() && (#[trigger] s[i]).0 == at
}

/// The handles registered for deadline `at`, in registration order; empty
/// when the deadline is not active.
pub open spec fn bucket_in<W>(s: Seq<(u64, Vec<W>)>, at: u64) -> Seq<W> {
    if has_deadline(s, at) {
        s[deadline_index(s, at)].1@
    } else {
        Seq::empty()
    }
}

/// No two entries of the active list carry the same deadline.
pub open spec fn unique_keys<W>(s: Seq<(u64, Vec<W>)>) -> bool {
    forall|i: int, j: int| 0 <= i < j < s.len() ==> (#[trigger] s[i]).0 != (#[trigger] s[j]).0
}

/// The active list is well formed: deadlines strictly increase along it,
/// and no entry has an empty queue (a deadline's entry is removed when it
/// fires, never left behind empty).
pub open spec fn wf_active<W>(s: Seq<(u64, Vec<W>)>) -> bool {
    &&& forall|i: int, j: int|
        0 <= i < j < s.len() ==> (#[trigger] s[i]).0 < (#[trigger] s[j]).0
    &&& forall|i: int| 0 <= i < s.len() ==> (#[trigger] s[i]).1@.len() >= 1
}

/// The handles an abstract active set holds for deadline `at`: its queue,
/// or the empty one when the deadline is not active.
pub open spec fn queue_at<W>(m: Map<u64, Seq<W>>, at: u64) -> Seq<W> {
    if m.contains_key(at) {
        m[at]
    } else {
        Seq::empty()
    }
}

/// The abstract active set after one registration: the handle is appended
/// to the queue for its deadline, which is created if absent. Same-instant
/// registrations are therefore a normal, handled case, never an error.
pub open spec fn timer_enroll<W>(m: Map<u64, Seq<W>>, at: u64, wake: W) -> Map<u64, Seq<W>> {
    m.insert(at, queue_at(m, at).push(wake))
}

/// The abstract active set after deadline `at` fires: the deadline and its
/// whole queue are gone, so a deadline fires at most once.
pub open spec fn timer_fire<W>(m: Map<u64, Seq<W>>, at: u64) -> Map<u64, Seq<W>> {
    m.remove(at)
}

/// `at` is the earliest active deadline of the abstract active set.
pub open spec fn is_earliest<W>(m: Map<u64, Seq<W>>, at: u64) -> bool {
    m.contains_key(at) && forall|t: u64| #[trigger] m.contains_key(t) ==> at <= t
}

/// State for the worker that processes timer events: the active set, kept
/// as a list of (deadline, handles) entries sorted by deadline.
pub struct Worker<W> {
    /// The active registrations: strictly increasing deadlines, each with
    /// the nonempty queue of handles registered for it.
    pub active: Vec<(u64, Vec<W>)>,
}

impl<W> View for Worker<W> {
    type V = Map<u64, Seq<W>>;

    open spec fn view(&self) -> Map<u64, Seq<W>> {
        Map::new(
            |at: u64| has_deadline(self.active@, at),
            |at: u64| bucket_in(self.active@, at),
        )
    }
}

impl<W> Worker<W> {
    /// Well-formedness of the worker's active list.
    pub open spec fn wf(&self) -> bool {
        wf_active(self.active@)
    }

    /// A worker with nothing active yet.
    pub fn new() -> (w: Worker<W>)
        ensures
            w.wf(),
            w@ == Map::<u64, Seq<W>>::empty(),
    {
        let w = Worker { active: Vec::new() };
        proof {
            assert(w@ =~= Map::<u64, Seq<W>>::empty());
        }
        w
    }

    /// Merges one registration into the active set: the handle is appended
    /// to the queue for its deadline, so every handle registered for one
    /// instant is kept, in order.
    pub fn enroll(&mut self, item: Registration<W>)
        requires
            old(self).wf(),
        ensures
            final(self).wf(),
            final(self)@ == timer_enroll(old(self)@, item.at, item.wake),
    {
        let at = item.at;
        let ghost wk = item.wake;
        let mut i: usize = 0;
        while i < self.active.len() && self.active[i].0 < at
            invariant
                0 <= i <= self.active@.len(),
                forall|j: int| 0 <= j < i ==> (#[trigger] self.active@[j]).0 < at,
                *self == *old(self),
            decreases self.active@.len() - i,
        {
            i = i + 1;
        }
        let ghost s0 = self.active@;
        if i < self.active.len() && self.active[i].0 == at {
            let mut pair = self.active.remove(i);
            pair.1.push(item.wake);
            let ghost p = pair;
            let ghost s1 = self.active@;
            self.active.insert(i, pair);
            proof {
                s0.remove_ensures(i as int);
                s1.insert_ensures(i as int, p);
                assert forall|j: int| 0 <= j < s0.len() && j != i as int implies self.active@[j]
                    == s0[j] by {
                    if j < i as int {
                        assert(self.active@[j] == s1[j]);
                    } else {
                        assert(self.active@[j] == s1[j - 1]);
                        assert(s1[j - 1] == s0[j]);
                    }
                };
                lemma_append_to_bucket(s0, self.active@, i as int, wk);
                assert(self@ =~~= timer_enroll(old(self)@, at, wk));
            }
        } else {
            let mut ws: Vec<W> = Vec::new();
            ws.push(item.wake);
            let ghost p = (at, ws);
            self.active.insert(i, (at, ws));
            proof {
                s0.insert_ensures(i as int, p);
                assert forall|j: int| 0 <= j < s0.len() implies (#[trigger] s0[j]).0 != at by {
                    if j >= i as int {
                        if i < s0.len() {
                            assert(s0[i as int].0 > at);
                            if j > i as int {
                                assert(s0[i as int].0 < s0[j].0);
                            }
                        }
                    }
                };
                lemma_insert_new_bucket(s0, self.active@, i as int, at, wk);
                assert(self@ =~~= timer_enroll(old(self)@, at, wk));
            }
        }
    }

    /// Removes the entry for deadline `at` and hands back its handles, in
    /// the order they were registered. The caller invokes every one: a
    /// deadline that fires wakes all of its registrations exactly once.
    pub fn fire(&mut self, at: u64) -> (wakes: Vec<W>)
        requires
            old(self).wf(),
            old(self)@.contains_key(at),
        ensures
            final(self).wf(),
            wakes@ == old(self)@[at],
            final(self)@ == timer_fire(old(self)@, at),
    {
        proof {
            lemma_sorted_unique(self.active@);
        }
        let ghost s0 = self.active@;
        let ghost idx = deadline_index(s0, at);
        proof {
            assert(has_deadline(s0, at));
            assert(0 <= idx < s0.len() && s0[idx].0 == at);
        }
        let mut i: usize = 0;
        while i < self.active.len() && self.active[i].0 != at
            invariant
                old(self).wf(),
                *self == *old(self),
                0 <= i <= idx,
                idx == deadline_index(s0, at),
                s0 == self.active@,
                0 <= idx < s0.len(),
                s0[idx].0 == at,
            decreases idx - i,
        {
            proof {
                if i as int == idx {
                    assert(false);
                }
            }
            i = i + 1;
        }
        proof {
            lemma_sorted_unique(s0);
            lemma_key_at(s0, i as int);
            assert(i as int == idx);
        }
        let entry = self.active.remove(i);
        proof {
            s0.remove_ensures(idx);
            lemma_remove_bucket(s0, self.active@, idx);
            lemma_key_at(s0, idx);
            assert(self@ =~~= timer_fire(old(self)@, at));
            assert(old(self)@[at] == bucket_in(s0, at));
        }
        entry.1
    }

    /// The earliest active deadline, if any: the one instant the worker
    /// must not sleep past.
    pub fn next_deadline(&self) -> (r: Option<u64>)
        requires
            self.wf(),
        ensures
            match r {
                Some(d) => is_earliest(self@, d),
                None => self@.dom() =~= Set::<u64>::empty(),
            },
    {
        if self.active.len() == 0 {
            proof {
                assert(self@.dom() =~= Set::<u64>::empty());
            }
            None
        } else {
            let d = self.active[0].0;
            proof {
                lemma_sorted_unique(self.active@);
                lemma_key_at(self.active@, 0);
                assert forall|t: u64| #[trigger] self@.contains_key(t) implies d <= t by {
                    let j = deadline_index(self.active@, t);
                    assert(0 <= j < self.active@.len() && self.active@[j].0 == t);
                    if j > 0 {
                        assert(self.active@[0].0 < self.active@[j].0);
                    }
                };
            }
            Some(d)
        }
    }

    /// One decision of the worker's loop, at the current instant `now`:
    /// fire the earliest deadline if it has passed, else wait for it, else
    /// — with nothing active — wait indefinitely. The worker never fires a
    /// deadline early and never sleeps past the earliest one.
    pub fn work_step(&mut self, now: u64) -> (step: TimerStep<W>)
        requires
            old(self).wf(),
        ensures
            final(self).wf(),
            match step {
                TimerStep::Fired(d, wakes) => {
                    &&& is_earliest(old(self)@, d)
                    &&& d <= now
                    &&& wakes@ == old(self)@[d]
                    &&& final(self)@ == timer_fire(old(self)@, d)
                },
                TimerStep::Wait(d) => {
                    &&& is_earliest(old(self)@, d)
                    &&& d > now
                    &&& final(self)@ == old(self)@
                },
                TimerStep::Idle => {
                    &&& old(self)@.dom() =~= Set::<u64>::empty()
                    &&& final(self)@ == old(self)@
                },
            },
    {
        match self.next_deadline() {
            None => TimerStep::Idle,
            Some(d) => {
                if d <= now {
                    let wakes = self.fire(d);
                    TimerStep::Fired(d, wakes)
                } else {
                    TimerStep::Wait(d)
                }
            },
        }
    }
}

/// Strictly increasing deadlines are in particular unique.
proof fn lemma_sorted_unique<W>(s: Seq<(u64, Vec<W>)>)
    requires
        forall|i: int, j: int| 0 <= i < j < s.len() ==> (#[trigger] s[i]).0 < (#[trigger] s[j]).0,
    ensures
        unique_keys(s),
{
}

/// With unique keys, the entry at position `i` is the one `deadline_index`
/// finds for its deadline, and its queue is that deadline's bucket.
proof fn lemma_key_at<W>(s: Seq<(u64, Vec<W>)>, i: int)
    requires
        unique_keys(s),
        0 <= i < s.len(),
    ensures
        has_deadline(s, s[i].0),
        deadline_index(s, s[i].0) == i,
        bucket_in(s, s[i].0) == s[i].1@,
{
    assert(has_deadline(s, s[i].0));
    let j = deadline_index(s, s[i].0);
    assert(0 <= j < s.len() && s[j].0 == s[i].0);
    if i < j {
        assert(s[i].0 != s[j].0);
    } else if j < i {
        assert(s[j].0 != s[i].0);
    }
}

/// Appending a handle to the existing entry at position `i` changes that
/// deadline's bucket alone: it gains the handle at its end.
proof fn lemma_append_to_bucket<W>(s0: Seq<(u64, Vec<W>)>, s2: Seq<(u64, Vec<W>)>, i: int, wake: W)
    requires
        wf_active(s0),
        0 <= i < s0.len(),
        s2.len() == s0.len(),
        s2[i].0 == s0[i].0,
        s2[i].1@ == s0[i].1@.push(wake),
        forall|j: int| 0 <= j < s0.len() && j != i ==> s2[j] == s0[j],
    ensures
        wf_active(s2),
        forall|t: u64| #[trigger] has_deadline(s2, t) == has_deadline(s0, t),
        bucket_in(s2, s0[i].0) == bucket_in(s0, s0[i].0).push(wake),
        forall|t: u64| t != s0[i].0 ==> #[trigger] bucket_in(s2, t) == bucket_in(s0, t),
{
    let at = s0[i].0;
    lemma_sorted_unique(s0);
    assert forall|j: int| 0 <= j < s2.len() implies (#[trigger] s2[j]).0 == s0[j].0 by {
        if j != i {
            assert(s2[j] == s0[j]);
        }
    };
    assert(wf_active(s2)) by {
        assert forall|p: int, q: int|
            0 <= p < q < s2.len() implies (#[trigger] s2[p]).0 < (#[trigger] s2[q]).0 by {
            assert(s2[p].0 == s0[p].0 && s2[q].0 == s0[q].0);
        };
        assert forall|p: int| 0 <= p < s2.len() implies (#[trigger] s2[p]).1@.len() >= 1 by {
            if p != i {
                assert(s2[p] == s0[p]);
            }
        };
    };
    lemma_sorted_unique(s2);
    assert forall|t: u64| #[trigger] has_deadline(s2, t) == has_deadline(s0, t) by {
        if has_deadline(s2, t) {
            let j = deadline_index(s2, t);
            assert(0 <= j < s2.len() && s2[j].0 == t);
            assert(s0[j].0 == t);
        }
        if has_deadline(s0, t) {
            let j = deadline_index(s0, t);
            assert(0 <= j < s0.len() && s0[j].0 == t);
            assert(s2[j].0 == t);
        }
    };
    lemma_key_at(s0, i);
    lemma_key_at(s2, i);
    assert forall|t: u64| t != at implies #[trigger] bucket_in(s2, t) == bucket_in(s0, t) by {
        if has_deadline(s0, t) {
            let j = deadline_index(s0, t);
            assert(0 <= j < s0.len() && s0[j].0 == t);
            assert(j != i);
            assert(s2[j] == s0[j]);
            lemma_key_at(s0, j);
            lemma_key_at(s2, j);
        }
    };
}

/// Inserting a fresh entry at position `i` adds its deadline with a
/// singleton bucket and leaves every other deadline's bucket as it was.
proof fn lemma_insert_new_bucket<W>(
    s0: Seq<(u64, Vec<W>)>,
    s2: Seq<(u64, Vec<W>)>,
    i: int,
    at: u64,
    wake: W,
)
    requires
        wf_active(s0),
        0 <= i <= s0.len(),
        forall|j: int| 0 <= j < i ==> (#[trigger] s0[j]).0 < at,
        forall|j: int| i <= j < s0.len() ==> (#[trigger] s0[j]).0 > at,
        s2.len() == s0.len() + 1,
        s2[i].0 == at,
        s2[i].1@ == Seq::<W>::empty().push(wake),
        forall|j: int| 0 <= j < i ==> s2[j] == s0[j],
        forall|j: int| i <= j < s0.len() ==> s2[j + 1] == s0[j],
    ensures
        wf_active(s2),
        has_deadline(s2, at),
        !has_deadline(s0, at),
        forall|t: u64| t != at ==> #[trigger] has_deadline(s2, t) == has_deadline(s0, t),
        bucket_in(s2, at) == Seq::<W>::empty().push(wake),
        forall|t: u64| t != at ==> #[trigger] bucket_in(s2, t) == bucket_in(s0, t),
{
    lemma_sorted_unique(s0);
    assert(wf_active(s2)) by {
        assert forall|p: int, q: int|
            0 <= p < q < s2.len() implies (#[trigger] s2[p]).0 < (#[trigger] s2[q]).0 by {
            if p < i && q < i {
                assert(s2[p] == s0[p] && s2[q] == s0[q]);
            } else if p < i && q == i {
                assert(s2[p] == s0[p]);
            } else if p < i && q > i {
                assert(s2[p] == s0[p] && s2[q] == s0[q - 1]);
                assert(s0[p].0 < at && s0[q - 1].0 > at);
            } else if p == i {
                assert(s2[q] == s0[q - 1]);
            } else {
                assert(s2[p] == s0[p - 1] && s2[q] == s0[q - 1]);
            }
        };
        assert forall|p: int| 0 <= p < s2.len() implies (#[trigger] s2[p]).1@.len() >= 1 by {
            if p < i {
                assert(s2[p] == s0[p]);
            } else if p > i {
                assert(s2[p] == s0[p - 1]);
            }
        };
    };
    lemma_sorted_unique(s2);
    if has_deadline(s0, at) {
        let j = deadline_index(s0, at);
        assert(0 <= j < s0.len() && s0[j].0 == at);
        assert(false);
    }
    lemma_key_at(s2, i);
    assert forall|t: u64| t != at implies #[trigger] has_deadline(s2, t) == has_deadline(s0, t) by {
        if has_deadline(s2, t) {
            let j = deadline_index(s2, t);
            assert(0 <= j < s2.len() && s2[j].0 == t);
            assert(j != i);
            if j < i {
                assert(s2[j] == s0[j]);
            } else {
                assert(s2[j] == s0[j - 1]);
            }
        }
        if has_deadline(s0, t) {
            let j = deadline_index(s0, t);
            assert(0 <= j < s0.len() && s0[j].0 == t);
            if j < i {
                assert(s2[j] == s0[j]);
            } else {
                assert(s2[j + 1] == s0[j]);
            }
        }
    };
    assert forall|t: u64| t != at implies #[trigger] bucket_in(s2, t) == bucket_in(s0, t) by {
        if has_deadline(s0, t) {
            let j = deadline_index(s0, t);
            assert(0 <= j < s0.len() && s0[j].0 == t);
            lemma_key_at(s0, j);
            if j < i {
                assert(s2[j] == s0[j]);
                lemma_key_at(s2, j);
            } else {
                assert(s2[j + 1] == s0[j]);
                lemma_key_at(s2, j + 1);
            }
        }
    };
}

/// Removing the entry at position `i` removes its deadline and leaves
/// every other deadline's bucket as it was.
proof fn lemma_remove_bucket<W>(s0: Seq<(u64, Vec<W>)>, s2: Seq<(u64, Vec<W>)>, i: int)
    requires
        wf_active(s0),
        0 <= i < s0.len(),
        s2.len() == s0.len() - 1,
        forall|j: int| 0 <= j < i ==> s2[j] == s0[j],
        forall|j: int| i <= j < s0.len() - 1 ==> s2[j] == s0[j + 1],
    ensures
        wf_active(s2),
        !has_deadline(s2, s0[i].0),
        forall|t: u64| t != s0[i].0 ==> #[trigger] has_deadline(s2, t) == has_deadline(s0, t),
        forall|t: u64| t != s0[i].0 ==> #[trigger] bucket_in(s2, t) == bucket_in(s0, t),
{
    let at = s0[i].0;
    lemma_sorted_unique(s0);
    assert(wf_active(s2)) by {
        assert forall|p: int, q: int|
            0 <= p < q < s2.len() implies (#[trigger] s2[p]).0 < (#[trigger] s2[q]).0 by {
            if q < i {
                assert(s2[p] == s0[p] && s2[q] == s0[q]);
            } else if p < i {
                assert(s2[p] == s0[p] && s2[q] == s0[q + 1]);
            } else {
                assert(s2[p] == s0[p + 1] && s2[q] == s0[q + 1]);
            }
        };
        assert forall|p: int| 0 <= p < s2.len() implies (#[trigger] s2[p]).1@.len() >= 1 by {
            if p < i {
                assert(s2[p] == s0[p]);
            } else {
                assert(s2[p] == s0[p + 1]);
            }
        };
    };
    lemma_sorted_unique(s2);
    if has_deadline(s2, at) {
        let j = deadline_index(s2, at);
        assert(0 <= j < s2.len() && s2[j].0 == at);
        if j < i {
            assert(s2[j] == s0[j]);
            assert(s0[j].0 != s0[i].0);
        } else {
            assert(s2[j] == s0[j + 1]);
            assert(s0[i].0 != s0[j + 1].0);
        }
        assert(false);
    }
    assert forall|t: u64| t != at implies #[trigger] has_deadline(s2, t) == has_deadline(s0, t) by {
        if has_deadline(s2, t) {
            let j = deadline_index(s2, t);
            assert(0 <= j < s2.len() && s2[j].0 == t);
            if j < i {
                assert(s2[j] == s0[j]);
            } else {
                assert(s2[j] == s0[j + 1]);
            }
        }
        if has_deadline(s0, t) {
            let j = deadline_index(s0, t);
            assert(0 <= j < s0.len() && s0[j].0 == t);
            assert(j != i);
            if j < i {
                assert(s2[j] == s0[j]);
            } else {
                assert(s2[j - 1] == s0[j]);
            }
        }
    };
    assert forall|t: u64| t != at implies #[trigger] bucket_in(s2, t) == bucket_in(s0, t) by {
        if has_deadline(s0, t) {
            let j = deadline_index(s0, t);
            assert(0 <= j < s0.len() && s0[j].0 == t);
            assert(j != i);
            lemma_key_at(s0, j);
            if j < i {
                assert(s2[j] == s0[j]);
                lemma_key_at(s2, j);
            } else {
                assert(s2[j - 1] == s0[j]);
                lemma_key_at(s2, j - 1);
            }
        }
    };
}

/// Law: same-instant fan-out. Registrations for one identical deadline
/// accumulate in order — after two for deadline `at`, its queue is the old
/// queue with both handles appended — and firing that deadline removes it,
/// so each accumulated handle is handed out exactly once.
pub proof fn lemma_same_instant_fanout<W>(m: Map<u64, Seq<W>>, at: u64, h1: W, h2: W)
    ensures
        queue_at(timer_enroll(timer_enroll(m, at, h1), at, h2), at) == queue_at(m, at).push(
            h1,
        ).push(h2),
        !timer_fire(timer_enroll(timer_enroll(m, at, h1), at, h2), at).contains_key(at),
{
}

/// Law: monotonic timer correctness. A registration whose deadline is no
/// later than every active one becomes the earliest deadline, so the next
/// firing decision takes it first — ahead of whatever the worker had been
/// waiting on.
pub proof fn lemma_earlier_registration_first<W>(m: Map<u64, Seq<W>>, at: u64, h: W)
    requires
        forall|t: u64| #[trigger] m.contains_key(t) ==> at <= t,
    ensures
        is_earliest(timer_enroll(m, at, h), at),
{
    assert forall|t: u64| #[trigger] timer_enroll(m, at, h).contains_key(t) implies at <= t by {
        if t != at {
            assert(m.contains_key(t));
        }
    };
}

/// Law: idle-then-wake. Enrolling one registration into an idle worker
/// makes its deadline the earliest, with exactly the one handle queued; by
/// `work_step`'s contract the worker then waits until that deadline and
/// fires it only once it has passed, never before.
pub proof fn lemma_idle_then_wake<W>(at: u64, h: W)
    ensures
        is_earliest(timer_enroll(Map::<u64, Seq<W>>::empty(), at, h), at),
        queue_at(timer_enroll(Map::<u64, Seq<W>>::empty(), at, h), at) =~= seq![h],
{
    lemma_earlier_registration_first(Map::<u64, Seq<W>>::empty(), at, h);
}

} // verus!
