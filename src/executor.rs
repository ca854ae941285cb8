//! The scheduler's state: the run queue, the table of parked tasks, and the
//! task being polled. The driver loop that polls tasks and waits for events
//! asks this state what to do at each step.
use std::collections::HashMap;
use std::collections::VecDeque;
use vstd::prelude::*;

verus! {

broadcast use vstd::std_specs::hash::group_hash_axioms;

/// The scheduler, as the contracts see it.
pub struct ExecutorView<T> {
    /// Ready tasks with their ids, first to run first.
    pub runq: Seq<(u64, T)>,
    /// Tasks waiting for a wakeup, by id.
    pub parked: Map<u64, T>,
    /// The id of the task being polled; zero when none is.
    pub current_id: u64,
    /// Whether the task being polled woke itself.
    pub current_woken: bool,
    /// The id that the next task gets.
    pub next_id: u64,
}

/// Whether a task id stands in the run queue.
pub open spec fn queued<T>(q: Seq<(u64, T)>, id: u64) -> bool {
    exists|i: int| 0 <= i < q.len() && #[trigger] q[i].0 == id
}

impl<T> ExecutorView<T> {
    pub open spec fn wf(self) -> bool {
        &&& self.next_id >= 1
        &&& self.current_id < self.next_id
        &&& forall|i: int, j: int|
            0 <= i < j < self.runq.len() ==> #[trigger] self.runq[i].0 != #[trigger] self.runq[j].0
        &&& forall|i: int|
            0 <= i < self.runq.len() ==> {
                &&& 1 <= #[trigger] self.runq[i].0 < self.next_id
                &&& !self.parked.contains_key(self.runq[i].0)
                &&& self.runq[i].0 != self.current_id
            }
        &&& forall|id: u64|
            #[trigger] self.parked.contains_key(id) ==> 1 <= id < self.next_id && id != self.current_id
    }

    /// The scheduler after `id` is notified: the task being polled takes a
    /// note; a parked task moves to the end of the run queue; any other id is
    /// ignored.
    pub open spec fn after_queue(self, id: u64) -> ExecutorView<T> {
        if id == self.current_id {
            ExecutorView { current_woken: true, ..self }
        } else if self.parked.contains_key(id) {
            ExecutorView {
                runq: self.runq.push((id, self.parked[id])),
                parked: self.parked.remove(id),
                ..self
            }
        } else {
            self
        }
    }

    /// The scheduler after the task being polled returned "pending": if it
    /// woke itself it stays current and is polled again at once, else it is
    /// parked.
    pub open spec fn after_suspend(self, task: T) -> ExecutorView<T> {
        if self.current_woken {
            ExecutorView { current_woken: false, ..self }
        } else {
            ExecutorView {
                parked: self.parked.insert(self.current_id, task),
                current_id: 0,
                current_woken: false,
                ..self
            }
        }
    }
}

/// The state of one thread's scheduler. `T` is what a task is to the driver.
pub struct Executor<T> {
    runq: VecDeque<(u64, T)>,
    parked: HashMap<u64, T>,
    current_id: u64,
    current_woken: bool,
    next_id: u64,
}

impl<T> View for Executor<T> {
    type V = ExecutorView<T>;

    closed spec fn view(&self) -> ExecutorView<T> {
        ExecutorView {
            runq: self.runq@,
            parked: self.parked@,
            current_id: self.current_id,
            current_woken: self.current_woken,
            next_id: self.next_id,
        }
    }
}

impl<T> Executor<T> {
    /// A scheduler with no task; the first task gets id 1.
    pub fn new() -> (r: Executor<T>)
        ensures
            r@.wf(),
            r@.runq.len() == 0,
            r@.parked == Map::<u64, T>::empty(),
            r@.current_id == 0,
            !r@.current_woken,
            r@.next_id == 1,
    {
        Executor {
            runq: VecDeque::new(),
            parked: HashMap::new(),
            current_id: 0,
            current_woken: false,
            next_id: 1,
        }
    }

    /// The id that the next task spawned gets.
    pub fn next_id(&self) -> (r: u64)
        ensures
            r == self@.next_id,
    {
        self.next_id
    }

    /// The id of the task being polled; zero when none is.
    pub fn current_id(&self) -> (r: u64)
        ensures
            r == self@.current_id,
    {
        self.current_id
    }

    /// Whether any task is ready to run.
    pub fn has_ready(&self) -> (r: bool)
        ensures
            r == (self@.runq.len() > 0),
    {
        self.runq.len() > 0
    }

    /// Add a new task at the end of the run queue, under the next id.
    pub fn spawn(&mut self, task: T) -> (id: u64)
        requires
            old(self)@.wf(),
            old(self)@.next_id < u64::MAX,
        ensures
            final(self)@.wf(),
            id == old(self)@.next_id,
            final(self)@ == (ExecutorView {
                runq: old(self)@.runq.push((id, task)),
                next_id: (id + 1) as u64,
                ..old(self)@
            }),
    {
        let id = self.next_id;
        self.runq.push_back((id, task));
        self.next_id = id + 1;
        id
    }

    /// A notification for task `id`. If it is the task being polled, it takes
    /// a note and is polled again; if it is parked, it moves to the end of the
    /// run queue; if it is queued or unknown, nothing happens.
    pub fn queue(&mut self, id: u64)
        requires
            old(self)@.wf(),
        ensures
            final(self)@.wf(),
            final(self)@ == old(self)@.after_queue(id),
    {
        if id == self.current_id {
            self.current_woken = true;
            assert(self@ == (ExecutorView { current_woken: true, ..old(self)@ }));
            return;
        }
        let ghost before = self@;
        match self.parked.remove(&id) {
            Some(task) => {
                self.runq.push_back((id, task));
                proof {
                    let v = self@;
                    assert(v.runq == before.runq.push((id, before.parked[id])));
                    assert(v == before.after_queue(id));
                    assert forall|i: int, j: int| 0 <= i < j < v.runq.len() implies #[trigger] v.runq[i].0
                        != #[trigger] v.runq[j].0 by {
                        if j == v.runq.len() - 1 {
                            assert(before.runq[i] == v.runq[i]);
                        } else {
                            assert(before.runq[i] == v.runq[i] && before.runq[j] == v.runq[j]);
                        }
                    }
                    assert forall|i: int| 0 <= i < v.runq.len() implies {
                        &&& 1 <= #[trigger] v.runq[i].0 < v.next_id
                        &&& !v.parked.contains_key(v.runq[i].0)
                        &&& v.runq[i].0 != v.current_id
                    } by {
                        if i < v.runq.len() - 1 {
                            assert(before.runq[i] == v.runq[i]);
                        }
                    }
                }
            },
            None => {
                assert(self@.parked =~= before.parked);
                assert(self@ == before);
            },
        }
    }

    /// Take the task at the head of the run queue to poll it; it becomes the
    /// current task, with no note of a wakeup.
    pub fn next_task(&mut self) -> (r: Option<(u64, T)>)
        requires
            old(self)@.wf(),
            old(self)@.current_id == 0,
        ensures
            final(self)@.wf(),
            old(self)@.runq.len() == 0 ==> r is None && final(self)@ == old(self)@,
            old(self)@.runq.len() > 0 ==> r == Some(old(self)@.runq[0]) && final(self)@ == (ExecutorView {
                runq: old(self)@.runq.drop_first(),
                current_id: old(self)@.runq[0].0,
                current_woken: false,
                ..old(self)@
            }),
    {
        let ghost before = self@;
        match self.runq.pop_front() {
            Some(entry) => {
                self.current_id = entry.0;
                self.current_woken = false;
                proof {
                    let v = self@;
                    assert(v.runq =~= before.runq.drop_first());
                    assert forall|i: int, j: int| 0 <= i < j < v.runq.len() implies #[trigger] v.runq[i].0
                        != #[trigger] v.runq[j].0 by {
                        assert(v.runq[i] == before.runq[i + 1] && v.runq[j] == before.runq[j + 1]);
                    }
                    assert forall|i: int| 0 <= i < v.runq.len() implies {
                        &&& 1 <= #[trigger] v.runq[i].0 < v.next_id
                        &&& !v.parked.contains_key(v.runq[i].0)
                        &&& v.runq[i].0 != v.current_id
                    } by {
                        assert(v.runq[i] == before.runq[i + 1]);
                    }
                    assert forall|id: u64| #[trigger] v.parked.contains_key(id) implies 1 <= id < v.next_id
                        && id != v.current_id by {
                        assert(before.runq[0].0 == entry.0);
                    }
                }
                Some(entry)
            },
            None => None,
        }
    }

    /// The current task returned "pending". If it woke itself during the poll
    /// it is handed back to be polled again at once; otherwise it is parked
    /// under its id and no task is current.
    pub fn suspend(&mut self, task: T) -> (r: Option<T>)
        requires
            old(self)@.wf(),
            old(self)@.current_id != 0,
        ensures
            final(self)@.wf(),
            final(self)@ == old(self)@.after_suspend(task),
            old(self)@.current_woken ==> r == Some(task),
            !old(self)@.current_woken ==> r is None,
    {
        if self.current_woken {
            self.current_woken = false;
            assert(self@ == (ExecutorView { current_woken: false, ..old(self)@ }));
            return Some(task);
        }
        let id = self.current_id;
        self.parked.insert(id, task);
        self.current_id = 0;
        self.current_woken = false;
        assert(self@ == old(self)@.after_suspend(task));
        None
    }

    /// The current task completed; no task is current.
    pub fn complete(&mut self)
        requires
            old(self)@.wf(),
        ensures
            final(self)@.wf(),
            final(self)@ == (ExecutorView { current_id: 0, current_woken: false, ..old(self)@ }),
    {
        self.current_id = 0;
        self.current_woken = false;
    }
}

/// A task is in at most one place: the run queue, the parked table, or being
/// polled; and at most once in the run queue.
pub proof fn lemma_task_in_one_place<T>(e: ExecutorView<T>, id: u64)
    requires
        e.wf(),
        id != 0,
    ensures
        queued(e.runq, id) ==> !e.parked.contains_key(id) && id != e.current_id,
        e.parked.contains_key(id) ==> id != e.current_id,
        forall|i: int, j: int| 0 <= i < j < e.runq.len() && e.runq[i].0 == id ==> e.runq[j].0 != id,
{
}

/// A task that wakes itself while it is polled is polled again before any
/// other task: the notification leaves the run queue as it is, and the
/// suspension hands the task straight back.
pub proof fn lemma_self_wake_repolls<T>(e: ExecutorView<T>, task: T)
    requires
        e.wf(),
        e.current_id != 0,
    ensures
        e.after_queue(e.current_id).current_woken,
        e.after_queue(e.current_id).runq == e.runq,
        e.after_queue(e.current_id).after_suspend(task).runq == e.runq,
        e.after_queue(e.current_id).after_suspend(task).current_id == e.current_id,
{
}

} // verus!
