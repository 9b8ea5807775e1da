//! The scheduling engine: a fixed set of priority queues, admission
//! into them, and the due-time poll pass that pops due tasks, derives
//! the next instance of recurring ones, and hands the due tasks out
//! for dispatch.
//!
//! Time never advances in here: callers read the clock once per pass
//! and hand the instant in, so one pass judges every queue by the same
//! `now`.

use vstd::prelude::*;
use vstd::multiset::Multiset;

use crate::queue::Heap;
use crate::queue::Queue;
use crate::task::Task;
use crate::task::eta_key;
use crate::task::spec_due;
use crate::task::spec_next;
use crate::task::spec_should_reschedule;
use crate::task::task_wf;
use crate::task::TaskView;
use crate::task::MAX_ETA_MS;

verus! {

/// The multiset of tasks pending in one queue.
pub open spec fn queue_contents(app: App, i: int) -> Multiset<Task> {
    app.queues[i].contents()
}

/// Every task pending in every queue is well-formed.
pub open spec fn all_pending_wf(app: App) -> bool {
    forall|i: int, t: Task|
        0 <= i < app.queues@.len() && #[trigger] queue_contents(app, i).count(t) > 0 ==> task_wf(t@)
}

/// The scheduling engine: an immutable-length set of priority queues.
/// Admission inserts into the queue a task selects; the poll pass scans
/// all queues for due tasks.
pub struct App {
    /// The queues, in index order; created at startup, never removed.
    pub queues: Vec<Heap>,
}

impl App {
    /// An engine with no queues yet.
    pub fn new() -> (app: App)
        ensures
            app.queues@.len() == 0,
    {
        App { queues: Vec::new() }
    }

    /// Adds one empty queue at the next index.
    pub fn add_new_empty_queue(&mut self)
        ensures
            final(self).queues@.len() == old(self).queues@.len() + 1,
            forall|i: int|
                0 <= i < old(self).queues@.len() ==> queue_contents(*final(self), i)
                    == queue_contents(*old(self), i),
            queue_contents(*final(self), old(self).queues@.len() as int) == Multiset::<
                Task,
            >::empty(),
            all_pending_wf(*old(self)) ==> all_pending_wf(*final(self)),
    {
        self.queues.push(Heap::new());
        proof {
            if all_pending_wf(*old(self)) {
                assert forall|i: int, t: Task|
                    0 <= i < self.queues@.len() && #[trigger] queue_contents(*self, i).count(t)
                        > 0 implies task_wf(t@) by {
                    if i < old(self).queues@.len() {
                        assert(queue_contents(*old(self), i).count(t) > 0);
                    }
                }
            }
        }
    }

    /// The number of queues.
    pub fn queue_count(&self) -> (n: usize)
        ensures
            n == self.queues@.len(),
    {
        self.queues.len()
    }

    /// Inserts a task into the queue it selects. Returns `false`, and
    /// inserts nothing, when the task's queue index is out of range:
    /// such a line is logged and skipped by the session.
    pub fn insert_task(&mut self, task: Task) -> (ok: bool)
        requires
            task_wf(task@),
        ensures
            final(self).queues@.len() == old(self).queues@.len(),
            ok <==> task.queue < old(self).queues@.len(),
            ok ==> queue_contents(*final(self), task.queue as int) == queue_contents(
                *old(self),
                task.queue as int,
            ).insert(task),
            ok ==> forall|i: int|
                0 <= i < old(self).queues@.len() && i != task.queue as int ==> queue_contents(
                    *final(self),
                    i,
                ) == queue_contents(*old(self), i),
            !ok ==> *final(self) == *old(self),
            all_pending_wf(*old(self)) ==> all_pending_wf(*final(self)),
    {
        let idx = task.queue;
        if idx >= self.queues.len() {
            return false;
        }
        let queue = &mut self.queues[idx];
        queue.insert(task);
        proof {
            if all_pending_wf(*old(self)) {
                assert forall|i: int, t: Task|
                    0 <= i < self.queues@.len() && #[trigger] queue_contents(*self, i).count(t)
                        > 0 implies task_wf(t@) by {
                    if i == idx as int {
                        if t != task {
                            assert(queue_contents(*old(self), i).count(t) > 0);
                        }
                    } else {
                        assert(queue_contents(*old(self), i).count(t) > 0);
                    }
                }
            }
        }
        true
    }
}

/// What became of one line from a client.
pub enum LineOutcome {
    /// The line carried a task and it entered its queue.
    Accepted,
    /// The line was not a well-formed task; it is logged and skipped.
    BadLine,
    /// The task named a queue index the engine does not have; the line
    /// is logged and skipped.
    NoSuchQueue,
}

impl App {
    /// Handles one admitted line: reads it as a task and inserts the
    /// task into the queue it selects. A malformed line or an
    /// out-of-range queue index changes nothing.
    pub fn accept_line(&mut self, line: &str) -> (r: LineOutcome)
        requires
            all_pending_wf(*old(self)),
        ensures
            final(self).queues@.len() == old(self).queues@.len(),
            all_pending_wf(*final(self)),
            (match crate::codec::spec_parse_task(line@) {
                None => r is BadLine && *final(self) == *old(self),
                Some(tv) => if tv.queue < old(self).queues@.len() {
                    r is Accepted && (exists|t: Task|
                        t@ == tv && queue_contents(*final(self), tv.queue) == queue_contents(
                            *old(self),
                            tv.queue,
                        ).insert(t)) && (forall|j: int|
                        0 <= j < old(self).queues@.len() && j != tv.queue ==> queue_contents(
                            *final(self),
                            j,
                        ) == queue_contents(*old(self), j))
                } else {
                    r is NoSuchQueue && *final(self) == *old(self)
                },
            }),
    {
        let task = match Task::from_str(line) {
            Some(t) => t,
            None => {
                return LineOutcome::BadLine;
            },
        };
        let ghost tv = task@;
        if self.insert_task(task) {
            proof {
                assert(exists|t: Task|
                    t@ == tv && queue_contents(*self, tv.queue) == queue_contents(
                        *old(self),
                        tv.queue,
                    ).insert(t));
            }
            LineOutcome::Accepted
        } else {
            LineOutcome::NoSuchQueue
        }
    }
}

/// `t` is pending in `m` and no pending task outranks it.
pub open spec fn is_min_of(m: Multiset<Task>, t: Task) -> bool {
    m.count(t) > 0 && (forall|u: Task| #[trigger] m.count(u) > 0 ==> eta_key(t@) <= eta_key(u@))
}

/// The queue holds a task, and its front (a minimal one) is due.
pub open spec fn has_due_head(m: Multiset<Task>, now: int) -> bool {
    exists|t: Task| #[trigger] is_min_of(m, t) && spec_due(t@, now)
}

/// Whether the next instance of `t` goes back into the queue: the
/// policy asks for one, and its `eta` still fits the wire format
/// (an instance past the last representable instant is dropped, since
/// nothing could carry or re-admit it).
pub open spec fn spec_reinserted(t: TaskView) -> bool {
    spec_should_reschedule(t) && (spec_next(t).eta matches Some(e) ==> e <= MAX_ETA_MS as int)
}

/// How one poll of one queue changes its contents: nothing, when no
/// due task heads the queue; otherwise a minimal due task `t` leaves,
/// and the next instance of `t` enters iff the policy asks for one.
pub open spec fn poll_rel(
    before: Multiset<Task>,
    after: Multiset<Task>,
    r: Option<Task>,
    now: int,
) -> bool {
    match r {
        None => after == before && !has_due_head(before, now),
        Some(t) => {
            &&& is_min_of(before, t)
            &&& spec_due(t@, now)
            &&& if spec_reinserted(t@) {
                exists|nt: Task| nt@ == spec_next(t@) && after == before.remove(t).insert(nt)
            } else {
                after == before.remove(t)
            }
        },
    }
}

/// One queue went through one poll step, and whatever that step
/// popped is among the dispatched tasks `due`.
pub open spec fn polled_to(
    before: Multiset<Task>,
    after: Multiset<Task>,
    due: Seq<Task>,
    now: int,
) -> bool {
    exists|r: Option<Task>|
        #[trigger] poll_rel(before, after, r, now) && (r matches Some(t) ==> due.contains(t))
}

/// A poll step recorded against a dispatch list stays recorded when
/// more tasks are dispatched after it.
proof fn lemma_polled_to_grow(
    before: Multiset<Task>,
    after: Multiset<Task>,
    due: Seq<Task>,
    t: Task,
    now: int,
)
    requires
        polled_to(before, after, due, now),
    ensures
        polled_to(before, after, due.push(t), now),
{
    let r = choose|r: Option<Task>|
        #[trigger] poll_rel(before, after, r, now) && (r matches Some(u) ==> due.contains(u));
    if r is Some {
        let u = r->0;
        let k = choose|k: int| 0 <= k < due.len() && due[k] == u;
        assert(due.push(t)[k] == u);
        assert(due.push(t).contains(u));
    }
    assert(poll_rel(before, after, r, now) && (r matches Some(u) ==> due.push(t).contains(u)));
}

/// Tasks with equal ordering keys are due at the same instants.
proof fn lemma_key_eq_due(a: Task, b: Task, now: int)
    requires
        eta_key(a@) == eta_key(b@),
    ensures
        spec_due(a@, now) == spec_due(b@, now),
{
}

impl App {
    /// One poll of queue `i` at instant `now`: pops its front task if
    /// that task is due, reinserting the next instance first when the
    /// policy asks for one, and returns the popped task for dispatch.
    pub fn poll_one(&mut self, i: usize, now: i64) -> (r: Option<Task>)
        requires
            i < old(self).queues@.len(),
            all_pending_wf(*old(self)),
        ensures
            final(self).queues@.len() == old(self).queues@.len(),
            all_pending_wf(*final(self)),
            (forall|j: int|
                0 <= j < old(self).queues@.len() && j != i as int ==> queue_contents(
                    *final(self),
                    j,
                ) == queue_contents(*old(self), j)),
            poll_rel(
                queue_contents(*old(self), i as int),
                queue_contents(*final(self), i as int),
                r,
                now as int,
            ),
            (r matches Some(t) ==> spec_due(t@, now as int) && task_wf(t@)),
    {
        let ghost before = queue_contents(*old(self), i as int);
        let queue = &mut self.queues[i];
        let mut head_due = false;
        match queue.peek() {
            Some(head) => {
                head_due = head.should_run_now(now);
                proof {
                    if !head_due {
                        assert(!has_due_head(before, now as int)) by {
                            if has_due_head(before, now as int) {
                                let t = choose|t: Task|
                                    is_min_of(before, t) && spec_due(t@, now as int);
                                assert(before.count(*head) > 0);
                                assert(eta_key(t@) <= eta_key(head@));
                                assert(eta_key(head@) <= eta_key(t@));
                                lemma_key_eq_due(t, *head, now as int);
                            }
                        }
                    }
                }
            },
            None => {
                proof {
                    assert(!has_due_head(before, now as int)) by {
                        if has_due_head(before, now as int) {
                            let t = choose|t: Task| is_min_of(before, t) && spec_due(t@, now as int);
                            assert(before.count(t) <= before.len());
                        }
                    }
                }
            },
        }
        if !head_due {
            proof {
                assert(self.queues@ =~= old(self).queues@);
                assert forall|j: int, u: Task|
                    0 <= j < self.queues@.len() && #[trigger] queue_contents(*self, j).count(u)
                        > 0 implies task_wf(u@) by {
                    assert(queue_contents(*old(self), j).count(u) > 0);
                }
            }
            return None;
        }
        let t = match queue.pop() {
            Some(t) => t,
            None => unreached(),
        };
        proof {
            assert(before.count(t) > 0);
            assert(task_wf(t@));
            assert(is_min_of(before, t));
            assert(spec_due(t@, now as int));
        }
        if t.should_reschedule() {
            let next = t.get_next();
            let fits = match next.eta {
                Some(e) => e <= MAX_ETA_MS,
                None => true,
            };
            if fits {
                queue.insert(next);
                proof {
                    assert(task_wf(next@)) by {
                        if next@.eta is Some {
                            let e = t@.eta->0;
                            let k = t@.settings->0.repeat_interval->0;
                            assert(k * 1000 >= 0) by (nonlinear_arith)
                                requires
                                    k > 0,
                            ;
                            assert(next@.eta->0 == e + k * 1000);
                        }
                    }
                    assert(queue_contents(*self, i as int) == before.remove(t).insert(next));
                    assert(spec_reinserted(t@));
                }
            } else {
                proof {
                    assert(!spec_reinserted(t@));
                    assert(queue_contents(*self, i as int) == before.remove(t));
                }
            }
        } else {
            proof {
                assert(!spec_reinserted(t@));
            }
        }
        proof {
            assert forall|j: int, u: Task|
                0 <= j < self.queues@.len() && #[trigger] queue_contents(*self, j).count(u)
                    > 0 implies task_wf(u@) by {
                if j == i as int {
                    if queue_contents(*old(self), j).count(u) > 0 {
                    } else {
                        assert(u@ == spec_next(t@));
                    }
                } else {
                    assert(queue_contents(*old(self), j).count(u) > 0);
                }
            }
        }
        Some(t)
    }

    /// One poll pass at instant `now`: scans every queue in ascending
    /// index order, popping from each the front task if due, after
    /// reinserting the next instance of a recurring one. Returns the
    /// due tasks, in queue order, for dispatch.
    pub fn poll_queues(&mut self, now: i64) -> (due: Vec<Task>)
        requires
            all_pending_wf(*old(self)),
        ensures
            final(self).queues@.len() == old(self).queues@.len(),
            all_pending_wf(*final(self)),
            due@.len() <= old(self).queues@.len(),
            (forall|k: int|
                0 <= k < due@.len() ==> spec_due(#[trigger] due@[k]@, now as int) && task_wf(
                    due@[k]@,
                )),
            (forall|j: int|
                0 <= j < old(self).queues@.len() ==> polled_to(
                    #[trigger] queue_contents(*old(self), j),
                    queue_contents(*final(self), j),
                    due@,
                    now as int,
                )),
    {
        let mut due: Vec<Task> = Vec::new();
        let n = self.queues.len();
        let ghost snap = *self;
        for i in 0..n
            invariant
                n == self.queues@.len(),
                snap.queues@.len() == n,
                due@.len() <= i,
                all_pending_wf(*self),
                (forall|k: int|
                    0 <= k < due@.len() ==> spec_due(#[trigger] due@[k]@, now as int) && task_wf(
                        due@[k]@,
                    )),
                (forall|j: int|
                    i <= j < n ==> queue_contents(*self, j) == queue_contents(snap, j)),
                (forall|j: int|
                    0 <= j < i ==> polled_to(
                        #[trigger] queue_contents(snap, j),
                        queue_contents(*self, j),
                        due@,
                        now as int,
                    )),
        {
            let ghost pre = *self;
            let ghost due_pre = due@;
            let r = self.poll_one(i, now);
            match r {
                Some(t) => {
                    due.push(t);
                },
                None => {},
            }
            proof {
                assert forall|j: int| 0 <= j < i + 1 implies polled_to(
                    #[trigger] queue_contents(snap, j),
                    queue_contents(*self, j),
                    due@,
                    now as int,
                ) by {
                    if j == i as int {
                        assert(queue_contents(snap, j) == queue_contents(pre, j));
                        if r is Some {
                            let t = r->0;
                            assert(due@ == due_pre.push(t));
                            assert(due@[due@.len() - 1] == t);
                            assert(due@.contains(t));
                        }
                        assert(poll_rel(
                            queue_contents(snap, j),
                            queue_contents(*self, j),
                            r,
                            now as int,
                        ) && (r matches Some(t) ==> due@.contains(t)));
                    } else {
                        assert(polled_to(
                            queue_contents(snap, j),
                            queue_contents(pre, j),
                            due_pre,
                            now as int,
                        ));
                        assert(queue_contents(*self, j) == queue_contents(pre, j));
                        if r is Some {
                            lemma_polled_to_grow(
                                queue_contents(snap, j),
                                queue_contents(pre, j),
                                due_pre,
                                r->0,
                                now as int,
                            );
                            assert(due@ == due_pre.push(r->0));
                        }
                    }
                }
            }
        }
        due
    }
}

} // verus!
