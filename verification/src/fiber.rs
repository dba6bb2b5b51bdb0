//! The queue discipline of the fiber scheduler. Each worker owns a queue; new tasks go to the
//! workers in turn; a worker runs the newest task of its own queue first and otherwise takes the
//! oldest task of the first other worker that has one. Tasks are named by numbers here: running
//! them, and the threads that do, belong to the caller.
use std::collections::VecDeque;
use vstd::prelude::*;
use vstd::multiset::Multiset;

verus! {

/// One worker's queue of task numbers, oldest first.
pub struct WorkerQueue {
    pub tasks: VecDeque<u64>,
}

impl WorkerQueue {
    /// An empty queue.
    pub fn new() -> (q: Self)
        ensures
            q.tasks@ == Seq::<u64>::empty(),
    {
        WorkerQueue { tasks: VecDeque::new() }
    }

    /// Adds a task as the newest.
    pub fn push(&mut self, task: u64)
        ensures
            final(self).tasks@ == old(self).tasks@.push(task),
    {
        self.tasks.push_back(task);
    }

    /// Takes the newest task, as the queue's owner does.
    pub fn pop_local(&mut self) -> (r: Option<u64>)
        ensures
            match r {
                Some(t) => {
                    &&& old(self).tasks@.len() > 0
                    &&& t == old(self).tasks@.last()
                    &&& final(self).tasks@ == old(self).tasks@.drop_last()
                },
                None => old(self).tasks@.len() == 0 && final(self).tasks@ == old(self).tasks@,
            },
    {
        let r = self.tasks.pop_back();
        proof {
            if r is Some {
                assert(final(self).tasks@ =~= old(self).tasks@.drop_last());
            }
        }
        r
    }

    /// Takes the oldest task, as another worker does.
    pub fn steal(&mut self) -> (r: Option<u64>)
        ensures
            match r {
                Some(t) => {
                    &&& old(self).tasks@.len() > 0
                    &&& t == old(self).tasks@[0]
                    &&& final(self).tasks@ == old(self).tasks@.drop_first()
                },
                None => old(self).tasks@.len() == 0 && final(self).tasks@ == old(self).tasks@,
            },
    {
        let r = self.tasks.pop_front();
        proof {
            if r is Some {
                assert(final(self).tasks@ =~= old(self).tasks@.drop_first());
            }
        }
        r
    }
}

/// What a worker does next.
#[derive(Debug, Clone, Copy, PartialEq, Eq, Structural)]
pub enum FiberStep {
    /// Run the task with this number.
    Run(u64),
    /// Wait: there is no task anywhere.
    Idle,
    /// Stop: the scheduler is shut down.
    Stop,
}

/// The tasks of each queue.
pub open spec fn queue_views(ws: Seq<WorkerQueue>) -> Seq<Seq<u64>> {
    Seq::new(ws.len(), |i: int| ws[i].tasks@)
}

/// All tasks waiting in the queues, counted with their repetitions.
pub open spec fn pending(qs: Seq<Seq<u64>>) -> Multiset<u64>
    decreases qs.len(),
{
    if qs.len() == 0 {
        Multiset::empty()
    } else {
        pending(qs.drop_last()).add(qs.last().to_multiset())
    }
}

/// The first queue from index `j` on, other than `me`'s, that holds a task; `qs.len()` if
/// there is none.
pub open spec fn victim_from(qs: Seq<Seq<u64>>, me: int, j: int) -> int
    decreases qs.len() - j,
{
    if j >= qs.len() {
        qs.len() as int
    } else if j != me && qs[j].len() > 0 {
        j
    } else {
        victim_from(qs, me, j + 1)
    }
}

/// The queue that worker `me` takes from when its own is empty.
pub open spec fn victim(qs: Seq<Seq<u64>>, me: int) -> int {
    victim_from(qs, me, 0)
}

proof fn lemma_victim_from(qs: Seq<Seq<u64>>, me: int, j: int)
    requires
        0 <= j <= qs.len(),
    ensures
        j <= victim_from(qs, me, j) <= qs.len(),
        victim_from(qs, me, j) < qs.len() ==> victim_from(qs, me, j) != me
            && qs[victim_from(qs, me, j)].len() > 0,
        forall|k: int| j <= k < victim_from(qs, me, j) && k != me ==> #[trigger] qs[k].len() == 0,
    decreases qs.len() - j,
{
    if j < qs.len() && !(j != me && qs[j].len() > 0) {
        lemma_victim_from(qs, me, j + 1);
    }
}

proof fn lemma_pending_update(qs: Seq<Seq<u64>>, i: int, s: Seq<u64>)
    requires
        0 <= i < qs.len(),
    ensures
        pending(qs.update(i, s)).add(qs[i].to_multiset()) =~= pending(qs).add(s.to_multiset()),
    decreases qs.len(),
{
    broadcast use vstd::multiset::group_multiset_axioms;

    let u = qs.update(i, s);
    let lhs = pending(u).add(qs[i].to_multiset());
    let rhs = pending(qs).add(s.to_multiset());
    if i == qs.len() - 1 {
        assert(u.drop_last() =~= qs.drop_last());
        assert(pending(u) == pending(qs.drop_last()).add(s.to_multiset()));
        assert(pending(qs) == pending(qs.drop_last()).add(qs[i].to_multiset()));
    } else {
        assert(u.drop_last() =~= qs.drop_last().update(i, s));
        lemma_pending_update(qs.drop_last(), i, s);
        assert(u.last() == qs.last());
        assert(pending(u) == pending(qs.drop_last().update(i, s)).add(qs.last().to_multiset()));
        assert(pending(qs) == pending(qs.drop_last()).add(qs.last().to_multiset()));
        let inner_l = pending(qs.drop_last().update(i, s)).add(qs[i].to_multiset());
        let inner_r = pending(qs.drop_last()).add(s.to_multiset());
        assert forall|x: u64| #[trigger] lhs.count(x) == rhs.count(x) by {
            assert(inner_l.count(x) == inner_r.count(x));
        }
    }
    assert(forall|x: u64| #[trigger] lhs.count(x) == rhs.count(x));
}

proof fn lemma_pending_push(qs: Seq<Seq<u64>>, i: int, t: u64)
    requires
        0 <= i < qs.len(),
    ensures
        pending(qs.update(i, qs[i].push(t))) =~= pending(qs).insert(t),
{
    broadcast use vstd::multiset::group_multiset_axioms;
    broadcast use vstd::seq_lib::group_to_multiset_ensures;

    lemma_pending_update(qs, i, qs[i].push(t));
    assert(qs[i].push(t).to_multiset() =~= qs[i].to_multiset().insert(t));
    let a = pending(qs.update(i, qs[i].push(t)));
    let b = pending(qs).insert(t);
    assert forall|x: u64| #[trigger] a.count(x) == b.count(x) by {
        assert(a.add(qs[i].to_multiset()).count(x) == pending(qs).add(
            qs[i].push(t).to_multiset(),
        ).count(x));
    }
}

proof fn lemma_pending_take(qs: Seq<Seq<u64>>, i: int, rest: Seq<u64>, t: u64)
    requires
        0 <= i < qs.len(),
        qs[i].to_multiset() =~= rest.to_multiset().insert(t),
    ensures
        pending(qs) =~= pending(qs.update(i, rest)).insert(t),
{
    broadcast use vstd::multiset::group_multiset_axioms;

    lemma_pending_update(qs, i, rest);
    let a = pending(qs);
    let b = pending(qs.update(i, rest)).insert(t);
    assert forall|x: u64| #[trigger] a.count(x) == b.count(x) by {
        assert(pending(qs.update(i, rest)).add(qs[i].to_multiset()).count(x) == a.add(
            rest.to_multiset(),
        ).count(x));
    }
}

proof fn lemma_drop_last_multiset(q: Seq<u64>)
    requires
        q.len() > 0,
    ensures
        q.to_multiset() =~= q.drop_last().to_multiset().insert(q.last()),
{
    broadcast use vstd::seq_lib::group_to_multiset_ensures;

    assert(q.drop_last().push(q.last()) =~= q);
}

proof fn lemma_drop_first_multiset(q: Seq<u64>)
    requires
        q.len() > 0,
    ensures
        q.to_multiset() =~= q.drop_first().to_multiset().insert(q[0]),
{
    assert(q.drop_first().insert(0, q[0]) =~= q);
    vstd::seq_lib::to_multiset_insert(q.drop_first(), 0, q[0]);
}

/// The scheduler's bookkeeping: one queue per worker, whether it is shut down, and the
/// counter that picks the worker for the next new task.
pub struct WorkStealingScheduler {
    pub workers: Vec<WorkerQueue>,
    pub shutdown: bool,
    pub next_worker: usize,
    pub num_threads: usize,
}

impl WorkStealingScheduler {
    /// The tasks of each worker's queue.
    pub open spec fn queues(&self) -> Seq<Seq<u64>> {
        queue_views(self.workers@)
    }

    /// At least two workers, each with its queue.
    pub open spec fn wf(&self) -> bool {
        &&& self.num_threads >= 2
        &&& self.workers@.len() == self.num_threads
    }

    /// A scheduler with `num_threads` workers, at least two, all queues empty.
    pub fn new(num_threads: usize) -> (s: Self)
        ensures
            s.wf(),
            s.num_threads == if num_threads < 2 { 2 } else { num_threads },
            forall|i: int| 0 <= i < s.queues().len() ==> #[trigger] s.queues()[i].len() == 0,
            s.next_worker == 0,
            !s.shutdown,
    {
        let n = if num_threads < 2 { 2 } else { num_threads };
        let mut workers: Vec<WorkerQueue> = Vec::new();
        let mut i: usize = 0;
        while i < n
            invariant
                i <= n,
                workers@.len() == i,
                forall|k: int| 0 <= k < i ==> #[trigger] workers@[k].tasks@.len() == 0,
            decreases n - i,
        {
            workers.push(WorkerQueue::new());
            i = i + 1;
        }
        WorkStealingScheduler { workers, shutdown: false, next_worker: 0, num_threads: n }
    }

    fn take_queue(&mut self, i: usize) -> (q: WorkerQueue)
        requires
            i < old(self).workers@.len(),
        ensures
            q == old(self).workers@[i as int],
            final(self).workers@ == old(self).workers@.remove(i as int),
            final(self).shutdown == old(self).shutdown,
            final(self).next_worker == old(self).next_worker,
            final(self).num_threads == old(self).num_threads,
    {
        self.workers.remove(i)
    }

    fn put_queue(&mut self, i: usize, q: WorkerQueue, Ghost(before): Ghost<Seq<WorkerQueue>>)
        requires
            i < before.len(),
            old(self).workers@ == before.remove(i as int),
        ensures
            final(self).workers@ == before.update(i as int, q),
            final(self).shutdown == old(self).shutdown,
            final(self).next_worker == old(self).next_worker,
            final(self).num_threads == old(self).num_threads,
    {
        self.workers.insert(i, q);
        assert(self.workers@ =~= before.update(i as int, q));
    }

    /// Queues a new task on the worker whose turn it is: the counter modulo the number of
    /// workers; the counter then advances by one, wrapping.
    pub fn spawn(&mut self, task: u64)
        requires
            old(self).wf(),
        ensures
            final(self).wf(),
            final(self).queues() == old(self).queues().update(
                (old(self).next_worker % old(self).num_threads) as int,
                old(self).queues()[(old(self).next_worker % old(self).num_threads) as int].push(task),
            ),
            final(self).next_worker == (if old(self).next_worker == usize::MAX {
                0
            } else {
                old(self).next_worker + 1
            }),
            final(self).num_threads == old(self).num_threads,
            final(self).shutdown == old(self).shutdown,
            pending(final(self).queues()) == pending(old(self).queues()).insert(task),
    {
        let ghost before = self.workers@;
        let idx = self.next_worker % self.num_threads;
        self.next_worker = self.next_worker.wrapping_add(1);
        let mut q = self.take_queue(idx);
        q.push(task);
        self.put_queue(idx, q, Ghost(before));
        proof {
            assert(self.queues() =~= old(self).queues().update(
                idx as int,
                old(self).queues()[idx as int].push(task),
            ));
            lemma_pending_push(old(self).queues(), idx as int, task);
        }
    }

    /// Shuts the scheduler down: from now on every worker is told to stop.
    pub fn shutdown(&mut self)
        ensures
            final(self).shutdown,
            final(self).workers@ == old(self).workers@,
            final(self).next_worker == old(self).next_worker,
            final(self).num_threads == old(self).num_threads,
    {
        self.shutdown = true;
    }

    /// What worker `me` does next: stop once the scheduler is shut down; else run the newest
    /// task of its own queue; else run the oldest task of the first other queue that has one;
    /// else wait. A task that is handed out leaves the queues.
    pub fn next_task(&mut self, me: usize) -> (r: FiberStep)
        requires
            old(self).wf(),
            me < old(self).num_threads,
        ensures
            final(self).wf(),
            final(self).shutdown == old(self).shutdown,
            final(self).next_worker == old(self).next_worker,
            final(self).num_threads == old(self).num_threads,
            match r {
                FiberStep::Stop => old(self).shutdown && final(self).queues() == old(self).queues(),
                FiberStep::Idle => {
                    &&& !old(self).shutdown
                    &&& forall|i: int|
                        0 <= i < old(self).queues().len() ==> #[trigger] old(self).queues()[i].len()
                            == 0
                    &&& final(self).queues() == old(self).queues()
                },
                FiberStep::Run(t) => {
                    &&& !old(self).shutdown
                    &&& pending(old(self).queues()) == pending(final(self).queues()).insert(t)
                    &&& if old(self).queues()[me as int].len() > 0 {
                        &&& t == old(self).queues()[me as int].last()
                        &&& final(self).queues() == old(self).queues().update(
                            me as int,
                            old(self).queues()[me as int].drop_last(),
                        )
                    } else {
                        let j = victim(old(self).queues(), me as int);
                        &&& 0 <= j < old(self).queues().len()
                        &&& j != me
                        &&& old(self).queues()[j].len() > 0
                        &&& t == old(self).queues()[j][0]
                        &&& final(self).queues() == old(self).queues().update(
                            j,
                            old(self).queues()[j].drop_first(),
                        )
                    }
                },
            },
    {
        let ghost qs = self.queues();
        if self.shutdown {
            return FiberStep::Stop;
        }
        let ghost before = self.workers@;
        let mut own = self.take_queue(me);
        let local = own.pop_local();
        self.put_queue(me, own, Ghost(before));
        match local {
            Some(t) => {
                proof {
                    assert(self.queues() =~= qs.update(me as int, qs[me as int].drop_last()));
                    lemma_drop_last_multiset(qs[me as int]);
                    lemma_pending_take(qs, me as int, qs[me as int].drop_last(), t);
                }
                return FiberStep::Run(t);
            },
            None => {},
        }
        assert(self.queues() =~= qs);
        let n = self.workers.len();
        let mut j: usize = 0;
        while j < n
            invariant
                self.wf(),
                n == self.num_threads,
                me < n,
                j <= n,
                self.queues() == qs,
                qs == old(self).queues(),
                !old(self).shutdown,
                qs[me as int].len() == 0,
                victim(qs, me as int) == victim_from(qs, me as int, j as int),
                !self.shutdown,
                self.next_worker == old(self).next_worker,
                self.num_threads == old(self).num_threads,
            decreases n - j,
        {
            if j != me && self.workers[j].tasks.len() > 0 {
                let ghost before2 = self.workers@;
                let mut other = self.take_queue(j);
                let stolen = other.steal();
                self.put_queue(j, other, Ghost(before2));
                match stolen {
                    Some(t) => {
                        proof {
                            assert(qs[j as int].len() > 0);
                            assert(victim_from(qs, me as int, j as int) == j);
                            lemma_victim_from(qs, me as int, 0);
                            assert(self.queues() =~= qs.update(
                                j as int,
                                qs[j as int].drop_first(),
                            ));
                            lemma_drop_first_multiset(qs[j as int]);
                            lemma_pending_take(qs, j as int, qs[j as int].drop_first(), t);
                        }
                        return FiberStep::Run(t);
                    },
                    None => {
                        proof {
                            assert(false);
                        }
                    },
                }
            }
            proof {
                assert(qs[j as int] == self.workers@[j as int].tasks@);
            }
            j = j + 1;
        }
        proof {
            lemma_victim_from(qs, me as int, 0);
            assert forall|i: int| 0 <= i < qs.len() implies #[trigger] qs[i].len() == 0 by {
                if i != me as int {
                    assert(0 <= i < victim_from(qs, me as int, 0));
                }
            }
        }
        FiberStep::Idle
    }
}

} // verus!
