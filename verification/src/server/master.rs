//! The master's state and what it does on each event: a plan submitted, a
//! worker registering, a heartbeat, a result, a worker lost, a round of
//! dispatch, a check for silent workers. Sending and receiving are the
//! caller's; each step says what to do next.
use vstd::prelude::*;
use crate::server::orchestrator::{
    DagScheduler, DagSchedulerView, TaskSpec, build_schedule, record_result, requeue, dispatch_plan,
};
use crate::server::failover::{
    TaskLedger, held_by, without_worker, without_task, expired_workers, silent_workers,
    HEARTBEAT_TIMEOUT_MS, lemma_silent_workers_are_the_silent, lemma_worker_lost_splits,
};

verus! {

/// `seen` without the entries of `worker`.
pub open spec fn seen_without(seen: Seq<(usize, u64)>, worker: usize) -> Seq<(usize, u64)>
    decreases seen.len(),
{
    if seen.len() == 0 {
        Seq::empty()
    } else {
        let rest = seen_without(seen.drop_last(), worker);
        if seen.last().0 == worker {
            rest
        } else {
            rest.push(seen.last())
        }
    }
}

/// Whether `seen` has an entry for `worker`.
pub open spec fn knows_worker(seen: Seq<(usize, u64)>, worker: usize) -> bool {
    exists|i: int| 0 <= i < seen.len() && #[trigger] seen[i].0 == worker
}

/// `seen` after `worker` was heard from at `now_ms`: its time is renewed
/// where it is known; unknown workers are not added.
pub open spec fn heard(seen: Seq<(usize, u64)>, worker: usize, now_ms: u64) -> Seq<(usize, u64)> {
    if knows_worker(seen, worker) {
        seen_without(seen, worker).push((worker, now_ms))
    } else {
        seen
    }
}

/// Every task has been reported, succeeded or failed.
pub open spec fn all_reported(v: DagSchedulerView) -> bool {
    v.completed_tasks.len() + v.failed_tasks.len() == v.tasks.len()
}

/// The master's state as values.
pub struct MasterStateView {
    /// The scheduler of the plan being run, if one was submitted.
    pub scheduler: Option<DagSchedulerView>,
    /// The tasks handed out and not yet reported, with the worker holding each.
    pub ledger: Seq<(usize, Seq<char>)>,
    /// Each registered worker with the time it was last heard from.
    pub last_seen: Seq<(usize, u64)>,
}

/// The master's state: the plan's scheduler, who holds which task, and when
/// each worker was last heard from.
pub struct MasterState {
    scheduler: Option<DagScheduler>,
    ledger: TaskLedger,
    last_seen: Vec<(usize, u64)>,
}

/// A scheduler, if any, as values.
pub open spec fn scheduler_view(s: Option<DagScheduler>) -> Option<DagSchedulerView> {
    match s {
        Some(d) => Some(d@),
        None => None,
    }
}

impl View for MasterState {
    type V = MasterStateView;

    closed spec fn view(&self) -> MasterStateView {
        MasterStateView {
            scheduler: scheduler_view(self.scheduler),
            ledger: self.ledger@,
            last_seen: self.last_seen@,
        }
    }
}

/// `seen` without the entries of `worker`.
fn times_without(seen: &Vec<(usize, u64)>, worker: usize) -> (r: Vec<(usize, u64)>)
    ensures
        r@ == seen_without(seen@, worker),
{
    let mut out: Vec<(usize, u64)> = Vec::new();
    let mut i: usize = 0;
    while i < seen.len()
        invariant
            i <= seen@.len(),
            out@ == seen_without(seen@.take(i as int), worker),
        decreases seen@.len() - i,
    {
        assert(seen@.take(i + 1).drop_last() =~= seen@.take(i as int));
        let e = seen[i];
        if e.0 != worker {
            out.push(e);
        }
        i += 1;
    }
    assert(seen@.take(seen@.len() as int) =~= seen@);
    out
}

/// Whether `seen` has an entry for `worker`.
fn knows(seen: &Vec<(usize, u64)>, worker: usize) -> (r: bool)
    ensures
        r == knows_worker(seen@, worker),
{
    let mut i: usize = 0;
    while i < seen.len()
        invariant
            i <= seen@.len(),
            forall|j: int| 0 <= j < i ==> seen@[j].0 != worker,
        decreases seen@.len() - i,
    {
        if seen[i].0 == worker {
            assert(seen@[i as int].0 == worker);
            return true;
        }
        i += 1;
    }
    false
}

impl MasterState {
    /// A master with no plan, nothing handed out and no worker.
    pub fn new() -> (r: Self)
        ensures
            r@ == (MasterStateView {
                scheduler: None,
                ledger: Seq::empty(),
                last_seen: Seq::empty(),
            }),
    {
        let r = MasterState { scheduler: None, ledger: TaskLedger::new(), last_seen: Vec::new() };
        assert(r@.last_seen =~= Seq::<(usize, u64)>::empty());
        r
    }

    /// A client submitted the plan `tasks`: it replaces any plan before.
    pub fn load_plan(&mut self, tasks: Vec<TaskSpec>)
        ensures
            final(self)@ == (MasterStateView {
                scheduler: Some(build_schedule(tasks@.map_values(|t: TaskSpec| t@))),
                ..old(self)@
            }),
    {
        self.scheduler = Some(DagScheduler::new(tasks));
    }

    /// The worker `worker` registered at `now_ms`: it is known from now on,
    /// last heard from now.
    pub fn worker_registered(&mut self, worker: usize, now_ms: u64)
        ensures
            final(self)@ == (MasterStateView {
                last_seen: seen_without(old(self)@.last_seen, worker).push((worker, now_ms)),
                ..old(self)@
            }),
    {
        let mut seen = times_without(&self.last_seen, worker);
        seen.push((worker, now_ms));
        self.last_seen = seen;
    }

    /// A heartbeat from `worker` at `now_ms`.
    pub fn heartbeat(&mut self, worker: usize, now_ms: u64)
        ensures
            final(self)@ == (MasterStateView {
                last_seen: heard(old(self)@.last_seen, worker, now_ms),
                ..old(self)@
            }),
    {
        if knows(&self.last_seen, worker) {
            let mut seen = times_without(&self.last_seen, worker);
            seen.push((worker, now_ms));
            self.last_seen = seen;
        }
    }

    /// `worker` reported at `now_ms` how the task `task_id` ended: it is
    /// heard from, the task leaves the ledger, and the scheduler records the
    /// result. Gives whether to hand out more tasks: not once every task of
    /// the plan has been reported.
    pub fn task_finished(&mut self, worker: usize, task_id: &str, success: bool, now_ms: u64) -> (dispatch_more: bool)
        ensures
            final(self)@.last_seen == heard(old(self)@.last_seen, worker, now_ms),
            final(self)@.ledger == without_task(old(self)@.ledger, task_id@),
            final(self)@.scheduler == (match old(self)@.scheduler {
                Some(v) => Some(record_result(v, task_id@, success)),
                None => None,
            }),
            dispatch_more == !(match final(self)@.scheduler {
                Some(v) => all_reported(v),
                None => false,
            }),
    {
        self.heartbeat(worker, now_ms);
        self.ledger.task_reported(task_id);
        let mut cur: Option<DagScheduler> = None;
        std::mem::swap(&mut cur, &mut self.scheduler);
        match cur {
            Some(mut s) => {
                s.mark_task_result(task_id, success);
                let done = s.is_finished();
                self.scheduler = Some(s);
                !done
            },
            None => true,
        }
    }

    /// `worker` is gone: it is forgotten, and the tasks it held and had not
    /// reported leave the ledger and are queued again. Gives their ids.
    pub fn worker_lost(&mut self, worker: usize) -> (r: Vec<String>)
        ensures
            r.deep_view() == held_by(old(self)@.ledger, worker),
            r.deep_view() == old(self)@.ledger.filter(|e: (usize, Seq<char>)| e.0 == worker).map_values(
                |e: (usize, Seq<char>)| e.1,
            ),
            final(self)@.ledger == without_worker(old(self)@.ledger, worker),
            final(self)@.last_seen == seen_without(old(self)@.last_seen, worker),
            final(self)@.scheduler == (match old(self)@.scheduler {
                Some(v) => Some(requeue(v, held_by(old(self)@.ledger, worker))),
                None => None,
            }),
    {
        proof {
            lemma_worker_lost_splits(self@.ledger, worker);
        }
        self.last_seen = times_without(&self.last_seen, worker);
        let lost = self.ledger.worker_lost(worker);
        let mut cur: Option<DagScheduler> = None;
        std::mem::swap(&mut cur, &mut self.scheduler);
        match cur {
            Some(mut s) => {
                s.requeue_tasks(&lost);
                self.scheduler = Some(s);
            },
            None => {},
        }
        lost
    }

    /// Hands ready tasks to the workers `worker_ids`, one each in order, and
    /// records who holds each. Hands out nothing without a plan.
    pub fn dispatch(&mut self, worker_ids: &[usize]) -> (r: Vec<(usize, TaskSpec)>)
        ensures
            final(self)@.last_seen == old(self)@.last_seen,
            match old(self)@.scheduler {
                Some(v) => {
                    &&& r@.map_values(|p: (usize, TaskSpec)| (p.0, p.1@)) == dispatch_plan(
                        v,
                        worker_ids@,
                    ).0
                    &&& final(self)@.scheduler == Some(dispatch_plan(v, worker_ids@).1)
                    &&& final(self)@.ledger == old(self)@.ledger + r@.map_values(
                        |p: (usize, TaskSpec)| (p.0, p.1.task_id@),
                    )
                },
                None => r@.len() == 0 && final(self)@ == old(self)@,
            },
    {
        let mut cur: Option<DagScheduler> = None;
        std::mem::swap(&mut cur, &mut self.scheduler);
        match cur {
            Some(mut s) => {
                let assigned = s.assign_ready_tasks(worker_ids);
                self.scheduler = Some(s);
                self.ledger.record_assignments(&assigned);
                assigned
            },
            None => Vec::new(),
        }
    }

    /// The workers silent for longer than the heartbeat timeout at `now_ms`:
    /// those to evict.
    pub fn silent_workers(&self, now_ms: u64) -> (r: Vec<usize>)
        ensures
            r@ == silent_workers(self@.last_seen, now_ms, HEARTBEAT_TIMEOUT_MS),
            r@ == self@.last_seen.filter(
                |e: (usize, u64)| now_ms > e.1 && now_ms - e.1 > HEARTBEAT_TIMEOUT_MS,
            ).map_values(|e: (usize, u64)| e.0),
    {
        proof {
            lemma_silent_workers_are_the_silent(self@.last_seen, now_ms, HEARTBEAT_TIMEOUT_MS);
        }
        expired_workers(self.last_seen.as_slice(), now_ms, HEARTBEAT_TIMEOUT_MS)
    }
}

} // verus!
