//! The master's scheduler: tasks keyed by id, how many dependencies each
//! still waits on, who waits on whom, the queue of tasks ready to hand out,
//! and the tasks reported finished.
use std::collections::VecDeque;
use vstd::prelude::*;
use crate::assoc::{map_of, keys_unique, lemma_map_of, lemma_map_of_update, lemma_keys_unique_push};
use crate::protocol::clone_strings;
use crate::engine::executor::{lossy_text, lossy_utf8};
use crate::server::runs::{SchedulerCall, step};
use crate::server::ordering::{
    dependency_accounting, ids_distinct, lemma_build_accounting, lemma_pop_accounting,
    lemma_queued_tasks_ready, lemma_record_accounting,
};

verus! {

/// A task as the master schedules it: its id, the command to run with its
/// arguments, and the ids of the tasks it depends on.
#[derive(Debug)]
pub struct TaskSpec {
    pub task_id: String,
    pub command: String,
    pub args: Vec<String>,
    pub dependencies: Vec<String>,
}

/// A task specification as values.
pub struct TaskSpecView {
    pub task_id: Seq<char>,
    pub command: Seq<char>,
    pub args: Seq<Seq<char>>,
    pub dependencies: Seq<Seq<char>>,
}

impl View for TaskSpec {
    type V = TaskSpecView;

    open spec fn view(&self) -> TaskSpecView {
        TaskSpecView {
            task_id: self.task_id@,
            command: self.command@,
            args: self.args.deep_view(),
            dependencies: self.dependencies.deep_view(),
        }
    }
}

impl Clone for TaskSpec {
    fn clone(&self) -> (r: Self)
        ensures
            r@ == self@,
    {
        TaskSpec {
            task_id: self.task_id.clone(),
            command: self.command.clone(),
            args: clone_strings(&self.args),
            dependencies: clone_strings(&self.dependencies),
        }
    }
}

/// How a task ended on a worker.
#[derive(Debug)]
pub struct TaskResult {
    pub task_id: String,
    pub success: bool,
    pub stdout: String,
    pub stderr: String,
}

impl TaskResult {
    /// The result of a task whose process ran: whether it succeeded, and its
    /// two output streams read as UTF-8 (invalid sequences replaced).
    pub fn from_output(task_id: String, success: bool, stdout: &[u8], stderr: &[u8]) -> (r: Self)
        ensures
            r.task_id@ == task_id@,
            r.success == success,
            r.stdout@ == lossy_utf8(stdout@),
            r.stderr@ == lossy_utf8(stderr@),
    {
        TaskResult { task_id, success, stdout: lossy_text(stdout), stderr: lossy_text(stderr) }
    }

    /// The result of a task whose process could not be started: failed, with
    /// no output and the reason as its error text.
    pub fn not_started(task_id: String, reason: String) -> (r: Self)
        ensures
            r.task_id@ == task_id@,
            !r.success,
            r.stdout@ == Seq::<char>::empty(),
            r.stderr@ == reason@,
    {
        TaskResult { task_id, success: false, stdout: String::new(), stderr: reason }
    }
}

/// What the master sends a worker.
#[derive(Debug)]
pub enum MasterToWorkerMsg {
    AssignTask(TaskSpec),
    Ping,
}

/// What a worker sends the master.
#[derive(Debug)]
pub enum WorkerToMasterMsg {
    Register { worker_id: String },
    Heartbeat { worker_id: String },
    TaskFinished(TaskResult),
}

/// The scheduler's state as values.
pub struct DagSchedulerView {
    /// Each task by its id.
    pub tasks: Map<Seq<char>, TaskSpecView>,
    /// For each task, how many of its dependencies are still unmet.
    pub in_degree: Map<Seq<char>, nat>,
    /// For each id, the tasks that name it as a dependency, once per naming.
    pub dependents: Map<Seq<char>, Seq<Seq<char>>>,
    /// The ids of the tasks ready to be handed out, first to go first.
    pub ready_queue: Seq<Seq<char>>,
    /// The ids reported as succeeded.
    pub completed_tasks: Set<Seq<char>>,
    /// The ids reported as failed.
    pub failed_tasks: Set<Seq<char>>,
}

/// The tasks that name `k` as a dependency (none where `k` is not a key).
pub open spec fn dependents_of(m: Map<Seq<char>, Seq<Seq<char>>>, k: Seq<char>) -> Seq<Seq<char>> {
    if m.dom().contains(k) {
        m[k]
    } else {
        Seq::empty()
    }
}

/// `m` with `id` recorded, once more, as depending on `dep`.
pub open spec fn add_dependent(m: Map<Seq<char>, Seq<Seq<char>>>, dep: Seq<char>, id: Seq<char>) -> Map<
    Seq<char>,
    Seq<Seq<char>>,
> {
    m.insert(dep, dependents_of(m, dep).push(id))
}

/// `m` with `id` recorded as depending on each of `deps`, in order.
pub open spec fn add_dependents(
    m: Map<Seq<char>, Seq<Seq<char>>>,
    deps: Seq<Seq<char>>,
    id: Seq<char>,
) -> Map<Seq<char>, Seq<Seq<char>>>
    decreases deps.len(),
{
    if deps.len() == 0 {
        m
    } else {
        add_dependent(add_dependents(m, deps.drop_last(), id), deps.last(), id)
    }
}

/// A scheduler with nothing in it.
pub open spec fn empty_schedule() -> DagSchedulerView {
    DagSchedulerView {
        tasks: Map::empty(),
        in_degree: Map::empty(),
        dependents: Map::empty(),
        ready_queue: Seq::empty(),
        completed_tasks: Set::empty(),
        failed_tasks: Set::empty(),
    }
}

/// `v` with the task `t` taken in: it replaces any task with its id, waits on
/// all of its dependencies, is recorded as a dependent of each, and is queued
/// when it has none.
pub open spec fn schedule_task(v: DagSchedulerView, t: TaskSpecView) -> DagSchedulerView {
    DagSchedulerView {
        tasks: v.tasks.insert(t.task_id, t),
        in_degree: v.in_degree.insert(t.task_id, t.dependencies.len()),
        dependents: add_dependents(v.dependents, t.dependencies, t.task_id),
        ready_queue: if t.dependencies.len() == 0 {
            v.ready_queue.push(t.task_id)
        } else {
            v.ready_queue
        },
        ..v
    }
}

/// The scheduler that takes in the tasks of `ts`, in order.
pub open spec fn build_schedule(ts: Seq<TaskSpecView>) -> DagSchedulerView
    decreases ts.len(),
{
    if ts.len() == 0 {
        empty_schedule()
    } else {
        schedule_task(build_schedule(ts.drop_last()), ts.last())
    }
}

/// The tasks of a list, keyed by id.
pub open spec fn task_pairs(v: Seq<TaskSpec>) -> Seq<(Seq<char>, TaskSpecView)> {
    v.map_values(|t: TaskSpec| (t.task_id@, t@))
}

/// The dependency counts of a list of tasks, keyed by the tasks' ids.
pub open spec fn degree_pairs(v: Seq<TaskSpec>, d: Seq<usize>) -> Seq<(Seq<char>, nat)> {
    Seq::new(v.len(), |i: int| (v[i].task_id@, d[i] as nat))
}

/// Lists of dependents, keyed by the id they depend on.
pub open spec fn dependent_pairs(v: Seq<(String, Vec<String>)>) -> Seq<(Seq<char>, Seq<Seq<char>>)> {
    v.map_values(|p: (String, Vec<String>)| (p.0@, p.1.deep_view()))
}

/// The strings of a list, as a set.
pub open spec fn string_set(v: Seq<String>) -> Set<Seq<char>> {
    v.map_values(|s: String| s@).to_set()
}

/// One dependent told that a dependency succeeded: where it is a task with
/// unmet dependencies, it waits on one fewer, and is queued when none remain.
pub open spec fn release_dependent(v: DagSchedulerView, x: Seq<char>) -> DagSchedulerView {
    if v.in_degree.dom().contains(x) && v.in_degree[x] > 0 {
        let c = (v.in_degree[x] - 1) as nat;
        DagSchedulerView {
            in_degree: v.in_degree.insert(x, c),
            ready_queue: if c == 0 {
                v.ready_queue.push(x)
            } else {
                v.ready_queue
            },
            ..v
        }
    } else {
        v
    }
}

/// Each of `xs`, in order, told that a dependency succeeded.
pub open spec fn release_dependents(v: DagSchedulerView, xs: Seq<Seq<char>>) -> DagSchedulerView
    decreases xs.len(),
{
    if xs.len() == 0 {
        v
    } else {
        release_dependent(release_dependents(v, xs.drop_last()), xs.last())
    }
}

/// `v` after the task `id` is reported: on success it joins the completed
/// tasks and each of its dependents is told; on failure it joins the failed
/// tasks and nothing else changes.
pub open spec fn record_result(v: DagSchedulerView, id: Seq<char>, success: bool) -> DagSchedulerView {
    if success {
        release_dependents(
            DagSchedulerView { completed_tasks: v.completed_tasks.insert(id), ..v },
            dependents_of(v.dependents, id),
        )
    } else {
        DagSchedulerView { failed_tasks: v.failed_tasks.insert(id), ..v }
    }
}

/// `v` with the first queued id taken off the queue.
pub open spec fn drop_front(v: DagSchedulerView) -> DagSchedulerView {
    DagSchedulerView { ready_queue: v.ready_queue.drop_first(), ..v }
}

/// Handing ready tasks to the workers `ws`, one each in order: each worker
/// takes the task at the front of the queue, until the workers or the queue
/// run out (or a queued id is not a task). Gives the pairs of worker and task,
/// and the scheduler after.
pub open spec fn dispatch_plan(v: DagSchedulerView, ws: Seq<usize>) -> (
    Seq<(usize, TaskSpecView)>,
    DagSchedulerView,
)
    decreases ws.len(),
{
    if ws.len() == 0 || v.ready_queue.len() == 0 {
        (Seq::empty(), v)
    } else {
        let id = v.ready_queue[0];
        if v.tasks.dom().contains(id) {
            let rest = dispatch_plan(drop_front(v), ws.drop_first());
            (seq![(ws[0], v.tasks[id])] + rest.0, rest.1)
        } else {
            (Seq::empty(), drop_front(v))
        }
    }
}

/// `v` with each of `ids`, in order, put back at the end of the queue where
/// it is a task with no unmet dependency (the others are left out).
pub open spec fn requeue(v: DagSchedulerView, ids: Seq<Seq<char>>) -> DagSchedulerView
    decreases ids.len(),
{
    if ids.len() == 0 {
        v
    } else {
        let w = requeue(v, ids.drop_last());
        let x = ids.last();
        if w.tasks.dom().contains(x) && w.in_degree.dom().contains(x) && w.in_degree[x] == 0 {
            DagSchedulerView { ready_queue: w.ready_queue.push(x), ..w }
        } else {
            w
        }
    }
}

/// Putting tasks back changes only the queue: after the ids queued before
/// come, in the order given, each of `ids` that is a task with no unmet
/// dependency, and no other.
pub proof fn lemma_requeue_appends(v: DagSchedulerView, ids: Seq<Seq<char>>)
    ensures
        requeue(v, ids) == (DagSchedulerView {
            ready_queue: v.ready_queue + ids.filter(
                |x: Seq<char>|
                    v.tasks.dom().contains(x) && v.in_degree.dom().contains(x) && v.in_degree[x]
                        == 0,
            ),
            ..v
        }),
    decreases ids.len(),
{
    reveal(Seq::filter);
    let f = |x: Seq<char>|
        v.tasks.dom().contains(x) && v.in_degree.dom().contains(x) && v.in_degree[x] == 0;
    if ids.len() == 0 {
        assert(v.ready_queue + ids.filter(f) =~= v.ready_queue);
    } else {
        lemma_requeue_appends(v, ids.drop_last());
        if f(ids.last()) {
            assert(v.ready_queue + ids.filter(f) =~= (v.ready_queue + ids.drop_last().filter(f)).push(
                ids.last(),
            ));
        } else {
            assert(ids.filter(f) == ids.drop_last().filter(f));
        }
    }
}

/// Adds `x` to a list of distinct strings, unless it is there.
fn insert_string(v: &mut Vec<String>, x: &String)
    requires
        old(v)@.map_values(|s: String| s@).no_duplicates(),
    ensures
        final(v)@.map_values(|s: String| s@).no_duplicates(),
        string_set(final(v)@) == string_set(old(v)@).insert(x@),
{
    let ghost sv = v@.map_values(|s: String| s@);
    let mut i: usize = 0;
    while i < v.len()
        invariant
            i <= v@.len(),
            sv == v@.map_values(|s: String| s@),
            v@ == old(v)@,
            sv.no_duplicates(),
            forall|j: int| 0 <= j < i ==> sv[j] != x@,
        decreases v@.len() - i,
    {
        if v[i] == *x {
            assert(sv[i as int] == x@);
            assert(string_set(v@) =~= string_set(v@).insert(x@));
            return;
        }
        i += 1;
    }
    v.push(x.clone());
    let ghost nv = v@.map_values(|s: String| s@);
    assert(nv =~= sv.push(x@));
    assert(nv.to_set() =~= sv.to_set().insert(x@)) by {
        assert forall|y: Seq<char>| nv.to_set().contains(y) <==> sv.to_set().insert(x@).contains(y) by {
            if nv.contains(y) && y != x@ {
                let k = choose|k: int| 0 <= k < nv.len() && nv[k] == y;
                assert(sv[k] == y);
            }
            if sv.contains(y) {
                let k = choose|k: int| 0 <= k < sv.len() && sv[k] == y;
                assert(nv[k] == y);
            }
            if y == x@ {
                assert(nv[sv.len() as int] == y);
            }
        }
    }
}

/// Finds the position of the task with id `id`.
fn find_task(tasks: &Vec<TaskSpec>, id: &String) -> (r: Option<usize>)
    requires
        keys_unique(task_pairs(tasks@)),
    ensures
        match r {
            Some(i) => i < tasks@.len() && tasks@[i as int].task_id@ == id@,
            None => !map_of(task_pairs(tasks@)).dom().contains(id@),
        },
{
    proof {
        lemma_map_of(task_pairs(tasks@));
    }
    let mut i: usize = 0;
    while i < tasks.len()
        invariant
            i <= tasks@.len(),
            forall|j: int| 0 <= j < i ==> tasks@[j].task_id@ != id@,
        decreases tasks@.len() - i,
    {
        if tasks[i].task_id == *id {
            return Some(i);
        }
        i += 1;
    }
    proof {
        if map_of(task_pairs(tasks@)).dom().contains(id@) {
            let j = choose|j: int| 0 <= j < tasks@.len() && #[trigger] task_pairs(tasks@)[j].0 == id@;
        }
    }
    None
}

/// Finds the position of the dependents list kept for `id`.
fn find_dependents(deps: &Vec<(String, Vec<String>)>, id: &String) -> (r: Option<usize>)
    requires
        keys_unique(dependent_pairs(deps@)),
    ensures
        match r {
            Some(i) => i < deps@.len() && deps@[i as int].0@ == id@,
            None => !map_of(dependent_pairs(deps@)).dom().contains(id@),
        },
{
    proof {
        lemma_map_of(dependent_pairs(deps@));
    }
    let mut i: usize = 0;
    while i < deps.len()
        invariant
            i <= deps@.len(),
            forall|j: int| 0 <= j < i ==> deps@[j].0@ != id@,
        decreases deps@.len() - i,
    {
        if deps[i].0 == *id {
            return Some(i);
        }
        i += 1;
    }
    proof {
        if map_of(dependent_pairs(deps@)).dom().contains(id@) {
            let j = choose|j: int| 0 <= j < deps@.len() && #[trigger] dependent_pairs(deps@)[j].0 == id@;
        }
    }
    None
}

/// Records `id`, once more, as a dependent of `dep`.
fn push_dependent(deps: &mut Vec<(String, Vec<String>)>, dep: &String, id: &String)
    requires
        keys_unique(dependent_pairs(old(deps)@)),
    ensures
        keys_unique(dependent_pairs(final(deps)@)),
        map_of(dependent_pairs(final(deps)@)) == add_dependent(
            map_of(dependent_pairs(old(deps)@)),
            dep@,
            id@,
        ),
{
    let ghost s = dependent_pairs(deps@);
    proof {
        lemma_map_of(s);
    }
    match find_dependents(deps, dep) {
        Some(i) => {
            let extra = id.clone();
            let ghost before = deps@[i as int].1.deep_view();
            deps[i].1.push(extra);
            assert(deps@[i as int].1.deep_view() =~= before.push(id@));
            assert(dependent_pairs(deps@) =~= s.update(i as int, (s[i as int].0, before.push(id@))));
            proof {
                lemma_map_of_update(s, i as int, before.push(id@));
                assert(map_of(s)[dep@] == before);
            }
        },
        None => {
            let mut list: Vec<String> = Vec::new();
            list.push(id.clone());
            assert(list.deep_view() =~= Seq::<Seq<char>>::empty().push(id@));
            deps.push((dep.clone(), list));
            assert(dependent_pairs(deps@) =~= s.push((dep@, Seq::<Seq<char>>::empty().push(id@))));
            proof {
                lemma_keys_unique_push(s, dep@, Seq::<Seq<char>>::empty().push(id@));
            }
        },
    }
}


/// The tasks by id, with the count of unmet dependencies of each, side by side.
struct TaskTable {
    tasks: Vec<TaskSpec>,
    in_degree: Vec<usize>,
}

/// The dependency-driven scheduler of the master.
pub struct DagScheduler {
    table: TaskTable,
    dependents: Vec<(String, Vec<String>)>,
    ready_queue: VecDeque<String>,
    completed_tasks: Vec<String>,
    failed_tasks: Vec<String>,
}

impl View for DagScheduler {
    type V = DagSchedulerView;

    closed spec fn view(&self) -> DagSchedulerView {
        DagSchedulerView {
            tasks: map_of(task_pairs(self.table.tasks@)),
            in_degree: map_of(degree_pairs(self.table.tasks@, self.table.in_degree@)),
            dependents: map_of(dependent_pairs(self.dependents@)),
            ready_queue: self.ready_queue@.map_values(|s: String| s@),
            completed_tasks: string_set(self.completed_tasks@),
            failed_tasks: string_set(self.failed_tasks@),
        }
    }
}

impl DagScheduler {
    #[verifier::type_invariant]
    closed spec fn inv(self) -> bool {
        &&& self.table.tasks@.len() == self.table.in_degree@.len()
        &&& keys_unique(task_pairs(self.table.tasks@))
        &&& keys_unique(dependent_pairs(self.dependents@))
        &&& self.completed_tasks@.map_values(|s: String| s@).no_duplicates()
        &&& self.failed_tasks@.map_values(|s: String| s@).no_duplicates()
    }

    /// A scheduler that takes in the tasks of `tasks_vec` in order: each task
    /// replaces any earlier one with its id, waits on all of its dependencies,
    /// is recorded as a dependent of each, and is queued when it has none.
    pub fn new(tasks_vec: Vec<TaskSpec>) -> (r: Self)
        ensures
            r@ == build_schedule(tasks_vec@.map_values(|t: TaskSpec| t@)),
            ids_distinct(tasks_vec@.map_values(|t: TaskSpec| t@)) ==> dependency_accounting(r@),
    {
        proof {
            if ids_distinct(tasks_vec@.map_values(|t: TaskSpec| t@)) {
                lemma_build_accounting(tasks_vec@.map_values(|t: TaskSpec| t@));
            }
        }
        let ghost ts = tasks_vec@.map_values(|t: TaskSpec| t@);
        let mut tasks: Vec<TaskSpec> = Vec::new();
        let mut in_degree: Vec<usize> = Vec::new();
        let mut dependents: Vec<(String, Vec<String>)> = Vec::new();
        let mut ready_queue: VecDeque<String> = VecDeque::new();
        assert(map_of(task_pairs(tasks@)) =~= Map::<Seq<char>, TaskSpecView>::empty());
        let mut i: usize = 0;
        while i < tasks_vec.len()
            invariant
                i <= tasks_vec@.len(),
                ts == tasks_vec@.map_values(|t: TaskSpec| t@),
                tasks@.len() == in_degree@.len(),
                keys_unique(task_pairs(tasks@)),
                keys_unique(dependent_pairs(dependents@)),
                ({
                    let b = build_schedule(ts.take(i as int));
                    &&& map_of(task_pairs(tasks@)) == b.tasks
                    &&& map_of(degree_pairs(tasks@, in_degree@)) == b.in_degree
                    &&& map_of(dependent_pairs(dependents@)) == b.dependents
                    &&& ready_queue@.map_values(|s: String| s@) == b.ready_queue
                    &&& b.completed_tasks == Set::<Seq<char>>::empty()
                    &&& b.failed_tasks == Set::<Seq<char>>::empty()
                }),
            decreases tasks_vec@.len() - i,
        {
            let task = &tasks_vec[i];
            let ghost tv = task@;
            let ghost prev = build_schedule(ts.take(i as int));
            assert(ts.take(i + 1).drop_last() =~= ts.take(i as int));
            assert(ts.take(i + 1).last() == tv);
            let id = task.task_id.clone();
            let ndeps = task.dependencies.len();
            let ghost tp = task_pairs(tasks@);
            let ghost dp = degree_pairs(tasks@, in_degree@);
            proof {
                lemma_map_of(tp);
                lemma_map_of(dp);
            }
            match find_task(&tasks, &id) {
                Some(j) => {
                    assert(keys_unique(dp)) by {
                        assert forall|a: int, b: int|
                            0 <= a < dp.len() && 0 <= b < dp.len() && #[trigger] dp[a].0 == #[trigger] dp[b].0 implies a == b by {
                            assert(tp[a].0 == dp[a].0);
                            assert(tp[b].0 == dp[b].0);
                        }
                    }
                    tasks.set(j, task.clone());
                    in_degree.set(j, ndeps);
                    proof {
                        assert(task_pairs(tasks@) =~= tp.update(j as int, (tp[j as int].0, tv)));
                        lemma_map_of_update(tp, j as int, tv);
                        assert(degree_pairs(tasks@, in_degree@) =~= dp.update(j as int, (dp[j as int].0, ndeps as nat)));
                        lemma_map_of_update(dp, j as int, ndeps as nat);
                    }
                },
                None => {
                    tasks.push(task.clone());
                    in_degree.push(ndeps);
                    proof {
                        assert(task_pairs(tasks@) =~= tp.push((id@, tv)));
                        lemma_keys_unique_push(tp, id@, tv);
                        assert(degree_pairs(tasks@, in_degree@) =~= dp.push((id@, ndeps as nat)));
                        assert(!map_of(dp).dom().contains(id@)) by {
                            if map_of(dp).dom().contains(id@) {
                                let w = choose|w: int| 0 <= w < dp.len() && #[trigger] dp[w].0 == id@;
                                assert(tp[w].0 == id@);
                            }
                        }
                        assert(degree_pairs(tasks@, in_degree@).drop_last() =~= dp);
                        assert(map_of(degree_pairs(tasks@, in_degree@)) == map_of(dp).insert(id@, ndeps as nat));
                    }
                },
            }
            if ndeps == 0 {
                let ghost rq = ready_queue@.map_values(|s: String| s@);
                ready_queue.push_back(id.clone());
                assert(ready_queue@.map_values(|s: String| s@) =~= rq.push(id@));
            }
            let ghost d = task.dependencies.deep_view();
            let ghost m0 = map_of(dependent_pairs(dependents@));
            let mut k: usize = 0;
            while k < ndeps
                invariant
                    k <= ndeps,
                    ndeps == d.len(),
                    d == task.dependencies.deep_view(),
                    keys_unique(dependent_pairs(dependents@)),
                    map_of(dependent_pairs(dependents@)) == add_dependents(m0, d.take(k as int), id@),
                decreases ndeps - k,
            {
                push_dependent(&mut dependents, &task.dependencies[k], &id);
                assert(d.take(k + 1).drop_last() =~= d.take(k as int));
                k += 1;
            }
            assert(d.take(ndeps as int) =~= d);
            i += 1;
        }
        assert(ts.take(tasks_vec@.len() as int) =~= ts);
        let r = DagScheduler {
            table: TaskTable { tasks, in_degree },
            dependents,
            ready_queue,
            completed_tasks: Vec::new(),
            failed_tasks: Vec::new(),
        };
        assert(string_set(r.completed_tasks@) =~= Set::<Seq<char>>::empty());
        assert(string_set(r.failed_tasks@) =~= Set::<Seq<char>>::empty());
        r
    }

    /// Takes the next ready task off the front of the queue and gives its
    /// specification; gives nothing when the queue is empty.
    pub fn pop_ready_task(&mut self) -> (r: Option<TaskSpec>)
        ensures
            final(self)@ == step(old(self)@, SchedulerCall::Pop),
            old(self)@.ready_queue.len() == 0 ==> r is None && final(self)@ == old(self)@,
            old(self)@.ready_queue.len() > 0 ==> {
                let id = old(self)@.ready_queue[0];
                &&& final(self)@ == DagSchedulerView {
                    ready_queue: old(self)@.ready_queue.drop_first(),
                    ..old(self)@
                }
                &&& match r {
                    Some(t) => old(self)@.tasks.dom().contains(id) && t@ == old(self)@.tasks[id],
                    None => !old(self)@.tasks.dom().contains(id),
                }
            },
            dependency_accounting(old(self)@) ==> dependency_accounting(final(self)@) && match r {
                Some(t) => forall|j: int|
                    0 <= j < t@.dependencies.len() ==> old(self)@.completed_tasks.contains(
                        #[trigger] t@.dependencies[j],
                    ),
                None => old(self)@.ready_queue.len() == 0,
            },
    {
        proof {
            use_type_invariant(&*self);
            if dependency_accounting(self@) && self@.ready_queue.len() > 0 {
                lemma_pop_accounting(self@);
                lemma_queued_tasks_ready(self@, 0);
            }
        }
        let ghost rq = self.ready_queue@.map_values(|s: String| s@);
        let mut queue: VecDeque<String> = VecDeque::new();
        std::mem::swap(&mut queue, &mut self.ready_queue);
        let front = queue.pop_front();
        self.ready_queue = queue;
        match front {
            Some(task_id) => {
                assert(self.ready_queue@.map_values(|s: String| s@) =~= rq.drop_first());
                proof {
                    lemma_map_of(task_pairs(self.table.tasks@));
                }
                match find_task(&self.table.tasks, &task_id) {
                    Some(j) => {
                        assert(task_pairs(self.table.tasks@)[j as int].0 == task_id@);
                        Some(self.table.tasks[j].clone())
                    },
                    None => None,
                }
            },
            None => None,
        }
    }

    /// Hands ready tasks to the workers `worker_ids`, in order, one task each,
    /// taking them from the front of the queue until the workers or the ready
    /// tasks run out.
    pub fn assign_ready_tasks(&mut self, worker_ids: &[usize]) -> (r: Vec<(usize, TaskSpec)>)
        ensures
            r@.map_values(|p: (usize, TaskSpec)| (p.0, p.1@)) == dispatch_plan(old(self)@, worker_ids@).0,
            final(self)@ == dispatch_plan(old(self)@, worker_ids@).1,
    {
        let ghost v0 = self@;
        let ghost ws = worker_ids@;
        let mut out: Vec<(usize, TaskSpec)> = Vec::new();
        let mut k: usize = 0;
        assert(ws.skip(0) =~= ws);
        while k < worker_ids.len()
            invariant
                k <= ws.len(),
                ws == worker_ids@,
                v0 == old(self)@,
                dispatch_plan(v0, ws).0 == out@.map_values(|p: (usize, TaskSpec)| (p.0, p.1@))
                    + dispatch_plan(self@, ws.skip(k as int)).0,
                dispatch_plan(v0, ws).1 == dispatch_plan(self@, ws.skip(k as int)).1,
            decreases ws.len() - k,
        {
            let ghost cur = self@;
            let ghost outv = out@.map_values(|p: (usize, TaskSpec)| (p.0, p.1@));
            assert(ws.skip(k as int).drop_first() =~= ws.skip(k + 1));
            assert(ws.skip(k as int)[0] == ws[k as int]);
            match self.pop_ready_task() {
                Some(t) => {
                    let ghost tv = t@;
                    out.push((worker_ids[k], t));
                    assert(out@.map_values(|p: (usize, TaskSpec)| (p.0, p.1@)) =~= outv.push((ws[k as int], tv)));
                    assert(outv.push((ws[k as int], tv)) + dispatch_plan(self@, ws.skip(k + 1)).0 =~= outv
                        + (seq![(ws[k as int], tv)] + dispatch_plan(self@, ws.skip(k + 1)).0));
                    k += 1;
                },
                None => {
                    proof {
                        if cur.ready_queue.len() > 0 {
                            assert(self@ == drop_front(cur));
                            assert(!cur.tasks.dom().contains(cur.ready_queue[0]));
                        } else {
                            assert(self@ == cur);
                        }
                    }
                    assert(dispatch_plan(cur, ws.skip(k as int)).1 == self@);
                    assert(dispatch_plan(cur, ws.skip(k as int)).0 =~= Seq::<(usize, TaskSpecView)>::empty());
                    assert(outv + Seq::<(usize, TaskSpecView)>::empty() =~= outv);
                    return out;
                },
            }
        }
        assert(dispatch_plan(self@, ws.skip(k as int)).0 =~= Seq::<(usize, TaskSpecView)>::empty());
        assert(out@.map_values(|p: (usize, TaskSpec)| (p.0, p.1@)) + Seq::<(usize, TaskSpecView)>::empty() =~= out@.map_values(|p: (usize, TaskSpec)| (p.0, p.1@)));
        out
    }

    /// Records how the task `task_id` ended. On success it joins the completed
    /// tasks and each task that names it as a dependency waits on one fewer;
    /// those left with none are queued. On failure it joins the failed tasks,
    /// and the tasks that depend on it stay waiting.
    pub fn mark_task_result(&mut self, task_id: &str, success: bool)
        ensures
            final(self)@ == step(old(self)@, SchedulerCall::Report(task_id@, success)),
            final(self)@ == record_result(old(self)@, task_id@, success),
            dependency_accounting(old(self)@) && (success ==> !old(self)@.completed_tasks.contains(
                task_id@,
            )) ==> dependency_accounting(final(self)@),
    {
        proof {
            use_type_invariant(&*self);
            if dependency_accounting(self@) && (success ==> !self@.completed_tasks.contains(task_id@)) {
                lemma_record_accounting(self@, task_id@, success);
            }
        }
        let id = task_id.to_owned();
        if !success {
            let mut failed: Vec<String> = Vec::new();
            std::mem::swap(&mut failed, &mut self.failed_tasks);
            insert_string(&mut failed, &id);
            self.failed_tasks = failed;
            return;
        }
        let mut completed: Vec<String> = Vec::new();
        std::mem::swap(&mut completed, &mut self.completed_tasks);
        insert_string(&mut completed, &id);
        self.completed_tasks = completed;
        let ghost v1 = self@;
        proof {
            lemma_map_of(dependent_pairs(self.dependents@));
        }
        let next_ids = match find_dependents(&self.dependents, &id) {
            Some(i) => {
                assert(dependent_pairs(self.dependents@)[i as int].0 == id@);
                clone_strings(&self.dependents[i].1)
            },
            None => Vec::new(),
        };
        let ghost xs = next_ids.deep_view();
        assert(xs == dependents_of(v1.dependents, id@));
        let mut table = TaskTable { tasks: Vec::new(), in_degree: Vec::new() };
        std::mem::swap(&mut table, &mut self.table);
        let ghost v1tasks = table.tasks@;
        let mut queue: VecDeque<String> = VecDeque::new();
        std::mem::swap(&mut queue, &mut self.ready_queue);
        let ghost fixed = self@;
        let mut k: usize = 0;
        while k < next_ids.len()
            invariant
                k <= xs.len(),
                xs == next_ids.deep_view(),
                self@ == fixed,
                table.tasks@ == v1tasks,
                map_of(task_pairs(v1tasks)) == v1.tasks,
                table.tasks@.len() == table.in_degree@.len(),
                keys_unique(task_pairs(table.tasks@)),
                ({
                    let r = release_dependents(v1, xs.take(k as int));
                    &&& r.tasks == v1.tasks
                    &&& r.dependents == v1.dependents
                    &&& r.completed_tasks == v1.completed_tasks
                    &&& r.failed_tasks == v1.failed_tasks
                    &&& map_of(degree_pairs(table.tasks@, table.in_degree@)) == r.in_degree
                    &&& queue@.map_values(|s: String| s@) == r.ready_queue
                }),
            decreases xs.len() - k,
        {
            let ghost cur = release_dependents(v1, xs.take(k as int));
            let ghost tp = task_pairs(table.tasks@);
            let ghost dp = degree_pairs(table.tasks@, table.in_degree@);
            assert(xs.take(k + 1).drop_last() =~= xs.take(k as int));
            proof {
                lemma_map_of(tp);
                lemma_map_of(dp);
                assert(keys_unique(dp)) by {
                    assert forall|a: int, b: int|
                        0 <= a < dp.len() && 0 <= b < dp.len() && #[trigger] dp[a].0 == #[trigger] dp[b].0 implies a == b by {
                        assert(tp[a].0 == dp[a].0);
                        assert(tp[b].0 == dp[b].0);
                    }
                }
            }
            match find_task(&table.tasks, &next_ids[k]) {
                Some(j) => {
                    assert(dp[j as int].0 == xs[k as int]);
                    let count = table.in_degree[j];
                    if count > 0 {
                        table.in_degree.set(j, count - 1);
                        proof {
                            assert(degree_pairs(table.tasks@, table.in_degree@) =~= dp.update(j as int, (dp[j as int].0, (count - 1) as nat)));
                            lemma_map_of_update(dp, j as int, (count - 1) as nat);
                        }
                        if count - 1 == 0 {
                            let ghost rq = queue@.map_values(|s: String| s@);
                            queue.push_back(next_ids[k].clone());
                            assert(queue@.map_values(|s: String| s@) =~= rq.push(xs[k as int]));
                        }
                    }
                },
                None => {
                    proof {
                        if cur.in_degree.dom().contains(xs[k as int]) {
                            let w = choose|w: int| 0 <= w < dp.len() && #[trigger] dp[w].0 == xs[k as int];
                            assert(tp[w].0 == xs[k as int]);
                        }
                    }
                },
            }
            k += 1;
        }
        assert(xs.take(xs.len() as int) =~= xs);
        self.table = table;
        self.ready_queue = queue;
    }

    /// Puts back at the end of the queue, in order, each of `task_ids` that is
    /// a task with no unmet dependency: the tasks a lost worker was holding,
    /// to be handed out again.
    pub fn requeue_tasks(&mut self, task_ids: &Vec<String>)
        ensures
            final(self)@ == requeue(old(self)@, task_ids.deep_view()),
            final(self)@.ready_queue == old(self)@.ready_queue + task_ids.deep_view().filter(
                |x: Seq<char>|
                    old(self)@.tasks.dom().contains(x) && old(self)@.in_degree.dom().contains(x)
                        && old(self)@.in_degree[x] == 0,
            ),
            dependency_accounting(old(self)@) ==> dependency_accounting(final(self)@),
    {
        proof {
            use_type_invariant(&*self);
            lemma_requeue_appends(self@, task_ids.deep_view());
        }
        let ghost v0 = self@;
        let ghost xs = task_ids.deep_view();
        let mut queue: VecDeque<String> = VecDeque::new();
        std::mem::swap(&mut queue, &mut self.ready_queue);
        let ghost fixed = self@;
        let ghost tp = task_pairs(self.table.tasks@);
        let ghost dp = degree_pairs(self.table.tasks@, self.table.in_degree@);
        proof {
            lemma_map_of(tp);
            lemma_map_of(dp);
            assert(keys_unique(dp)) by {
                assert forall|a: int, b: int|
                    0 <= a < dp.len() && 0 <= b < dp.len() && #[trigger] dp[a].0 == #[trigger] dp[b].0 implies a == b by {
                    assert(tp[a].0 == dp[a].0);
                    assert(tp[b].0 == dp[b].0);
                }
            }
        }
        let mut k: usize = 0;
        while k < task_ids.len()
            invariant
                k <= xs.len(),
                xs == task_ids.deep_view(),
                self@ == fixed,
                self.table.tasks@.len() == self.table.in_degree@.len(),
                keys_unique(task_pairs(self.table.tasks@)),
                tp == task_pairs(self.table.tasks@),
                dp == degree_pairs(self.table.tasks@, self.table.in_degree@),
                keys_unique(dp),
                forall|i: int| 0 <= i < dp.len() ==> map_of(dp).dom().contains(#[trigger] dp[i].0) && map_of(dp)[dp[i].0] == dp[i].1,
                ({
                    let r = requeue(v0, xs.take(k as int));
                    &&& r == (DagSchedulerView { ready_queue: r.ready_queue, ..v0 })
                    &&& queue@.map_values(|s: String| s@) == r.ready_queue
                }),
                v0 == (DagSchedulerView { ready_queue: v0.ready_queue, ..fixed }),
                dependency_accounting(v0) ==> dependency_accounting(requeue(v0, xs.take(k as int))),
            decreases xs.len() - k,
        {
            let ghost cur = requeue(v0, xs.take(k as int));
            assert(xs.take(k + 1).drop_last() =~= xs.take(k as int));
            assert(xs.take(k + 1).last() == xs[k as int]);
            assert(cur.tasks == map_of(tp));
            assert(cur.in_degree == map_of(dp));
            proof {
                lemma_map_of(tp);
            }
            match find_task(&self.table.tasks, &task_ids[k]) {
                Some(j) => {
                    assert(tp[j as int].0 == xs[k as int]);
                    assert(dp[j as int].0 == xs[k as int]);
                    assert(dp[j as int].1 == self.table.in_degree@[j as int] as nat);
                    assert(map_of(tp).dom().contains(xs[k as int]));
                    if self.table.in_degree[j] == 0 {
                        let ghost rq = queue@.map_values(|s: String| s@);
                        queue.push_back(task_ids[k].clone());
                        assert(queue@.map_values(|s: String| s@) =~= rq.push(xs[k as int]));
                    }
                },
                None => {},
            }
            proof {
                let nxt = requeue(v0, xs.take(k + 1));
                if dependency_accounting(v0) && nxt != cur {
                    assert forall|q: int| 0 <= q < nxt.ready_queue.len() implies nxt.tasks.dom().contains(
                        #[trigger] nxt.ready_queue[q],
                    ) && nxt.in_degree[nxt.ready_queue[q]] == 0 by {
                        if q < cur.ready_queue.len() {
                            assert(nxt.ready_queue[q] == cur.ready_queue[q]);
                        }
                    }
                }
            }
            k += 1;
        }
        assert(xs.take(xs.len() as int) =~= xs);
        self.ready_queue = queue;
    }

    /// Whether as many tasks were reported (succeeded or failed) as there are
    /// tasks.
    pub fn is_finished(&self) -> (r: bool)
        ensures
            r == (self@.completed_tasks.len() + self@.failed_tasks.len() == self@.tasks.len()),
    {
        proof {
            use_type_invariant(self);
            lemma_map_of(task_pairs(self.table.tasks@));
            self.completed_tasks@.map_values(|s: String| s@).unique_seq_to_set();
            self.failed_tasks@.map_values(|s: String| s@).unique_seq_to_set();
        }
        let c = self.completed_tasks.len();
        let f = self.failed_tasks.len();
        let t = self.table.tasks.len();
        c <= t && t - c == f
    }
}

} // verus!
