//! Why the scheduler never hands out a task early: as long as each task is
//! reported succeeded at most once, the count kept for every task is exactly
//! the number of its dependencies not yet reported succeeded, and a task is
//! queued only when that number is zero.
use vstd::prelude::*;
use crate::server::orchestrator::{
    DagSchedulerView, TaskSpecView, dependents_of, add_dependent, add_dependents, schedule_task,
    build_schedule, release_dependent, release_dependents, record_result,
};

verus! {

/// How many times `x` occurs in `s`.
pub open spec fn count_of(s: Seq<Seq<char>>, x: Seq<char>) -> nat
    decreases s.len(),
{
    if s.len() == 0 {
        0
    } else {
        count_of(s.drop_last(), x) + (if s.last() == x {
            1nat
        } else {
            0nat
        })
    }
}

/// How many entries of `deps` (counted with repetition) are not in `done`.
pub open spec fn unmet(deps: Seq<Seq<char>>, done: Set<Seq<char>>) -> nat
    decreases deps.len(),
{
    if deps.len() == 0 {
        0
    } else {
        unmet(deps.drop_last(), done) + (if done.contains(deps.last()) {
            0nat
        } else {
            1nat
        })
    }
}

/// No two tasks of `ts` share an id.
pub open spec fn ids_distinct(ts: Seq<TaskSpecView>) -> bool {
    forall|i: int, j: int|
        0 <= i < ts.len() && 0 <= j < ts.len() && #[trigger] ts[i].task_id == #[trigger] ts[j].task_id
            ==> i == j
}

/// The scheduler's books balance: every task's count is the number of its
/// dependencies not yet reported succeeded; each id lists every task that
/// names it, once per naming, and only tasks; and the queue holds only tasks
/// whose count is zero.
pub open spec fn dependency_accounting(v: DagSchedulerView) -> bool {
    &&& v.in_degree.dom() == v.tasks.dom()
    &&& forall|x: Seq<char>|
        #[trigger] v.tasks.dom().contains(x) ==> v.in_degree[x] == unmet(
            v.tasks[x].dependencies,
            v.completed_tasks,
        )
    &&& forall|y: Seq<char>, x: Seq<char>|
        #[trigger] v.tasks.dom().contains(x) ==> count_of(#[trigger] dependents_of(v.dependents, y), x)
            == count_of(v.tasks[x].dependencies, y)
    &&& forall|y: Seq<char>, k: int|
        0 <= k < dependents_of(v.dependents, y).len() ==> v.tasks.dom().contains(
            #[trigger] dependents_of(v.dependents, y)[k],
        )
    &&& forall|k: int|
        0 <= k < v.ready_queue.len() ==> v.tasks.dom().contains(#[trigger] v.ready_queue[k])
            && v.in_degree[v.ready_queue[k]] == 0
}

proof fn lemma_count_absent(s: Seq<Seq<char>>, x: Seq<char>)
    requires
        forall|k: int| 0 <= k < s.len() ==> #[trigger] s[k] != x,
    ensures
        count_of(s, x) == 0,
    decreases s.len(),
{
    if s.len() > 0 {
        lemma_count_absent(s.drop_last(), x);
    }
}

proof fn lemma_count_prefix(s: Seq<Seq<char>>, x: Seq<char>, k: int)
    requires
        0 <= k <= s.len(),
    ensures
        count_of(s.take(k), x) <= count_of(s, x),
    decreases s.len(),
{
    if k < s.len() {
        assert(s.drop_last().take(k) =~= s.take(k));
        lemma_count_prefix(s.drop_last(), x, k);
    } else {
        assert(s.take(k) =~= s);
    }
}

proof fn lemma_unmet_none(deps: Seq<Seq<char>>)
    ensures
        unmet(deps, Set::empty()) == deps.len(),
    decreases deps.len(),
{
    if deps.len() > 0 {
        lemma_unmet_none(deps.drop_last());
    }
}

proof fn lemma_unmet_insert(deps: Seq<Seq<char>>, done: Set<Seq<char>>, y: Seq<char>)
    requires
        !done.contains(y),
    ensures
        unmet(deps, done.insert(y)) + count_of(deps, y) == unmet(deps, done),
        count_of(deps, y) <= unmet(deps, done),
    decreases deps.len(),
{
    if deps.len() > 0 {
        lemma_unmet_insert(deps.drop_last(), done, y);
    }
}

proof fn lemma_unmet_zero(deps: Seq<Seq<char>>, done: Set<Seq<char>>)
    requires
        unmet(deps, done) == 0,
    ensures
        forall|k: int| 0 <= k < deps.len() ==> done.contains(#[trigger] deps[k]),
    decreases deps.len(),
{
    if deps.len() > 0 {
        lemma_unmet_zero(deps.drop_last(), done);
        assert forall|k: int| 0 <= k < deps.len() implies done.contains(#[trigger] deps[k]) by {
            if k < deps.len() - 1 {
                assert(deps.drop_last()[k] == deps[k]);
            }
        }
    }
}

proof fn lemma_add_dependents(
    m: Map<Seq<char>, Seq<Seq<char>>>,
    deps: Seq<Seq<char>>,
    id: Seq<char>,
    y: Seq<char>,
)
    ensures
        forall|x: Seq<char>|
            #[trigger] count_of(dependents_of(add_dependents(m, deps, id), y), x) == count_of(
                dependents_of(m, y),
                x,
            ) + (if x == id {
                count_of(deps, y)
            } else {
                0
            }),
        forall|k: int|
            0 <= k < dependents_of(add_dependents(m, deps, id), y).len() ==> {
                let e = #[trigger] dependents_of(add_dependents(m, deps, id), y)[k];
                e == id || dependents_of(m, y).contains(e)
            },
    decreases deps.len(),
{
    if deps.len() > 0 {
        let d = deps.last();
        let m1 = add_dependents(m, deps.drop_last(), id);
        lemma_add_dependents(m, deps.drop_last(), id, y);
        assert forall|x: Seq<char>|
            #[trigger] count_of(dependents_of(add_dependents(m, deps, id), y), x) == count_of(
                dependents_of(m, y),
                x,
            ) + (if x == id {
                count_of(deps, y)
            } else {
                0
            }) by {
            let l1 = dependents_of(m1, y);
            assert(count_of(deps, y) == count_of(deps.drop_last(), y) + (if d == y { 1nat } else { 0nat }));
            if y == d {
                assert(dependents_of(add_dependent(m1, d, id), y) == l1.push(id));
                assert(l1.push(id).drop_last() =~= l1);
                assert(count_of(l1.push(id), x) == count_of(l1, x) + (if id == x { 1nat } else { 0nat }));
            } else {
                assert(dependents_of(add_dependent(m1, d, id), y) == l1);
            }
        }
        if y == d {
            let l1 = dependents_of(m1, y);
            assert(dependents_of(add_dependent(m1, d, id), y) == l1.push(id));
            assert(l1.push(id).drop_last() =~= l1);
            assert forall|k: int|
                0 <= k < l1.push(id).len() implies {
                    let e = #[trigger] l1.push(id)[k];
                    e == id || dependents_of(m, y).contains(e)
                } by {
                if k < l1.len() {
                    assert(l1.push(id)[k] == l1[k]);
                }
            }
        }
    }
}

proof fn lemma_build_tasks(ts: Seq<TaskSpecView>)
    ensures
        forall|x: Seq<char>|
            #[trigger] build_schedule(ts).tasks.dom().contains(x) <==> exists|i: int|
                0 <= i < ts.len() && #[trigger] ts[i].task_id == x,
        build_schedule(ts).completed_tasks == Set::<Seq<char>>::empty(),
    decreases ts.len(),
{
    if ts.len() > 0 {
        let d = ts.drop_last();
        lemma_build_tasks(d);
        assert forall|x: Seq<char>|
            #[trigger] build_schedule(ts).tasks.dom().contains(x) <==> exists|i: int|
                0 <= i < ts.len() && #[trigger] ts[i].task_id == x by {
            if build_schedule(ts).tasks.dom().contains(x) && x != ts.last().task_id {
                let i = choose|i: int| 0 <= i < d.len() && #[trigger] d[i].task_id == x;
                assert(ts[i].task_id == x);
            }
            if exists|i: int| 0 <= i < ts.len() && #[trigger] ts[i].task_id == x {
                let i = choose|i: int| 0 <= i < ts.len() && #[trigger] ts[i].task_id == x;
                if i < d.len() {
                    assert(d[i].task_id == x);
                }
            }
        }
    }
}

/// Taking in a task with a new id, before any task was reported, keeps the
/// books balanced.
proof fn lemma_schedule_task_accounting(v: DagSchedulerView, t: TaskSpecView)
    requires
        dependency_accounting(v),
        !v.tasks.dom().contains(t.task_id),
        v.completed_tasks == Set::<Seq<char>>::empty(),
    ensures
        dependency_accounting(schedule_task(v, t)),
{
    let w = schedule_task(v, t);
    let id = t.task_id;
    lemma_unmet_none(t.dependencies);
    assert(w.in_degree.dom() =~= w.tasks.dom());
    assert forall|y: Seq<char>, x: Seq<char>|
        #[trigger] w.tasks.dom().contains(x) implies count_of(#[trigger] dependents_of(w.dependents, y), x)
            == count_of(w.tasks[x].dependencies, y) by {
        lemma_add_dependents(v.dependents, t.dependencies, id, y);
        if x == id {
            assert forall|k: int| 0 <= k < dependents_of(v.dependents, y).len() implies #[trigger] dependents_of(
                v.dependents,
                y,
            )[k] != x by {
                assert(v.tasks.dom().contains(dependents_of(v.dependents, y)[k]));
            }
            lemma_count_absent(dependents_of(v.dependents, y), x);
        } else {
            assert(v.tasks.dom().contains(x));
        }
    }
    assert forall|y: Seq<char>, k: int|
        0 <= k < dependents_of(w.dependents, y).len() implies w.tasks.dom().contains(
            #[trigger] dependents_of(w.dependents, y)[k],
        ) by {
        lemma_add_dependents(v.dependents, t.dependencies, id, y);
        let e = dependents_of(w.dependents, y)[k];
        if e != id {
            let j = choose|j: int| 0 <= j < dependents_of(v.dependents, y).len() && dependents_of(v.dependents, y)[j] == e;
            assert(v.tasks.dom().contains(dependents_of(v.dependents, y)[j]));
        }
    }
    assert forall|k: int|
        0 <= k < w.ready_queue.len() implies w.tasks.dom().contains(#[trigger] w.ready_queue[k])
            && w.in_degree[w.ready_queue[k]] == 0 by {
        if k < v.ready_queue.len() {
            assert(w.ready_queue[k] == v.ready_queue[k]);
            assert(v.tasks.dom().contains(v.ready_queue[k]));
        }
    }
}

/// A scheduler built from tasks with distinct ids has balanced books.
pub proof fn lemma_build_accounting(ts: Seq<TaskSpecView>)
    requires
        ids_distinct(ts),
    ensures
        dependency_accounting(build_schedule(ts)),
    decreases ts.len(),
{
    if ts.len() == 0 {
        let v = build_schedule(ts);
        assert(v.in_degree.dom() =~= v.tasks.dom());
    } else {
        let d = ts.drop_last();
        assert(ids_distinct(d)) by {
            assert forall|i: int, j: int|
                0 <= i < d.len() && 0 <= j < d.len() && #[trigger] d[i].task_id == #[trigger] d[j].task_id implies i == j by {
                assert(ts[i].task_id == d[i].task_id);
                assert(ts[j].task_id == d[j].task_id);
            }
        }
        lemma_build_accounting(d);
        lemma_build_tasks(d);
        assert(!build_schedule(d).tasks.dom().contains(ts.last().task_id)) by {
            if build_schedule(d).tasks.dom().contains(ts.last().task_id) {
                let i = choose|i: int| 0 <= i < d.len() && #[trigger] d[i].task_id == ts.last().task_id;
                assert(ts[i].task_id == ts[ts.len() - 1].task_id);
            }
        }
        lemma_schedule_task_accounting(build_schedule(d), ts.last());
    }
}

/// Handing out the first queued task keeps the books balanced.
pub proof fn lemma_pop_accounting(v: DagSchedulerView)
    requires
        dependency_accounting(v),
        v.ready_queue.len() > 0,
    ensures
        dependency_accounting(DagSchedulerView { ready_queue: v.ready_queue.drop_first(), ..v }),
{
    let w = DagSchedulerView { ready_queue: v.ready_queue.drop_first(), ..v };
    assert forall|k: int|
        0 <= k < w.ready_queue.len() implies w.tasks.dom().contains(#[trigger] w.ready_queue[k])
            && w.in_degree[w.ready_queue[k]] == 0 by {
        assert(w.ready_queue[k] == v.ready_queue[k + 1]);
    }
}

/// Every queued task has all of its dependencies reported succeeded.
pub proof fn lemma_queued_tasks_ready(v: DagSchedulerView, k: int)
    requires
        dependency_accounting(v),
        0 <= k < v.ready_queue.len(),
    ensures
        v.tasks.dom().contains(v.ready_queue[k]),
        forall|j: int|
            0 <= j < v.tasks[v.ready_queue[k]].dependencies.len() ==> v.completed_tasks.contains(
                #[trigger] v.tasks[v.ready_queue[k]].dependencies[j],
            ),
{
    let x = v.ready_queue[k];
    assert(v.tasks.dom().contains(x));
    lemma_unmet_zero(v.tasks[x].dependencies, v.completed_tasks);
}

/// What telling the first `k` dependents of `id` gives, after `id` joined
/// the completed tasks.
proof fn lemma_release_prefix(v: DagSchedulerView, id: Seq<char>, k: int)
    requires
        dependency_accounting(v),
        !v.completed_tasks.contains(id),
        0 <= k <= dependents_of(v.dependents, id).len(),
    ensures
        ({
            let v1 = DagSchedulerView { completed_tasks: v.completed_tasks.insert(id), ..v };
            let l = dependents_of(v.dependents, id);
            let r = release_dependents(v1, l.take(k));
            &&& r.tasks == v.tasks
            &&& r.dependents == v.dependents
            &&& r.completed_tasks == v1.completed_tasks
            &&& r.failed_tasks == v.failed_tasks
            &&& r.in_degree.dom() == v.tasks.dom()
            &&& forall|x: Seq<char>|
                #[trigger] v.tasks.dom().contains(x) ==> r.in_degree[x] + count_of(l.take(k), x)
                    == unmet(v.tasks[x].dependencies, v.completed_tasks)
            &&& forall|q: int|
                0 <= q < r.ready_queue.len() ==> v.tasks.dom().contains(#[trigger] r.ready_queue[q])
                    && r.in_degree[r.ready_queue[q]] == 0
        }),
    decreases k,
{
    let v1 = DagSchedulerView { completed_tasks: v.completed_tasks.insert(id), ..v };
    let l = dependents_of(v.dependents, id);
    if k == 0 {
        assert(l.take(0) =~= Seq::<Seq<char>>::empty());
        let r = release_dependents(v1, l.take(0));
        assert forall|x: Seq<char>|
            #[trigger] v.tasks.dom().contains(x) implies r.in_degree[x] + count_of(l.take(0), x)
                == unmet(v.tasks[x].dependencies, v.completed_tasks) by {}
    } else {
        lemma_release_prefix(v, id, k - 1);
        let r = release_dependents(v1, l.take(k - 1));
        let x = l[k - 1];
        assert(l.take(k).drop_last() =~= l.take(k - 1));
        assert(l.take(k).last() == x);
        assert(v.tasks.dom().contains(x));
        lemma_count_prefix(l, x, k);
        lemma_unmet_insert(v.tasks[x].dependencies, v.completed_tasks, id);
        assert(count_of(l, x) == count_of(v.tasks[x].dependencies, id));
        assert(r.in_degree[x] > 0);
        let r2 = release_dependent(r, x);
        assert(r2 == release_dependents(v1, l.take(k)));
        assert forall|z: Seq<char>|
            #[trigger] v.tasks.dom().contains(z) implies r2.in_degree[z] + count_of(l.take(k), z)
                == unmet(v.tasks[z].dependencies, v.completed_tasks) by {}
        assert forall|q: int|
            0 <= q < r2.ready_queue.len() implies v.tasks.dom().contains(#[trigger] r2.ready_queue[q])
                && r2.in_degree[r2.ready_queue[q]] == 0 by {
            if q < r.ready_queue.len() {
                assert(r2.ready_queue[q] == r.ready_queue[q]);
                assert(r.in_degree[r.ready_queue[q]] == 0);
            }
        }
    }
}

/// Reporting a task keeps the books balanced, provided a task reported as
/// succeeded was not already reported so.
pub proof fn lemma_record_accounting(v: DagSchedulerView, id: Seq<char>, success: bool)
    requires
        dependency_accounting(v),
        success ==> !v.completed_tasks.contains(id),
    ensures
        dependency_accounting(record_result(v, id, success)),
{
    if success {
        let l = dependents_of(v.dependents, id);
        lemma_release_prefix(v, id, l.len() as int);
        assert(l.take(l.len() as int) =~= l);
        let w = record_result(v, id, success);
        assert forall|x: Seq<char>|
            #[trigger] w.tasks.dom().contains(x) implies w.in_degree[x] == unmet(
                w.tasks[x].dependencies,
                w.completed_tasks,
            ) by {
            lemma_unmet_insert(v.tasks[x].dependencies, v.completed_tasks, id);
        }
    }
}

} // verus!
