//! The scheduler over a whole run: a sequence of calls that take a ready task
//! or report a result. A task is handed out only after each of its
//! dependencies was reported succeeded, and no task is handed out twice.
use vstd::prelude::*;
use crate::server::orchestrator::{
    DagSchedulerView, TaskSpecView, build_schedule, record_result, drop_front, release_dependent,
    release_dependents, dependents_of,
};
use crate::server::ordering::{
    ids_distinct, dependency_accounting, lemma_build_accounting, lemma_pop_accounting,
    lemma_queued_tasks_ready, lemma_record_accounting,
};

verus! {

/// A call made on the scheduler: take the next ready task
/// (`pop_ready_task`), or report how a task ended (`mark_task_result`).
pub enum SchedulerCall {
    Pop,
    Report(Seq<char>, bool),
}

/// The scheduler after the call `c`, as `pop_ready_task` and
/// `mark_task_result` state it.
pub open spec fn step(v: DagSchedulerView, c: SchedulerCall) -> DagSchedulerView {
    match c {
        SchedulerCall::Pop => if v.ready_queue.len() > 0 {
            drop_front(v)
        } else {
            v
        },
        SchedulerCall::Report(id, ok) => record_result(v, id, ok),
    }
}

/// The scheduler after the calls `cs`, in order.
pub open spec fn run(v: DagSchedulerView, cs: Seq<SchedulerCall>) -> DagSchedulerView
    decreases cs.len(),
{
    if cs.len() == 0 {
        v
    } else {
        step(run(v, cs.drop_last()), cs.last())
    }
}

/// The ids of the tasks that the calls `cs` hand out, in order: a call that
/// takes a ready task hands out the task at the front of the queue.
pub open spec fn handed_out(v: DagSchedulerView, cs: Seq<SchedulerCall>) -> Seq<Seq<char>>
    decreases cs.len(),
{
    if cs.len() == 0 {
        Seq::empty()
    } else {
        let w = run(v, cs.drop_last());
        let h = handed_out(v, cs.drop_last());
        if cs.last() is Pop && w.ready_queue.len() > 0 && w.tasks.dom().contains(w.ready_queue[0]) {
            h.push(w.ready_queue[0])
        } else {
            h
        }
    }
}

/// The ids that the calls `cs` report as succeeded.
pub open spec fn reported_ok(cs: Seq<SchedulerCall>) -> Set<Seq<char>>
    decreases cs.len(),
{
    if cs.len() == 0 {
        Set::empty()
    } else {
        match cs.last() {
            SchedulerCall::Report(id, true) => reported_ok(cs.drop_last()).insert(id),
            _ => reported_ok(cs.drop_last()),
        }
    }
}

/// No id is reported succeeded twice in `cs`.
pub open spec fn each_success_once(cs: Seq<SchedulerCall>) -> bool {
    forall|i: int, j: int|
        0 <= i < j < cs.len() && (#[trigger] cs[i]) is Report && (#[trigger] cs[j]) is Report
            && cs[i]->1 && cs[j]->1 ==> cs[i]->0 != cs[j]->0
}

proof fn lemma_prefix_success_once(cs: Seq<SchedulerCall>)
    requires
        cs.len() > 0,
        each_success_once(cs),
    ensures
        each_success_once(cs.drop_last()),
        cs.last() matches SchedulerCall::Report(id, true) ==> !reported_ok(cs.drop_last()).contains(id),
{
    let d = cs.drop_last();
    assert forall|i: int, j: int|
        0 <= i < j < d.len() && (#[trigger] d[i]) is Report && (#[trigger] d[j]) is Report && d[i]->1
            && d[j]->1 implies d[i]->0 != d[j]->0 by {
        assert(d[i] == cs[i] && d[j] == cs[j]);
    }
    if let SchedulerCall::Report(id, true) = cs.last() {
        lemma_reported_ok_members(d, id);
        if reported_ok(d).contains(id) {
            let i = choose|i: int| 0 <= i < d.len() && d[i] == SchedulerCall::Report(id, true);
            assert(cs[i] == d[i]);
            assert(cs[cs.len() - 1] == cs.last());
        }
    }
}

proof fn lemma_reported_ok_members(cs: Seq<SchedulerCall>, id: Seq<char>)
    ensures
        reported_ok(cs).contains(id) <==> exists|i: int|
            0 <= i < cs.len() && cs[i] == SchedulerCall::Report(id, true),
    decreases cs.len(),
{
    if cs.len() > 0 {
        let d = cs.drop_last();
        lemma_reported_ok_members(d, id);
        if exists|i: int| 0 <= i < d.len() && d[i] == SchedulerCall::Report(id, true) {
            let i = choose|i: int| 0 <= i < d.len() && d[i] == SchedulerCall::Report(id, true);
            assert(cs[i] == d[i]);
        }
        if exists|i: int| 0 <= i < cs.len() && cs[i] == SchedulerCall::Report(id, true) {
            let i = choose|i: int| 0 <= i < cs.len() && cs[i] == SchedulerCall::Report(id, true);
            if i < d.len() {
                assert(d[i] == cs[i]);
            }
        }
    }
}

proof fn lemma_run_accounting(ts: Seq<TaskSpecView>, cs: Seq<SchedulerCall>)
    requires
        ids_distinct(ts),
        each_success_once(cs),
    ensures
        dependency_accounting(run(build_schedule(ts), cs)),
        run(build_schedule(ts), cs).completed_tasks == reported_ok(cs),
        run(build_schedule(ts), cs).tasks == build_schedule(ts).tasks,
    decreases cs.len(),
{
    let b = build_schedule(ts);
    if cs.len() == 0 {
        lemma_build_accounting(ts);
        lemma_build_empty_sets(ts);
    } else {
        let d = cs.drop_last();
        lemma_prefix_success_once(cs);
        lemma_run_accounting(ts, d);
        let w = run(b, d);
        match cs.last() {
            SchedulerCall::Pop => {
                if w.ready_queue.len() > 0 {
                    lemma_pop_accounting(w);
                }
            },
            SchedulerCall::Report(id, ok) => {
                lemma_record_accounting(w, id, ok);
                lemma_record_keeps(w, id, ok);
            },
        }
    }
}

proof fn lemma_build_empty_sets(ts: Seq<TaskSpecView>)
    ensures
        build_schedule(ts).completed_tasks == Set::<Seq<char>>::empty(),
        build_schedule(ts).failed_tasks == Set::<Seq<char>>::empty(),
    decreases ts.len(),
{
    if ts.len() > 0 {
        lemma_build_empty_sets(ts.drop_last());
    }
}

proof fn lemma_release_keeps(v: DagSchedulerView, xs: Seq<Seq<char>>)
    ensures
        release_dependents(v, xs).tasks == v.tasks,
        release_dependents(v, xs).completed_tasks == v.completed_tasks,
        release_dependents(v, xs).dependents == v.dependents,
    decreases xs.len(),
{
    if xs.len() > 0 {
        lemma_release_keeps(v, xs.drop_last());
    }
}

proof fn lemma_record_keeps(v: DagSchedulerView, id: Seq<char>, ok: bool)
    ensures
        record_result(v, id, ok).tasks == v.tasks,
        record_result(v, id, ok).completed_tasks == if ok {
            v.completed_tasks.insert(id)
        } else {
            v.completed_tasks
        },
{
    if ok {
        lemma_release_keeps(
            DagSchedulerView { completed_tasks: v.completed_tasks.insert(id), ..v },
            dependents_of(v.dependents, id),
        );
    }
}

/// In a run from a scheduler built from tasks with distinct ids, in which no
/// id is reported succeeded twice, a task is handed out only after each of
/// its dependencies was reported succeeded by an earlier call.
pub proof fn lemma_dispatch_after_dependencies(ts: Seq<TaskSpecView>, cs: Seq<SchedulerCall>, k: int)
    requires
        ids_distinct(ts),
        each_success_once(cs),
        0 <= k < cs.len(),
        cs[k] is Pop,
        run(build_schedule(ts), cs.take(k)).ready_queue.len() > 0,
    ensures
        ({
            let w = run(build_schedule(ts), cs.take(k));
            let x = w.ready_queue[0];
            &&& build_schedule(ts).tasks.dom().contains(x)
            &&& forall|j: int|
                0 <= j < build_schedule(ts).tasks[x].dependencies.len() ==> reported_ok(
                    cs.take(k),
                ).contains(#[trigger] build_schedule(ts).tasks[x].dependencies[j])
        }),
{
    let p = cs.take(k);
    assert forall|i: int, j: int|
        0 <= i < j < p.len() && (#[trigger] p[i]) is Report && (#[trigger] p[j]) is Report && p[i]->1
            && p[j]->1 implies p[i]->0 != p[j]->0 by {
        assert(p[i] == cs[i] && p[j] == cs[j]);
    }
    lemma_run_accounting(ts, p);
    lemma_queued_tasks_ready(run(build_schedule(ts), p), 0);
}

/// Where no task is handed out twice: the queue holds each id once, none
/// that was handed out, and every queued or handed-out id is a task whose
/// count is zero.
pub open spec fn hands_out_once(v: DagSchedulerView, h: Seq<Seq<char>>) -> bool {
    &&& v.ready_queue.no_duplicates()
    &&& forall|k: int| 0 <= k < v.ready_queue.len() ==> !h.contains(#[trigger] v.ready_queue[k])
    &&& forall|x: Seq<char>|
        #[trigger] v.ready_queue.contains(x) ==> v.in_degree.dom().contains(x) && v.in_degree[x] == 0
    &&& forall|x: Seq<char>| #[trigger] h.contains(x) ==> v.in_degree.dom().contains(x) && v.in_degree[x] == 0
    &&& h.no_duplicates()
}

proof fn lemma_release_once(v: DagSchedulerView, h: Seq<Seq<char>>, x: Seq<char>)
    requires
        hands_out_once(v, h),
    ensures
        hands_out_once(release_dependent(v, x), h),
        release_dependent(v, x).tasks == v.tasks,
{
    let w = release_dependent(v, x);
    if v.in_degree.dom().contains(x) && v.in_degree[x] > 0 {
        assert(!v.ready_queue.contains(x));
        assert(!h.contains(x));
        if w.ready_queue.len() > v.ready_queue.len() {
            assert(w.ready_queue == v.ready_queue.push(x));
            assert forall|a: int, b: int| 0 <= a < b < w.ready_queue.len() implies w.ready_queue[a]
                != w.ready_queue[b] by {
                if b == v.ready_queue.len() {
                    assert(v.ready_queue.contains(w.ready_queue[a]));
                }
            }
            assert forall|y: Seq<char>| #![trigger w.ready_queue.contains(y)] #![trigger h.contains(y)] (w.ready_queue.contains(y) || h.contains(y)) implies w.in_degree.dom().contains(y)
                && w.in_degree[y] == 0 by {
                if y == x {
                    assert(w.in_degree[y] == 0);
                } else {
                    if w.ready_queue.contains(y) {
                        let i = choose|i: int| 0 <= i < w.ready_queue.len() && w.ready_queue[i] == y;
                        assert(v.ready_queue[i] == y);
                        assert(v.ready_queue.contains(y));
                    }
                    if h.contains(y) {
                        assert(v.in_degree.dom().contains(y));
                    }
                }
            }
            assert forall|k: int| 0 <= k < w.ready_queue.len() implies !h.contains(#[trigger] w.ready_queue[k]) by {
                if k < v.ready_queue.len() {
                    assert(v.ready_queue[k] == w.ready_queue[k]);
                }
            }
        } else {
            assert forall|y: Seq<char>| #![trigger w.ready_queue.contains(y)] #![trigger h.contains(y)] (w.ready_queue.contains(y) || h.contains(y)) implies w.in_degree.dom().contains(y)
                && w.in_degree[y] == 0 by {
                if y == x {
                    if w.ready_queue.contains(y) {
                        assert(v.ready_queue.contains(y));
                    }
                }
            }
        }
    }
}

proof fn lemma_release_all_once(v: DagSchedulerView, h: Seq<Seq<char>>, xs: Seq<Seq<char>>)
    requires
        hands_out_once(v, h),
    ensures
        hands_out_once(release_dependents(v, xs), h),
        release_dependents(v, xs).tasks == v.tasks,
    decreases xs.len(),
{
    if xs.len() > 0 {
        lemma_release_all_once(v, h, xs.drop_last());
        lemma_release_once(release_dependents(v, xs.drop_last()), h, xs.last());
    }
}

proof fn lemma_build_queue(ts: Seq<TaskSpecView>)
    requires
        ids_distinct(ts),
    ensures
        build_schedule(ts).ready_queue.no_duplicates(),
        forall|k: int|
            0 <= k < build_schedule(ts).ready_queue.len() ==> exists|i: int|
                0 <= i < ts.len() && ts[i].task_id == #[trigger] build_schedule(ts).ready_queue[k],
    decreases ts.len(),
{
    if ts.len() > 0 {
        let d = ts.drop_last();
        assert forall|i: int, j: int|
            0 <= i < d.len() && 0 <= j < d.len() && #[trigger] d[i].task_id == #[trigger] d[j].task_id
                implies i == j by {
            assert(d[i] == ts[i] && d[j] == ts[j]);
        }
        lemma_build_queue(d);
        let q0 = build_schedule(d).ready_queue;
        let q = build_schedule(ts).ready_queue;
        let n = ts.len() - 1;
        assert forall|k: int| 0 <= k < q0.len() implies q0[k] != ts[n].task_id by {
            let i = choose|i: int| 0 <= i < d.len() && d[i].task_id == q0[k];
            assert(ts[i].task_id == d[i].task_id);
        }
        if q.len() > q0.len() {
            assert(q == q0.push(ts[n].task_id));
            assert forall|a: int, b: int| 0 <= a < b < q.len() implies q[a] != q[b] by {
                if b == q0.len() {
                    assert(q[a] == q0[a]);
                }
            }
        }
        assert forall|k: int| 0 <= k < q.len() implies exists|i: int|
            0 <= i < ts.len() && ts[i].task_id == #[trigger] q[k] by {
            if k < q0.len() {
                assert(q[k] == q0[k]);
                let i = choose|i: int| 0 <= i < d.len() && d[i].task_id == q0[k];
                assert(ts[i] == d[i]);
            } else {
                assert(ts[n].task_id == q[k]);
            }
        }
    }
}

proof fn lemma_run_once(ts: Seq<TaskSpecView>, cs: Seq<SchedulerCall>)
    requires
        ids_distinct(ts),
    ensures
        hands_out_once(run(build_schedule(ts), cs), handed_out(build_schedule(ts), cs)),
        run(build_schedule(ts), cs).tasks == build_schedule(ts).tasks,
    decreases cs.len(),
{
    let b = build_schedule(ts);
    if cs.len() == 0 {
        lemma_build_queue(ts);
        lemma_build_accounting(ts);
        assert forall|x: Seq<char>| #![trigger b.ready_queue.contains(x)]
            b.ready_queue.contains(x) implies b.in_degree.dom().contains(x)
                && b.in_degree[x] == 0 by {
            if b.ready_queue.contains(x) {
                let k = choose|k: int| 0 <= k < b.ready_queue.len() && b.ready_queue[k] == x;
                assert(b.tasks.dom().contains(b.ready_queue[k]));
            }
        }
        assert(handed_out(b, cs) == Seq::<Seq<char>>::empty());
        assert(run(b, cs) == b);
        assert(hands_out_once(b, Seq::<Seq<char>>::empty()));
    } else {
        let d = cs.drop_last();
        lemma_run_once(ts, d);
        let w = run(b, d);
        let h = handed_out(b, d);
        match cs.last() {
            SchedulerCall::Pop => {
                if w.ready_queue.len() > 0 {
                    let x = w.ready_queue[0];
                    let w2 = drop_front(w);
                    let h2 = if w.tasks.dom().contains(x) {
                        h.push(x)
                    } else {
                        h
                    };
                    assert(run(b, cs) == w2);
                    assert(handed_out(b, cs) == h2);
                    assert(w.ready_queue.contains(x));
                    assert forall|a: int, c: int| 0 <= a < c < w2.ready_queue.len() implies w2.ready_queue[a]
                        != w2.ready_queue[c] by {
                        assert(w2.ready_queue[a] == w.ready_queue[a + 1]);
                        assert(w2.ready_queue[c] == w.ready_queue[c + 1]);
                    }
                    assert forall|k: int| 0 <= k < w2.ready_queue.len() implies !h2.contains(#[trigger] w2.ready_queue[k]) by {
                        assert(w2.ready_queue[k] == w.ready_queue[k + 1]);
                        assert(!h.contains(w.ready_queue[k + 1]));
                        if h2.contains(w2.ready_queue[k]) && w.tasks.dom().contains(x) {
                            let i = choose|i: int| 0 <= i < h2.len() && h2[i] == w2.ready_queue[k];
                            if i < h.len() {
                                assert(h[i] == h2[i]);
                            }
                        }
                    }
                    assert forall|y: Seq<char>| #![trigger w2.ready_queue.contains(y)] #![trigger h2.contains(y)] (w2.ready_queue.contains(y) || h2.contains(y)) implies w2.in_degree.dom().contains(y)
                        && w2.in_degree[y] == 0 by {
                        if w2.ready_queue.contains(y) {
                            let i = choose|i: int| 0 <= i < w2.ready_queue.len() && w2.ready_queue[i] == y;
                            assert(w.ready_queue[i + 1] == y);
                            assert(w.ready_queue.contains(y));
                        }
                        if h2.contains(y) {
                            let i = choose|i: int| 0 <= i < h2.len() && h2[i] == y;
                            if i < h.len() {
                                assert(h[i] == y);
                                assert(h.contains(y));
                            } else {
                                assert(y == x);
                            }
                        }
                    }
                    if w.tasks.dom().contains(x) {
                        assert(!h.contains(w.ready_queue[0]));
                        assert forall|a: int, c: int| 0 <= a < c < h2.len() implies h2[a] != h2[c] by {
                            if c == h.len() {
                                assert(h2[a] == h[a]);
                                assert(h.contains(h[a]));
                            } else {
                                assert(h2[a] == h[a] && h2[c] == h[c]);
                            }
                        }
                    }
                } else {
                    assert(run(b, cs) == w);
                    assert(handed_out(b, cs) == h);
                }
            },
            SchedulerCall::Report(id, ok) => {
                assert(run(b, cs) == record_result(w, id, ok));
                assert(handed_out(b, cs) == h);
                if ok {
                    let w1 = DagSchedulerView { completed_tasks: w.completed_tasks.insert(id), ..w };
                    lemma_release_all_once(w1, h, dependents_of(w.dependents, id));
                    assert forall|y: Seq<char>| #![trigger w1.ready_queue.contains(y)] #![trigger h.contains(y)] (w1.ready_queue.contains(y) || h.contains(y)) implies w1.in_degree.dom().contains(y)
                        && w1.in_degree[y] == 0 by {
                        assert(w.in_degree.dom().contains(y));
                    }
                    assert(hands_out_once(w1, h));
                    lemma_release_all_once(w1, h, dependents_of(w.dependents, id));
                } else {
                    assert(record_result(w, id, ok) == DagSchedulerView { failed_tasks: w.failed_tasks.insert(id), ..w });
                }
            },
        }
    }
}

/// In a run from a scheduler built from tasks with distinct ids, whatever the
/// calls (results may be reported any number of times), no task is handed
/// out twice.
pub proof fn lemma_no_task_handed_out_twice(ts: Seq<TaskSpecView>, cs: Seq<SchedulerCall>)
    requires
        ids_distinct(ts),
    ensures
        handed_out(build_schedule(ts), cs).no_duplicates(),
{
    lemma_run_once(ts, cs);
}

} // verus!
