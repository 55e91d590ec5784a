//! A task graph: tasks with their state, the edges to the tasks that wait on
//! them, and how many unmet dependencies each task still has.
use vstd::prelude::*;
use crate::protocol::{TaskSpec, TaskSpecView, contains_string};
use crate::engine::topo::{
    counts_cover_edges, schedulable, parent_count, edge, parents_in, kahn_reached, counts_suffice,
    kahn_closure,
    lemma_parents_in_frame, lemma_parents_in_ext, lemma_parents_in_none,
};
use vstd::set_lib::set_int_range;
use crate::engine::progress::{
    waits_cover, lemma_add_edge_keeps_waits, lemma_insert_task_keeps_waits,
    lemma_with_status_keeps_waits, lemma_complete_keeps_waits,
};

pub use crate::protocol::{TaskResultSpec as TaskResult, TaskSpec as Task};

verus! {

/// What can go wrong when the graph is queried or changed.
#[derive(Debug)]
pub enum DagError {
    /// No task has this id.
    TaskNotFound(String),
    /// The graph's dependencies do not allow all tasks to be ordered.
    CyclicDependency,
    /// The task is not in a state from which the change is allowed.
    InvalidStatusTransition(String),
}

/// The text a `DagError` is reported with.
pub open spec fn dag_error_text(e: DagError) -> Seq<char> {
    match e {
        DagError::TaskNotFound(id) => "タスクが見つかりません: "@ + id@,
        DagError::CyclicDependency => "循環依存が検出されました (DAG違反)"@,
        DagError::InvalidStatusTransition(m) => "無効なタスク状態遷移です: "@ + m@,
    }
}

impl DagError {
    /// The text this error is reported with.
    pub fn message(&self) -> (r: String)
        ensures
            r@ == dag_error_text(*self),
    {
        match self {
            DagError::TaskNotFound(id) => {
                let mut m = String::from_str("タスクが見つかりません: ");
                m.append(id.as_str());
                m
            },
            DagError::CyclicDependency => String::from_str("循環依存が検出されました (DAG違反)"),
            DagError::InvalidStatusTransition(t) => {
                let mut m = String::from_str("無効なタスク状態遷移です: ");
                m.append(t.as_str());
                m
            },
        }
    }
}

/// Where a task is in its life.
#[derive(Debug, Clone, Copy, PartialEq, Eq, Structural)]
pub enum TaskStatus {
    Pending,
    Running,
    Completed,
    Failed,
}

/// A task in the graph: its specification, its state, the ids of the tasks
/// that depend on it, and the number of its dependencies not yet met.
#[derive(Debug)]
pub struct TaskNode {
    pub spec: TaskSpec,
    pub status: TaskStatus,
    pub children: Vec<String>,
    pub in_degree: usize,
}

/// A task node as values.
pub struct TaskNodeView {
    pub spec: TaskSpecView,
    pub status: TaskStatus,
    pub children: Seq<Seq<char>>,
    pub in_degree: nat,
}

impl View for TaskNode {
    type V = TaskNodeView;

    open spec fn view(&self) -> TaskNodeView {
        TaskNodeView {
            spec: self.spec@,
            status: self.status,
            children: self.children.deep_view(),
            in_degree: self.in_degree as nat,
        }
    }
}

impl Clone for TaskNode {
    fn clone(&self) -> (r: Self)
        ensures
            r@ == self@,
    {
        TaskNode {
            spec: self.spec.clone(),
            status: self.status,
            children: crate::protocol::clone_strings(&self.children),
            in_degree: self.in_degree,
        }
    }
}

/// The nodes of a vector as values, in order.
pub open spec fn nodes_view(v: Seq<TaskNode>) -> Seq<TaskNodeView> {
    v.map_values(|n: TaskNode| n@)
}

/// Some node of `s` has the id `id`.
pub open spec fn has_task(s: Seq<TaskNodeView>, id: Seq<char>) -> bool {
    exists|i: int| 0 <= i < s.len() && #[trigger] s[i].spec.task_id == id
}

/// The position of the node with id `id` (meaningful where `has_task` holds).
pub open spec fn position_of(s: Seq<TaskNodeView>, id: Seq<char>) -> int {
    choose|i: int| 0 <= i < s.len() && #[trigger] s[i].spec.task_id == id
}

/// No two nodes share an id.
pub open spec fn ids_unique(s: Seq<TaskNodeView>) -> bool {
    forall|i: int, j: int|
        0 <= i < s.len() && 0 <= j < s.len() && #[trigger] s[i].spec.task_id
            == #[trigger] s[j].spec.task_id ==> i == j
}

/// No node lists the same dependent twice.
pub open spec fn children_distinct(s: Seq<TaskNodeView>) -> bool {
    forall|i: int| 0 <= i < s.len() ==> (#[trigger] s[i].children).no_duplicates()
}

/// Every listed dependent is a task of the graph.
pub open spec fn children_known(s: Seq<TaskNodeView>) -> bool {
    forall|i: int, k: int|
        0 <= i < s.len() && 0 <= k < s[i].children.len() ==> has_task(s, #[trigger] s[i].children[k])
}

/// What every graph keeps: unique ids, and dependents that are tasks of the
/// graph, each listed once.
pub open spec fn graph_wf(s: Seq<TaskNodeView>) -> bool {
    ids_unique(s) && children_distinct(s) && children_known(s)
}

/// `s` with the edge from `parent` to `child` added: the parent lists the
/// child (once), and the child waits on one more dependency. Where either task
/// is missing, nothing changes.
pub open spec fn add_edge(s: Seq<TaskNodeView>, parent: Seq<char>, child: Seq<char>) -> Seq<
    TaskNodeView,
> {
    if has_task(s, parent) && has_task(s, child) {
        let p = position_of(s, parent);
        let pn = s[p];
        let s1 = if pn.children.contains(child) {
            s
        } else {
            s.update(p, TaskNodeView { children: pn.children.push(child), ..pn })
        };
        let c = position_of(s, child);
        s1.update(c, TaskNodeView { in_degree: s1[c].in_degree + 1, ..s1[c] })
    } else {
        s
    }
}

/// `s` with the edges from each of `deps`, in order, to `child` added.
pub open spec fn add_edges(s: Seq<TaskNodeView>, deps: Seq<Seq<char>>, child: Seq<char>) -> Seq<
    TaskNodeView,
>
    decreases deps.len(),
{
    if deps.len() == 0 {
        s
    } else {
        add_edge(add_edges(s, deps.drop_last(), child), deps.last(), child)
    }
}

pub(crate) proof fn lemma_position_of(s: Seq<TaskNodeView>, i: int)
    requires
        ids_unique(s),
        0 <= i < s.len(),
    ensures
        has_task(s, s[i].spec.task_id),
        position_of(s, s[i].spec.task_id) == i,
{
    assert(has_task(s, s[i].spec.task_id));
}

/// Graphs with the same ids and dependents in the same places are alike in
/// what `graph_wf` asks.
pub(crate) proof fn lemma_same_shape(s: Seq<TaskNodeView>, t: Seq<TaskNodeView>)
    requires
        graph_wf(s),
        s.len() == t.len(),
        forall|i: int|
            0 <= i < s.len() ==> #[trigger] t[i].spec.task_id == s[i].spec.task_id
                && t[i].children == s[i].children,
    ensures
        graph_wf(t),
        forall|c: Seq<char>| has_task(s, c) == #[trigger] has_task(t, c),
{
    assert forall|c: Seq<char>| has_task(s, c) == #[trigger] has_task(t, c) by {
        if has_task(s, c) {
            let i = choose|i: int| 0 <= i < s.len() && #[trigger] s[i].spec.task_id == c;
            assert(t[i].spec.task_id == c);
        }
        if has_task(t, c) {
            let i = choose|i: int| 0 <= i < t.len() && #[trigger] t[i].spec.task_id == c;
            assert(s[i].spec.task_id == c);
        }
    }
    assert forall|a: int, b: int|
        0 <= a < t.len() && 0 <= b < t.len() && #[trigger] t[a].spec.task_id
            == #[trigger] t[b].spec.task_id implies a == b by {
        assert(s[a].spec.task_id == t[a].spec.task_id);
        assert(s[b].spec.task_id == t[b].spec.task_id);
    }
    assert forall|a: int| 0 <= a < t.len() implies (#[trigger] t[a].children).no_duplicates() by {
        assert(s[a].spec.task_id == t[a].spec.task_id);
    }
    assert forall|a: int, k: int|
        0 <= a < t.len() && 0 <= k < t[a].children.len() implies has_task(
            t,
            #[trigger] t[a].children[k],
        ) by {
        assert(s[a].spec.task_id == t[a].spec.task_id);
        assert(has_task(s, s[a].children[k]));
    }
}

pub(crate) proof fn lemma_add_edge_wf(s: Seq<TaskNodeView>, parent: Seq<char>, child: Seq<char>)
    requires
        graph_wf(s),
    ensures
        graph_wf(add_edge(s, parent, child)),
        add_edge(s, parent, child).len() == s.len(),
        forall|i: int|
            0 <= i < s.len() ==> #[trigger] add_edge(s, parent, child)[i].spec == s[i].spec
                && add_edge(s, parent, child)[i].status == s[i].status,
{
    if has_task(s, parent) && has_task(s, child) {
        let p = position_of(s, parent);
        let pn = s[p];
        let c = position_of(s, child);
        let s1 = if pn.children.contains(child) {
            s
        } else {
            s.update(p, TaskNodeView { children: pn.children.push(child), ..pn })
        };
        if !pn.children.contains(child) {
            assert(s1[p].children.no_duplicates());
            assert forall|c2: Seq<char>| has_task(s, c2) implies #[trigger] has_task(s1, c2) by {
                let w = choose|w: int| 0 <= w < s.len() && #[trigger] s[w].spec.task_id == c2;
                assert(s1[w].spec.task_id == c2);
            }
            assert forall|a: int, k: int|
                0 <= a < s1.len() && 0 <= k < s1[a].children.len() implies has_task(
                    s1,
                    #[trigger] s1[a].children[k],
                ) by {
                if a == p && k == pn.children.len() {
                    assert(s1[a].children[k] == child);
                } else if a == p {
                    assert(s1[a].children[k] == pn.children[k]);
                    assert(has_task(s, pn.children[k]));
                } else {
                    assert(has_task(s, s[a].children[k]));
                }
            }
            assert(ids_unique(s1)) by {
                assert forall|a: int, b: int|
                    0 <= a < s1.len() && 0 <= b < s1.len() && #[trigger] s1[a].spec.task_id
                        == #[trigger] s1[b].spec.task_id implies a == b by {
                    assert(s1[a].spec == s[a].spec);
                    assert(s1[b].spec == s[b].spec);
                }
            }
            assert(children_distinct(s1)) by {
                assert forall|a: int| 0 <= a < s1.len() implies (#[trigger] s1[a].children).no_duplicates() by {
                    if a != p {
                        assert(s1[a] == s[a]);
                    }
                }
            }
            assert(graph_wf(s1));
        }
        let s2 = s1.update(c, TaskNodeView { in_degree: s1[c].in_degree + 1, ..s1[c] });
        assert forall|i: int|
            0 <= i < s1.len() implies #[trigger] s2[i].spec.task_id == s1[i].spec.task_id
                && s2[i].children == s1[i].children by {}
        lemma_same_shape(s1, s2);
        assert(s2 == add_edge(s, parent, child));
    }
}

proof fn lemma_add_edges_wf(s: Seq<TaskNodeView>, deps: Seq<Seq<char>>, child: Seq<char>)
    requires
        graph_wf(s),
    ensures
        graph_wf(add_edges(s, deps, child)),
        add_edges(s, deps, child).len() == s.len(),
        forall|i: int|
            0 <= i < s.len() ==> #[trigger] add_edges(s, deps, child)[i].spec == s[i].spec
                && add_edges(s, deps, child)[i].status == s[i].status,
    decreases deps.len(),
{
    if deps.len() > 0 {
        lemma_add_edges_wf(s, deps.drop_last(), child);
        lemma_add_edge_wf(add_edges(s, deps.drop_last(), child), deps.last(), child);
    }
}

/// Every node's count of unmet dependencies is at least its number of
/// incoming edges from the positions in `m`.
pub open spec fn counts_cover_in(s: Seq<TaskNodeView>, m: Set<int>) -> bool {
    forall|j: int| 0 <= j < s.len() ==> #[trigger] s[j].in_degree >= parents_in(s, j, m, s.len() as int)
}

proof fn lemma_cover_edges_in(s: Seq<TaskNodeView>)
    ensures
        counts_cover_edges(s) == counts_cover_in(s, set_int_range(0, s.len() as int)),
{
}

/// Two sets that agree on every position of the graph count alike.
pub(crate) proof fn lemma_cover_in_ext(s: Seq<TaskNodeView>, m1: Set<int>, m2: Set<int>)
    requires
        counts_cover_in(s, m1),
        forall|i: int| 0 <= i < s.len() ==> (m1.contains(i) <==> m2.contains(i)),
    ensures
        counts_cover_in(s, m2),
{
    assert forall|j: int| 0 <= j < s.len() implies #[trigger] s[j].in_degree >= parents_in(s, j, m2, s.len() as int) by {
        lemma_parents_in_ext(s, j, m1, m2, s.len() as int);
    }
}

pub(crate) proof fn lemma_add_edge_keeps_cover_in(s: Seq<TaskNodeView>, parent: Seq<char>, child: Seq<char>, m: Set<int>)
    requires
        graph_wf(s),
        counts_cover_in(s, m),
    ensures
        counts_cover_in(add_edge(s, parent, child), m),
{
    let t = add_edge(s, parent, child);
    lemma_add_edge_wf(s, parent, child);
    if has_task(s, parent) && has_task(s, child) {
        let p = position_of(s, parent);
        let c = position_of(s, child);
        let n = s.len() as int;
        assert forall|j: int| 0 <= j < t.len() implies #[trigger] t[j].in_degree >= parents_in(t, j, m, t.len() as int) by {
            assert(t[j].spec.task_id == s[j].spec.task_id);
            assert forall|i: int| 0 <= i < n && i != p implies edge(s, i, j) == edge(t, i, j) by {
                assert(t[i].children == s[i].children);
            }
            lemma_parents_in_frame(s, t, j, m, n, p);
            assert(s[j].in_degree >= parents_in(s, j, m, n));
            if j != c {
                assert(s[j].spec.task_id != child);
                assert(edge(s, p, j) == edge(t, p, j)) by {
                    if !s[p].children.contains(child) {
                        assert(t[p].children == s[p].children.push(child));
                        if t[p].children.contains(s[j].spec.task_id) {
                            let x = choose|x: int| 0 <= x < t[p].children.len() && #[trigger] t[p].children[x] == s[j].spec.task_id;
                            if x < s[p].children.len() {
                                assert(s[p].children[x] == s[j].spec.task_id);
                            }
                        }
                        if s[p].children.contains(s[j].spec.task_id) {
                            let x = choose|x: int| 0 <= x < s[p].children.len() && #[trigger] s[p].children[x] == s[j].spec.task_id;
                            assert(t[p].children[x] == s[j].spec.task_id);
                        }
                    }
                }
                assert(t[j].in_degree == s[j].in_degree);
            } else {
                assert(t[j].in_degree == s[j].in_degree + 1);
            }
        }
    }
}

proof fn lemma_add_edges_keeps_cover_in(s: Seq<TaskNodeView>, deps: Seq<Seq<char>>, child: Seq<char>, m: Set<int>)
    requires
        graph_wf(s),
        counts_cover_in(s, m),
    ensures
        counts_cover_in(add_edges(s, deps, child), m),
    decreases deps.len(),
{
    if deps.len() > 0 {
        lemma_add_edges_keeps_cover_in(s, deps.drop_last(), child, m);
        lemma_add_edges_wf(s, deps.drop_last(), child);
        lemma_add_edge_keeps_cover_in(add_edges(s, deps.drop_last(), child), deps.last(), child, m);
    }
}

/// The graph with a new task appended: what `insert_task` does before it adds
/// the task's edges.
pub(crate) open spec fn appended(s: Seq<TaskNodeView>, spec: TaskSpecView) -> Seq<TaskNodeView> {
    if has_task(s, spec.task_id) {
        s
    } else {
        s.push(
            TaskNodeView {
                spec: spec,
                status: TaskStatus::Pending,
                children: Seq::empty(),
                in_degree: 0,
            },
        )
    }
}

proof fn lemma_appended_wf(s: Seq<TaskNodeView>, spec: TaskSpecView)
    requires
        graph_wf(s),
    ensures
        graph_wf(appended(s, spec)),
        appended(s, spec).len() >= s.len(),
        forall|i: int| 0 <= i < s.len() ==> #[trigger] appended(s, spec)[i] == s[i],
        !has_task(s, spec.task_id) ==> appended(s, spec).len() == s.len() + 1
            && appended(s, spec)[s.len() as int].status == TaskStatus::Pending,
        has_task(s, spec.task_id) ==> appended(s, spec) == s,
{
    let id = spec.task_id;
    if !has_task(s, id) {
        let s1 = appended(s, spec);
        let n = s.len() as int;
        assert forall|i: int, j: int|
            0 <= i < s1.len() && 0 <= j < s1.len() && #[trigger] s1[i].spec.task_id
                == #[trigger] s1[j].spec.task_id implies i == j by {
            if i < n && j == n {
                assert(s[i].spec.task_id == id);
            }
            if j < n && i == n {
                assert(s[j].spec.task_id == id);
            }
        }
        assert(s1[n].children =~= Seq::<Seq<char>>::empty());
        assert forall|a: int, k: int|
            0 <= a < s1.len() && 0 <= k < s1[a].children.len() implies has_task(
                s1,
                #[trigger] s1[a].children[k],
            ) by {
            if a < n {
                assert(s1[a] == s[a]);
                assert(has_task(s, s[a].children[k]));
                let w = choose|w: int| 0 <= w < n && #[trigger] s[w].spec.task_id == s[a].children[k];
                assert(s1[w].spec.task_id == s[w].spec.task_id);
            }
        }
    }
}

/// Appending a task keeps every count at least its number of incoming edges
/// from the positions in `m`: the new task has no edges yet.
proof fn lemma_appended_keeps_cover_in(s: Seq<TaskNodeView>, spec: TaskSpecView, m: Set<int>)
    requires
        graph_wf(s),
        counts_cover_in(s, m),
    ensures
        counts_cover_in(appended(s, spec), m),
{
    let id = spec.task_id;
    if !has_task(s, id) {
        let s1 = appended(s, spec);
        let n = s.len() as int;
        lemma_appended_wf(s, spec);
        assert(s1[n].children =~= Seq::<Seq<char>>::empty());
        assert forall|j: int| 0 <= j < s1.len() implies #[trigger] s1[j].in_degree >= parents_in(s1, j, m, s1.len() as int) by {
            if j < n {
                assert forall|i: int| 0 <= i < n && i != n implies edge(s, i, j) == edge(s1, i, j) by {
                    assert(s1[i] == s[i]);
                    assert(s1[j] == s[j]);
                }
                lemma_parents_in_frame(s, s1, j, m, n, n);
                assert(!edge(s1, n, j));
                assert(parents_in(s1, j, m, n + 1) == parents_in(s1, j, m, n));
                assert(s[j].in_degree >= parents_in(s, j, m, n));
                assert(s1[j] == s[j]);
            } else {
                assert forall|i: int| 0 <= i < n + 1 implies !edge(s1, i, j) by {
                    if i < n && edge(s1, i, j) {
                        assert(s1[i] == s[i]);
                        let x = choose|x: int| 0 <= x < s[i].children.len() && #[trigger] s[i].children[x] == id;
                        assert(has_task(s, s[i].children[x]));
                    }
                }
                lemma_parents_in_none(s1, j, m, n + 1);
            }
        }
    }
}

/// Adding a task keeps every count at least its number of incoming edges from
/// the positions in `m`.
pub(crate) proof fn lemma_insert_task_keeps_cover_in(s: Seq<TaskNodeView>, spec: TaskSpecView, m: Set<int>)
    requires
        graph_wf(s),
        counts_cover_in(s, m),
    ensures
        counts_cover_in(insert_task(s, spec), m),
        insert_task(s, spec).len() >= s.len(),
        forall|i: int| 0 <= i < s.len() ==> #[trigger] insert_task(s, spec)[i].status == s[i].status,
        !has_task(s, spec.task_id) ==> insert_task(s, spec).len() == s.len() + 1
            && insert_task(s, spec)[s.len() as int].status == TaskStatus::Pending,
        has_task(s, spec.task_id) ==> insert_task(s, spec).len() == s.len(),
{
    let s1 = appended(s, spec);
    lemma_appended_wf(s, spec);
    lemma_appended_keeps_cover_in(s, spec, m);
    lemma_add_edges_wf(s1, spec.dependencies, spec.task_id);
    lemma_add_edges_keeps_cover_in(s1, spec.dependencies, spec.task_id, m);
    assert(insert_task(s, spec) == add_edges(s1, spec.dependencies, spec.task_id));
    assert forall|i: int| 0 <= i < s.len() implies #[trigger] insert_task(s, spec)[i].status == s[i].status by {
        assert(s1[i] == s[i]);
        assert(add_edges(s1, spec.dependencies, spec.task_id)[i].spec == s1[i].spec);
    }
    if !has_task(s, spec.task_id) {
        assert(add_edges(s1, spec.dependencies, spec.task_id)[s.len() as int].spec == s1[s.len() as int].spec);
    }
}

/// Adding an edge keeps every count at least its number of incoming edges:
/// the one count that can gain an edge is raised by one.
pub proof fn lemma_add_edge_keeps_cover(s: Seq<TaskNodeView>, parent: Seq<char>, child: Seq<char>)
    requires
        graph_wf(s),
        counts_cover_edges(s),
    ensures
        counts_cover_edges(add_edge(s, parent, child)),
{
    lemma_add_edge_wf(s, parent, child);
    lemma_cover_edges_in(s);
    lemma_add_edge_keeps_cover_in(s, parent, child, set_int_range(0, s.len() as int));
    lemma_cover_edges_in(add_edge(s, parent, child));
}

/// Adding the edges from each of `deps` keeps every count at least its
/// number of incoming edges.
pub proof fn lemma_add_edges_keeps_cover(s: Seq<TaskNodeView>, deps: Seq<Seq<char>>, child: Seq<char>)
    requires
        graph_wf(s),
        counts_cover_edges(s),
    ensures
        counts_cover_edges(add_edges(s, deps, child)),
{
    lemma_add_edges_wf(s, deps, child);
    lemma_cover_edges_in(s);
    lemma_add_edges_keeps_cover_in(s, deps, child, set_int_range(0, s.len() as int));
    lemma_cover_edges_in(add_edges(s, deps, child));
}

/// Adding a task keeps every count at least its number of incoming edges.
pub proof fn lemma_insert_task_keeps_cover(s: Seq<TaskNodeView>, spec: TaskSpecView)
    requires
        graph_wf(s),
        counts_cover_edges(s),
    ensures
        counts_cover_edges(insert_task(s, spec)),
{
    let t = insert_task(s, spec);
    let m = set_int_range(0, s.len() as int);
    lemma_cover_edges_in(s);
    if has_task(s, spec.task_id) {
        lemma_insert_task_keeps_cover_in(s, spec, m);
    } else {
        let m1 = set_int_range(0, s.len() as int + 1);
        lemma_cover_in_ext(s, m, m1);
        lemma_insert_task_keeps_cover_in(s, spec, m1);
    }
    lemma_cover_edges_in(t);
}

/// A node of the graph once the new task `id` is added with the dependencies
/// `deps`: where `deps` names it, it lists `id` as one more dependent.
pub open spec fn inserted_node(n: TaskNodeView, deps: Seq<Seq<char>>, id: Seq<char>) -> TaskNodeView {
    TaskNodeView {
        children: if deps.contains(n.spec.task_id) {
            n.children.push(id)
        } else {
            n.children
        },
        ..n
    }
}

proof fn lemma_present_count_push(s: Seq<TaskNodeView>, n: TaskNodeView, deps: Seq<Seq<char>>)
    requires
        !deps.contains(n.spec.task_id),
    ensures
        present_count(s.push(n), deps) == present_count(s, deps),
    decreases deps.len(),
{
    if deps.len() > 0 {
        let d = deps.drop_last();
        assert(!d.contains(n.spec.task_id)) by {
            if d.contains(n.spec.task_id) {
                let k = choose|k: int| 0 <= k < d.len() && d[k] == n.spec.task_id;
                assert(deps[k] == n.spec.task_id);
            }
        }
        lemma_present_count_push(s, n, d);
        let x = deps.last();
        assert(x != n.spec.task_id) by {
            assert(deps[deps.len() - 1] == x);
        }
        if has_task(s.push(n), x) {
            let i = choose|i: int| 0 <= i < s.push(n).len() && #[trigger] s.push(n)[i].spec.task_id == x;
            assert(s[i] == s.push(n)[i]);
        }
        if has_task(s, x) {
            let i = choose|i: int| 0 <= i < s.len() && #[trigger] s[i].spec.task_id == x;
            assert(s.push(n)[i] == s[i]);
        }
    }
}

proof fn lemma_add_edges_new_child(s1: Seq<TaskNodeView>, ds: Seq<Seq<char>>, id: Seq<char>)
    requires
        graph_wf(s1),
        s1.len() > 0,
        s1.last().spec.task_id == id,
        ds.no_duplicates(),
        !ds.contains(id),
        forall|j: int| 0 <= j < s1.len() - 1 ==> !(#[trigger] s1[j].children).contains(id),
    ensures
        add_edges(s1, ds, id).len() == s1.len(),
        forall|j: int|
            0 <= j < s1.len() - 1 ==> #[trigger] add_edges(s1, ds, id)[j] == inserted_node(s1[j], ds, id),
        add_edges(s1, ds, id)[s1.len() - 1] == (TaskNodeView {
            in_degree: s1.last().in_degree + present_count(s1, ds),
            ..s1.last()
        }),
    decreases ds.len(),
{
    let n = s1.len() - 1;
    lemma_add_edges_wf(s1, ds, id);
    if ds.len() == 0 {
        assert forall|j: int| 0 <= j < n implies #[trigger] add_edges(s1, ds, id)[j] == inserted_node(s1[j], ds, id) by {
            assert(inserted_node(s1[j], ds, id) =~= s1[j]);
        }
        assert(add_edges(s1, ds, id)[n] =~= (TaskNodeView {
            in_degree: s1.last().in_degree + present_count(s1, ds),
            ..s1.last()
        }));
    } else {
        let pre = ds.drop_last();
        let p = ds.last();
        assert(ds =~= pre.push(p));
        assert forall|a: int, b: int| 0 <= a < pre.len() && 0 <= b < pre.len() && a != b implies pre[a] != pre[b] by {
            assert(pre[a] == ds[a] && pre[b] == ds[b]);
        }
        assert(!pre.contains(id)) by {
            if pre.contains(id) {
                let k = choose|k: int| 0 <= k < pre.len() && pre[k] == id;
                assert(ds[k] == id);
            }
        }
        assert(!pre.contains(p)) by {
            if pre.contains(p) {
                let k = choose|k: int| 0 <= k < pre.len() && pre[k] == p;
                assert(ds[k] == ds[ds.len() - 1]);
            }
        }
        assert(p != id) by {
            assert(ds[ds.len() - 1] == p);
        }
        lemma_add_edges_new_child(s1, pre, id);
        lemma_add_edges_wf(s1, pre, id);
        let t = add_edges(s1, pre, id);
        lemma_same_ids(s1, t);
        assert(add_edges(s1, ds, id) == add_edge(t, p, id));
        assert(t[n].spec.task_id == id);
        lemma_position_of(t, n);
        let fin = add_edge(t, p, id);
        if has_task(t, p) {
            let pp = position_of(t, p);
            assert(t[pp].spec.task_id == p);
            assert(pp != n);
            assert(t[pp] == inserted_node(s1[pp], pre, id));
            assert(s1[pp].spec.task_id == p);
            assert(!t[pp].children.contains(id));
            assert forall|j: int| 0 <= j < n implies #[trigger] fin[j] == inserted_node(s1[j], ds, id) by {
                assert(t[j] == inserted_node(s1[j], pre, id));
                if j == pp {
                    assert(fin[j] =~= inserted_node(s1[j], ds, id));
                } else {
                    assert(s1[j].spec.task_id != p) by {
                        if s1[j].spec.task_id == p {
                            assert(t[j].spec.task_id == t[pp].spec.task_id);
                        }
                    }
                    assert(ds.contains(s1[j].spec.task_id) == pre.contains(s1[j].spec.task_id)) by {
                        if ds.contains(s1[j].spec.task_id) {
                            let k = choose|k: int| 0 <= k < ds.len() && ds[k] == s1[j].spec.task_id;
                            assert(pre[k] == ds[k]);
                        }
                        if pre.contains(s1[j].spec.task_id) {
                            let k = choose|k: int| 0 <= k < pre.len() && pre[k] == s1[j].spec.task_id;
                            assert(ds[k] == pre[k]);
                        }
                    }
                    assert(fin[j] =~= inserted_node(s1[j], ds, id));
                }
            }
            assert(has_task(s1, p));
            assert(fin[n] =~= (TaskNodeView {
                in_degree: s1.last().in_degree + present_count(s1, ds),
                ..s1.last()
            }));
        } else {
            assert(fin == t);
            assert(!has_task(s1, p));
            assert forall|j: int| 0 <= j < n implies #[trigger] fin[j] == inserted_node(s1[j], ds, id) by {
                assert(t[j] == inserted_node(s1[j], pre, id));
                assert(s1[j].spec.task_id != p) by {
                    if s1[j].spec.task_id == p {
                        assert(has_task(s1, p));
                    }
                }
                assert(ds.contains(s1[j].spec.task_id) == pre.contains(s1[j].spec.task_id)) by {
                    if ds.contains(s1[j].spec.task_id) {
                        let k = choose|k: int| 0 <= k < ds.len() && ds[k] == s1[j].spec.task_id;
                        assert(pre[k] == ds[k]);
                    }
                    if pre.contains(s1[j].spec.task_id) {
                        let k = choose|k: int| 0 <= k < pre.len() && pre[k] == s1[j].spec.task_id;
                        assert(ds[k] == pre[k]);
                    }
                }
                assert(fin[j] =~= inserted_node(s1[j], ds, id));
            }
        }
    }
}

/// Adding a task with a new id and distinct dependencies other than itself
/// appends a pending node with no dependents whose count is the number of its
/// dependencies already in the graph, adds its id to the dependents of each of
/// those, and changes nothing else.
pub proof fn lemma_insert_new_task_effect(s: Seq<TaskNodeView>, spec: TaskSpecView)
    requires
        graph_wf(s),
        !has_task(s, spec.task_id),
        spec.dependencies.no_duplicates(),
        !spec.dependencies.contains(spec.task_id),
    ensures
        insert_task(s, spec).len() == s.len() + 1,
        insert_task(s, spec)[s.len() as int] == (TaskNodeView {
            spec: spec,
            status: TaskStatus::Pending,
            children: Seq::empty(),
            in_degree: present_count(s, spec.dependencies),
        }),
        forall|j: int|
            0 <= j < s.len() ==> #[trigger] insert_task(s, spec)[j] == inserted_node(
                s[j],
                spec.dependencies,
                spec.task_id,
            ),
{
    let id = spec.task_id;
    let nn = TaskNodeView { spec: spec, status: TaskStatus::Pending, children: Seq::empty(), in_degree: 0 };
    let s1 = s.push(nn);
    lemma_appended_wf(s, spec);
    assert(appended(s, spec) == s1);
    assert forall|j: int| 0 <= j < s1.len() - 1 implies !(#[trigger] s1[j].children).contains(id) by {
        assert(s1[j] == s[j]);
        if s[j].children.contains(id) {
            let k = choose|k: int| 0 <= k < s[j].children.len() && s[j].children[k] == id;
            assert(has_task(s, s[j].children[k]));
        }
    }
    lemma_add_edges_new_child(s1, spec.dependencies, id);
    lemma_present_count_push(s, nn, spec.dependencies);
    assert(insert_task(s, spec) == add_edges(s1, spec.dependencies, id));
    assert forall|j: int| 0 <= j < s.len() implies #[trigger] insert_task(s, spec)[j] == inserted_node(
        s[j],
        spec.dependencies,
        spec.task_id,
    ) by {
        assert(s1[j] == s[j]);
    }
}

/// Finds the position of the node with id `id`.
pub(crate) fn find_node(nodes: &Vec<TaskNode>, id: &String) -> (r: Option<usize>)
    requires
        ids_unique(nodes_view(nodes@)),
    ensures
        match r {
            Some(i) => i < nodes@.len() && nodes@[i as int].spec.task_id@ == id@ && position_of(
                nodes_view(nodes@),
                id@,
            ) == i && has_task(nodes_view(nodes@), id@),
            None => !has_task(nodes_view(nodes@), id@),
        },
{
    let ghost s = nodes_view(nodes@);
    let mut i: usize = 0;
    while i < nodes.len()
        invariant
            i <= nodes@.len(),
            s == nodes_view(nodes@),
            ids_unique(s),
            forall|j: int| 0 <= j < i ==> s[j].spec.task_id != id@,
        decreases nodes@.len() - i,
    {
        if nodes[i].spec.task_id == *id {
            proof {
                lemma_position_of(s, i as int);
            }
            return Some(i);
        }
        i += 1;
    }
    None
}


/// `s` with the task `spec` added: a new pending node with no dependents,
/// unless a task with its id is already there (that one is kept as it is), and
/// then the edges from each of its dependencies to it.
pub open spec fn insert_task(s: Seq<TaskNodeView>, spec: TaskSpecView) -> Seq<TaskNodeView> {
    let s1 = if has_task(s, spec.task_id) {
        s
    } else {
        s.push(
            TaskNodeView {
                spec: spec,
                status: TaskStatus::Pending,
                children: Seq::empty(),
                in_degree: 0,
            },
        )
    };
    add_edges(s1, spec.dependencies, spec.task_id)
}

proof fn lemma_add_edge_degree(s: Seq<TaskNodeView>, parent: Seq<char>, child: Seq<char>, c: int)
    requires
        graph_wf(s),
        0 <= c < s.len(),
        s[c].spec.task_id == child,
    ensures
        add_edge(s, parent, child)[c].in_degree <= s[c].in_degree + (if has_task(s, parent) {
            1int
        } else {
            0int
        }),
{
    lemma_position_of(s, c);
}

/// How many of `deps` (counted with repetition) are tasks of `s`.
pub open spec fn present_count(s: Seq<TaskNodeView>, deps: Seq<Seq<char>>) -> nat
    decreases deps.len(),
{
    if deps.len() == 0 {
        0
    } else {
        present_count(s, deps.drop_last()) + (if has_task(s, deps.last()) {
            1nat
        } else {
            0nat
        })
    }
}

proof fn lemma_present_count_prefix(s: Seq<TaskNodeView>, deps: Seq<Seq<char>>, k: int)
    requires
        0 <= k <= deps.len(),
    ensures
        present_count(s, deps.take(k)) <= present_count(s, deps),
        present_count(s, deps) <= deps.len(),
    decreases deps.len(),
{
    if deps.len() > 0 {
        if k < deps.len() {
            assert(deps.drop_last().take(k) =~= deps.take(k));
            lemma_present_count_prefix(s, deps.drop_last(), k);
        } else {
            assert(deps.take(k) =~= deps);
            lemma_present_count_prefix(s, deps.drop_last(), 0);
        }
    } else {
        assert(deps.take(k) =~= deps);
    }
}

proof fn lemma_same_ids(s: Seq<TaskNodeView>, t: Seq<TaskNodeView>)
    requires
        s.len() == t.len(),
        forall|i: int| 0 <= i < s.len() ==> #[trigger] t[i].spec == s[i].spec,
    ensures
        forall|x: Seq<char>| has_task(s, x) == #[trigger] has_task(t, x),
{
    assert forall|x: Seq<char>| has_task(s, x) == #[trigger] has_task(t, x) by {
        if has_task(s, x) {
            let i = choose|i: int| 0 <= i < s.len() && #[trigger] s[i].spec.task_id == x;
            assert(t[i].spec == s[i].spec);
        }
        if has_task(t, x) {
            let i = choose|i: int| 0 <= i < t.len() && #[trigger] t[i].spec.task_id == x;
            assert(t[i].spec == s[i].spec);
        }
    }
}

/// A task that can start now: pending, with every dependency met.
pub open spec fn is_ready(n: TaskNodeView) -> bool {
    n.status == TaskStatus::Pending && n.in_degree == 0
}

/// The specifications of the ready tasks of `s`, in node order.
pub open spec fn ready_specs(s: Seq<TaskNodeView>) -> Seq<TaskSpecView>
    decreases s.len(),
{
    if s.len() == 0 {
        Seq::empty()
    } else if is_ready(s.last()) {
        ready_specs(s.drop_last()).push(s.last().spec)
    } else {
        ready_specs(s.drop_last())
    }
}

/// A specification is listed as ready exactly when some ready node has it.
pub proof fn lemma_ready_specs_members(s: Seq<TaskNodeView>)
    ensures
        forall|t: TaskSpecView|
            ready_specs(s).contains(t) <==> exists|j: int|
                0 <= j < s.len() && is_ready(#[trigger] s[j]) && s[j].spec == t,
    decreases s.len(),
{
    if s.len() > 0 {
        let d = s.drop_last();
        let n = s.len() - 1;
        lemma_ready_specs_members(d);
        let rd = ready_specs(d);
        assert forall|t: TaskSpecView|
            ready_specs(s).contains(t) <==> exists|j: int|
                0 <= j < s.len() && is_ready(#[trigger] s[j]) && s[j].spec == t by {
            if ready_specs(s).contains(t) {
                let k = choose|k: int| 0 <= k < ready_specs(s).len() && ready_specs(s)[k] == t;
                if is_ready(s.last()) && k == rd.len() {
                    assert(is_ready(s[n]) && s[n].spec == t);
                } else {
                    assert(ready_specs(s)[k] == rd[k]);
                    assert(rd.contains(t));
                    let j = choose|j: int| 0 <= j < d.len() && is_ready(#[trigger] d[j]) && d[j].spec == t;
                    assert(s[j] == d[j]);
                }
            }
            if exists|j: int| 0 <= j < s.len() && is_ready(#[trigger] s[j]) && s[j].spec == t {
                let j = choose|j: int| 0 <= j < s.len() && is_ready(#[trigger] s[j]) && s[j].spec == t;
                if j == n {
                    assert(ready_specs(s)[rd.len() as int] == t);
                } else {
                    assert(d[j] == s[j]);
                    assert(rd.contains(t));
                    let k = choose|k: int| 0 <= k < rd.len() && rd[k] == t;
                    assert(ready_specs(s)[k] == t);
                }
            }
        }
    }
}

/// No two ready specifications share an id, in a graph whose ids are unique.
pub proof fn lemma_ready_ids_distinct(s: Seq<TaskNodeView>)
    requires
        ids_unique(s),
    ensures
        ready_specs(s).map_values(|t: TaskSpecView| t.task_id).no_duplicates(),
    decreases s.len(),
{
    if s.len() > 0 {
        let d = s.drop_last();
        let n = s.len() - 1;
        assert forall|a: int, b: int|
            0 <= a < d.len() && 0 <= b < d.len() && #[trigger] d[a].spec.task_id
                == #[trigger] d[b].spec.task_id implies a == b by {
            assert(s[a] == d[a] && s[b] == d[b]);
        }
        lemma_ready_ids_distinct(d);
        lemma_ready_specs_members(d);
        let rd = ready_specs(d);
        let ids = ready_specs(s).map_values(|t: TaskSpecView| t.task_id);
        let idd = rd.map_values(|t: TaskSpecView| t.task_id);
        if is_ready(s.last()) {
            assert(ids =~= idd.push(s[n].spec.task_id));
            assert forall|k: int| 0 <= k < idd.len() implies idd[k] != s[n].spec.task_id by {
                assert(rd.contains(rd[k]));
                let j = choose|j: int| 0 <= j < d.len() && is_ready(#[trigger] d[j]) && d[j].spec == rd[k];
                assert(s[j] == d[j]);
            }
            assert forall|a: int, b: int| 0 <= a < b < ids.len() implies ids[a] != ids[b] by {
                if b == idd.len() {
                    assert(ids[a] == idd[a]);
                } else {
                    assert(ids[a] == idd[a] && ids[b] == idd[b]);
                }
            }
        } else {
            assert(ids =~= idd);
        }
    }
}

/// `s` with the task `id` put in state `st`.
pub open spec fn with_status(s: Seq<TaskNodeView>, id: Seq<char>, st: TaskStatus) -> Seq<
    TaskNodeView,
> {
    let i = position_of(s, id);
    s.update(i, TaskNodeView { status: st, ..s[i] })
}

/// Every task has completed or failed.
pub open spec fn all_done(s: Seq<TaskNodeView>) -> bool {
    forall|i: int|
        0 <= i < s.len() ==> (#[trigger] s[i].status == TaskStatus::Completed || s[i].status
            == TaskStatus::Failed)
}

/// A graph is finished exactly when no task is pending or running: one
/// pending or running task keeps it unfinished, and a graph whose tasks have
/// all completed or failed is finished.
pub proof fn lemma_done_means_nothing_left(s: Seq<TaskNodeView>)
    ensures
        all_done(s) <==> !(exists|i: int|
            0 <= i < s.len() && (s[i].status == TaskStatus::Pending || s[i].status
                == TaskStatus::Running)),
{
    if !all_done(s) {
        let i = choose|i: int|
            0 <= i < s.len() && !(s[i].status == TaskStatus::Completed || s[i].status
                == TaskStatus::Failed);
        assert(s[i].status == TaskStatus::Pending || s[i].status == TaskStatus::Running);
    }
}

/// The message given when a task that is not pending is asked to start.
pub open spec fn not_pending_message(id: Seq<char>) -> Seq<char> {
    "Task "@ + id + " is not Pending"@
}

/// Sets the state of the node at `i`.
fn set_status(nodes: &mut Vec<TaskNode>, i: usize, st: TaskStatus)
    requires
        i < old(nodes)@.len(),
    ensures
        final(nodes)@.len() == old(nodes)@.len(),
        graph_wf(nodes_view(old(nodes)@)) ==> graph_wf(nodes_view(final(nodes)@)),
        nodes_view(final(nodes)@) == nodes_view(old(nodes)@).update(
            i as int,
            TaskNodeView { status: st, ..nodes_view(old(nodes)@)[i as int] },
        ),
{
    nodes[i].status = st;
    assert(nodes_view(nodes@) =~= nodes_view(old(nodes)@).update(
        i as int,
        TaskNodeView { status: st, ..nodes_view(old(nodes)@)[i as int] },
    ));
    proof {
        if graph_wf(nodes_view(old(nodes)@)) {
        let s = nodes_view(old(nodes)@);
        let t = nodes_view(nodes@);
        assert forall|a: int|
            0 <= a < s.len() implies #[trigger] t[a].spec.task_id == s[a].spec.task_id
                && t[a].children == s[a].children by {}
        lemma_same_shape(s, t);
        }
    }
}

/// One dependent told that a dependency completed: its count of unmet
/// dependencies drops by one (not below zero), and its specification is
/// collected when it is then pending with none left. Unknown ids change nothing.
pub open spec fn release_child(
    st: (Seq<TaskNodeView>, Seq<TaskSpecView>),
    child: Seq<char>,
) -> (Seq<TaskNodeView>, Seq<TaskSpecView>) {
    let s = st.0;
    let ready = st.1;
    if has_task(s, child) {
        let j = position_of(s, child);
        let n = s[j];
        let d: nat = if n.in_degree > 0 {
            (n.in_degree - 1) as nat
        } else {
            0
        };
        (
            s.update(j, TaskNodeView { in_degree: d, ..n }),
            if d == 0 && n.status == TaskStatus::Pending {
                ready.push(n.spec)
            } else {
                ready
            },
        )
    } else {
        st
    }
}

/// Each of `children`, in order, told that a dependency completed.
pub open spec fn release_children(
    st: (Seq<TaskNodeView>, Seq<TaskSpecView>),
    children: Seq<Seq<char>>,
) -> (Seq<TaskNodeView>, Seq<TaskSpecView>)
    decreases children.len(),
{
    if children.len() == 0 {
        st
    } else {
        release_child(release_children(st, children.drop_last()), children.last())
    }
}

/// The graph after the task `id` completes, and the specifications of the
/// dependents that this made ready, in the order of its dependents list.
pub open spec fn complete_task(s: Seq<TaskNodeView>, id: Seq<char>) -> (
    Seq<TaskNodeView>,
    Seq<TaskSpecView>,
) {
    release_children(
        (with_status(s, id, TaskStatus::Completed), Seq::empty()),
        s[position_of(s, id)].children,
    )
}

/// Lowers the count of unmet dependencies of the node at `j` by one, not below zero.
fn lower_count(nodes: &mut Vec<TaskNode>, j: usize)
    requires
        j < old(nodes)@.len(),
    ensures
        final(nodes)@.len() == old(nodes)@.len(),
        nodes_view(final(nodes)@) == nodes_view(old(nodes)@).update(
            j as int,
            TaskNodeView {
                in_degree: if nodes_view(old(nodes)@)[j as int].in_degree > 0 {
                    (nodes_view(old(nodes)@)[j as int].in_degree - 1) as nat
                } else {
                    0
                },
                ..nodes_view(old(nodes)@)[j as int]
            },
        ),
{
    let d = nodes[j].in_degree;
    if d > 0 {
        nodes[j].in_degree = d - 1;
    }
    assert(nodes_view(nodes@) =~= nodes_view(old(nodes)@).update(
        j as int,
        TaskNodeView {
            in_degree: if nodes_view(old(nodes)@)[j as int].in_degree > 0 {
                (nodes_view(old(nodes)@)[j as int].in_degree - 1) as nat
            } else {
                0
            },
            ..nodes_view(old(nodes)@)[j as int]
        },
    ));
}

/// Adds the edge from `parent` to `child` to the nodes of a graph.
fn add_edge_to_nodes(nodes: &mut Vec<TaskNode>, parent: &String, child: &String)
    requires
        graph_wf(nodes_view(old(nodes)@)),
        has_task(nodes_view(old(nodes)@), parent@) && has_task(nodes_view(old(nodes)@), child@)
            ==> nodes_view(old(nodes)@)[position_of(
            nodes_view(old(nodes)@),
            child@,
        )].in_degree < usize::MAX,
    ensures
        nodes_view(final(nodes)@) == add_edge(nodes_view(old(nodes)@), parent@, child@),
{
    let ghost s = nodes_view(nodes@);
    let p = find_node(nodes, parent);
    let c = find_node(nodes, child);
    match (p, c) {
        (Some(p), Some(c)) => {
            let present = contains_string(&nodes[p].children, child);
            if !present {
                let extra = child.clone();
                nodes[p].children.push(extra);
                assert(nodes@[p as int].children.deep_view() =~= s[p as int].children.push(child@));
            }
            let ghost s1 = nodes_view(nodes@);
            assert(s1 =~= if s[p as int].children.contains(child@) {
                s
            } else {
                s.update(p as int, TaskNodeView { children: s[p as int].children.push(child@), ..s[p as int] })
            });
            let d = nodes[c].in_degree;
            nodes[c].in_degree = d + 1;
            assert(nodes_view(nodes@) =~= s1.update(c as int, TaskNodeView { in_degree: s1[c as int].in_degree + 1, ..s1[c as int] }));
        },
        _ => {},
    }
}

/// A graph of tasks keyed by their ids.
#[derive(Debug)]
pub struct Dag {
    nodes: Vec<TaskNode>,
}

impl View for Dag {
    type V = Seq<TaskNodeView>;

    closed spec fn view(&self) -> Seq<TaskNodeView> {
        nodes_view(self.nodes@)
    }
}

impl Clone for Dag {
    fn clone(&self) -> (r: Self)
        ensures
            graph_wf(r@),
            r@ == self@,
    {
        proof {
            use_type_invariant(self);
        }
        let mut nodes: Vec<TaskNode> = Vec::new();
        let mut i: usize = 0;
        while i < self.nodes.len()
            invariant
                i <= self.nodes@.len(),
                nodes@.len() == i,
                forall|j: int| 0 <= j < i ==> #[trigger] nodes@[j]@ == self.nodes@[j]@,
            decreases self.nodes@.len() - i,
        {
            nodes.push(self.nodes[i].clone());
            i += 1;
        }
        assert(nodes_view(nodes@) =~= nodes_view(self.nodes@));
        Dag { nodes }
    }
}

impl Default for Dag {
    fn default() -> (r: Self)
        ensures
            graph_wf(r@),
            r@ == Seq::<TaskNodeView>::empty(),
    {
        Dag::new()
    }
}

impl Dag {
    #[verifier::type_invariant]
    closed spec fn inv(self) -> bool {
        graph_wf(nodes_view(self.nodes@))
    }

    /// An empty graph.
    pub fn new() -> (r: Self)
        ensures
            graph_wf(r@),
            r@ == Seq::<TaskNodeView>::empty(),
            counts_cover_edges(r@),
            waits_cover(r@),
    {
        let r = Dag { nodes: Vec::new() };
        assert(r@ =~= Seq::<TaskNodeView>::empty());
        r
    }

    /// Adds the task `spec`: a new pending node unless a task with its id is
    /// already there (that one is then kept unchanged), and then, in order, the
    /// edge from each of its dependencies that is already in the graph.
    pub fn add_task(&mut self, spec: TaskSpec)
        requires
            has_task(old(self)@, spec@.task_id) ==> old(self)@[position_of(
                old(self)@,
                spec@.task_id,
            )].in_degree + present_count(old(self)@, spec@.dependencies) <= usize::MAX,
        ensures
            graph_wf(old(self)@),
            graph_wf(final(self)@),
            final(self)@ == insert_task(old(self)@, spec@),
            counts_cover_edges(old(self)@) ==> counts_cover_edges(final(self)@),
            waits_cover(old(self)@) ==> waits_cover(final(self)@),
    {
        proof {
            use_type_invariant(&*self);
            if counts_cover_edges(old(self)@) {
                lemma_insert_task_keeps_cover(old(self)@, spec@);
            }
            if waits_cover(old(self)@) {
                lemma_insert_task_keeps_waits(old(self)@, spec@);
            }
        }
        let ghost sv = spec@;
        let id = spec.task_id.clone();
        let deps = crate::protocol::clone_strings(&spec.dependencies);
        let mut nodes: Vec<TaskNode> = Vec::new();
        std::mem::swap(&mut nodes, &mut self.nodes);
        let ghost s0 = nodes_view(nodes@);
        let c = match find_node(&nodes, &id) {
            Some(c) => c,
            None => {
                let n = nodes.len();
                nodes.push(
                    TaskNode { spec, status: TaskStatus::Pending, children: Vec::new(), in_degree: 0 },
                );
                assert(nodes@[n as int]@.children =~= Seq::<Seq<char>>::empty());
                assert(nodes_view(nodes@) =~= s0.push(
                    TaskNodeView {
                        spec: sv,
                        status: TaskStatus::Pending,
                        children: Seq::empty(),
                        in_degree: 0,
                    },
                ));
                assert(nodes_view(nodes@)[n as int].spec.task_id == id@);
                n
            },
        };
        let ghost s1 = nodes_view(nodes@);
        assert(graph_wf(s1)) by {
            if !has_task(s0, id@) {
                assert forall|i: int, j: int|
                    0 <= i < s1.len() && 0 <= j < s1.len() && #[trigger] s1[i].spec.task_id
                        == #[trigger] s1[j].spec.task_id implies i == j by {
                    if i < s0.len() && j == s0.len() {
                        assert(s0[i].spec.task_id == id@);
                    }
                    if j < s0.len() && i == s0.len() {
                        assert(s0[j].spec.task_id == id@);
                    }
                }
                assert(s1[s0.len() as int].children =~= Seq::<Seq<char>>::empty());
                assert forall|a: int, k: int|
                    0 <= a < s1.len() && 0 <= k < s1[a].children.len() implies has_task(
                        s1,
                        #[trigger] s1[a].children[k],
                    ) by {
                    if a < s0.len() {
                        assert(s1[a] == s0[a]);
                        assert(has_task(s0, s0[a].children[k]));
                        let w = choose|w: int| 0 <= w < s0.len() && #[trigger] s0[w].spec.task_id == s0[a].children[k];
                        assert(s1[w].spec.task_id == s0[w].spec.task_id);
                    }
                }
            }
        }
        let ghost d = deps.deep_view();
        let dlen = deps.len();
        assert(d.len() == dlen);
        assert(s0 == old(self)@);
        proof {
            lemma_present_count_prefix(s1, d, 0);
            assert(d.take(0) =~= Seq::<Seq<char>>::empty());
        }
        let mut k: usize = 0;
        while k < deps.len()
            invariant
                k <= deps@.len(),
                d == deps.deep_view(),
                d == sv.dependencies,
                id@ == sv.task_id,
                c < s1.len(),
                s1[c as int].spec.task_id == id@,
                s1[c as int].in_degree + present_count(s1, d) <= usize::MAX,
                nodes_view(nodes@) == add_edges(s1, d.take(k as int), id@),
                graph_wf(nodes_view(nodes@)),
                nodes_view(nodes@).len() == s1.len(),
                forall|i: int| 0 <= i < s1.len() ==> #[trigger] nodes_view(nodes@)[i].spec == s1[i].spec,
                nodes_view(nodes@)[c as int].in_degree <= s1[c as int].in_degree + present_count(
                    s1,
                    d.take(k as int),
                ),
            decreases deps@.len() - k,
        {
            let ghost cur = nodes_view(nodes@);
            proof {
                lemma_position_of(cur, c as int);
                lemma_add_edge_degree(cur, d[k as int], id@, c as int);
                lemma_add_edge_wf(cur, d[k as int], id@);
                lemma_same_ids(s1, cur);
                assert(d.take(k + 1).drop_last() =~= d.take(k as int));
                assert(d.take(k + 1).last() == d[k as int]);
                lemma_present_count_prefix(s1, d, k + 1);
            }
            add_edge_to_nodes(&mut nodes, &deps[k], &id);
            k += 1;
        }
        assert(d.take(d.len() as int) =~= d);
        self.nodes = nodes;
    }

    /// The specifications of the tasks that can start now (pending, with every
    /// dependency met), in the order the tasks were added.
    pub fn get_ready_tasks(&self) -> (r: Vec<TaskSpec>)
        ensures
            graph_wf(self@),
            r@.map_values(|t: TaskSpec| t@) == ready_specs(self@),
            r@.map_values(|t: TaskSpec| t.task_id@).no_duplicates(),
    {
        proof {
            use_type_invariant(self);
        }
        let ghost s = self@;
        let mut out: Vec<TaskSpec> = Vec::new();
        let mut i: usize = 0;
        while i < self.nodes.len()
            invariant
                i <= s.len(),
                graph_wf(s),
                s == nodes_view(self.nodes@),
                out@.map_values(|t: TaskSpec| t@) == ready_specs(s.take(i as int)),
            decreases s.len() - i,
        {
            assert(s.take(i + 1).drop_last() =~= s.take(i as int));
            assert(s.take(i + 1).last() == s[i as int]);
            if self.nodes[i].status == TaskStatus::Pending && self.nodes[i].in_degree == 0 {
                let t = self.nodes[i].spec.clone();
                out.push(t);
                assert(out@.map_values(|t: TaskSpec| t@) =~= ready_specs(s.take(i as int)).push(
                    s[i as int].spec,
                ));
            }
            i += 1;
        }
        assert(s.take(s.len() as int) =~= s);
        proof {
            lemma_ready_ids_distinct(s);
            assert(out@.map_values(|t: TaskSpec| t.task_id@) =~= ready_specs(s).map_values(
                |t: TaskSpecView| t.task_id,
            ));
        }
        out
    }

    /// Moves a pending task to running. Fails, changing nothing, when no task
    /// has the id or when the task is not pending.
    pub fn mark_running(&mut self, task_id: &str) -> (r: Result<(), DagError>)
        ensures
            graph_wf(old(self)@),
            graph_wf(final(self)@),
            match r {
                Ok(()) => has_task(old(self)@, task_id@) && old(self)@[position_of(
                    old(self)@,
                    task_id@,
                )].status == TaskStatus::Pending && final(self)@ == with_status(
                    old(self)@,
                    task_id@,
                    TaskStatus::Running,
                ),
                Err(DagError::TaskNotFound(m)) => !has_task(old(self)@, task_id@) && m@
                    == task_id@ && final(self)@ == old(self)@,
                Err(DagError::InvalidStatusTransition(m)) => has_task(old(self)@, task_id@)
                    && old(self)@[position_of(old(self)@, task_id@)].status
                    != TaskStatus::Pending && m@ == not_pending_message(task_id@) && final(self)@
                    == old(self)@,
                Err(DagError::CyclicDependency) => false,
            },
            r is Ok ==> forall|t: TaskSpecView|
                ready_specs(final(self)@).contains(t) ==> t.task_id != task_id@,
            waits_cover(old(self)@) ==> waits_cover(final(self)@),
    {
        proof {
            use_type_invariant(&*self);
        }
        let id = task_id.to_owned();
        match find_node(&self.nodes, &id) {
            None => Err(DagError::TaskNotFound(id)),
            Some(i) => {
                if self.nodes[i].status != TaskStatus::Pending {
                    let mut msg = String::from_str("Task ");
                    msg.append(task_id);
                    msg.append(" is not Pending");
                    return Err(DagError::InvalidStatusTransition(msg));
                }
                let mut nodes: Vec<TaskNode> = Vec::new();
                std::mem::swap(&mut nodes, &mut self.nodes);
                set_status(&mut nodes, i, TaskStatus::Running);
                proof {
                    if waits_cover(old(self)@) {
                        lemma_with_status_keeps_waits(old(self)@, id@, TaskStatus::Running);
                    }
                    let f = nodes_view(nodes@);
                    lemma_ready_specs_members(f);
                    assert forall|t: TaskSpecView| ready_specs(f).contains(t) implies t.task_id
                        != task_id@ by {
                        let j = choose|j: int| 0 <= j < f.len() && is_ready(#[trigger] f[j]) && f[j].spec == t;
                        if t.task_id == task_id@ {
                            assert(f[i as int].spec.task_id == task_id@);
                        }
                    }
                }
                self.nodes = nodes;
                Ok(())
            },
        }
    }

    /// Marks a task as completed, whatever its state, and tells each of its
    /// dependents that one more dependency is met. Returns the specifications
    /// of the dependents that are then pending with no unmet dependency. Fails,
    /// changing nothing, when no task has the id.
    pub fn mark_completed(&mut self, task_id: &str) -> (r: Result<Vec<TaskSpec>, DagError>)
        ensures
            graph_wf(old(self)@),
            graph_wf(final(self)@),
            match r {
                Ok(v) => has_task(old(self)@, task_id@) && final(self)@ == complete_task(
                    old(self)@,
                    task_id@,
                ).0 && v@.map_values(|t: TaskSpec| t@) == complete_task(old(self)@, task_id@).1,
                Err(DagError::TaskNotFound(m)) => !has_task(old(self)@, task_id@) && m@
                    == task_id@ && final(self)@ == old(self)@,
                Err(_) => false,
            },
            waits_cover(old(self)@) && (has_task(old(self)@, task_id@) ==> old(self)@[position_of(
                old(self)@,
                task_id@,
            )].status != TaskStatus::Completed) ==> waits_cover(final(self)@),
    {
        proof {
            use_type_invariant(&*self);
            if waits_cover(old(self)@) && has_task(old(self)@, task_id@) && old(self)@[position_of(
                old(self)@,
                task_id@,
            )].status != TaskStatus::Completed {
                lemma_complete_keeps_waits(old(self)@, task_id@);
            }
        }
        let id = task_id.to_owned();
        let i = match find_node(&self.nodes, &id) {
            None => {
                return Err(DagError::TaskNotFound(id));
            },
            Some(i) => i,
        };
        let ghost s0 = self@;
        let mut nodes: Vec<TaskNode> = Vec::new();
        std::mem::swap(&mut nodes, &mut self.nodes);
        set_status(&mut nodes, i, TaskStatus::Completed);
        assert(nodes@.len() == s0.len());
        let children = crate::protocol::clone_strings(&nodes[i].children);
        assert(nodes_view(nodes@)[i as int].children == s0[i as int].children);
        let ghost ch = children.deep_view();
        let ghost start = (nodes_view(nodes@), Seq::<TaskSpecView>::empty());
        assert(start.0 == with_status(s0, id@, TaskStatus::Completed));
        assert(graph_wf(start.0)) by {
            assert forall|a: int|
                0 <= a < s0.len() implies #[trigger] start.0[a].spec.task_id == s0[a].spec.task_id
                    && start.0[a].children == s0[a].children by {}
            lemma_same_shape(s0, start.0);
        }
        let mut newly_ready: Vec<TaskSpec> = Vec::new();
        let mut k: usize = 0;
        while k < children.len()
            invariant
                k <= ch.len(),
                ch == children.deep_view(),
                ch == s0[position_of(s0, id@)].children,
                start.0.len() == s0.len(),
                (nodes_view(nodes@), newly_ready@.map_values(|t: TaskSpec| t@)) == release_children(
                    start,
                    ch.take(k as int),
                ),
                nodes_view(nodes@).len() == start.0.len(),
                forall|a: int|
                    0 <= a < start.0.len() ==> #[trigger] nodes_view(nodes@)[a].spec
                        == start.0[a].spec,
                forall|a: int|
                    0 <= a < start.0.len() ==> #[trigger] nodes_view(nodes@)[a].children
                        == start.0[a].children,
                graph_wf(start.0),
            decreases ch.len() - k,
        {
            let ghost cur = nodes_view(nodes@);
            let ghost rdy = newly_ready@.map_values(|t: TaskSpec| t@);
            assert(ch.take(k + 1).drop_last() =~= ch.take(k as int));
            assert(graph_wf(cur)) by {
                assert forall|a: int|
                    0 <= a < start.0.len() implies #[trigger] cur[a].spec.task_id == start.0[a].spec.task_id
                        && cur[a].children == start.0[a].children by {
                    assert(cur[a].spec == start.0[a].spec);
                    assert(cur[a].children == start.0[a].children);
                }
                lemma_same_shape(start.0, cur);
            }
            match find_node(&nodes, &children[k]) {
                Some(j) => {
                    lower_count(&mut nodes, j);
                    assert(nodes_view(nodes@) =~= release_child((cur, rdy), ch[k as int]).0);
                    assert(nodes_view(nodes@)[j as int] == nodes@[j as int]@);
                    assert(nodes_view(nodes@)[j as int].spec == cur[j as int].spec);
                    assert(nodes_view(nodes@)[j as int].status == cur[j as int].status);
                    if nodes[j].in_degree == 0 && nodes[j].status == TaskStatus::Pending {
                        let t = nodes[j].spec.clone();
                        newly_ready.push(t);
                        assert(newly_ready@.map_values(|t: TaskSpec| t@) =~= rdy.push(cur[j as int].spec));
                    }
                    assert(nodes_view(nodes@) =~= release_child((cur, rdy), ch[k as int]).0);
                },
                None => {},
            }
            assert forall|a: int| 0 <= a < start.0.len() implies #[trigger] nodes_view(nodes@)[a].spec
                == start.0[a].spec by {
                assert(cur[a].spec == start.0[a].spec);
                assert(nodes_view(nodes@)[a].spec == cur[a].spec);
            }
            assert forall|a: int| 0 <= a < start.0.len() implies #[trigger] nodes_view(nodes@)[a].children
                == start.0[a].children by {
                assert(cur[a].children == start.0[a].children);
                assert(nodes_view(nodes@)[a].children == cur[a].children);
            }
            k += 1;
        }
        assert(ch.take(ch.len() as int) =~= ch);
        assert(graph_wf(nodes_view(nodes@))) by {
            let fin = nodes_view(nodes@);
            assert forall|a: int|
                0 <= a < start.0.len() implies #[trigger] fin[a].spec.task_id == start.0[a].spec.task_id
                    && fin[a].children == start.0[a].children by {
                assert(fin[a].spec == start.0[a].spec);
                assert(fin[a].children == start.0[a].children);
            }
            lemma_same_shape(start.0, fin);
        }
        self.nodes = nodes;
        Ok(newly_ready)
    }

    /// Marks a task as failed, whatever its state. Fails, changing nothing,
    /// when no task has the id.
    pub fn mark_failed(&mut self, task_id: &str) -> (r: Result<(), DagError>)
        ensures
            graph_wf(old(self)@),
            graph_wf(final(self)@),
            match r {
                Ok(()) => has_task(old(self)@, task_id@) && final(self)@ == with_status(
                    old(self)@,
                    task_id@,
                    TaskStatus::Failed,
                ),
                Err(DagError::TaskNotFound(m)) => !has_task(old(self)@, task_id@) && m@
                    == task_id@ && final(self)@ == old(self)@,
                Err(_) => false,
            },
            waits_cover(old(self)@) && (has_task(old(self)@, task_id@) ==> old(self)@[position_of(
                old(self)@,
                task_id@,
            )].status != TaskStatus::Completed) ==> waits_cover(final(self)@),
    {
        proof {
            use_type_invariant(&*self);
            if waits_cover(old(self)@) && has_task(old(self)@, task_id@) && old(self)@[position_of(
                old(self)@,
                task_id@,
            )].status != TaskStatus::Completed {
                lemma_with_status_keeps_waits(old(self)@, task_id@, TaskStatus::Failed);
            }
        }
        let id = task_id.to_owned();
        match find_node(&self.nodes, &id) {
            None => Err(DagError::TaskNotFound(id)),
            Some(i) => {
                let mut nodes: Vec<TaskNode> = Vec::new();
                std::mem::swap(&mut nodes, &mut self.nodes);
                set_status(&mut nodes, i, TaskStatus::Failed);
                self.nodes = nodes;
                Ok(())
            },
        }
    }

    /// Whether every task has completed or failed.
    pub fn is_finished(&self) -> (r: bool)
        ensures
            graph_wf(self@),
            r == all_done(self@),
            r == !(exists|i: int|
                0 <= i < self@.len() && (self@[i].status == TaskStatus::Pending || self@[i].status
                    == TaskStatus::Running)),
    {
        proof {
            lemma_done_means_nothing_left(self@);
        }
        proof {
            use_type_invariant(self);
        }
        let ghost s = self@;
        let mut i: usize = 0;
        while i < self.nodes.len()
            invariant
                i <= s.len(),
                graph_wf(s),
                s == nodes_view(self.nodes@),
                forall|j: int|
                    0 <= j < i ==> (#[trigger] s[j].status == TaskStatus::Completed || s[j].status
                        == TaskStatus::Failed),
            decreases s.len() - i,
        {
            let st = self.nodes[i].status;
            if !(st == TaskStatus::Completed || st == TaskStatus::Failed) {
                assert(s[i as int].status == st);
                return false;
            }
            i += 1;
        }
        true
    }

    /// Checks the graph by Kahn's algorithm over the recorded dependency
    /// counts: succeeds when every task is reached, that is when each count is
    /// exactly the task's number of incoming edges and the tasks can be ordered
    /// so that every edge goes forward; fails with `CyclicDependency` otherwise.
    /// Asks that no count be lowered below zero on the way (see `can_validate`).
    pub fn validate_dag(&self) -> (r: Result<(), DagError>)
        requires
            counts_suffice(self@),
        ensures
            graph_wf(self@),
            r is Ok <==> schedulable(self@),
            r is Ok <==> (forall|i: int| 0 <= i < self@.len() ==> #[trigger] kahn_closure(self@).contains(i)),
            r is Err ==> r matches Err(DagError::CyclicDependency),
    {
        proof {
            use_type_invariant(self);
        }
        match kahn_reached(&self.nodes) {
            Some(visited_count) => {
                if visited_count == self.nodes.len() {
                    Ok(())
                } else {
                    Err(DagError::CyclicDependency)
                }
            },
            None => {
                proof {
                    assert(false);
                }
                Err(DagError::CyclicDependency)
            },
        }
    }

    /// Whether `validate_dag` can run: whether Kahn's algorithm over the
    /// recorded counts never lowers a count below zero. It holds of every graph
    /// built by `new`, `add_task` and `add_dependency`.
    pub fn can_validate(&self) -> (r: bool)
        ensures
            graph_wf(self@),
            r == counts_suffice(self@),
    {
        proof {
            use_type_invariant(self);
        }
        kahn_reached(&self.nodes).is_some()
    }

    /// Whether every task's count of unmet dependencies is at least its number
    /// of incoming edges. Building the graph keeps this; counts only drop below
    /// it when `mark_completed` has released dependents.
    pub fn has_consistent_counts(&self) -> (r: bool)
        ensures
            graph_wf(self@),
            r == counts_cover_edges(self@),
    {
        proof {
            use_type_invariant(self);
        }
        let ghost s = self@;
        let n = self.nodes.len();
        let mut j: usize = 0;
        while j < n
            invariant
                n == s.len(),
                graph_wf(s),
                s == nodes_view(self.nodes@),
                j <= n,
                forall|u: int| 0 <= u < j ==> #[trigger] s[u].in_degree >= parent_count(s, u),
            decreases n - j,
        {
            let mut count: usize = 0;
            let mut i: usize = 0;
            while i < n
                invariant
                    n == s.len(),
                    graph_wf(s),
                    s == nodes_view(self.nodes@),
                    j < n,
                    i <= n,
                    count == parents_in(s, j as int, vstd::set_lib::set_int_range(0, n as int), i as int),
                    count <= i,
                decreases n - i,
            {
                if contains_string(&self.nodes[i].children, &self.nodes[j].spec.task_id) {
                    assert(edge(s, i as int, j as int));
                    count += 1;
                } else {
                    assert(!edge(s, i as int, j as int));
                }
                i += 1;
            }
            if self.nodes[j].in_degree < count {
                assert(s[j as int].in_degree < parent_count(s, j as int));
                return false;
            }
            j += 1;
        }
        true
    }

    /// Adds the edge from the task `parent_id` to the task `child_id`; where
    /// either task is missing, the graph stays as it is. Always succeeds.
    pub fn add_dependency(&mut self, parent_id: &str, child_id: &str) -> (r: Result<(), DagError>)
        requires
            has_task(old(self)@, parent_id@) && has_task(old(self)@, child_id@) ==> old(self)@[position_of(
                old(self)@,
                child_id@,
            )].in_degree < usize::MAX,
        ensures
            graph_wf(old(self)@),
            graph_wf(final(self)@),
            r is Ok,
            final(self)@ == add_edge(old(self)@, parent_id@, child_id@),
            counts_cover_edges(old(self)@) ==> counts_cover_edges(final(self)@),
            waits_cover(old(self)@) ==> waits_cover(final(self)@),
    {
        proof {
            use_type_invariant(&*self);
            if counts_cover_edges(old(self)@) {
                lemma_add_edge_keeps_cover(old(self)@, parent_id@, child_id@);
            }
            if waits_cover(old(self)@) {
                lemma_add_edge_keeps_waits(old(self)@, parent_id@, child_id@);
            }
        }
        let parent = parent_id.to_owned();
        let child = child_id.to_owned();
        let mut nodes: Vec<TaskNode> = Vec::new();
        std::mem::swap(&mut nodes, &mut self.nodes);
        add_edge_to_nodes(&mut nodes, &parent, &child);
        proof {
            lemma_add_edge_wf(nodes_view(old(self).nodes@), parent@, child@);
        }
        self.nodes = nodes;
        Ok(())
    }
}

} // verus!
