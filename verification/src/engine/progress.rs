//! Why a task that the graph reports as ready may run: while every count of
//! unmet dependencies is at least the number of its dependencies that have
//! not completed, a task whose count is zero has all its dependencies done.
//! Building the graph and moving tasks through their states keep that bound.
use vstd::prelude::*;
use crate::protocol::TaskSpecView;
use crate::engine::graph::{
    TaskNodeView, TaskStatus, graph_wf, has_task, position_of, with_status, complete_task,
    release_child, release_children, add_edge, insert_task, counts_cover_in, lemma_same_shape,
    lemma_add_edge_wf, lemma_add_edge_keeps_cover_in, lemma_cover_in_ext,
    lemma_insert_task_keeps_cover_in, is_ready, ready_specs, lemma_ready_specs_members,
};
use crate::engine::topo::{
    edge, parents_in, counts_cover_edges, lemma_parents_in_frame, lemma_parents_in_insert,
    lemma_parents_in_all, lemma_parents_in_ext,
};

verus! {

/// The positions of the tasks that have not completed.
pub open spec fn unfinished(s: Seq<TaskNodeView>) -> Set<int> {
    Set::new(|i: int| 0 <= i < s.len() && s[i].status != TaskStatus::Completed)
}

/// Every task's count of unmet dependencies is at least the number of its
/// dependencies that have not completed.
pub open spec fn waits_cover(s: Seq<TaskNodeView>) -> bool {
    counts_cover_in(s, unfinished(s))
}

proof fn lemma_parents_in_zero(s: Seq<TaskNodeView>, j: int, m: Set<int>, k: int)
    requires
        parents_in(s, j, m, k) == 0,
    ensures
        forall|i: int| 0 <= i < k && m.contains(i) ==> !edge(s, i, j),
    decreases k,
{
    if k > 0 {
        lemma_parents_in_zero(s, j, m, k - 1);
    }
}

/// Graphs whose nodes differ only in their counts and states have the same edges.
proof fn lemma_same_edges(s: Seq<TaskNodeView>, t: Seq<TaskNodeView>, j: int, m: Set<int>)
    requires
        s.len() == t.len(),
        0 <= j < s.len(),
        forall|i: int|
            0 <= i < s.len() ==> #[trigger] t[i].spec == s[i].spec && t[i].children
                == s[i].children,
    ensures
        parents_in(t, j, m, t.len() as int) == parents_in(s, j, m, s.len() as int),
{
    assert forall|i: int| 0 <= i < s.len() && i != -1 implies edge(s, i, j) == edge(t, i, j) by {
        assert(t[i].spec == s[i].spec);
        assert(t[j].spec == s[j].spec);
    }
    lemma_parents_in_frame(s, t, j, m, s.len() as int, -1);
}

/// A task with no unmet dependency, in a graph whose counts cover the
/// dependencies that have not completed, has every dependency completed.
pub proof fn lemma_ready_parents_completed(s: Seq<TaskNodeView>, j: int)
    requires
        waits_cover(s),
        0 <= j < s.len(),
        s[j].in_degree == 0,
    ensures
        forall|i: int| 0 <= i < s.len() && edge(s, i, j) ==> s[i].status == TaskStatus::Completed,
{
    lemma_parents_in_zero(s, j, unfinished(s), s.len() as int);
    assert forall|i: int| 0 <= i < s.len() && edge(s, i, j) implies s[i].status
        == TaskStatus::Completed by {
        if s[i].status != TaskStatus::Completed {
            assert(unfinished(s).contains(i));
        }
    }
}

/// Counts that cover all incoming edges cover those from tasks that have not completed.
pub proof fn lemma_cover_gives_waits(s: Seq<TaskNodeView>)
    requires
        counts_cover_edges(s),
    ensures
        waits_cover(s),
{
    assert forall|j: int| 0 <= j < s.len() implies #[trigger] s[j].in_degree >= parents_in(
        s,
        j,
        unfinished(s),
        s.len() as int,
    ) by {
        lemma_parents_in_all(s, j, unfinished(s), s.len() as int);
    }
}

/// Adding an edge keeps the counts covering the dependencies not yet completed.
pub proof fn lemma_add_edge_keeps_waits(s: Seq<TaskNodeView>, parent: Seq<char>, child: Seq<char>)
    requires
        graph_wf(s),
        waits_cover(s),
    ensures
        waits_cover(add_edge(s, parent, child)),
{
    let t = add_edge(s, parent, child);
    lemma_add_edge_wf(s, parent, child);
    lemma_add_edge_keeps_cover_in(s, parent, child, unfinished(s));
    assert forall|i: int| 0 <= i < t.len() implies (unfinished(s).contains(i) <==> unfinished(
        t,
    ).contains(i)) by {
        assert(t[i].spec == s[i].spec);
    }
    lemma_cover_in_ext(t, unfinished(s), unfinished(t));
}

/// Adding a task keeps the counts covering the dependencies not yet completed.
pub proof fn lemma_insert_task_keeps_waits(s: Seq<TaskNodeView>, spec: TaskSpecView)
    requires
        graph_wf(s),
        waits_cover(s),
    ensures
        waits_cover(insert_task(s, spec)),
{
    let t = insert_task(s, spec);
    lemma_insert_task_keeps_cover_in(s, spec, unfinished(s));
    assert forall|i: int| 0 <= i < s.len() implies (unfinished(s).contains(i) <==> unfinished(
        t,
    ).contains(i)) by {
        assert(t[i].status == s[i].status);
    }
    lemma_cover_in_ext(s, unfinished(s), unfinished(t));
    lemma_insert_task_keeps_cover_in(s, spec, unfinished(t));
}

/// Moving a task between two states other than completed keeps the counts
/// covering the dependencies not yet completed.
pub proof fn lemma_with_status_keeps_waits(s: Seq<TaskNodeView>, id: Seq<char>, st: TaskStatus)
    requires
        waits_cover(s),
        has_task(s, id),
        s[position_of(s, id)].status != TaskStatus::Completed,
        st != TaskStatus::Completed,
    ensures
        waits_cover(with_status(s, id, st)),
{
    let t = with_status(s, id, st);
    let p = position_of(s, id);
    assert forall|j: int| 0 <= j < t.len() implies #[trigger] t[j].in_degree >= parents_in(
        t,
        j,
        unfinished(t),
        t.len() as int,
    ) by {
        assert forall|i: int| 0 <= i < s.len() implies #[trigger] t[i].spec == s[i].spec
            && t[i].children == s[i].children by {}
        lemma_same_edges(s, t, j, unfinished(t));
        lemma_parents_in_ext(s, j, unfinished(s), unfinished(t), s.len() as int);
        assert(s[j].in_degree >= parents_in(s, j, unfinished(s), s.len() as int));
    }
}

proof fn lemma_contains_push(ch: Seq<Seq<char>>, c: Seq<char>, x: Seq<char>)
    ensures
        ch.push(c).contains(x) <==> (ch.contains(x) || x == c),
{
    if ch.push(c).contains(x) && x != c {
        let k = choose|k: int| 0 <= k < ch.push(c).len() && ch.push(c)[k] == x;
        assert(ch[k] == x);
    }
    if ch.contains(x) {
        let k = choose|k: int| 0 <= k < ch.len() && ch[k] == x;
        assert(ch.push(c)[k] == x);
    }
    if x == c {
        assert(ch.push(c)[ch.len() as int] == x);
    }
}

/// A count lowered by one, not below zero.
pub open spec fn lowered(d: nat) -> nat {
    if d > 0 {
        (d - 1) as nat
    } else {
        0
    }
}

/// The node `n` after each of `ch` is told that a dependency is met: its
/// count lowered by one (not below zero) where `ch` lists it.
pub open spec fn released_node(n: TaskNodeView, ch: Seq<Seq<char>>) -> TaskNodeView {
    TaskNodeView {
        in_degree: if ch.contains(n.spec.task_id) {
            lowered(n.in_degree)
        } else {
            n.in_degree
        },
        ..n
    }
}

/// Telling each of a list of distinct known dependents that a dependency is
/// met lowers each listed count by one (not below zero) and changes nothing
/// else in the graph.
proof fn lemma_release_children(st: (Seq<TaskNodeView>, Seq<TaskSpecView>), ch: Seq<Seq<char>>)
    requires
        graph_wf(st.0),
        ch.no_duplicates(),
        forall|k: int| 0 <= k < ch.len() ==> has_task(st.0, #[trigger] ch[k]),
    ensures
        release_children(st, ch).0.len() == st.0.len(),
        forall|j: int|
            0 <= j < st.0.len() ==> #[trigger] release_children(st, ch).0[j] == released_node(
                st.0[j],
                ch,
            ),
    decreases ch.len(),
{
    let s = st.0;
    if ch.len() == 0 {
        assert(release_children(st, ch) == st);
        assert forall|j: int| 0 <= j < s.len() implies #[trigger] release_children(st, ch).0[j]
            == released_node(s[j], ch) by {
            assert(!ch.contains(s[j].spec.task_id));
            assert(released_node(s[j], ch) =~= s[j]);
        }
    } else {
        let pre = ch.drop_last();
        let c = ch.last();
        assert(ch =~= pre.push(c));
        assert forall|a: int, b: int|
            0 <= a < pre.len() && 0 <= b < pre.len() && a != b implies pre[a] != pre[b] by {
            assert(pre[a] == ch[a] && pre[b] == ch[b]);
        }
        assert forall|k: int| 0 <= k < pre.len() implies has_task(s, #[trigger] pre[k]) by {
            assert(pre[k] == ch[k]);
        }
        lemma_release_children(st, pre);
        let mid = release_children(st, pre);
        let r = mid.0;
        assert forall|i: int| 0 <= i < s.len() implies #[trigger] r[i].spec.task_id
            == s[i].spec.task_id && r[i].children == s[i].children by {
            assert(r[i] == released_node(s[i], pre));
        }
        lemma_same_shape(s, r);
        assert(!pre.contains(c)) by {
            if pre.contains(c) {
                let k = choose|k: int| 0 <= k < pre.len() && pre[k] == c;
                assert(ch[k] == ch[ch.len() - 1]);
            }
        }
        assert(has_task(s, ch[ch.len() - 1]));
        let j0 = position_of(r, c);
        assert(r[j0] == released_node(s[j0], pre));
        assert(r[j0].spec.task_id == c);
        lemma_contains_push(pre, c, c);
        let fin = release_children(st, ch);
        assert(ch.drop_last() == pre);
        assert(fin == release_child(mid, c));
        assert forall|j: int| 0 <= j < s.len() implies #[trigger] release_children(st, ch).0[j]
            == released_node(s[j], ch) by {
            assert(r[j] == released_node(s[j], pre));
            lemma_contains_push(pre, c, s[j].spec.task_id);
            if j != j0 {
                assert(s[j].spec.task_id != c) by {
                    if s[j].spec.task_id == c {
                        assert(s[j0].spec.task_id == c);
                    }
                }
                assert(fin.0[j] == r[j]);
                assert(released_node(s[j], ch) =~= released_node(s[j], pre));
            } else {
                assert(!pre.contains(s[j].spec.task_id));
                assert(fin.0[j] =~= released_node(s[j], ch));
            }
        }
    }
}

/// The specifications collected while each of a list of distinct known
/// dependents is told that a dependency is met: those collected before, and
/// those of the listed tasks that are then pending with no unmet dependency.
proof fn lemma_release_children_ready(st: (Seq<TaskNodeView>, Seq<TaskSpecView>), ch: Seq<Seq<char>>)
    requires
        graph_wf(st.0),
        ch.no_duplicates(),
        forall|k: int| 0 <= k < ch.len() ==> has_task(st.0, #[trigger] ch[k]),
    ensures
        forall|t: TaskSpecView|
            release_children(st, ch).1.contains(t) <==> (st.1.contains(t) || exists|j: int|
                0 <= j < st.0.len() && ch.contains(st.0[j].spec.task_id) && is_ready(
                    #[trigger] released_node(st.0[j], ch),
                ) && st.0[j].spec == t),
    decreases ch.len(),
{
    let s = st.0;
    lemma_release_children(st, ch);
    if ch.len() == 0 {
        assert(release_children(st, ch) == st);
    } else {
        let pre = ch.drop_last();
        let c = ch.last();
        assert(ch =~= pre.push(c));
        assert forall|a: int, b: int|
            0 <= a < pre.len() && 0 <= b < pre.len() && a != b implies pre[a] != pre[b] by {
            assert(pre[a] == ch[a] && pre[b] == ch[b]);
        }
        assert forall|k: int| 0 <= k < pre.len() implies has_task(s, #[trigger] pre[k]) by {
            assert(pre[k] == ch[k]);
        }
        lemma_release_children(st, pre);
        lemma_release_children_ready(st, pre);
        let mid = release_children(st, pre);
        let r = mid.0;
        assert forall|i: int| 0 <= i < s.len() implies #[trigger] r[i].spec.task_id
            == s[i].spec.task_id && r[i].children == s[i].children by {
            assert(r[i] == released_node(s[i], pre));
        }
        lemma_same_shape(s, r);
        assert(!pre.contains(c)) by {
            if pre.contains(c) {
                let k = choose|k: int| 0 <= k < pre.len() && pre[k] == c;
                assert(ch[k] == ch[ch.len() - 1]);
            }
        }
        assert(has_task(s, ch[ch.len() - 1]));
        let j0 = position_of(r, c);
        assert(r[j0] == released_node(s[j0], pre));
        assert(r[j0].spec.task_id == c);
        lemma_contains_push(pre, c, c);
        let fin = release_children(st, ch);
        assert(ch.drop_last() == pre);
        assert(fin == release_child(mid, c));
        assert(fin.0[j0] == released_node(s[j0], ch));
        let pushed = is_ready(released_node(s[j0], ch));
        if pushed {
            assert(fin.1 == mid.1.push(s[j0].spec));
        } else {
            assert(fin.1 == mid.1);
        }
        assert forall|t: TaskSpecView|
            fin.1.contains(t) <==> (st.1.contains(t) || exists|j: int|
                0 <= j < s.len() && ch.contains(s[j].spec.task_id) && is_ready(
                    #[trigger] released_node(s[j], ch),
                ) && s[j].spec == t) by {
            if fin.1.contains(t) {
                let k = choose|k: int| 0 <= k < fin.1.len() && fin.1[k] == t;
                if pushed && k == mid.1.len() {
                    assert(ch.contains(s[j0].spec.task_id));
                } else {
                    assert(mid.1[k] == t);
                    assert(mid.1.contains(t));
                    if !st.1.contains(t) {
                        let j = choose|j: int|
                            0 <= j < s.len() && pre.contains(s[j].spec.task_id) && is_ready(
                                #[trigger] released_node(s[j], pre),
                            ) && s[j].spec == t;
                        lemma_contains_push(pre, c, s[j].spec.task_id);
                        assert(released_node(s[j], ch) =~= released_node(s[j], pre));
                    }
                }
            }
            if st.1.contains(t) {
                assert(mid.1.contains(t));
                let k = choose|k: int| 0 <= k < mid.1.len() && mid.1[k] == t;
                assert(fin.1[k] == t);
            }
            if exists|j: int|
                0 <= j < s.len() && ch.contains(s[j].spec.task_id) && is_ready(
                    #[trigger] released_node(s[j], ch),
                ) && s[j].spec == t {
                let j = choose|j: int|
                    0 <= j < s.len() && ch.contains(s[j].spec.task_id) && is_ready(
                        #[trigger] released_node(s[j], ch),
                    ) && s[j].spec == t;
                lemma_contains_push(pre, c, s[j].spec.task_id);
                if s[j].spec.task_id == c {
                    assert(j == j0);
                    assert(fin.1[mid.1.len() as int] == t);
                } else {
                    assert(released_node(s[j], ch) =~= released_node(s[j], pre));
                    assert(mid.1.contains(t));
                    let k = choose|k: int| 0 <= k < mid.1.len() && mid.1[k] == t;
                    assert(fin.1[k] == t);
                }
            }
        }
    }
}

/// Completing a task that had not completed keeps the counts covering the
/// dependencies not yet completed: each of its dependents loses one count and
/// one unfinished dependency.
pub proof fn lemma_complete_keeps_waits(s: Seq<TaskNodeView>, id: Seq<char>)
    requires
        graph_wf(s),
        waits_cover(s),
        has_task(s, id),
        s[position_of(s, id)].status != TaskStatus::Completed,
    ensures
        waits_cover(complete_task(s, id).0),
{
    let p = position_of(s, id);
    let n = s.len() as int;
    let s1 = with_status(s, id, TaskStatus::Completed);
    let ch = s[p].children;
    assert forall|i: int| 0 <= i < s.len() implies #[trigger] s1[i].spec.task_id
        == s[i].spec.task_id && s1[i].children == s[i].children by {}
    lemma_same_shape(s, s1);
    assert(unfinished(s) =~= unfinished(s1).insert(p));
    assert(!unfinished(s1).contains(p));
    assert forall|k: int| 0 <= k < ch.len() implies has_task(s1, #[trigger] ch[k]) by {
        assert(has_task(s, s[p].children[k]));
    }
    assert forall|j: int|
        0 <= j < s1.len() && ch.contains(#[trigger] s1[j].spec.task_id) implies s1[j].in_degree
            >= 1 by {
        assert(edge(s, p, j));
        lemma_parents_in_insert(s, j, unfinished(s1), p, n);
        assert(s[j].in_degree >= parents_in(s, j, unfinished(s), n));
    }
    let st = (s1, Seq::<TaskSpecView>::empty());
    lemma_release_children(st, ch);
    let t = release_children(st, ch).0;
    assert(t == complete_task(s, id).0);
    assert forall|j: int| 0 <= j < t.len() implies #[trigger] t[j].in_degree >= parents_in(
        t,
        j,
        unfinished(t),
        t.len() as int,
    ) by {
        assert forall|i: int| 0 <= i < s.len() implies #[trigger] t[i].spec == s[i].spec
            && t[i].children == s[i].children by {
            assert(t[i].spec == s1[i].spec);
        }
        lemma_same_edges(s, t, j, unfinished(t));
        assert forall|i: int| 0 <= i < n implies (unfinished(t).contains(i) <==> unfinished(
            s1,
        ).contains(i)) by {
            assert(t[i].spec == s1[i].spec);
        }
        lemma_parents_in_ext(s, j, unfinished(t), unfinished(s1), n);
        lemma_parents_in_insert(s, j, unfinished(s1), p, n);
        assert(s[j].in_degree >= parents_in(s, j, unfinished(s), n));
        assert(t[j].spec == s1[j].spec);
        assert(edge(s, p, j) == ch.contains(s1[j].spec.task_id));
    }
}

/// What completing a task does, node by node: the task becomes completed;
/// each task that lists it as a dependency waits on one dependency fewer (not
/// below zero); nothing else changes. The tasks returned are exactly the
/// dependents that are then pending with no unmet dependency.
pub proof fn lemma_complete_task_effect(s: Seq<TaskNodeView>, id: Seq<char>)
    requires
        graph_wf(s),
        has_task(s, id),
    ensures
        complete_task(s, id).0.len() == s.len(),
        forall|j: int|
            0 <= j < s.len() ==> {
                let t = #[trigger] complete_task(s, id).0[j];
                &&& t.spec == s[j].spec
                &&& t.children == s[j].children
                &&& t.status == (if j == position_of(s, id) {
                    TaskStatus::Completed
                } else {
                    s[j].status
                })
                &&& t.in_degree == (if s[position_of(s, id)].children.contains(s[j].spec.task_id) {
                    lowered(s[j].in_degree)
                } else {
                    s[j].in_degree
                })
            },
        forall|t: TaskSpecView|
            complete_task(s, id).1.contains(t) <==> exists|j: int|
                0 <= j < s.len() && s[position_of(s, id)].children.contains(s[j].spec.task_id)
                    && is_ready(#[trigger] complete_task(s, id).0[j]) && s[j].spec == t,
{
    let p = position_of(s, id);
    let s1 = with_status(s, id, TaskStatus::Completed);
    let ch = s[p].children;
    assert forall|i: int| 0 <= i < s.len() implies #[trigger] s1[i].spec.task_id
        == s[i].spec.task_id && s1[i].children == s[i].children by {}
    lemma_same_shape(s, s1);
    assert forall|k: int| 0 <= k < ch.len() implies has_task(s1, #[trigger] ch[k]) by {
        assert(has_task(s, s[p].children[k]));
    }
    let st = (s1, Seq::<TaskSpecView>::empty());
    lemma_release_children(st, ch);
    lemma_release_children_ready(st, ch);
    let a = complete_task(s, id).0;
    assert(complete_task(s, id) == release_children(st, ch));
    assert forall|j: int| 0 <= j < s.len() implies #[trigger] a[j] == released_node(s1[j], ch)
        && s1[j].spec == s[j].spec by {}
    assert forall|t: TaskSpecView|
        complete_task(s, id).1.contains(t) <==> exists|j: int|
            0 <= j < s.len() && ch.contains(s[j].spec.task_id) && is_ready(#[trigger] a[j])
                && s[j].spec == t by {
        assert(!st.1.contains(t));
        if complete_task(s, id).1.contains(t) {
            let j = choose|j: int|
                0 <= j < s1.len() && ch.contains(s1[j].spec.task_id) && is_ready(
                    #[trigger] released_node(s1[j], ch),
                ) && s1[j].spec == t;
            assert(a[j] == released_node(s1[j], ch));
        }
        if exists|j: int|
            0 <= j < s.len() && ch.contains(s[j].spec.task_id) && is_ready(#[trigger] a[j]) && s[j].spec == t {
            let j = choose|j: int|
                0 <= j < s.len() && ch.contains(s[j].spec.task_id) && is_ready(#[trigger] a[j]) && s[j].spec == t;
            assert(a[j] == released_node(s1[j], ch));
            assert(s1[j].spec == s[j].spec);
        }
    }
}

/// Completing a task that is not its own dependent, and whose dependents each
/// still wait on at least one dependency, makes ready exactly the tasks it
/// returns: afterwards the ready tasks are those ready before, less the
/// completed task, together with the returned ones, none of which was ready
/// before.
pub proof fn lemma_complete_ready_exactly(s: Seq<TaskNodeView>, id: Seq<char>)
    requires
        graph_wf(s),
        has_task(s, id),
        !s[position_of(s, id)].children.contains(id),
        forall|j: int|
            0 <= j < s.len() && s[position_of(s, id)].children.contains(#[trigger] s[j].spec.task_id)
                ==> s[j].in_degree >= 1,
    ensures
        forall|t: TaskSpecView|
            ready_specs(complete_task(s, id).0).contains(t) <==> ((ready_specs(s).contains(t)
                && t.task_id != id) || complete_task(s, id).1.contains(t)),
        forall|t: TaskSpecView|
            complete_task(s, id).1.contains(t) ==> !ready_specs(s).contains(t),
{
    let p = position_of(s, id);
    let ch = s[p].children;
    lemma_complete_task_effect(s, id);
    lemma_ready_specs_members(s);
    lemma_ready_specs_members(complete_task(s, id).0);
    assert(s[p].spec.task_id == id);
    assert forall|t: TaskSpecView|
        ready_specs(complete_task(s, id).0).contains(t) <==> ((ready_specs(s).contains(t) && t.task_id != id) || complete_task(s, id).1.contains(t)) by {
        if ready_specs(complete_task(s, id).0).contains(t) {
            let j = choose|j: int| 0 <= j < complete_task(s, id).0.len() && is_ready(#[trigger] complete_task(s, id).0[j]) && complete_task(s, id).0[j].spec == t;
            assert(complete_task(s, id).0[j].spec == s[j].spec);
            if ch.contains(s[j].spec.task_id) {
                assert(0 <= j < s.len() && ch.contains(s[j].spec.task_id) && is_ready(complete_task(s, id).0[j]) && s[j].spec == t);
                assert(complete_task(s, id).1.contains(t));
            } else {
                assert(j != p);
                assert(is_ready(s[j]));
                assert(ready_specs(s).contains(t));
                assert(s[j].spec.task_id != id) by {
                    if s[j].spec.task_id == id {
                        assert(s[j].spec.task_id == s[p].spec.task_id);
                    }
                }
            }
        }
        if ready_specs(s).contains(t) && t.task_id != id {
            let j = choose|j: int| 0 <= j < s.len() && is_ready(#[trigger] s[j]) && s[j].spec == t;
            assert(complete_task(s, id).0[j].spec == s[j].spec);
            assert(j != p);
            assert(!ch.contains(s[j].spec.task_id));
            assert(is_ready(complete_task(s, id).0[j]));
            assert(ready_specs(complete_task(s, id).0).contains(t));
        }
        if complete_task(s, id).1.contains(t) {
            let j = choose|j: int|
                0 <= j < s.len() && ch.contains(s[j].spec.task_id) && is_ready(#[trigger] complete_task(s, id).0[j]) && s[j].spec == t;
            assert(complete_task(s, id).0[j].spec == s[j].spec);
            assert(ready_specs(complete_task(s, id).0).contains(t));
        }
    }
    assert forall|t: TaskSpecView| complete_task(s, id).1.contains(t) implies !ready_specs(s).contains(t) by {
        let j = choose|j: int|
            0 <= j < s.len() && ch.contains(s[j].spec.task_id) && is_ready(#[trigger] complete_task(s, id).0[j]) && s[j].spec == t;
        if ready_specs(s).contains(t) {
            let j2 = choose|j2: int| 0 <= j2 < s.len() && is_ready(#[trigger] s[j2]) && s[j2].spec == t;
            assert(s[j2].spec.task_id == s[j].spec.task_id);
        }
    }
}

} // verus!
