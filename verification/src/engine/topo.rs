//! Ordering a task graph: the edges it holds, what a topological order of it
//! is, and the in-degree check (Kahn's algorithm) that decides whether the
//! recorded dependency counts allow every task to run.
use vstd::prelude::*;
use vstd::set_lib::set_int_range;
use crate::engine::graph::{TaskNode, TaskNodeView, nodes_view, graph_wf};

verus! {

/// The node at `i` lists the node at `j` among the tasks that depend on it.
pub open spec fn edge(s: Seq<TaskNodeView>, i: int, j: int) -> bool {
    s[i].children.contains(s[j].spec.task_id)
}

/// How many of the nodes at positions below `k` that are in `m` have an edge to `j`.
pub open spec fn parents_in(s: Seq<TaskNodeView>, j: int, m: Set<int>, k: int) -> nat
    decreases k,
{
    if k <= 0 {
        0
    } else {
        parents_in(s, j, m, k - 1) + (if m.contains(k - 1) && edge(s, k - 1, j) {
            1nat
        } else {
            0nat
        })
    }
}

/// The number of nodes with an edge to `j`.
pub open spec fn parent_count(s: Seq<TaskNodeView>, j: int) -> nat {
    parents_in(s, j, set_int_range(0, s.len() as int), s.len() as int)
}

/// Every node's count of unmet dependencies is at least its number of incoming edges.
pub open spec fn counts_cover_edges(s: Seq<TaskNodeView>) -> bool {
    forall|j: int| 0 <= j < s.len() ==> #[trigger] s[j].in_degree >= parent_count(s, j)
}

/// Every node's count of unmet dependencies is its number of incoming edges.
pub open spec fn counts_match_edges(s: Seq<TaskNodeView>) -> bool {
    forall|j: int| 0 <= j < s.len() ==> #[trigger] s[j].in_degree == parent_count(s, j)
}

/// `ord` lists every node exactly once, and no edge goes from a node to
/// itself or to a node listed before it.
pub open spec fn is_topological_order(s: Seq<TaskNodeView>, ord: Seq<int>) -> bool {
    &&& ord.len() == s.len()
    &&& ord.no_duplicates()
    &&& forall|k: int| 0 <= k < ord.len() ==> 0 <= #[trigger] ord[k] < s.len()
    &&& forall|a: int, b: int|
        0 <= a <= b < ord.len() ==> !edge(s, #[trigger] ord[b], #[trigger] ord[a])
}

/// Some order lists the nodes so that every edge goes forward.
pub open spec fn orderable(s: Seq<TaskNodeView>) -> bool {
    exists|ord: Seq<int>| is_topological_order(s, ord)
}

/// The graph passes validation: every count is exactly its number of incoming
/// edges, and the nodes can be ordered so that every edge goes forward.
pub open spec fn schedulable(s: Seq<TaskNodeView>) -> bool {
    counts_match_edges(s) && orderable(s)
}

/// The nodes whose count is at most their number of parents in `x`: those a
/// round of Kahn's algorithm releases once the nodes of `x` are reached.
pub open spec fn released_by(s: Seq<TaskNodeView>, x: Set<int>) -> Set<int> {
    Set::new(|j: int| 0 <= j < s.len() && s[j].in_degree <= parents_in(s, j, x, s.len() as int))
}

/// The nodes reached after `k` rounds of Kahn's algorithm: none at first,
/// then those whose count is zero, then those released by these, and so on.
pub open spec fn reached_after(s: Seq<TaskNodeView>, k: nat) -> Set<int>
    decreases k,
{
    if k == 0 {
        Set::empty()
    } else {
        released_by(s, reached_after(s, (k - 1) as nat))
    }
}

/// The nodes that Kahn's algorithm reaches: those reached after some number
/// of rounds. The order in which it takes up released nodes does not matter.
pub open spec fn kahn_closure(s: Seq<TaskNodeView>) -> Set<int> {
    Set::new(|j: int| exists|k: nat| #[trigger] reached_after(s, k).contains(j))
}

/// Kahn's algorithm never lowers a count below zero: no node has more parents
/// among the reached nodes than its count.
pub open spec fn counts_suffice(s: Seq<TaskNodeView>) -> bool {
    forall|j: int|
        0 <= j < s.len() ==> parents_in(s, j, kahn_closure(s), s.len() as int)
            <= #[trigger] s[j].in_degree
}

/// Counting parents in a larger set counts at least as many.
pub(crate) proof fn lemma_parents_in_mono(s: Seq<TaskNodeView>, j: int, x: Set<int>, y: Set<int>, k: int)
    requires
        forall|i: int| 0 <= i < k && x.contains(i) ==> y.contains(i),
    ensures
        parents_in(s, j, x, k) <= parents_in(s, j, y, k),
    decreases k,
{
    if k > 0 {
        lemma_parents_in_mono(s, j, x, y, k - 1);
    }
}

proof fn lemma_released_mono(s: Seq<TaskNodeView>, x: Set<int>, y: Set<int>)
    requires
        forall|i: int| 0 <= i < s.len() && x.contains(i) ==> y.contains(i),
    ensures
        forall|j: int| released_by(s, x).contains(j) ==> released_by(s, y).contains(j),
{
    assert forall|j: int| released_by(s, x).contains(j) implies released_by(s, y).contains(j) by {
        lemma_parents_in_mono(s, j, x, y, s.len() as int);
    }
}

/// Each round reaches at least the nodes of the round before.
proof fn lemma_reached_grows(s: Seq<TaskNodeView>, k: nat)
    ensures
        forall|j: int| reached_after(s, k).contains(j) ==> reached_after(s, k + 1).contains(j),
    decreases k,
{
    if k > 0 {
        lemma_reached_grows(s, (k - 1) as nat);
        lemma_released_mono(s, reached_after(s, (k - 1) as nat), reached_after(s, k));
    }
}

/// A set that holds every node a round releases from it holds every node
/// reached after any number of rounds.
proof fn lemma_reached_within(s: Seq<TaskNodeView>, k: nat, x: Set<int>)
    requires
        forall|j: int| released_by(s, x).contains(j) ==> x.contains(j),
    ensures
        forall|j: int| reached_after(s, k).contains(j) ==> x.contains(j),
    decreases k,
{
    if k > 0 {
        lemma_reached_within(s, (k - 1) as nat, x);
        lemma_released_mono(s, reached_after(s, (k - 1) as nat), x);
    }
}

/// Counts that cover all incoming edges suffice for Kahn's algorithm.
pub proof fn lemma_cover_suffices(s: Seq<TaskNodeView>)
    requires
        counts_cover_edges(s),
    ensures
        counts_suffice(s),
{
    assert forall|j: int| 0 <= j < s.len() implies parents_in(s, j, kahn_closure(s), s.len() as int)
        <= #[trigger] s[j].in_degree by {
        lemma_parents_in_all(s, j, kahn_closure(s), s.len() as int);
    }
}

pub(crate) proof fn lemma_parents_in_insert(s: Seq<TaskNodeView>, j: int, m: Set<int>, p: int, k: int)
    requires
        !m.contains(p),
    ensures
        parents_in(s, j, m.insert(p), k) == parents_in(s, j, m, k) + (if 0 <= p < k && edge(
            s,
            p,
            j,
        ) {
            1nat
        } else {
            0nat
        }),
    decreases k,
{
    if k > 0 {
        lemma_parents_in_insert(s, j, m, p, k - 1);
    }
}

proof fn lemma_parents_in_empty(s: Seq<TaskNodeView>, j: int, k: int)
    ensures
        parents_in(s, j, Set::empty(), k) == 0,
    decreases k,
{
    if k > 0 {
        lemma_parents_in_empty(s, j, k - 1);
    }
}

/// Two sets that agree below `k` count the same parents below `k`.
pub proof fn lemma_parents_in_ext(s: Seq<TaskNodeView>, j: int, m1: Set<int>, m2: Set<int>, k: int)
    requires
        forall|i: int| 0 <= i < k ==> (m1.contains(i) <==> m2.contains(i)),
    ensures
        parents_in(s, j, m1, k) == parents_in(s, j, m2, k),
    decreases k,
{
    if k > 0 {
        lemma_parents_in_ext(s, j, m1, m2, k - 1);
    }
}

pub(crate) proof fn lemma_parents_in_all(s: Seq<TaskNodeView>, j: int, m: Set<int>, k: int)
    requires
        0 <= k <= s.len(),
    ensures
        parents_in(s, j, m, k) <= parents_in(s, j, set_int_range(0, s.len() as int), k),
        parents_in(s, j, m, k) == parents_in(s, j, set_int_range(0, s.len() as int), k)
            ==> forall|i: int| 0 <= i < k && edge(s, i, j) ==> m.contains(i),
        (forall|i: int| 0 <= i < k && edge(s, i, j) ==> m.contains(i)) ==> parents_in(s, j, m, k)
            == parents_in(s, j, set_int_range(0, s.len() as int), k),
    decreases k,
{
    if k > 0 {
        lemma_parents_in_all(s, j, m, k - 1);
    }
}

/// Counting over two graphs whose edges into `j` agree below `k`, except
/// perhaps at position `p`, gives counts at most one apart.
pub proof fn lemma_parents_in_frame(
    s: Seq<TaskNodeView>,
    t: Seq<TaskNodeView>,
    j: int,
    m: Set<int>,
    k: int,
    p: int,
)
    requires
        forall|i: int| 0 <= i < k && i != p ==> edge(s, i, j) == edge(t, i, j),
    ensures
        parents_in(t, j, m, k) <= parents_in(s, j, m, k) + 1,
        (p < 0 || p >= k || edge(s, p, j) == edge(t, p, j)) ==> parents_in(t, j, m, k)
            == parents_in(s, j, m, k),
        !(0 <= p < k && edge(t, p, j) && !edge(s, p, j)) ==> parents_in(t, j, m, k)
            <= parents_in(s, j, m, k),
    decreases k,
{
    if k > 0 {
        lemma_parents_in_frame(s, t, j, m, k - 1, p);
    }
}

/// With no edge into `j` below `k`, the count is zero.
pub proof fn lemma_parents_in_none(s: Seq<TaskNodeView>, j: int, m: Set<int>, k: int)
    requires
        forall|i: int| 0 <= i < k ==> !edge(s, i, j),
    ensures
        parents_in(s, j, m, k) == 0,
    decreases k,
{
    if k > 0 {
        lemma_parents_in_none(s, j, m, k - 1);
    }
}

/// A list of `n` distinct positions below `n` holds every position below `n`.
proof fn lemma_full_list(ord: Seq<int>, n: int)
    requires
        ord.len() == n,
        ord.no_duplicates(),
        forall|k: int| 0 <= k < ord.len() ==> 0 <= #[trigger] ord[k] < n,
    ensures
        forall|i: int| 0 <= i < n ==> ord.contains(i),
{
    ord.unique_seq_to_set();
    vstd::set_lib::lemma_int_range(0, n);
    assert(ord.to_set().subset_of(set_int_range(0, n)));
    vstd::set_lib::lemma_subset_equality(ord.to_set(), set_int_range(0, n));
    assert forall|i: int| 0 <= i < n implies ord.contains(i) by {
        assert(set_int_range(0, n).contains(i));
        assert(ord.to_set().contains(i));
    }
}

/// A list of distinct positions below `n` has at most `n` entries.
proof fn lemma_list_bound(ord: Seq<int>, n: int)
    requires
        0 <= n,
        ord.no_duplicates(),
        forall|k: int| 0 <= k < ord.len() ==> 0 <= #[trigger] ord[k] < n,
    ensures
        ord.len() <= n,
{
    ord.unique_seq_to_set();
    vstd::set_lib::lemma_int_range(0, n);
    assert(ord.to_set().subset_of(set_int_range(0, n)));
    vstd::set_lib::lemma_len_subset(ord.to_set(), set_int_range(0, n));
}

/// A list of fewer than `n` positions misses some position below `n`.
proof fn lemma_short_list(ord: Seq<int>, n: int) -> (u: int)
    requires
        ord.len() < n,
    ensures
        0 <= u < n,
        !ord.contains(u),
{
    if forall|i: int| 0 <= i < n ==> ord.contains(i) {
        vstd::set_lib::lemma_int_range(0, n);
        assert(set_int_range(0, n).subset_of(ord.to_set()));
        ord.lemma_cardinality_of_set();
        vstd::set_lib::lemma_len_subset(set_int_range(0, n), ord.to_set());
        assert(false);
        0
    } else {
        choose|i: int| 0 <= i < n && !ord.contains(i)
    }
}

/// The first position in `ord` whose node is outside `m`, given that one is.
proof fn lemma_first_outside(ord: Seq<int>, m: Set<int>, k0: int) -> (k: int)
    requires
        0 <= k0 < ord.len(),
        !m.contains(ord[k0]),
    ensures
        0 <= k <= k0,
        !m.contains(ord[k]),
        forall|a: int| 0 <= a < k ==> m.contains(#[trigger] ord[a]),
    decreases k0,
{
    if forall|a: int| 0 <= a < k0 ==> m.contains(#[trigger] ord[a]) {
        k0
    } else {
        let a = choose|a: int| 0 <= a < k0 && !m.contains(#[trigger] ord[a]);
        lemma_first_outside(ord, m, a)
    }
}


/// Runs Kahn's algorithm over the recorded counts: starting from the nodes
/// whose count is zero, each reached node lowers the count of each of its
/// dependents by one, and a dependent is reached when its count reaches zero.
/// Returns the number of nodes reached, or `None` where a count would drop
/// below zero. The number is that of all nodes exactly when every node is
/// reached, and exactly when the graph is schedulable.
pub fn kahn_reached(nodes: &Vec<TaskNode>) -> (r: Option<usize>)
    requires
        graph_wf(nodes_view(nodes@)),
    ensures
        match r {
            None => !counts_suffice(nodes_view(nodes@)),
            Some(v) => counts_suffice(nodes_view(nodes@)) && v <= nodes@.len() && ((v == nodes@.len())
                <==> (forall|i: int|
                0 <= i < nodes@.len() ==> #[trigger] kahn_closure(nodes_view(nodes@)).contains(i)))
                && ((v == nodes@.len()) <==> schedulable(nodes_view(nodes@))),
        },
{
    let ghost s = nodes_view(nodes@);
    let n = nodes.len();
    let mut deg: Vec<usize> = Vec::new();
    let mut stack: Vec<usize> = Vec::new();
    let mut i: usize = 0;
    while i < n
        invariant
            n == s.len(),
            s == nodes_view(nodes@),
            i <= n,
            deg@.len() == i,
            forall|u: int| 0 <= u < i ==> deg@[u] == s[u].in_degree,
            stack@.no_duplicates(),
            forall|k: int| 0 <= k < stack@.len() ==> #[trigger] stack@[k] < i,
            forall|u: int| 0 <= u < i ==> (deg@[u] == 0 <==> stack@.contains(u as usize)),
        decreases n - i,
    {
        let ghost st0 = stack@;
        let d = nodes[i].in_degree;
        deg.push(d);
        if d == 0 {
            stack.push(i);
        }
        assert forall|u: int| 0 <= u < i + 1 implies (deg@[u] == 0 <==> stack@.contains(
            u as usize,
        )) by {
            if d == 0 {
                assert(stack@ == st0.push(i));
                if stack@.contains(u as usize) && u != i {
                    let x = choose|x: int| 0 <= x < stack@.len() && #[trigger] stack@[x] == u as usize;
                    assert(st0[x] == u as usize);
                }
                if st0.contains(u as usize) {
                    let x = choose|x: int| 0 <= x < st0.len() && #[trigger] st0[x] == u as usize;
                    assert(stack@[x] == u as usize);
                }
                if u == i {
                    assert(stack@[st0.len() as int] == i);
                }
            } else if u == i {
                if stack@.contains(u as usize) {
                    let x = choose|x: int| 0 <= x < stack@.len() && #[trigger] stack@[x] == u as usize;
                }
            }
        }
        i += 1;
    }
    let ghost mut order: Seq<int> = Seq::empty();
    let ghost mut done: Set<int> = Set::empty();
    let ghost cover = counts_cover_edges(s);
    assert forall|u: int| 0 <= u < n implies deg@[u] + parents_in(s, u, done, n as int)
        == s[u].in_degree by {
        lemma_parents_in_ext(s, u, done, Set::empty(), n as int);
        lemma_parents_in_empty(s, u, n as int);
    }
    assert forall|k: int| 0 <= k < stack@.len() implies reached_after(s, 1).contains(
        #[trigger] stack@[k] as int,
    ) by {
        let u = stack@[k] as int;
        assert(stack@.contains(stack@[k]));
        lemma_parents_in_empty(s, u, n as int);
        assert(reached_after(s, 0) == Set::<int>::empty());
    }
    let mut visited: usize = 0;
    while stack.len() > 0
        invariant
            n == s.len(),
            s == nodes_view(nodes@),
            graph_wf(s),
            cover == counts_cover_edges(s),
            deg@.len() == n,
            visited == order.len(),
            visited <= n,
            order.no_duplicates(),
            forall|k: int| 0 <= k < order.len() ==> 0 <= #[trigger] order[k] < n,
            forall|x: int| done.contains(x) <==> order.contains(x),
            stack@.no_duplicates(),
            forall|k: int|
                0 <= k < stack@.len() ==> #[trigger] stack@[k] < n && !done.contains(
                    stack@[k] as int,
                ),
            forall|k: int|
                0 <= k < stack@.len() ==> reached_after(s, (visited + 1) as nat).contains(
                    #[trigger] stack@[k] as int,
                ),
            forall|x: int| done.contains(x) ==> reached_after(s, (visited + 1) as nat).contains(x),
            forall|u: int|
                0 <= u < n ==> #[trigger] deg@[u] + parents_in(s, u, done, n as int)
                    == s[u].in_degree,
            forall|u: int|
                0 <= u < n ==> (#[trigger] deg@[u] == 0 <==> (stack@.contains(u as usize)
                    || done.contains(u))),
            cover ==> forall|w: int, p: int|
                done.contains(w) && 0 <= p < n && #[trigger] edge(s, p, w) ==> done.contains(p),
            cover ==> forall|a: int, b: int|
                0 <= a <= b < order.len() ==> !edge(s, #[trigger] order[b], #[trigger] order[a]),
        decreases n - visited,
    {
        let ghost st0 = stack@;
        let v = stack.pop().unwrap();
        let ghost vi = v as int;
        assert(st0 =~= stack@.push(v));
        assert forall|u: int| 0 <= u < n implies (#[trigger] deg@[u] == 0 <==> (stack@.contains(
            u as usize,
        ) || done.contains(u) || u == vi)) by {
            if st0.contains(u as usize) && u != vi {
                let x = choose|x: int| 0 <= x < st0.len() && #[trigger] st0[x] == u as usize;
                assert(stack@[x] == u as usize);
            }
            if stack@.contains(u as usize) {
                let x = choose|x: int| 0 <= x < stack@.len() && #[trigger] stack@[x] == u as usize;
                assert(st0[x] == u as usize);
            }
            if u == vi {
                assert(st0[st0.len() - 1] == v);
            }
        }
        assert forall|a: int|
            0 <= a < stack@.len() implies #[trigger] stack@[a] < n && !done.contains(stack@[a] as int)
                && stack@[a] != v by {
            assert(st0[a] == stack@[a]);
            assert(st0[st0.len() - 1] == v);
        }
        proof {
            assert(deg@[vi] == 0);
            assert(reached_after(s, (visited + 1) as nat).contains(st0[st0.len() - 1] as int));
            lemma_reached_grows(s, (visited + 1) as nat);
            assert forall|a: int| 0 <= a < stack@.len() implies reached_after(
                s,
                (visited + 2) as nat,
            ).contains(#[trigger] stack@[a] as int) by {
                assert(st0[a] == stack@[a]);
            }
            if cover {
                lemma_parents_in_all(s, vi, done, n as int);
            }
            lemma_list_bound(order.push(vi), n as int);
        }
        visited += 1;
        let ghost cs = s[vi].children;
        let mut k: usize = 0;
        while k < nodes[v].children.len()
            invariant
                n == s.len(),
                s == nodes_view(nodes@),
                graph_wf(s),
                cover == counts_cover_edges(s),
                v < n,
                vi == v,
                cs == s[vi].children,
                cs == nodes@[vi].children.deep_view(),
                k <= cs.len(),
                deg@.len() == n,
                1 <= visited <= n,
                !done.contains(vi),
                reached_after(s, visited as nat).contains(vi),
                forall|x: int| done.contains(x) ==> reached_after(s, visited as nat).contains(x),
                forall|x: int|
                    reached_after(s, visited as nat).contains(x) ==> reached_after(
                        s,
                        (visited + 1) as nat,
                    ).contains(x),
                cover ==> forall|p: int| 0 <= p < n && edge(s, p, vi) ==> done.contains(p),
                stack@.no_duplicates(),
                forall|a: int|
                    0 <= a < stack@.len() ==> #[trigger] stack@[a] < n && !done.contains(
                        stack@[a] as int,
                    ) && stack@[a] != v,
                forall|a: int|
                    0 <= a < stack@.len() ==> reached_after(s, (visited + 1) as nat).contains(
                        #[trigger] stack@[a] as int,
                    ),
                forall|u: int|
                    0 <= u < n ==> #[trigger] deg@[u] + parents_in(s, u, done, n as int) + (if cs.take(
                        k as int,
                    ).contains(s[u].spec.task_id) {
                        1int
                    } else {
                        0int
                    }) == s[u].in_degree,
                forall|u: int|
                    0 <= u < n ==> (#[trigger] deg@[u] == 0 <==> (stack@.contains(u as usize)
                        || done.contains(u) || u == vi)),
            decreases cs.len() - k,
        {
            let ghost before = deg@;
            let ghost before_stack = stack@;
            assert(cs.take(k + 1) =~= cs.take(k as int).push(cs[k as int]));
            match crate::engine::graph::find_node(nodes, &nodes[v].children[k]) {
                Some(j) => {
                    let ghost ji = j as int;
                    proof {
                        assert(edge(s, vi, ji));
                        assert(!cs.take(k as int).contains(cs[k as int])) by {
                            if cs.take(k as int).contains(cs[k as int]) {
                                let x = choose|x: int| 0 <= x < k && #[trigger] cs.take(k as int)[x] == cs[k as int];
                                assert(cs[x] == cs[k as int]);
                            }
                        }
                        lemma_parents_in_insert(s, ji, done, vi, n as int);
                        assert forall|x: int| 0 <= x < n && done.insert(vi).contains(x) implies reached_after(
                            s,
                            visited as nat,
                        ).contains(x) by {}
                        lemma_parents_in_mono(s, ji, done.insert(vi), reached_after(s, visited as nat), n as int);
                    }
                    let d = deg[j];
                    if d == 0 {
                        proof {
                            assert forall|x: int| 0 <= x < n && reached_after(s, visited as nat).contains(x)
                                implies kahn_closure(s).contains(x) by {
                                assert(reached_after(s, visited as nat).contains(x));
                            }
                            lemma_parents_in_mono(s, ji, reached_after(s, visited as nat), kahn_closure(s), n as int);
                            assert(s[ji].in_degree < parents_in(s, ji, kahn_closure(s), n as int));
                        }
                        return None;
                    }
                    deg.set(j, d - 1);
                    if d - 1 == 0 {
                        stack.push(j);
                    }
                    proof {
                        assert(before[ji] != 0);
                        assert(!before_stack.contains(j));
                        if d - 1 == 0 {
                            assert(released_by(s, reached_after(s, visited as nat)).contains(ji));
                        }
                        assert forall|u: int| 0 <= u < n implies (#[trigger] deg@[u] == 0 <==> (
                        stack@.contains(u as usize) || done.contains(u) || u == vi)) by {
                            if d - 1 == 0 {
                                assert(stack@ == before_stack.push(j));
                                if stack@.contains(u as usize) && u != ji {
                                    let x = choose|x: int| 0 <= x < stack@.len() && #[trigger] stack@[x] == u as usize;
                                    assert(before_stack[x] == u as usize);
                                }
                                if before_stack.contains(u as usize) {
                                    let x = choose|x: int| 0 <= x < before_stack.len() && #[trigger] before_stack[x] == u as usize;
                                    assert(stack@[x] == u as usize);
                                }
                                if u == ji {
                                    assert(stack@[before_stack.len() as int] == j);
                                }
                            } else {
                                assert(stack@ == before_stack);
                            }
                        }
                        assert forall|a: int|
                            0 <= a < stack@.len() implies #[trigger] stack@[a] < n && !done.contains(
                                stack@[a] as int,
                            ) && stack@[a] != v by {
                            if a < before_stack.len() {
                                assert(before_stack[a] == stack@[a]);
                            }
                        }
                        assert forall|a: int|
                            0 <= a < stack@.len() implies reached_after(s, (visited + 1) as nat).contains(
                                #[trigger] stack@[a] as int,
                            ) by {
                            if a < before_stack.len() {
                                assert(before_stack[a] == stack@[a]);
                            }
                        }
                        if d - 1 == 0 {
                            assert(stack@.no_duplicates()) by {
                                assert forall|a: int, b: int| 0 <= a < b < stack@.len() implies stack@[a] != stack@[b] by {
                                    if b == before_stack.len() {
                                        assert(before_stack[a] == stack@[a]);
                                        assert(before_stack.contains(stack@[a]));
                                    } else {
                                        assert(before_stack[a] == stack@[a]);
                                        assert(before_stack[b] == stack@[b]);
                                    }
                                }
                            }
                        }
                        assert forall|u: int| 0 <= u < n implies #[trigger] deg@[u] + parents_in(
                            s,
                            u,
                            done,
                            n as int,
                        ) + (if cs.take(k + 1).contains(s[u].spec.task_id) {
                            1int
                        } else {
                            0int
                        }) == s[u].in_degree by {
                            if u != ji {
                                assert(s[u].spec.task_id != s[ji].spec.task_id);
                                assert(cs.take(k + 1).contains(s[u].spec.task_id) == cs.take(
                                    k as int,
                                ).contains(s[u].spec.task_id)) by {
                                    if cs.take(k + 1).contains(s[u].spec.task_id) {
                                        let x = choose|x: int| 0 <= x < k + 1 && #[trigger] cs.take(k + 1)[x] == s[u].spec.task_id;
                                        assert(cs.take(k as int)[x] == s[u].spec.task_id);
                                    }
                                }
                            } else {
                                assert(cs.take(k + 1)[k as int] == s[ji].spec.task_id);
                            }
                        }
                    }
                },
                None => {
                    proof {
                        assert forall|u: int| 0 <= u < n implies #[trigger] deg@[u] + parents_in(
                            s,
                            u,
                            done,
                            n as int,
                        ) + (if cs.take(k + 1).contains(s[u].spec.task_id) {
                            1int
                        } else {
                            0int
                        }) == s[u].in_degree by {
                            assert(s[u].spec.task_id != cs[k as int]);
                            assert(cs.take(k + 1).contains(s[u].spec.task_id) == cs.take(
                                k as int,
                            ).contains(s[u].spec.task_id)) by {
                                if cs.take(k + 1).contains(s[u].spec.task_id) {
                                    let x = choose|x: int| 0 <= x < k + 1 && #[trigger] cs.take(k + 1)[x] == s[u].spec.task_id;
                                    assert(cs.take(k as int)[x] == s[u].spec.task_id);
                                }
                            }
                        }
                    }
                },
            }
            k += 1;
        }
        proof {
            assert(cs.take(cs.len() as int) =~= cs);
            assert forall|u: int| 0 <= u < n implies #[trigger] deg@[u] + parents_in(
                s,
                u,
                done.insert(vi),
                n as int,
            ) == s[u].in_degree by {
                lemma_parents_in_insert(s, u, done, vi, n as int);
            }
            let ghost old_order = order;
            let ghost old_done = done;
            order = order.push(vi);
            done = done.insert(vi);
            assert(order.drop_last() =~= old_order);
            assert forall|x: int| done.contains(x) <==> order.contains(x) by {
                if x == vi {
                    assert(order[order.len() - 1] == vi);
                } else if order.contains(x) {
                    let y = choose|y: int| 0 <= y < order.len() && #[trigger] order[y] == x;
                    assert(order.drop_last()[y] == x);
                } else if done.contains(x) {
                    assert(old_done.contains(x));
                    assert(old_order.contains(x));
                    let y = choose|y: int| 0 <= y < old_order.len() && #[trigger] old_order[y] == x;
                    assert(order[y] == x);
                }
            }
            assert forall|x: int| done.contains(x) implies reached_after(s, (visited + 1) as nat).contains(x) by {
                if x != vi {
                    assert(old_done.contains(x));
                }
            }
            if cover {
                assert forall|a: int, b: int|
                    0 <= a <= b < order.len() implies !edge(s, #[trigger] order[b], #[trigger] order[a]) by {
                    if b == order.len() - 1 {
                        if edge(s, vi, order[a]) {
                            if a < order.len() - 1 {
                                assert(order.drop_last()[a] == order[a]);
                                assert(done.contains(order[a]));
                            }
                        }
                    } else {
                        assert(order.drop_last()[a] == order[a]);
                        assert(order.drop_last()[b] == order[b]);
                    }
                }
            }
        }
    }
    proof {
        assert forall|j: int| released_by(s, done).contains(j) implies done.contains(j) by {
            assert(deg@[j] + parents_in(s, j, done, n as int) == s[j].in_degree);
            assert(deg@[j] == 0);
            if !done.contains(j) {
                assert(stack@.contains(j as usize));
            }
        }
        assert forall|x: int| kahn_closure(s).contains(x) <==> done.contains(x) by {
            if kahn_closure(s).contains(x) {
                let k = choose|k: nat| #[trigger] reached_after(s, k).contains(x);
                lemma_reached_within(s, k, done);
            }
            if done.contains(x) {
                assert(reached_after(s, (visited + 1) as nat).contains(x));
            }
        }
        assert forall|j: int| 0 <= j < n implies parents_in(s, j, kahn_closure(s), n as int)
            <= #[trigger] s[j].in_degree by {
            lemma_parents_in_ext(s, j, kahn_closure(s), done, n as int);
            assert(deg@[j] + parents_in(s, j, done, n as int) == s[j].in_degree);
        }
        if visited == n {
            lemma_full_list(order, n as int);
            assert forall|i: int| 0 <= i < n implies #[trigger] kahn_closure(s).contains(i) by {
                assert(order.contains(i));
            }
            assert forall|i: int| 0 <= i < n implies (done.contains(i) <==> set_int_range(
                0,
                n as int,
            ).contains(i)) by {
                assert(order.contains(i));
            }
            assert forall|u: int| 0 <= u < n implies #[trigger] s[u].in_degree == parent_count(s, u) by {
                assert(order.contains(u));
                assert(done.contains(u));
                assert(deg@[u] == 0);
                lemma_parents_in_ext(s, u, done, set_int_range(0, n as int), n as int);
            }
            assert(cover);
            assert(is_topological_order(s, order));
        } else {
            let u0 = lemma_short_list(order, n as int);
            assert(!kahn_closure(s).contains(u0));
            if schedulable(s) {
                assert(cover);
                let ord = choose|ord: Seq<int>| is_topological_order(s, ord);
                lemma_full_list(ord, n as int);
                assert(ord.contains(u0));
                let k0 = choose|k0: int| 0 <= k0 < ord.len() && #[trigger] ord[k0] == u0;
                assert(!done.contains(u0));
                let k = lemma_first_outside(ord, done, k0);
                let u = ord[k];
                assert(0 <= u < n);
                assert(!stack@.contains(u as usize));
                assert(deg@[u] != 0);
                lemma_parents_in_all(s, u, done, n as int);
                assert(s[u].in_degree == parent_count(s, u));
                let p = choose|p: int| 0 <= p < n && #[trigger] edge(s, p, u) && !done.contains(p);
                assert(ord.contains(p));
                let kp = choose|kp: int| 0 <= kp < ord.len() && #[trigger] ord[kp] == p;
                if kp >= k {
                    assert(!edge(s, ord[kp], ord[k]));
                } else {
                    assert(done.contains(ord[kp]));
                }
            }
        }
    }
    Some(visited)
}

} // verus!
