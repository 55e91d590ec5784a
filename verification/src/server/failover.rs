//! Surviving lost workers: which workers have gone silent, and which tasks a
//! lost worker was holding, so that they can be handed out again.
use vstd::prelude::*;
use crate::server::orchestrator::TaskSpec;

verus! {

/// How long a worker may stay silent before it is taken for lost, in milliseconds.
pub const HEARTBEAT_TIMEOUT_MS: u64 = 12000;

/// A worker last heard from at `last_ms` is silent at `now_ms` when more than
/// `timeout_ms` have passed since.
pub open spec fn is_silent(last_ms: u64, now_ms: u64, timeout_ms: u64) -> bool {
    now_ms > last_ms && now_ms - last_ms > timeout_ms
}

/// The workers of `seen` (each with the time it was last heard from) that
/// are silent at `now_ms`, in order.
pub open spec fn silent_workers(seen: Seq<(usize, u64)>, now_ms: u64, timeout_ms: u64) -> Seq<usize>
    decreases seen.len(),
{
    if seen.len() == 0 {
        Seq::empty()
    } else {
        let rest = silent_workers(seen.drop_last(), now_ms, timeout_ms);
        if is_silent(seen.last().1, now_ms, timeout_ms) {
            rest.push(seen.last().0)
        } else {
            rest
        }
    }
}

/// The workers of `seen` that have been silent for more than `timeout_ms` at
/// `now_ms`, in the order given: those to evict.
pub fn expired_workers(seen: &[(usize, u64)], now_ms: u64, timeout_ms: u64) -> (r: Vec<usize>)
    ensures
        r@ == silent_workers(seen@, now_ms, timeout_ms),
        r@ == seen@.filter(|e: (usize, u64)| now_ms > e.1 && now_ms - e.1 > timeout_ms).map_values(
            |e: (usize, u64)| e.0,
        ),
{
    proof {
        lemma_silent_workers_are_the_silent(seen@, now_ms, timeout_ms);
    }
    let mut out: Vec<usize> = Vec::new();
    let mut i: usize = 0;
    while i < seen.len()
        invariant
            i <= seen@.len(),
            out@ == silent_workers(seen@.take(i as int), now_ms, timeout_ms),
        decreases seen@.len() - i,
    {
        assert(seen@.take(i + 1).drop_last() =~= seen@.take(i as int));
        let (w, last) = seen[i];
        if now_ms > last && now_ms - last > timeout_ms {
            out.push(w);
        }
        i += 1;
    }
    assert(seen@.take(seen@.len() as int) =~= seen@);
    out
}

/// The workers evicted at `now_ms` are exactly those of `seen`, in order,
/// last heard from before `now_ms` and more than `timeout_ms` ago.
pub proof fn lemma_silent_workers_are_the_silent(seen: Seq<(usize, u64)>, now_ms: u64, timeout_ms: u64)
    ensures
        silent_workers(seen, now_ms, timeout_ms) == seen.filter(
            |e: (usize, u64)| now_ms > e.1 && now_ms - e.1 > timeout_ms,
        ).map_values(|e: (usize, u64)| e.0),
    decreases seen.len(),
{
    reveal(Seq::filter);
    let f = |e: (usize, u64)| now_ms > e.1 && now_ms - e.1 > timeout_ms;
    if seen.len() == 0 {
        assert(seen.filter(f).map_values(|e: (usize, u64)| e.0) =~= Seq::<usize>::empty());
    } else {
        lemma_silent_workers_are_the_silent(seen.drop_last(), now_ms, timeout_ms);
        if f(seen.last()) {
            assert(seen.filter(f).map_values(|e: (usize, u64)| e.0) =~= seen.drop_last().filter(
                f,
            ).map_values(|e: (usize, u64)| e.0).push(seen.last().0));
        } else {
            assert(seen.filter(f) == seen.drop_last().filter(f));
        }
    }
}

/// Every worker of `seen` silent for longer than the timeout is evicted,
/// however long it has been silent, and no other.
pub proof fn lemma_silent_workers_members(seen: Seq<(usize, u64)>, now_ms: u64, timeout_ms: u64, k: int)
    requires
        0 <= k < seen.len(),
    ensures
        now_ms > seen[k].1 && now_ms - seen[k].1 > timeout_ms ==> silent_workers(seen, now_ms, timeout_ms).contains(seen[k].0),
        forall|w: usize|
            silent_workers(seen, now_ms, timeout_ms).contains(w) ==> exists|i: int|
                0 <= i < seen.len() && seen[i].0 == w && now_ms > seen[i].1 && now_ms - seen[i].1 > timeout_ms,
    decreases seen.len(),
{
    let d = seen.drop_last();
    if seen.len() > 1 {
        if k < seen.len() - 1 {
            lemma_silent_workers_members(d, now_ms, timeout_ms, k);
            assert(d[k] == seen[k]);
        } else {
            lemma_silent_workers_members(d, now_ms, timeout_ms, 0);
        }
    }
    let r = silent_workers(seen, now_ms, timeout_ms);
    let rd = silent_workers(d, now_ms, timeout_ms);
    if now_ms > seen[k].1 && now_ms - seen[k].1 > timeout_ms {
        if k == seen.len() - 1 {
            assert(r[r.len() - 1] == seen[k].0);
        } else {
            let x = choose|x: int| 0 <= x < rd.len() && rd[x] == seen[k].0;
            assert(r[x] == rd[x]);
        }
    }
    assert forall|w: usize| r.contains(w) implies exists|i: int|
        0 <= i < seen.len() && seen[i].0 == w && now_ms > seen[i].1 && now_ms - seen[i].1 > timeout_ms by {
        let x = choose|x: int| 0 <= x < r.len() && r[x] == w;
        if x < rd.len() && seen.len() > 1 {
            assert(rd[x] == w);
            assert(rd.contains(w));
            let i = choose|i: int|
                0 <= i < d.len() && d[i].0 == w && now_ms > d[i].1 && now_ms - d[i].1 > timeout_ms;
            assert(seen[i] == d[i]);
        } else {
            if seen.len() == 1 {
                assert(rd.len() == 0);
            }
            assert(seen[seen.len() - 1].0 == w);
        }
    }
}

/// A lost worker gives back, in the order handed out, the task of every
/// entry it holds, and keeps, in order, every entry of the other workers:
/// together as many as there were entries.
pub proof fn lemma_worker_lost_splits(entries: Seq<(usize, Seq<char>)>, worker: usize)
    ensures
        held_by(entries, worker) == entries.filter(|e: (usize, Seq<char>)| e.0 == worker).map_values(
            |e: (usize, Seq<char>)| e.1,
        ),
        without_worker(entries, worker) == entries.filter(|e: (usize, Seq<char>)| e.0 != worker),
        held_by(entries, worker).len() + without_worker(entries, worker).len() == entries.len(),
    decreases entries.len(),
{
    reveal(Seq::filter);
    let f = |e: (usize, Seq<char>)| e.0 == worker;
    let g = |e: (usize, Seq<char>)| e.0 != worker;
    if entries.len() == 0 {
        assert(entries.filter(f).map_values(|e: (usize, Seq<char>)| e.1) =~= Seq::<Seq<char>>::empty());
    } else {
        let d = entries.drop_last();
        lemma_worker_lost_splits(d, worker);
        if f(entries.last()) {
            assert(entries.filter(f).map_values(|e: (usize, Seq<char>)| e.1) =~= d.filter(f).map_values(
                |e: (usize, Seq<char>)| e.1,
            ).push(entries.last().1));
            assert(entries.filter(g) == d.filter(g));
        } else {
            assert(entries.filter(f) == d.filter(f));
            assert(entries.filter(g) == d.filter(g).push(entries.last()));
        }
    }
}

/// Whether a ledger entry is for a task other than `id`.
pub open spec fn other_task(id: Seq<char>) -> spec_fn((usize, Seq<char>)) -> bool {
    |e: (usize, Seq<char>)| e.1 != id
}

/// Forgetting a reported task keeps, in order, exactly the entries of the
/// other tasks.
pub proof fn lemma_task_reported_keeps_others(entries: Seq<(usize, Seq<char>)>, id: Seq<char>)
    ensures
        without_task(entries, id) == entries.filter(other_task(id)),
    decreases entries.len(),
{
    reveal(Seq::filter);
    let g = other_task(id);
    if entries.len() > 0 {
        lemma_task_reported_keeps_others(entries.drop_last(), id);
        if g(entries.last()) {
            assert(entries.filter(g) == entries.drop_last().filter(g).push(entries.last()));
        } else {
            assert(entries.filter(g) == entries.drop_last().filter(g));
        }
    }
}

/// The ids of the tasks that `entries` records as held by `worker`, in order.
pub open spec fn held_by(entries: Seq<(usize, Seq<char>)>, worker: usize) -> Seq<Seq<char>>
    decreases entries.len(),
{
    if entries.len() == 0 {
        Seq::empty()
    } else {
        let rest = held_by(entries.drop_last(), worker);
        if entries.last().0 == worker {
            rest.push(entries.last().1)
        } else {
            rest
        }
    }
}

/// `entries` without those of `worker`.
pub open spec fn without_worker(entries: Seq<(usize, Seq<char>)>, worker: usize) -> Seq<
    (usize, Seq<char>),
>
    decreases entries.len(),
{
    if entries.len() == 0 {
        Seq::empty()
    } else {
        let rest = without_worker(entries.drop_last(), worker);
        if entries.last().0 == worker {
            rest
        } else {
            rest.push(entries.last())
        }
    }
}

/// `entries` without those of the task `id`.
pub open spec fn without_task(entries: Seq<(usize, Seq<char>)>, id: Seq<char>) -> Seq<
    (usize, Seq<char>),
>
    decreases entries.len(),
{
    if entries.len() == 0 {
        Seq::empty()
    } else {
        let rest = without_task(entries.drop_last(), id);
        if entries.last().1 == id {
            rest
        } else {
            rest.push(entries.last())
        }
    }
}

/// The tasks handed out and not yet reported, each with the worker holding
/// it, in the order they were handed out.
#[derive(Debug)]
pub struct TaskLedger {
    entries: Vec<(usize, String)>,
}

/// The entries of a ledger as values.
pub open spec fn entry_values(v: Seq<(usize, String)>) -> Seq<(usize, Seq<char>)> {
    v.map_values(|e: (usize, String)| (e.0, e.1@))
}

impl View for TaskLedger {
    type V = Seq<(usize, Seq<char>)>;

    closed spec fn view(&self) -> Seq<(usize, Seq<char>)> {
        entry_values(self.entries@)
    }
}

impl TaskLedger {
    /// A ledger with nothing handed out.
    pub fn new() -> (r: Self)
        ensures
            r@ == Seq::<(usize, Seq<char>)>::empty(),
    {
        let r = TaskLedger { entries: Vec::new() };
        assert(r@ =~= Seq::<(usize, Seq<char>)>::empty());
        r
    }

    /// Records each task of `assigned` as held by the worker it went to, in order.
    pub fn record_assignments(&mut self, assigned: &Vec<(usize, TaskSpec)>)
        ensures
            final(self)@ == old(self)@ + assigned@.map_values(
                |p: (usize, TaskSpec)| (p.0, p.1.task_id@),
            ),
    {
        let ghost a = assigned@.map_values(|p: (usize, TaskSpec)| (p.0, p.1.task_id@));
        let mut i: usize = 0;
        while i < assigned.len()
            invariant
                i <= assigned@.len(),
                a == assigned@.map_values(|p: (usize, TaskSpec)| (p.0, p.1.task_id@)),
                self@ == old(self)@ + a.take(i as int),
            decreases assigned@.len() - i,
        {
            let ghost before = self@;
            let w = assigned[i].0;
            let id = assigned[i].1.task_id.clone();
            self.entries.push((w, id));
            assert(self@ =~= before.push((w, id@)));
            assert(a.take(i + 1) =~= a.take(i as int).push(a[i as int]));
            assert(old(self)@ + a.take(i + 1) =~= (old(self)@ + a.take(i as int)).push(a[i as int]));
            i += 1;
        }
        assert(a.take(a.len() as int) =~= a);
    }

    /// Forgets the task `task_id`, whose result has come in.
    pub fn task_reported(&mut self, task_id: &str)
        ensures
            final(self)@ == without_task(old(self)@, task_id@),
            final(self)@ == old(self)@.filter(other_task(task_id@)),
    {
        proof {
            lemma_task_reported_keeps_others(old(self)@, task_id@);
        }
        let ghost s = self@;
        let target = task_id.to_owned();
        let mut kept: Vec<(usize, String)> = Vec::new();
        let mut i: usize = 0;
        while i < self.entries.len()
            invariant
                i <= s.len(),
                s == self@,
                s == entry_values(self.entries@),
                target@ == task_id@,
                entry_values(kept@) == without_task(s.take(i as int), task_id@),
            decreases s.len() - i,
        {
            assert(s.take(i + 1).drop_last() =~= s.take(i as int));
            let ghost before = entry_values(kept@);
            let w = self.entries[i].0;
            assert(s.take(i + 1).last() == s[i as int]);
            assert(s[i as int] == (self.entries@[i as int].0, self.entries@[i as int].1@));
            if self.entries[i].1 == target {
                assert(s[i as int].1 == task_id@);
            } else {
                let id = self.entries[i].1.clone();
                kept.push((w, id));
                assert(entry_values(kept@) =~= before.push(s[i as int]));
            }
            i += 1;
        }
        assert(s.take(s.len() as int) =~= s);
        self.entries = kept;
    }

    /// Takes a lost worker's tasks off the ledger and gives their ids, in the
    /// order they were handed out: the tasks to hand out again.
    pub fn worker_lost(&mut self, worker: usize) -> (r: Vec<String>)
        ensures
            r.deep_view() == held_by(old(self)@, worker),
            final(self)@ == without_worker(old(self)@, worker),
            r.deep_view() == old(self)@.filter(|e: (usize, Seq<char>)| e.0 == worker).map_values(
                |e: (usize, Seq<char>)| e.1,
            ),
            final(self)@ == old(self)@.filter(|e: (usize, Seq<char>)| e.0 != worker),
    {
        proof {
            lemma_worker_lost_splits(self@, worker);
        }
        let ghost s = self@;
        let mut kept: Vec<(usize, String)> = Vec::new();
        let mut lost: Vec<String> = Vec::new();
        let mut i: usize = 0;
        while i < self.entries.len()
            invariant
                i <= s.len(),
                s == self@,
                s == entry_values(self.entries@),
                entry_values(kept@) == without_worker(s.take(i as int), worker),
                lost.deep_view() == held_by(s.take(i as int), worker),
            decreases s.len() - i,
        {
            assert(s.take(i + 1).drop_last() =~= s.take(i as int));
            let ghost before = entry_values(kept@);
            let ghost before_lost = lost.deep_view();
            let w = self.entries[i].0;
            let id = self.entries[i].1.clone();
            if w == worker {
                lost.push(id);
                assert(lost.deep_view() =~= before_lost.push(s[i as int].1));
            } else {
                kept.push((w, id));
                assert(entry_values(kept@) =~= before.push(s[i as int]));
            }
            i += 1;
        }
        assert(s.take(s.len() as int) =~= s);
        self.entries = kept;
        lost
    }
}

} // verus!
