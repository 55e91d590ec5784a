//! The task and result records exchanged between client, master and workers,
//! and the length-prefixed framing of their JSON encoding.
use vstd::prelude::*;

verus! {

/// How a task is to be run: its id, the command with its arguments, the ids
/// of the tasks it depends on, its time limit and how often it may be retried.
#[derive(Debug, PartialEq, Eq)]
pub struct TaskSpec {
    pub task_id: String,
    pub command: String,
    pub args: Vec<String>,
    pub dependencies: Vec<String>,
    pub timeout_secs: u64,
    pub max_retries: u32,
}

/// A task specification as values.
pub struct TaskSpecView {
    pub task_id: Seq<char>,
    pub command: Seq<char>,
    pub args: Seq<Seq<char>>,
    pub dependencies: Seq<Seq<char>>,
    pub timeout_secs: u64,
    pub max_retries: u32,
}

impl View for TaskSpec {
    type V = TaskSpecView;

    open spec fn view(&self) -> TaskSpecView {
        TaskSpecView {
            task_id: self.task_id@,
            command: self.command@,
            args: self.args.deep_view(),
            dependencies: self.dependencies.deep_view(),
            timeout_secs: self.timeout_secs,
            max_retries: self.max_retries,
        }
    }
}

/// Copies a list of strings, keeping every string.
pub fn clone_strings(v: &Vec<String>) -> (r: Vec<String>)
    ensures
        r.deep_view() == v.deep_view(),
{
    let mut out: Vec<String> = Vec::new();
    let mut i: usize = 0;
    while i < v.len()
        invariant
            i <= v@.len(),
            out@.len() == i,
            forall|j: int| 0 <= j < i ==> #[trigger] out@[j]@ == v@[j]@,
        decreases v@.len() - i,
    {
        let s = v[i].clone();
        out.push(s);
        i += 1;
    }
    assert(out.deep_view() =~= v.deep_view());
    out
}

/// Whether `v` holds a string equal to `x`.
pub fn contains_string(v: &Vec<String>, x: &String) -> (r: bool)
    ensures
        r == v.deep_view().contains(x@),
{
    let mut i: usize = 0;
    while i < v.len()
        invariant
            i <= v@.len(),
            forall|j: int| 0 <= j < i ==> v.deep_view()[j] != x@,
        decreases v@.len() - i,
    {
        if v[i] == *x {
            assert(v.deep_view()[i as int] == x@);
            return true;
        }
        i += 1;
    }
    false
}

impl Clone for TaskSpec {
    fn clone(&self) -> (r: Self)
        ensures
            r@ == self@,
    {
        TaskSpec {
            task_id: self.task_id.clone(),
            command: self.command.clone(),
            args: clone_strings(&self.args),
            dependencies: clone_strings(&self.dependencies),
            timeout_secs: self.timeout_secs,
            max_retries: self.max_retries,
        }
    }
}

/// The time limit, in seconds, of a task whose specification names none.
pub fn default_timeout() -> (r: u64)
    ensures
        r == 30,
{
    30
}

/// What running a task gave: whether it succeeded, its exit code if it had
/// one, and what it wrote to its two output streams.
#[derive(Debug, Clone, PartialEq, Eq)]
pub struct TaskResultSpec {
    pub task_id: String,
    pub success: bool,
    pub exit_code: Option<i32>,
    pub stdout: String,
    pub stderr: String,
}

/// The messages exchanged between client, master and workers.
#[derive(Debug, Clone)]
pub enum Message {
    /// A client submits a task graph.
    SubmitTasks(Vec<TaskSpec>),
    /// A worker announces itself.
    RegisterWorker { worker_id: String },
    /// A worker says it is alive.
    Heartbeat { worker_id: String },
    /// The master hands a task to a worker.
    TaskAssign(TaskSpec),
    /// A worker reports how a task ended.
    TaskResult(TaskResultSpec),
    /// A liveness probe and its answer.
    Ping,
    Pong,
}

} // verus!
