//! A worker node's identity, and the master's view of a worker's load.
use vstd::prelude::*;
use crate::server::orchestrator::{MasterToWorkerMsg, TaskSpec};

verus! {

/// A worker: its id, and the address of the master it connects to.
#[derive(Debug)]
pub struct WorkerNode {
    worker_id: String,
    server_addr: String,
}

/// A worker node as values.
pub struct WorkerNodeView {
    pub worker_id: Seq<char>,
    pub server_addr: Seq<char>,
}

impl View for WorkerNode {
    type V = WorkerNodeView;

    closed spec fn view(&self) -> WorkerNodeView {
        WorkerNodeView { worker_id: self.worker_id@, server_addr: self.server_addr@ }
    }
}

impl WorkerNode {
    /// A worker with the id `worker_id` that connects to `server_addr`.
    pub fn new(worker_id: String, server_addr: String) -> (r: Self)
        ensures
            r@.worker_id == worker_id@,
            r@.server_addr == server_addr@,
    {
        WorkerNode { worker_id, server_addr }
    }

    /// The worker's id.
    pub fn worker_id(&self) -> (r: &str)
        ensures
            r@ == self@.worker_id,
    {
        self.worker_id.as_str()
    }

    /// The address of the master.
    pub fn server_addr(&self) -> (r: &str)
        ensures
            r@ == self@.server_addr,
    {
        self.server_addr.as_str()
    }
}

/// What a worker does with a message from the master.
#[derive(Debug)]
pub enum WorkerAction {
    /// Run the task and report how it ended.
    Run(TaskSpec),
    /// Nothing to do.
    Nothing,
}

impl WorkerNode {
    /// A task assignment is run; a ping needs no answer.
    pub fn react(msg: MasterToWorkerMsg) -> (r: WorkerAction)
        ensures
            match msg {
                MasterToWorkerMsg::AssignTask(t) => r == WorkerAction::Run(t),
                MasterToWorkerMsg::Ping => r is Nothing,
            },
    {
        match msg {
            MasterToWorkerMsg::AssignTask(t) => WorkerAction::Run(t),
            MasterToWorkerMsg::Ping => WorkerAction::Nothing,
        }
    }
}

/// What the master knows of a worker when choosing where to send work: its
/// address, whether it is alive, how many tasks it is running, and its latency.
#[derive(Debug)]
pub struct WorkerSession {
    pub address: String,
    pub is_alive: bool,
    pub active_tasks: usize,
    pub latency_ms: u64,
}

} // verus!
