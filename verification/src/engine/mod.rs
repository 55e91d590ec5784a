//! The engine's core: task graphs, packets and routes, retries, workers.
pub mod config;
pub mod graph;
pub mod topo;
pub mod progress;
pub mod path;
pub mod packet;
pub mod retry;
pub mod worker;
pub mod executor;
