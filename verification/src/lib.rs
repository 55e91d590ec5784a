//! A distributed DAG execution engine: task graphs, a dependency-driven
//! scheduler, and the byte formats spoken between master and workers.
pub mod wire;
pub mod assoc;
pub mod protocol;
pub mod dag;
pub mod engine;
pub mod server;
