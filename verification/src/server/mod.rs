//! The master's side: the dependency-driven scheduler and the messages it
//! exchanges with workers.
pub mod orchestrator;
pub mod ordering;
pub mod failover;
pub mod runs;
pub mod master;
