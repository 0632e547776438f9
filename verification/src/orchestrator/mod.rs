//! Running tests across sandboxes.

pub mod pool;
pub mod runner;
pub mod runner_laws;
pub mod schedule_laws;
pub mod scheduler;
