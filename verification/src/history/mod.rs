//! Test history: what is kept of past runs, and what follows from it.

pub mod laws;
pub mod record;
pub mod reservoir;
pub mod store;
