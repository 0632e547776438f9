//! Configuration of a test run.

pub mod schema;
