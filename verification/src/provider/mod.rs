//! Sandboxes and the commands that manage them.

pub mod command;
pub mod default;
pub mod laws;
pub mod local;
pub mod modal;
