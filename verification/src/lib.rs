//! Parallel test runner: scheduling, history, sandbox commands and batch decisions.

pub mod config;
pub mod framework;
pub mod history;
pub mod orchestrator;
pub mod provider;
pub mod ranking;
pub mod shell;
pub mod text;
