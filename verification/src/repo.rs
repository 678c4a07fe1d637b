//! Repository understanding: the structural map of a Rust workspace and
//! the task specification locked for a turn.
pub mod context;
pub mod contract;
pub mod spec;
pub mod baseline;
pub mod scanner;
pub mod chrono_context;
