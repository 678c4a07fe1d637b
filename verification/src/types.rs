//! Plain data types shared by the agent: timestamps and actions.
pub mod action;
pub mod time;
