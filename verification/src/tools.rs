//! Tool logic: test runners and diagnostics, patches and web text.
pub mod patch;
pub mod test;
pub mod web;
pub mod exec_policy;
pub mod shell;
pub mod transaction;
pub mod pdf_translator;
pub mod background;
pub mod fs;
pub mod sandbox;
pub mod git;
