//! Command history and path completion for an interactive shell.

pub mod text;
pub mod history;
pub mod persist;
pub mod manager;
pub mod tab_complete;
