//! Stacked-branch state engine: a forest of tracked branches with
//! invariant-preserving mutations, a cycle-safe tree renderer, a
//! substring branch matcher, and a codec for the persisted state file.
//!
//! Each command invocation loads the forest once, applies at most one
//! mutation in memory, and persists the whole document afterwards.
//! The state file carries no lock: concurrent invocations race and
//! the last writer wins, an accepted limit for a one-developer tool.

pub mod commands;
pub mod git_util;
pub mod model;
pub mod state;
pub mod util;

pub use model::Branch;
pub use model::State;
