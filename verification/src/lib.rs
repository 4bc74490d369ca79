//! Mining a shell history for commands worth an alias.
//!
//! The crate reads the lines of a history file, counts how often every
//! command and every start of a command was executed, keeps the counts in a
//! prefix tree, and draws the best candidates from the tree without holding
//! more than the requested number of them at a time.
//!
//! - [`history`] reads lines into executed commands.
//! - [`trie`] is the prefix tree; [`children`] holds what a node knows of its
//!   children, and [`paths`] says in which order a tree lists its nodes;
//!   [`counting_trie`] is a tree that only counts.
//! - [`capped_heap`] is the bounded priority container, and [`key_value`]
//!   draws the highest ranking nodes of a tree with it.
//! - [`executions`] and [`suggestion`] are what is counted and what is
//!   suggested; [`suggest`] goes from a history to suggestions.

pub mod capped_heap;
pub mod children;
pub mod counting_trie;
pub mod executions;
pub mod history;
pub mod key_value;
pub mod paths;
pub mod suggest;
pub mod suggestion;
pub mod trie;
