//! Offline isolation-level checking of recorded transactional histories.
//!
//! A history is a list of client sessions, each an ordered list of
//! transactions over a key-value store. The crate decides serializability by
//! a memoized backtracking search and reduces prefix consistency and snapshot
//! isolation to it by rewriting the history.

pub mod guard;
pub mod laws;
pub mod model;
pub mod rewrite;
pub mod ser_checker;
pub mod simulation;
pub mod transaction;
