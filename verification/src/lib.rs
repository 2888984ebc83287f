//! Reference lifecycle management for an immutable, parent-linked history
//! graph of "messages", grouped into logical units ("issues").
//!
//! The crate decides which named references into the graph are redundant —
//! their targets already reachable from retained ancestry — and therefore
//! safe to delete, and resolves nodes and reference names to the issues
//! that own them.

pub mod error;
pub mod gc;
pub mod graph;
pub mod issue;
pub mod iter;
pub mod refs;
pub mod repository;
