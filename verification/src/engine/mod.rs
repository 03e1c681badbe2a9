//! Tree traversal decisions.

pub mod walk;
