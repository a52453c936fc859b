//! Plan optimizations.

pub mod join_reorder;
