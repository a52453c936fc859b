//! Binding of queries.

pub mod select_list;
