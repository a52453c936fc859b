//! Logical plans.

pub mod binder;
pub mod logical_filter;
pub mod logical_join;
pub mod logical_materialization;
pub mod logical_no_rows;
pub mod logical_scan;
pub mod operator;
