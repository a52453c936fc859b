//! Execution of plans, as far as planning decides it.

pub mod create_schema;
