//! Functions on values.

pub mod list_value;
