//! Planning core of a small analytical query engine: a cost-based join order
//! optimizer over a hypergraph of join conditions, together with the plan,
//! expression, statistics and formatting types it works with.

pub mod arrays;
pub mod ast;
pub mod catalog;
pub mod execution;
pub mod expr;
pub mod functions;
pub mod logical;
pub mod optimizer;
pub mod runtime;
pub mod statistics;
