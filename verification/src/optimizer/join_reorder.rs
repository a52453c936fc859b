//! Join ordering by dynamic programming over a hypergraph of join conditions.

pub mod accounting;
pub mod condition;
pub mod driver;
pub mod edge;
pub mod error;
pub mod graph;
pub mod laws;
pub mod memo;
pub mod node;
pub mod reconstruct;
pub mod relation_set;
pub mod search;
pub mod sorted_ids;
pub mod subgraph;
