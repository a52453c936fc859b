//! What binding a select list leaves behind.

use vstd::prelude::*;
use crate::expr::Expression;
use crate::logical::binder::TableRef;

verus! {

/// Whether a select list asks for distinct rows.
#[derive(Debug, Clone, Copy, PartialEq, Eq, Structural)]
pub enum BoundDistinctModifier {
    /// Distinct on all columns.
    Distinct,
    /// No distinct, return all rows.
    All,
}

/// The table that a select puts out in the end, where its select list has
/// more columns than the query shows.
#[derive(Debug, PartialEq, Eq)]
pub struct OutputProjectionTable {
    /// Table containing just column references.
    pub table: TableRef,
    /// Column expressions that refer to the expanded select expressions.
    pub expressions: Vec<Expression>,
}

} // verus!
