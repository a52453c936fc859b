//! Operator without rows.

use vstd::prelude::*;
use crate::logical::binder::TableRef;
use crate::logical::operator::Node;
use crate::optimizer::join_reorder::sorted_ids::copy_ids;

verus! {

/// Emit no rows with some number of columns.
///
/// Stands in for a plan under a filter that is known to be always false.
#[derive(Debug, Clone, PartialEq, Eq)]
pub struct LogicalNoRows {
    pub table_refs: Vec<TableRef>,
}

impl Node<LogicalNoRows> {
    /// Name of the operator.
    pub fn name(&self) -> (name: &'static str)
        ensures
            name@ == "NoRows"@,
    {
        "NoRows"
    }

    /// The tables in the operator's output: those of the plan it replaced.
    pub fn get_output_table_refs(&self) -> (refs: Vec<TableRef>)
        ensures
            refs@ == self.node.table_refs@,
    {
        copy_ids(&self.node.table_refs)
    }
}

} // verus!
