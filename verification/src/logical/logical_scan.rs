//! Scan of a table.

use vstd::prelude::*;
use crate::logical::binder::TableRef;
use crate::logical::operator::Node;

verus! {

/// Reads the rows of one table.
#[derive(Debug, Clone, PartialEq, Eq)]
pub struct LogicalScan {
    /// The table that the scan outputs.
    pub table_ref: TableRef,
}

impl Node<LogicalScan> {
    /// Name of the operator.
    pub fn name(&self) -> (name: &'static str)
        ensures
            name@ == "Scan"@,
    {
        "Scan"
    }

    /// The tables in the operator's output: the scanned table.
    pub fn get_output_table_refs(&self) -> (refs: Vec<TableRef>)
        ensures
            refs@ == seq![self.node.table_ref],
    {
        let mut refs: Vec<TableRef> = Vec::new();
        refs.push(self.node.table_ref);
        assert(refs@ =~= seq![self.node.table_ref]);
        refs
    }
}

} // verus!
