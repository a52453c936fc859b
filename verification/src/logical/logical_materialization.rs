//! Scans of materialized plans.

use vstd::prelude::*;
use crate::expr::Expression;
use crate::logical::binder::{BindContext, MaterializationRef, TableRef};
use crate::logical::operator::Node;
use crate::optimizer::join_reorder::sorted_ids::copy_ids;

verus! {

/// Scan of a materialized plan.
#[derive(Debug, Clone, PartialEq, Eq)]
pub struct LogicalMaterializationScan {
    /// Reference to the materialization in the bind context.
    pub mat: MaterializationRef,
}

/// The tables that a scan of `mat` outputs: those of the materialization, or
/// none if the context does not know it.
pub open spec fn materialization_refs(context: BindContext, mat: MaterializationRef) -> Seq<
    TableRef,
> {
    if mat.materialization_idx < context.materializations@.len() {
        context.materializations@[mat.materialization_idx as int].table_refs@
    } else {
        Seq::empty()
    }
}

impl Node<LogicalMaterializationScan> {
    /// Name of the operator.
    pub fn name(&self) -> (name: &'static str)
        ensures
            name@ == "MaterializationScan"@,
    {
        "MaterializationScan"
    }

    /// The tables in the operator's output.
    pub fn get_output_table_refs(&self, bind_context: &BindContext) -> (refs: Vec<TableRef>)
        ensures
            refs@ == materialization_refs(*bind_context, self.node.mat),
    {
        match bind_context.get_materialization(self.node.mat) {
            Some(materialization) => copy_ids(&materialization.table_refs),
            None => Vec::new(),
        }
    }
}

/// Scan of a materialized plan that projects out of the materialization and
/// removes duplicates.
///
/// Found only below a magic join: decorrelating a subquery puts it there, so
/// that the branch of the plan that works for the subquery sees each input
/// once. It stands for a distinct over a projection over a materialized scan.
#[derive(Debug, PartialEq, Eq)]
pub struct LogicalMagicMaterializationScan {
    /// Reference to the materialization in the bind context.
    pub mat: MaterializationRef,
    /// Projections out of the materialization, of which duplicates are
    /// removed.
    pub projections: Vec<Expression>,
    /// The table ref for this scan: parents refer to the deduplicated
    /// projections, never to anything inside the materialization.
    pub table_ref: TableRef,
}

impl Node<LogicalMagicMaterializationScan> {
    /// Name of the operator.
    pub fn name(&self) -> (name: &'static str)
        ensures
            name@ == "MagicMaterializationScan"@,
    {
        "MagicMaterializationScan"
    }

    /// The tables in the operator's output: the scan's own table.
    pub fn get_output_table_refs(&self, _bind_context: &BindContext) -> (refs: Vec<TableRef>)
        ensures
            refs@ == seq![self.node.table_ref],
    {
        let mut refs: Vec<TableRef> = Vec::new();
        refs.push(self.node.table_ref);
        assert(refs@ =~= seq![self.node.table_ref]);
        refs
    }
}

} // verus!
