//! Binding of `EXPLAIN`.

use vstd::prelude::*;
use vstd::string::StringExecFns;
use crate::arrays::datatype::DataType;
use crate::ast::{ExplainNode, ExplainOutput};
use crate::logical::binder::{BindContext, BindError, BindScopeRef, TableRef};

verus! {

/// How a plan is printed.
#[derive(Debug, Clone, Copy, PartialEq, Eq, Structural)]
pub enum ExplainFormat {
    Text,
    Json,
}

/// The format for the output that a statement asks for: text unless it asks
/// for something else.
pub open spec fn format_for(output: Option<ExplainOutput>) -> ExplainFormat {
    match output {
        Some(ExplainOutput::Json) => ExplainFormat::Json,
        _ => ExplainFormat::Text,
    }
}

/// A bound `EXPLAIN`.
#[derive(Debug, Clone, Copy, PartialEq, Eq, Structural)]
pub struct BoundExplain {
    pub format: ExplainFormat,
    pub verbose: bool,
    pub analyze: bool,
    /// The table that holds the output.
    pub table_ref: TableRef,
}

/// Binds `EXPLAIN` in one scope.
#[derive(Debug, Clone, Copy, PartialEq, Eq, Structural)]
pub struct ExplainBinder {
    pub current: BindScopeRef,
}

impl ExplainBinder {
    /// A binder for an `EXPLAIN` in the scope `current`.
    pub fn new(current: BindScopeRef) -> (binder: Self)
        ensures
            binder.current == current,
    {
        ExplainBinder { current }
    }

    /// Binds `explain`: brings the table of its output into the current
    /// scope, with the two string columns `plan_type` and `plan` and without
    /// an alias. The statement to explain is to be bound before, so that its
    /// tables have the references they have without the `EXPLAIN`.
    ///
    /// Fails if there is no such scope, and then changes nothing.
    pub fn bind_explain(&self, bind_context: &mut BindContext, explain: ExplainNode) -> (result:
        Result<BoundExplain, BindError>)
        requires
            old(bind_context).wf(),
        ensures
            final(bind_context).wf(),
            result.is_ok() <==> self.current.context_idx < old(bind_context).scopes@.len(),
            result matches Err(e) ==> *final(bind_context) == *old(bind_context) && e == (
            BindError::MissingScope { context_idx: self.current.context_idx }),
            result matches Ok(bound) ==> {
                let table = final(bind_context).tables@[bound.table_ref as int];
                &&& bound.format == format_for(explain.output)
                &&& bound.verbose == explain.verbose
                &&& bound.analyze == explain.analyze
                &&& bound.table_ref == old(bind_context).tables@.len()
                &&& final(bind_context).tables@.len() == old(bind_context).tables@.len() + 1
                &&& forall|r: int|
                    0 <= r < old(bind_context).tables@.len() ==> final(bind_context).tables@[r]
                        == old(bind_context).tables@[r]
                &&& table.alias.is_none()
                &&& table.star_expandable
                &&& table.column_types@ == seq![DataType::Utf8, DataType::Utf8]
                &&& table.column_names@.len() == 2
                &&& table.column_names@[0]@ == "plan_type"@
                &&& table.column_names@[1]@ == "plan"@
                &&& final(bind_context).scopes@.len() == old(bind_context).scopes@.len()
                &&& forall|s: int|
                    0 <= s < old(bind_context).scopes@.len() && s != self.current.context_idx
                        ==> final(bind_context).scopes@[s] == old(bind_context).scopes@[s]
                &&& final(bind_context).scopes@[self.current.context_idx as int].tables@ == old(
                    bind_context,
                ).scopes@[self.current.context_idx as int].tables@.push(bound.table_ref)
            },
    {
        let format = match explain.output {
            Some(ExplainOutput::Text) => ExplainFormat::Text,
            Some(ExplainOutput::Json) => ExplainFormat::Json,
            None => ExplainFormat::Text,
        };
        let mut column_types: Vec<DataType> = Vec::new();
        column_types.push(DataType::utf8());
        column_types.push(DataType::utf8());
        let mut column_names: Vec<String> = Vec::new();
        column_names.push(String::from_str("plan_type"));
        column_names.push(String::from_str("plan"));
        assert(column_types@ =~= seq![DataType::Utf8, DataType::Utf8]);
        let table_ref = bind_context.push_table(self.current, None, column_types, column_names)?;
        Ok(BoundExplain { format, verbose: explain.verbose, analyze: explain.analyze, table_ref })
    }
}

} // verus!
