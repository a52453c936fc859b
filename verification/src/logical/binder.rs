//! What binding leaves behind for planning: the tables in scope, references
//! to them and to materialized plans.

pub mod bind_explain;
pub mod bind_query;
pub mod ident;
pub mod pattern;
pub mod select_expr_expander;
pub mod table_list;

use vstd::prelude::*;
use crate::arrays::datatype::DataType;
use crate::expr::ColumnReference;
use crate::logical::binder::ident::BinderIdent;
use crate::logical::binder::table_list::{Table, TableAlias, UsingColumn};

verus! {

/// Reference to a table in scope, by its index in the table list.
pub type TableRef = usize;

/// Reference to a materialized plan, by its index in the bind context.
#[derive(Debug, Clone, Copy, PartialEq, Eq, Structural)]
pub struct MaterializationRef {
    pub materialization_idx: usize,
}

/// A plan that is computed once and scanned from several places.
#[derive(Debug, Clone, PartialEq, Eq)]
pub struct PlanMaterialization {
    /// Tables that a scan of the materialization outputs.
    pub table_refs: Vec<TableRef>,
}

/// Reference to a scope, by its index in the bind context.
#[derive(Debug, Clone, Copy, PartialEq, Eq, Structural)]
pub struct BindScopeRef {
    pub context_idx: usize,
}

/// What is in scope at one level of a query.
#[derive(Debug, PartialEq, Eq)]
pub struct BindScope {
    /// The tables in scope, in the order in which they came into scope.
    pub tables: Vec<TableRef>,
    /// The columns that joins with `USING` have merged.
    pub using_columns: Vec<UsingColumn>,
}

/// Why the bind context could not answer.
#[derive(Debug, Clone, Copy, PartialEq, Eq, Structural)]
pub enum BindError {
    /// There is no such scope.
    MissingScope { context_idx: usize },
    /// There is no such table.
    MissingTable { table_ref: TableRef },
    /// The table has no such column.
    MissingColumn { table_ref: TableRef, column: usize },
    /// A table was given another number of column types than of column names.
    ColumnCountMismatch { types: usize, names: usize },
}

/// The tables, scopes and materializations of a query.
#[derive(Debug, PartialEq, Eq)]
pub struct BindContext {
    pub materializations: Vec<PlanMaterialization>,
    /// All tables of the query, each at the position that is its reference.
    pub tables: Vec<Table>,
    /// All scopes of the query. The first one is the root scope.
    pub scopes: Vec<BindScope>,
}

/// The identifiers for `names`, in their order.
fn idents_for(names: Vec<String>) -> (idents: Vec<BinderIdent>)
    ensures
        idents@.len() == names@.len(),
        forall|i: int| 0 <= i < names@.len() ==> (#[trigger] idents@[i])@ == names@[i]@,
{
    let ghost all = names@;
    let mut idents: Vec<BinderIdent> = Vec::new();
    for name in it: names
        invariant
            it.seq() == all,
            idents@.len() == it.index(),
            forall|i: int| 0 <= i < idents@.len() ==> (#[trigger] idents@[i])@ == all[i]@,
    {
        idents.push(BinderIdent { value: name });
    }
    idents
}

impl BindContext {
    /// There is a table with reference `table_ref`.
    pub open spec fn has_table(self, table_ref: TableRef) -> bool {
        table_ref < self.tables@.len()
    }

    /// There is a column at the place that `reference` refers to.
    pub open spec fn has_column(self, reference: ColumnReference) -> bool {
        self.has_table(reference.table_scope) && reference.column
            < self.tables@[reference.table_scope as int].column_names@.len()
    }

    /// The name of the column that `reference` refers to.
    pub open spec fn column_name(self, reference: ColumnReference) -> Seq<char> {
        self.tables@[reference.table_scope as int].column_names@[reference.column as int]@
    }

    /// The type of the column that `reference` refers to.
    pub open spec fn column_type(self, reference: ColumnReference) -> DataType {
        self.tables@[reference.table_scope as int].column_types@[reference.column as int]
    }

    /// Every table is at the position that is its reference and has as many
    /// column types as names, every table in a scope is a table of the
    /// context, and every merged column is a column of such a table.
    pub open spec fn wf(self) -> bool {
        &&& forall|r: int|
            0 <= r < self.tables@.len() ==> (#[trigger] self.tables@[r]).reference == r
                && self.tables@[r].wf()
        &&& forall|s: int, k: int|
            0 <= s < self.scopes@.len() && 0 <= k < self.scopes@[s].tables@.len()
                ==> self.has_table(#[trigger] self.scopes@[s].tables@[k])
        &&& forall|s: int, k: int|
            0 <= s < self.scopes@.len() && 0 <= k < self.scopes@[s].using_columns@.len() ==> {
                let using = #[trigger] self.scopes@[s].using_columns@[k];
                self.has_column(
                    ColumnReference { table_scope: using.table_ref, column: using.col_idx },
                )
            }
    }

    /// A context with the root scope and nothing in it.
    pub fn new_for_root() -> (context: BindContext)
        ensures
            context.wf(),
            context.materializations@.len() == 0,
            context.tables@.len() == 0,
            context.scopes@.len() == 1,
            context.scopes@[0].tables@.len() == 0,
            context.scopes@[0].using_columns@.len() == 0,
    {
        let mut scopes: Vec<BindScope> = Vec::new();
        scopes.push(BindScope { tables: Vec::new(), using_columns: Vec::new() });
        BindContext { materializations: Vec::new(), tables: Vec::new(), scopes }
    }

    /// The root scope.
    pub fn root_scope_ref(&self) -> (scope: BindScopeRef)
        ensures
            scope.context_idx == 0,
    {
        BindScopeRef { context_idx: 0 }
    }

    /// The materialization behind `mat`, if the context has one.
    pub fn get_materialization(&self, mat: MaterializationRef) -> (found: Option<
        &PlanMaterialization,
    >)
        ensures
            mat.materialization_idx < self.materializations@.len() ==> found == Some(
                &self.materializations@[mat.materialization_idx as int],
            ),
            mat.materialization_idx >= self.materializations@.len() ==> found.is_none(),
    {
        if mat.materialization_idx < self.materializations.len() {
            Some(&self.materializations[mat.materialization_idx])
        } else {
            None
        }
    }

    /// Brings a table with the given columns into `scope`. Its columns are
    /// among those that `*` stands for.
    ///
    /// Fails if there is not one type for each name, or else if there is no
    /// such scope.
    pub fn push_table(
        &mut self,
        scope: BindScopeRef,
        alias: Option<TableAlias>,
        column_types: Vec<DataType>,
        column_names: Vec<String>,
    ) -> (result: Result<TableRef, BindError>)
        requires
            old(self).wf(),
        ensures
            final(self).wf(),
            final(self).materializations == old(self).materializations,
            result matches Err(e) ==> *final(self) == *old(self) && e == (if column_types@.len()
                != column_names@.len() {
                BindError::ColumnCountMismatch {
                    types: column_types@.len() as usize,
                    names: column_names@.len() as usize,
                }
            } else {
                BindError::MissingScope { context_idx: scope.context_idx }
            }),
            result.is_ok() <==> column_types@.len() == column_names@.len() && scope.context_idx
                < old(self).scopes@.len(),
            result matches Ok(table_ref) ==> {
                &&& table_ref == old(self).tables@.len()
                &&& final(self).tables@.len() == old(self).tables@.len() + 1
                &&& forall|r: int|
                    0 <= r < old(self).tables@.len()
                        ==> final(self).tables@[r] == old(self).tables@[r]
                &&& ({
                    let table = final(self).tables@[table_ref as int];
                    &&& table.alias == alias
                    &&& table.column_types == column_types
                    &&& table.star_expandable
                    &&& table.column_names@.len() == column_names@.len()
                    &&& forall|c: int|
                        0 <= c < column_names@.len() ==> (#[trigger] table.column_names@[c])@
                            == column_names@[c]@
                })
                &&& final(self).scopes@.len() == old(self).scopes@.len()
                &&& forall|s: int|
                    0 <= s < old(self).scopes@.len() && s != scope.context_idx
                        ==> final(self).scopes@[s] == old(self).scopes@[s]
                &&& final(self).scopes@[scope.context_idx as int].tables@
                    == old(self).scopes@[scope.context_idx as int].tables@.push(table_ref)
                &&& final(self).scopes@[scope.context_idx as int].using_columns
                    == old(self).scopes@[scope.context_idx as int].using_columns
            },
    {
        if column_types.len() != column_names.len() {
            return Err(
                BindError::ColumnCountMismatch {
                    types: column_types.len(),
                    names: column_names.len(),
                },
            );
        }
        if scope.context_idx >= self.scopes.len() {
            return Err(BindError::MissingScope { context_idx: scope.context_idx });
        }
        let reference = self.tables.len();
        let table = Table {
            reference,
            alias,
            column_types,
            column_names: idents_for(column_names),
            star_expandable: true,
        };
        self.tables.push(table);
        let mut replaced = BindScope { tables: Vec::new(), using_columns: Vec::new() };
        std::mem::swap(&mut self.scopes[scope.context_idx], &mut replaced);
        let BindScope { tables, using_columns } = replaced;
        let mut tables = tables;
        tables.push(reference);
        let mut updated = BindScope { tables, using_columns };
        std::mem::swap(&mut self.scopes[scope.context_idx], &mut updated);
        proof {
            assert forall|s: int, k: int|
                0 <= s < self.scopes@.len() && 0 <= k < self.scopes@[s].tables@.len()
                implies self.has_table(#[trigger] self.scopes@[s].tables@[k]) by {
                if s == scope.context_idx {
                    if k < old(self).scopes@[s].tables@.len() {
                        assert(old(self).has_table(old(self).scopes@[s].tables@[k]));
                    }
                } else {
                    assert(self.scopes@[s] == old(self).scopes@[s]);
                    assert(old(self).has_table(old(self).scopes@[s].tables@[k]));
                }
            }
            assert forall|s: int, k: int|
                0 <= s < self.scopes@.len() && 0 <= k < self.scopes@[s].using_columns@.len()
                implies {
                let using = #[trigger] self.scopes@[s].using_columns@[k];
                self.has_column(
                    ColumnReference { table_scope: using.table_ref, column: using.col_idx },
                )
            } by {
                let using = self.scopes@[s].using_columns@[k];
                assert(using == old(self).scopes@[s].using_columns@[k]);
                assert(old(self).has_column(
                    ColumnReference { table_scope: using.table_ref, column: using.col_idx },
                ));
            }
        }
        Ok(reference)
    }

    /// Records in `scope` that a join with `USING` has merged `column`.
    ///
    /// Fails if there is no such scope, or else if `column` is no column of
    /// a table of the context.
    pub fn append_using_column(&mut self, scope: BindScopeRef, column: UsingColumn) -> (result:
        Result<(), BindError>)
        requires
            old(self).wf(),
        ensures
            final(self).wf(),
            final(self).materializations == old(self).materializations,
            final(self).tables == old(self).tables,
            result.is_ok() <==> scope.context_idx < old(self).scopes@.len() && old(self).has_column(
                ColumnReference { table_scope: column.table_ref, column: column.col_idx },
            ),
            result.is_err() ==> *final(self) == *old(self),
            result.is_ok() ==> {
                &&& final(self).scopes@.len() == old(self).scopes@.len()
                &&& forall|s: int|
                    0 <= s < old(self).scopes@.len() && s != scope.context_idx
                        ==> final(self).scopes@[s] == old(self).scopes@[s]
                &&& final(self).scopes@[scope.context_idx as int].tables
                    == old(self).scopes@[scope.context_idx as int].tables
                &&& final(self).scopes@[scope.context_idx as int].using_columns@
                    == old(self).scopes@[scope.context_idx as int].using_columns@.push(column)
            },
    {
        if scope.context_idx >= self.scopes.len() {
            return Err(BindError::MissingScope { context_idx: scope.context_idx });
        }
        if column.table_ref >= self.tables.len() {
            return Err(BindError::MissingTable { table_ref: column.table_ref });
        }
        if column.col_idx >= self.tables[column.table_ref].column_names.len() {
            return Err(
                BindError::MissingColumn { table_ref: column.table_ref, column: column.col_idx },
            );
        }
        let mut replaced = BindScope { tables: Vec::new(), using_columns: Vec::new() };
        std::mem::swap(&mut self.scopes[scope.context_idx], &mut replaced);
        let BindScope { tables, using_columns } = replaced;
        let mut using_columns = using_columns;
        using_columns.push(column);
        let mut updated = BindScope { tables, using_columns };
        std::mem::swap(&mut self.scopes[scope.context_idx], &mut updated);
        proof {
            assert forall|s: int, k: int|
                0 <= s < self.scopes@.len() && 0 <= k < self.scopes@[s].tables@.len()
                implies self.has_table(#[trigger] self.scopes@[s].tables@[k]) by {
                assert(old(self).has_table(old(self).scopes@[s].tables@[k]));
            }
            assert forall|s: int, k: int|
                0 <= s < self.scopes@.len() && 0 <= k < self.scopes@[s].using_columns@.len()
                implies {
                let using = #[trigger] self.scopes@[s].using_columns@[k];
                self.has_column(
                    ColumnReference { table_scope: using.table_ref, column: using.col_idx },
                )
            } by {
                if s == scope.context_idx && k == old(self).scopes@[s].using_columns@.len() {
                } else {
                    let using = old(self).scopes@[s].using_columns@[k];
                    assert(old(self).has_column(
                        ColumnReference { table_scope: using.table_ref, column: using.col_idx },
                    ));
                }
            }
        }
        Ok(())
    }

    /// The scope behind `scope`.
    pub fn get_scope(&self, scope: BindScopeRef) -> (result: Result<&BindScope, BindError>)
        ensures
            result.is_ok() <==> scope.context_idx < self.scopes@.len(),
            result matches Ok(found) ==> *found == self.scopes@[scope.context_idx as int],
            result matches Err(e) ==> e == (BindError::MissingScope {
                context_idx: scope.context_idx,
            }),
    {
        if scope.context_idx < self.scopes.len() {
            Ok(&self.scopes[scope.context_idx])
        } else {
            Err(BindError::MissingScope { context_idx: scope.context_idx })
        }
    }

    /// The table behind `table_ref`.
    pub fn get_table(&self, table_ref: TableRef) -> (result: Result<&Table, BindError>)
        ensures
            result.is_ok() <==> self.has_table(table_ref),
            result matches Ok(found) ==> *found == self.tables@[table_ref as int],
            result matches Err(e) ==> e == (BindError::MissingTable { table_ref }),
    {
        if table_ref < self.tables.len() {
            Ok(&self.tables[table_ref])
        } else {
            Err(BindError::MissingTable { table_ref })
        }
    }

    /// The type of the column that `reference` refers to.
    pub fn get_column_type(&self, reference: ColumnReference) -> (result: Result<
        DataType,
        BindError,
    >)
        requires
            self.wf(),
        ensures
            result.is_ok() <==> self.has_column(reference),
            result matches Ok(datatype) ==> datatype == self.column_type(reference),
            result matches Err(e) ==> e == (if self.has_table(reference.table_scope) {
                BindError::MissingColumn {
                    table_ref: reference.table_scope,
                    column: reference.column,
                }
            } else {
                BindError::MissingTable { table_ref: reference.table_scope }
            }),
    {
        let table = self.get_table(reference.table_scope)?;
        assert(table.wf());
        if reference.column < table.column_types.len() {
            Ok(table.column_types[reference.column].duplicate())
        } else {
            Err(
                BindError::MissingColumn {
                    table_ref: reference.table_scope,
                    column: reference.column,
                },
            )
        }
    }
}

} // verus!
