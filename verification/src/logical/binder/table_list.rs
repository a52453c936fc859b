//! The tables that a query can refer to.

use vstd::prelude::*;
use crate::arrays::datatype::DataType;
use crate::logical::binder::ident::BinderIdent;
use crate::logical::binder::TableRef;

verus! {

/// The name under which a table is known in a query, as far as it is
/// qualified.
#[derive(Debug, Clone, PartialEq, Eq)]
pub struct TableAlias {
    pub database: Option<BinderIdent>,
    pub schema: Option<BinderIdent>,
    pub table: BinderIdent,
}

/// Whether a qualifier that a reference may have is met by the qualifier of
/// an alias: it is where the reference has none.
pub open spec fn qualifier_matches(have: Option<BinderIdent>, want: Option<BinderIdent>) -> bool {
    match want {
        None => true,
        Some(want) => have.is_some() && have.unwrap()@ == want@,
    }
}

fn qualifier_is_met(have: &Option<BinderIdent>, want: &Option<BinderIdent>) -> (met: bool)
    ensures
        met == qualifier_matches(*have, *want),
{
    match want {
        None => true,
        Some(want) => match have {
            Some(have) => have.same(want),
            None => false,
        },
    }
}

impl TableAlias {
    /// Whether a reference to `other` is a reference to this alias: the
    /// table is the same, and so is every qualifier that `other` has.
    pub open spec fn spec_matches(self, other: TableAlias) -> bool {
        &&& self.table@ == other.table@
        &&& qualifier_matches(self.schema, other.schema)
        &&& qualifier_matches(self.database, other.database)
    }

    /// Whether a reference to `other` is a reference to this alias.
    pub fn matches(&self, other: &TableAlias) -> (matching: bool)
        ensures
            matching == self.spec_matches(*other),
    {
        self.table.same(&other.table) && qualifier_is_met(&self.schema, &other.schema)
            && qualifier_is_met(&self.database, &other.database)
    }
}

/// A table in scope: its columns by name and type.
#[derive(Debug, PartialEq, Eq)]
pub struct Table {
    /// The reference under which the table is known to the plan.
    pub reference: TableRef,
    /// The name under which the query knows the table, if it has one.
    pub alias: Option<TableAlias>,
    pub column_types: Vec<DataType>,
    pub column_names: Vec<BinderIdent>,
    /// Whether the table's columns are among those that `*` stands for.
    pub star_expandable: bool,
}

impl Table {
    /// The table has a type for each column and a name for each.
    pub open spec fn wf(self) -> bool {
        self.column_types@.len() == self.column_names@.len()
    }

    /// Number of columns.
    pub fn num_columns(&self) -> (count: usize)
        ensures
            count == self.column_names@.len(),
    {
        self.column_names.len()
    }
}

/// A column that a join's `USING` has merged from its two inputs.
#[derive(Debug, Clone, PartialEq, Eq)]
pub struct UsingColumn {
    /// Name of the column.
    pub column: BinderIdent,
    /// The table to read the column from.
    pub table_ref: TableRef,
    /// Position of the column in that table.
    pub col_idx: usize,
}

} // verus!
