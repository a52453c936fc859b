//! Expansion of the items of a select list.
//!
//! An item is an expression, or it stands for columns: `*` for the columns
//! of all tables in scope, `table.*` for those of one table, and
//! `COLUMNS('pattern')` for the columns whose names a regular expression
//! matches. Expansion puts the columns in the place of such an item.

use vstd::prelude::*;
use crate::ast::{ColumnsExpr, Expr, Ident, ReplaceColumn, SelectExpr, WildcardModifier};
use crate::expr::{ColumnExpr, ColumnReference};
use crate::logical::binder::ident::BinderIdent;
use crate::logical::binder::pattern::{is_match, pattern_compiles, pattern_matches};
use crate::logical::binder::table_list::{Table, TableAlias, UsingColumn};
use crate::logical::binder::{BindContext, BindError, BindScope, BindScopeRef, TableRef};

verus! {

/// An expanded select expression.
#[derive(Debug, PartialEq, Eq)]
pub enum ExpandedSelectExpr {
    /// A typical expression. Can be a reference to a column, or a more
    /// complex expression.
    Expr {
        /// The expression as parsed, still to be bound.
        expr: Expr,
        /// Optional user-provided alias.
        alias: Option<BinderIdent>,
    },
    /// A column in the current scope, which a wildcard has selected.
    Column {
        /// The column expression representing a column in some scope.
        expr: ColumnExpr,
        /// Name as it existed in the bind scope.
        name: BinderIdent,
    },
}

impl ExpandedSelectExpr {
    /// The alias that the user has given, if any.
    pub fn get_alias(&self) -> (alias: Option<&BinderIdent>)
        ensures
            self matches ExpandedSelectExpr::Expr { alias: given, .. } ==> (given matches Some(a)
                ==> alias == Some(a)) && (given.is_none() ==> alias.is_none()),
            self is Column ==> alias.is_none(),
    {
        match self {
            ExpandedSelectExpr::Expr { alias, .. } => alias.as_ref(),
            ExpandedSelectExpr::Column { .. } => None,
        }
    }
}

/// Why a select list could not be expanded.
#[derive(Debug, Clone, Copy, PartialEq, Eq, Structural)]
pub enum ExpandError {
    /// The bind context could not answer.
    Bind(BindError),
    /// A qualified wildcard names more than a table.
    QualifiedWildcardTooLong,
    /// A qualified wildcard names nothing.
    EmptyReference,
    /// No table in scope goes by the name in front of a wildcard.
    MissingTable,
    /// The argument of `COLUMNS` is no regular expression.
    InvalidPattern,
    /// The column at `index` of an `EXCLUDE` list is not among the columns
    /// that the wildcard stands for.
    ExcludedColumnNotReturned { index: usize },
    /// The column at `index` of a `REPLACE` list is not among the columns
    /// that the wildcard, after exclusion, stands for.
    ReplacedColumnNotReturned { index: usize },
}

/// What an expanded item is, without how it is held.
pub enum ItemView {
    /// An expression with the alias it was given.
    Expr { expr: Expr, alias: Option<Seq<char>> },
    /// The column at `reference`, output under `name`.
    Column { reference: ColumnReference, name: Seq<char> },
}

/// What expansion comes to: the items, or the reason why there are none.
pub enum Outcome {
    Fails(ExpandError),
    Items(Seq<ItemView>),
}

/// The view of an expanded item.
pub open spec fn item_view(item: ExpandedSelectExpr) -> ItemView {
    match item {
        ExpandedSelectExpr::Expr { expr, alias } => ItemView::Expr {
            expr,
            alias: match alias {
                Some(alias) => Some(alias@),
                None => None,
            },
        },
        ExpandedSelectExpr::Column { expr, name } => ItemView::Column {
            reference: expr.reference,
            name: name@,
        },
    }
}

/// The views of expanded items.
pub open spec fn item_views(items: Seq<ExpandedSelectExpr>) -> Seq<ItemView> {
    Seq::new(items.len(), |i: int| item_view(items[i]))
}

/// Every column among `items` has the type that the context gives it.
pub open spec fn typed_by(context: BindContext, items: Seq<ExpandedSelectExpr>) -> bool {
    forall|i: int|
        0 <= i < items.len() ==> ((#[trigger] items[i]) matches ExpandedSelectExpr::Column {
            expr,
            ..
        } ==> context.has_column(expr.reference) && expr.datatype == context.column_type(
            expr.reference,
        ))
}

/// The name under which an item that is a column is output.
pub open spec fn view_name(item: ItemView) -> Option<Seq<char>> {
    match item {
        ItemView::Column { name, .. } => Some(name),
        ItemView::Expr { .. } => None,
    }
}

/// Whether one of the first `n` of `items` is a column output under `name`.
pub open spec fn returns_name(items: Seq<ItemView>, name: Seq<char>, n: nat) -> bool
    decreases n,
{
    if n == 0 || n > items.len() {
        false
    } else {
        returns_name(items, name, (n - 1) as nat) || view_name(items[n - 1]) == Some(name)
    }
}

/// Whether one of the first `n` of `names` is `name`.
pub open spec fn ident_among(names: Seq<Ident>, name: Seq<char>, n: nat) -> bool
    decreases n,
{
    if n == 0 || n > names.len() {
        false
    } else {
        ident_among(names, name, (n - 1) as nat) || names[n - 1].value@ == name
    }
}

/// Whether one of the first `n` of the merged columns is called `name`.
pub open spec fn using_among(usings: Seq<UsingColumn>, name: Seq<char>, n: nat) -> bool
    decreases n,
{
    if n == 0 || n > usings.len() {
        false
    } else {
        using_among(usings, name, (n - 1) as nat) || usings[n - 1].column@ == name
    }
}

/// The first `n` merged columns as items.
pub open spec fn using_items(usings: Seq<UsingColumn>, n: nat) -> Seq<ItemView>
    decreases n,
{
    if n == 0 || n > usings.len() {
        Seq::empty()
    } else {
        using_items(usings, (n - 1) as nat).push(
            ItemView::Column {
                reference: ColumnReference {
                    table_scope: usings[n - 1].table_ref,
                    column: usings[n - 1].col_idx,
                },
                name: usings[n - 1].column@,
            },
        )
    }
}

/// The first `n` columns of `table` as items, without those that are
/// called like a merged column.
pub open spec fn table_items(table: Table, usings: Seq<UsingColumn>, n: nat) -> Seq<ItemView>
    decreases n,
{
    if n == 0 || n > table.column_names@.len() {
        Seq::empty()
    } else {
        let rest = table_items(table, usings, (n - 1) as nat);
        let name = table.column_names@[n - 1]@;
        if using_among(usings, name, usings.len()) {
            rest
        } else {
            rest.push(
                ItemView::Column {
                    reference: ColumnReference {
                        table_scope: table.reference,
                        column: (n - 1) as usize,
                    },
                    name,
                },
            )
        }
    }
}

/// The columns that `*` stands for among the first `n` of the tables
/// `refs`: those of the tables that take part in `*`, without those called
/// like a merged column.
pub open spec fn star_items(
    context: BindContext,
    refs: Seq<TableRef>,
    usings: Seq<UsingColumn>,
    n: nat,
) -> Seq<ItemView>
    decreases n,
{
    if n == 0 || n > refs.len() {
        Seq::empty()
    } else {
        let table = context.tables@[refs[n - 1] as int];
        star_items(context, refs, usings, (n - 1) as nat) + (if table.star_expandable {
            table_items(table, usings, table.column_names@.len())
        } else {
            Seq::empty()
        })
    }
}

/// The first `n` columns of `table` whose names `pattern` matches.
pub open spec fn matching_items(table: Table, pattern: Seq<char>, n: nat) -> Seq<ItemView>
    decreases n,
{
    if n == 0 || n > table.column_names@.len() {
        Seq::empty()
    } else {
        let rest = matching_items(table, pattern, (n - 1) as nat);
        let name = table.column_names@[n - 1]@;
        if pattern_matches(pattern, name) {
            rest.push(
                ItemView::Column {
                    reference: ColumnReference {
                        table_scope: table.reference,
                        column: (n - 1) as usize,
                    },
                    name,
                },
            )
        } else {
            rest
        }
    }
}

/// The columns of the first `n` of the tables `refs` whose names `pattern`
/// matches.
pub open spec fn pattern_items(
    context: BindContext,
    refs: Seq<TableRef>,
    pattern: Seq<char>,
    n: nat,
) -> Seq<ItemView>
    decreases n,
{
    if n == 0 || n > refs.len() {
        Seq::empty()
    } else {
        let table = context.tables@[refs[n - 1] as int];
        pattern_items(context, refs, pattern, (n - 1) as nat) + matching_items(
            table,
            pattern,
            table.column_names@.len(),
        )
    }
}

/// The first `n` of `items` without the columns that `excluded` names.
pub open spec fn without_excluded(items: Seq<ItemView>, excluded: Seq<Ident>, n: nat) -> Seq<
    ItemView,
>
    decreases n,
{
    if n == 0 || n > items.len() {
        Seq::empty()
    } else {
        let rest = without_excluded(items, excluded, (n - 1) as nat);
        match view_name(items[n - 1]) {
            Some(name) => if ident_among(excluded, name, excluded.len()) {
                rest
            } else {
                rest.push(items[n - 1])
            },
            None => rest.push(items[n - 1]),
        }
    }
}

/// The position of the last of the first `n` replacements that is for the
/// column `name`.
pub open spec fn replacement_for(replacements: Seq<ReplaceColumn>, name: Seq<char>, n: nat)
    -> Option<int>
    decreases n,
{
    if n == 0 || n > replacements.len() {
        None
    } else if replacements[n - 1].col.value@ == name {
        Some(n - 1)
    } else {
        replacement_for(replacements, name, (n - 1) as nat)
    }
}

/// An item once replacements are made: a column with a replacement becomes
/// the replacement's expression under the column's name.
pub open spec fn replaced_item(item: ItemView, replacements: Seq<ReplaceColumn>) -> ItemView {
    match item {
        ItemView::Column { name, .. } => match replacement_for(
            replacements,
            name,
            replacements.len(),
        ) {
            Some(r) => ItemView::Expr { expr: replacements[r].expr, alias: Some(name) },
            None => item,
        },
        ItemView::Expr { .. } => item,
    }
}

/// The items once replacements are made.
pub open spec fn with_replaced(items: Seq<ItemView>, replacements: Seq<ReplaceColumn>) -> Seq<
    ItemView,
> {
    Seq::new(items.len(), |i: int| replaced_item(items[i], replacements))
}

/// The position of the first of the first `n` excluded names that no item
/// is output under.
pub open spec fn first_not_excluded(items: Seq<ItemView>, excluded: Seq<Ident>, n: nat) -> Option<
    int,
>
    decreases n,
{
    if n == 0 || n > excluded.len() {
        None
    } else {
        match first_not_excluded(items, excluded, (n - 1) as nat) {
            Some(i) => Some(i),
            None => if returns_name(items, excluded[n - 1].value@, items.len()) {
                None
            } else {
                Some(n - 1)
            },
        }
    }
}

/// The position of the first of the first `n` replacements that is for a
/// name that no item is output under.
pub open spec fn first_not_replaced(
    items: Seq<ItemView>,
    replacements: Seq<ReplaceColumn>,
    n: nat,
) -> Option<int>
    decreases n,
{
    if n == 0 || n > replacements.len() {
        None
    } else {
        match first_not_replaced(items, replacements, (n - 1) as nat) {
            Some(i) => Some(i),
            None => if returns_name(items, replacements[n - 1].col.value@, items.len()) {
                None
            } else {
                Some(n - 1)
            },
        }
    }
}

/// What a wildcard's modifier makes of the columns `items`: the columns
/// named by `EXCLUDE` leave, then those named by `REPLACE` give way to
/// their replacements. It is an error to exclude or to replace a column
/// that is not there, and so to replace one that is excluded.
pub open spec fn modified(items: Seq<ItemView>, modifier: WildcardModifier) -> Outcome {
    let excluded = modifier.exclude_cols@;
    let replacements = modifier.replace_cols@;
    match first_not_excluded(items, excluded, excluded.len()) {
        Some(i) => Outcome::Fails(ExpandError::ExcludedColumnNotReturned { index: i as usize }),
        None => {
            let kept = without_excluded(items, excluded, items.len());
            match first_not_replaced(kept, replacements, replacements.len()) {
                Some(i) => Outcome::Fails(
                    ExpandError::ReplacedColumnNotReturned { index: i as usize },
                ),
                None => Outcome::Items(with_replaced(kept, replacements)),
            }
        },
    }
}

/// Whether a reference to the table called `name` is a reference to `table`.
pub open spec fn goes_by(table: Table, name: Seq<char>) -> bool {
    table.alias.is_some() && table.alias.unwrap().table@ == name
}

/// The position among the first `n` of the tables `refs` of the first one
/// that goes by `name`.
pub open spec fn first_named(context: BindContext, refs: Seq<TableRef>, name: Seq<char>, n: nat)
    -> Option<int>
    decreases n,
{
    if n == 0 || n > refs.len() {
        None
    } else {
        match first_named(context, refs, name, (n - 1) as nat) {
            Some(i) => Some(i),
            None => if goes_by(context.tables@[refs[n - 1] as int], name) {
                Some(n - 1)
            } else {
                None
            },
        }
    }
}

/// What the expansion of one item of a select list comes to in `scope`.
pub open spec fn expansion(context: BindContext, scope: BindScopeRef, expr: SelectExpr) -> Outcome {
    let missing_scope = Outcome::Fails(
        ExpandError::Bind(BindError::MissingScope { context_idx: scope.context_idx }),
    );
    match expr {
        SelectExpr::Expr(Expr::Columns(ColumnsExpr::Pattern(pattern))) => {
            if !pattern_compiles(pattern@) {
                Outcome::Fails(ExpandError::InvalidPattern)
            } else if scope.context_idx >= context.scopes@.len() {
                missing_scope
            } else {
                let tables = context.scopes@[scope.context_idx as int].tables@;
                Outcome::Items(pattern_items(context, tables, pattern@, tables.len()))
            }
        },
        SelectExpr::Expr(expr) => Outcome::Items(seq![ItemView::Expr { expr, alias: None }]),
        SelectExpr::AliasedExpr(expr, alias) => Outcome::Items(
            seq![ItemView::Expr { expr, alias: Some(alias.value@) }],
        ),
        SelectExpr::Wildcard(modifier) => {
            if scope.context_idx >= context.scopes@.len() {
                missing_scope
            } else {
                let found = context.scopes@[scope.context_idx as int];
                let usings = found.using_columns@;
                modified(
                    using_items(usings, usings.len()) + star_items(
                        context,
                        found.tables@,
                        usings,
                        found.tables@.len(),
                    ),
                    modifier,
                )
            }
        },
        SelectExpr::QualifiedWildcard(reference, modifier) => {
            if reference.0@.len() > 1 {
                Outcome::Fails(ExpandError::QualifiedWildcardTooLong)
            } else if reference.0@.len() == 0 {
                Outcome::Fails(ExpandError::EmptyReference)
            } else if scope.context_idx >= context.scopes@.len() {
                missing_scope
            } else {
                let tables = context.scopes@[scope.context_idx as int].tables@;
                match first_named(context, tables, reference.0@[0].value@, tables.len()) {
                    None => Outcome::Fails(ExpandError::MissingTable),
                    Some(i) => {
                        let table = context.tables@[tables[i] as int];
                        modified(
                            table_items(table, Seq::empty(), table.column_names@.len()),
                            modifier,
                        )
                    },
                }
            }
        },
    }
}

/// What the expansion of the first `n` items of a select list comes to:
/// the expansions of all of them, one after the other, or what the first
/// one that cannot be expanded fails with.
pub open spec fn expansion_of_all(
    context: BindContext,
    scope: BindScopeRef,
    exprs: Seq<SelectExpr>,
    n: nat,
) -> Outcome
    decreases n,
{
    if n == 0 || n > exprs.len() {
        Outcome::Items(Seq::empty())
    } else {
        match expansion_of_all(context, scope, exprs, (n - 1) as nat) {
            Outcome::Fails(e) => Outcome::Fails(e),
            Outcome::Items(before) => match expansion(context, scope, exprs[n - 1]) {
                Outcome::Fails(e) => Outcome::Fails(e),
                Outcome::Items(items) => Outcome::Items(before + items),
            },
        }
    }
}

/// `result` is what `outcome` says: the error, or items with those views,
/// their columns of the types that the context gives them.
pub open spec fn comes_to(
    context: BindContext,
    result: Result<Vec<ExpandedSelectExpr>, ExpandError>,
    outcome: Outcome,
) -> bool {
    match outcome {
        Outcome::Fails(e) => result == Err::<Vec<ExpandedSelectExpr>, ExpandError>(e),
        Outcome::Items(items) => result matches Ok(expanded) && item_views(expanded@) == items
            && typed_by(context, expanded@),
    }
}

/// The column of `table` at position `column` as an item.
fn column_item(table: &Table, column: usize) -> (item: ExpandedSelectExpr)
    requires
        table.wf(),
        column < table.column_names@.len(),
    ensures
        item_view(item) == (ItemView::Column {
            reference: ColumnReference { table_scope: table.reference, column },
            name: table.column_names@[column as int]@,
        }),
        item matches ExpandedSelectExpr::Column { expr, .. } && expr.datatype
            == table.column_types@[column as int],
{
    ExpandedSelectExpr::Column {
        expr: ColumnExpr {
            reference: ColumnReference { table_scope: table.reference, column },
            datatype: table.column_types[column].duplicate(),
        },
        name: table.column_names[column].duplicate(),
    }
}

/// Whether one of the merged columns is called `name`.
fn is_using(usings: &Vec<UsingColumn>, name: &BinderIdent) -> (found: bool)
    ensures
        found == using_among(usings@, name@, usings@.len()),
{
    let mut i: usize = 0;
    while i < usings.len()
        invariant
            i <= usings.len(),
            !using_among(usings@, name@, i as nat),
        decreases usings.len() - i,
    {
        if usings[i].column.same(name) {
            proof {
                lemma_using_among_grows(usings@, name@, (i + 1) as nat, usings@.len());
            }
            return true;
        }
        i += 1;
    }
    false
}

proof fn lemma_using_among_grows(usings: Seq<UsingColumn>, name: Seq<char>, n: nat, m: nat)
    requires
        n <= m <= usings.len(),
        using_among(usings, name, n),
    ensures
        using_among(usings, name, m),
    decreases m,
{
    if n < m {
        lemma_using_among_grows(usings, name, n, (m - 1) as nat);
    }
}

proof fn lemma_ident_among_grows(names: Seq<Ident>, name: Seq<char>, n: nat, m: nat)
    requires
        n <= m <= names.len(),
        ident_among(names, name, n),
    ensures
        ident_among(names, name, m),
    decreases m,
{
    if n < m {
        lemma_ident_among_grows(names, name, n, (m - 1) as nat);
    }
}

proof fn lemma_returns_name_grows(items: Seq<ItemView>, name: Seq<char>, n: nat, m: nat)
    requires
        n <= m <= items.len(),
        returns_name(items, name, n),
    ensures
        returns_name(items, name, m),
    decreases m,
{
    if n < m {
        lemma_returns_name_grows(items, name, n, (m - 1) as nat);
    }
}

/// Whether one of `names` is `name`.
fn is_named(names: &Vec<Ident>, name: &BinderIdent) -> (found: bool)
    ensures
        found == ident_among(names@, name@, names@.len()),
{
    let mut i: usize = 0;
    while i < names.len()
        invariant
            i <= names.len(),
            !ident_among(names@, name@, i as nat),
        decreases names.len() - i,
    {
        if names[i].value == name.value {
            proof {
                lemma_ident_among_grows(names@, name@, (i + 1) as nat, names@.len());
            }
            return true;
        }
        i += 1;
    }
    false
}

/// Whether one of `items` is a column output under `name`.
fn is_returned(items: &Vec<ExpandedSelectExpr>, name: &String) -> (found: bool)
    ensures
        found == returns_name(item_views(items@), name@, items@.len()),
{
    let mut i: usize = 0;
    while i < items.len()
        invariant
            i <= items.len(),
            !returns_name(item_views(items@), name@, i as nat),
        decreases items.len() - i,
    {
        let here = match &items[i] {
            ExpandedSelectExpr::Column { name: column, .. } => column.value == *name,
            ExpandedSelectExpr::Expr { .. } => false,
        };
        assert(here == (view_name(item_views(items@)[i as int]) == Some(name@)));
        if here {
            proof {
                lemma_returns_name_grows(
                    item_views(items@),
                    name@,
                    (i + 1) as nat,
                    items@.len(),
                );
            }
            return true;
        }
        i += 1;
    }
    false
}

/// Items whose views are the same up to `n` give the same answers up to `n`.
proof fn lemma_without_excluded_prefix(
    a: Seq<ItemView>,
    b: Seq<ItemView>,
    excluded: Seq<Ident>,
    n: nat,
)
    requires
        n <= a.len(),
        n <= b.len(),
        forall|i: int| 0 <= i < n ==> a[i] == b[i],
    ensures
        without_excluded(a, excluded, n) == without_excluded(b, excluded, n),
    decreases n,
{
    if n > 0 {
        lemma_without_excluded_prefix(a, b, excluded, (n - 1) as nat);
    }
}

/// The positions of replacements are positions in the list.
proof fn lemma_replacement_in_range(replacements: Seq<ReplaceColumn>, name: Seq<char>, n: nat)
    requires
        n <= replacements.len(),
    ensures
        replacement_for(replacements, name, n) matches Some(r) ==> 0 <= r < n
            && replacements[r].col.value@ == name,
    decreases n,
{
    if n > 0 && replacements[n - 1].col.value@ != name {
        lemma_replacement_in_range(replacements, name, (n - 1) as nat);
    }
}

proof fn lemma_first_not_in_range(items: Seq<ItemView>, excluded: Seq<Ident>, n: nat)
    requires
        n <= excluded.len(),
    ensures
        first_not_excluded(items, excluded, n) matches Some(i) ==> 0 <= i < n,
    decreases n,
{
    if n > 0 {
        lemma_first_not_in_range(items, excluded, (n - 1) as nat);
    }
}

proof fn lemma_first_not_replaced_in_range(
    items: Seq<ItemView>,
    replacements: Seq<ReplaceColumn>,
    n: nat,
)
    requires
        n <= replacements.len(),
    ensures
        first_not_replaced(items, replacements, n) matches Some(i) ==> 0 <= i < n,
    decreases n,
{
    if n > 0 {
        lemma_first_not_replaced_in_range(items, replacements, (n - 1) as nat);
    }
}

/// The replacement for the column `name`: the last one in the list that is
/// for it.
fn find_replacement<'a>(replacements: &'a Vec<ReplaceColumn>, name: &BinderIdent) -> (found: Option<
    &'a ReplaceColumn,
>)
    ensures
        replacement_for(replacements@, name@, replacements@.len()) matches Some(r) ==> found
            == Some(&replacements@[r]),
        replacement_for(replacements@, name@, replacements@.len()).is_none() ==> found.is_none(),
{
    let mut n: usize = replacements.len();
    while n > 0
        invariant
            n <= replacements.len(),
            replacement_for(replacements@, name@, replacements@.len()) == replacement_for(
                replacements@,
                name@,
                n as nat,
            ),
        decreases n,
    {
        if replacements[n - 1].col.value == name.value {
            return Some(&replacements[n - 1]);
        }
        n -= 1;
    }
    None
}

/// Applies a wildcard's modifier to the columns that the wildcard stands
/// for: first the exclusions, then the replacements.
pub fn exclude_and_replace_cols(
    context: &BindContext,
    exprs: Vec<ExpandedSelectExpr>,
    modifier: WildcardModifier,
) -> (result: Result<Vec<ExpandedSelectExpr>, ExpandError>)
    requires
        typed_by(*context, exprs@),
    ensures
        comes_to(*context, result, modified(item_views(exprs@), modifier)),
{
    let ghost items = item_views(exprs@);
    let WildcardModifier { exclude_cols, replace_cols } = modifier;
    // Every excluded column has to be a column being returned.
    let mut e: usize = 0;
    while e < exclude_cols.len()
        invariant
            e <= exclude_cols.len(),
            exclude_cols == modifier.exclude_cols,
            items == item_views(exprs@),
            first_not_excluded(items, exclude_cols@, e as nat).is_none(),
        decreases exclude_cols.len() - e,
    {
        if !is_returned(&exprs, &exclude_cols[e].value) {
            proof {
                lemma_first_not_grows(items, exclude_cols@, (e + 1) as nat, exclude_cols@.len());
            }
            return Err(ExpandError::ExcludedColumnNotReturned { index: e });
        }
        e += 1;
    }
    // Exclusion first.
    let ghost all = exprs@;
    let mut kept: Vec<ExpandedSelectExpr> = Vec::new();
    assert(item_views(kept@) =~= without_excluded(items, exclude_cols@, 0));
    for expr in it: exprs
        invariant
            it.seq() == all,
            items == item_views(all),
            typed_by(*context, all),
            typed_by(*context, kept@),
            item_views(kept@) == without_excluded(items, exclude_cols@, it.index() as nat),
    {
        let ghost before = kept@;
        let excluded = match &expr {
            ExpandedSelectExpr::Column { name, .. } => is_named(&exclude_cols, name),
            ExpandedSelectExpr::Expr { .. } => false,
        };
        if !excluded {
            kept.push(expr);
            assert(item_views(kept@) =~= item_views(before).push(item_view(expr)));
        }
        proof {
            assert(items[it.index() as int] == item_view(expr));
        }
    }
    let ghost kept_items = item_views(kept@);
    // Every replaced column has to be a column still being returned.
    let mut r: usize = 0;
    while r < replace_cols.len()
        invariant
            r <= replace_cols.len(),
            items == item_views(exprs@),
            exclude_cols == modifier.exclude_cols,
            replace_cols == modifier.replace_cols,
            first_not_excluded(items, exclude_cols@, exclude_cols@.len()).is_none(),
            kept_items == without_excluded(items, exclude_cols@, items.len()),
            kept_items == item_views(kept@),
            first_not_replaced(kept_items, replace_cols@, r as nat).is_none(),
        decreases replace_cols.len() - r,
    {
        if !is_returned(&kept, &replace_cols[r].col.value) {
            proof {
                lemma_first_not_replaced_grows(
                    kept_items,
                    replace_cols@,
                    (r + 1) as nat,
                    replace_cols@.len(),
                );
            }
            return Err(ExpandError::ReplacedColumnNotReturned { index: r });
        }
        r += 1;
    }
    // Then replacement. A column may be replaced by an expression that
    // replaces another column too: whether that is ambiguous is for the
    // checks on names during planning to say.
    let ghost kept_all = kept@;
    let mut replaced: Vec<ExpandedSelectExpr> = Vec::new();
    for expr in it: kept
        invariant
            it.seq() == kept_all,
            kept_items == item_views(kept_all),
            typed_by(*context, kept_all),
            typed_by(*context, replaced@),
            replaced@.len() == it.index(),
            forall|i: int|
                0 <= i < replaced@.len() ==> item_view(#[trigger] replaced@[i]) == replaced_item(
                    kept_items[i],
                    replace_cols@,
                ),
    {
        let ghost before = replaced@;
        let item = match expr {
            ExpandedSelectExpr::Column { expr: column, name } => {
                proof {
                    lemma_replacement_in_range(replace_cols@, name@, replace_cols@.len());
                }
                match find_replacement(&replace_cols, &name) {
                    Some(replacement) => ExpandedSelectExpr::Expr {
                        expr: replacement.expr.duplicate(),
                        alias: Some(name),
                    },
                    None => ExpandedSelectExpr::Column { expr: column, name },
                }
            },
            other => other,
        };
        proof {
            assert(kept_items[it.index() as int] == item_view(expr));
        }
        replaced.push(item);
    }
    assert(item_views(replaced@) =~= with_replaced(kept_items, replace_cols@));
    Ok(replaced)
}

proof fn lemma_first_not_grows(items: Seq<ItemView>, excluded: Seq<Ident>, n: nat, m: nat)
    requires
        1 <= n <= m <= excluded.len(),
        first_not_excluded(items, excluded, (n - 1) as nat).is_none(),
        !returns_name(items, excluded[n - 1].value@, items.len()),
    ensures
        first_not_excluded(items, excluded, m) == Some((n - 1) as int),
    decreases m,
{
    if n < m {
        lemma_first_not_grows(items, excluded, n, (m - 1) as nat);
    }
}

proof fn lemma_first_not_replaced_grows(
    items: Seq<ItemView>,
    replacements: Seq<ReplaceColumn>,
    n: nat,
    m: nat,
)
    requires
        1 <= n <= m <= replacements.len(),
        first_not_replaced(items, replacements, (n - 1) as nat).is_none(),
        !returns_name(items, replacements[n - 1].col.value@, items.len()),
    ensures
        first_not_replaced(items, replacements, m) == Some((n - 1) as int),
    decreases m,
{
    if n < m {
        lemma_first_not_replaced_grows(items, replacements, n, (m - 1) as nat);
    }
}

/// The columns of `table` for which `keep` says so, in their order.
pub open spec fn chosen_items(table: Table, keep: Seq<bool>, n: nat) -> Seq<ItemView>
    decreases n,
{
    if n == 0 || n > table.column_names@.len() || n > keep.len() {
        Seq::empty()
    } else {
        let rest = chosen_items(table, keep, (n - 1) as nat);
        if keep[n - 1] {
            rest.push(
                ItemView::Column {
                    reference: ColumnReference {
                        table_scope: table.reference,
                        column: (n - 1) as usize,
                    },
                    name: table.column_names@[n - 1]@,
                },
            )
        } else {
            rest
        }
    }
}

/// Adds to `out` the columns of `table` for which `keep` says so, in their
/// order.
pub fn push_chosen_columns(out: &mut Vec<ExpandedSelectExpr>, table: &Table, keep: &Vec<bool>)
    requires
        table.wf(),
        keep@.len() == table.column_names@.len(),
    ensures
        item_views(final(out)@) == item_views(old(out)@) + chosen_items(
            *table,
            keep@,
            keep@.len(),
        ),
        forall|i: int| 0 <= i < old(out)@.len() ==> final(out)@[i] == old(out)@[i],
        forall|i: int|
            old(out)@.len() <= i < final(out)@.len() ==> ((
            #[trigger] final(out)@[i]) matches ExpandedSelectExpr::Column { expr, .. }
                && expr.reference.table_scope == table.reference && expr.reference.column
                < table.column_names@.len() && expr.datatype
                == table.column_types@[expr.reference.column as int]),
{
    let mut c: usize = 0;
    assert(item_views(out@) =~= item_views(old(out)@) + chosen_items(*table, keep@, 0));
    while c < keep.len()
        invariant
            c <= keep.len(),
            table.wf(),
            keep@.len() == table.column_names@.len(),
            item_views(out@) == item_views(old(out)@) + chosen_items(*table, keep@, c as nat),
            out@.len() >= old(out)@.len(),
            forall|i: int| 0 <= i < old(out)@.len() ==> out@[i] == old(out)@[i],
            forall|i: int|
                old(out)@.len() <= i < out@.len() ==> ((
                #[trigger] out@[i]) matches ExpandedSelectExpr::Column { expr, .. }
                    && expr.reference.table_scope == table.reference && expr.reference.column
                    < table.column_names@.len() && expr.datatype
                    == table.column_types@[expr.reference.column as int]),
        decreases keep.len() - c,
    {
        if keep[c] {
            let ghost before = out@;
            let item = column_item(table, c);
            out.push(item);
            assert(item_views(out@) =~= item_views(before).push(item_view(item)));
            assert(item_views(out@) =~= item_views(old(out)@) + chosen_items(
                *table,
                keep@,
                (c + 1) as nat,
            ));
        }
        c += 1;
    }
}

/// For each column of `table` whether it takes part in `*`: whether it is
/// not called like a merged column.
fn not_merged(table: &Table, usings: &Vec<UsingColumn>) -> (keep: Vec<bool>)
    ensures
        keep@.len() == table.column_names@.len(),
        forall|c: int|
            0 <= c < keep@.len() ==> keep@[c] == !using_among(
                usings@,
                (#[trigger] table.column_names@[c])@,
                usings@.len(),
            ),
{
    let mut keep: Vec<bool> = Vec::new();
    let mut c: usize = 0;
    while c < table.column_names.len()
        invariant
            c <= table.column_names.len(),
            keep@.len() == c,
            forall|k: int|
                0 <= k < c ==> keep@[k] == !using_among(
                    usings@,
                    (#[trigger] table.column_names@[k])@,
                    usings@.len(),
                ),
        decreases table.column_names.len() - c,
    {
        keep.push(!is_using(usings, &table.column_names[c]));
        c += 1;
    }
    keep
}

/// For each column of `table` whether `pattern` matches its name. Fails if
/// `pattern` is no regular expression.
fn matched_by(table: &Table, pattern: &str) -> (result: Result<Vec<bool>, ExpandError>)
    ensures
        result.is_ok() == (pattern_compiles(pattern@) || table.column_names@.len() == 0),
        result matches Err(e) ==> e == ExpandError::InvalidPattern,
        result matches Ok(keep) ==> keep@.len() == table.column_names@.len() && forall|c: int|
            0 <= c < keep@.len() ==> keep@[c] == pattern_matches(
                pattern@,
                (#[trigger] table.column_names@[c])@,
            ),
{
    let mut keep: Vec<bool> = Vec::new();
    let mut c: usize = 0;
    while c < table.column_names.len()
        invariant
            c <= table.column_names.len(),
            keep@.len() == c,
            c > 0 ==> pattern_compiles(pattern@),
            forall|k: int|
                0 <= k < c ==> keep@[k] == pattern_matches(
                    pattern@,
                    (#[trigger] table.column_names@[k])@,
                ),
        decreases table.column_names.len() - c,
    {
        // The pattern is matched against the name of the column as it is
        // shown.
        match is_match(pattern, table.column_names[c].as_raw_str()) {
            Ok(found) => {
                keep.push(found);
            },
            Err(_) => {
                return Err(ExpandError::InvalidPattern);
            },
        }
        c += 1;
    }
    Ok(keep)
}

proof fn lemma_chosen_is_table_items(
    table: Table,
    usings: Seq<UsingColumn>,
    keep: Seq<bool>,
    n: nat,
)
    requires
        n <= keep.len(),
        keep.len() == table.column_names@.len(),
        forall|c: int|
            0 <= c < keep.len() ==> keep[c] == !using_among(
                usings,
                (#[trigger] table.column_names@[c])@,
                usings.len(),
            ),
    ensures
        chosen_items(table, keep, n) == table_items(table, usings, n),
    decreases n,
{
    if n > 0 {
        lemma_chosen_is_table_items(table, usings, keep, (n - 1) as nat);
        assert(keep[n - 1] == !using_among(usings, table.column_names@[n - 1]@, usings.len()));
    }
}

proof fn lemma_chosen_is_matching_items(table: Table, pattern: Seq<char>, keep: Seq<bool>, n: nat)
    requires
        n <= keep.len(),
        keep.len() == table.column_names@.len(),
        forall|c: int|
            0 <= c < keep.len() ==> keep[c] == pattern_matches(
                pattern,
                (#[trigger] table.column_names@[c])@,
            ),
    ensures
        chosen_items(table, keep, n) == matching_items(table, pattern, n),
    decreases n,
{
    if n > 0 {
        lemma_chosen_is_matching_items(table, pattern, keep, (n - 1) as nat);
        assert(keep[n - 1] == pattern_matches(pattern, table.column_names@[n - 1]@));
    }
}

/// Expands wildcards in expressions found in the select list.
#[derive(Debug)]
pub struct SelectExprExpander<'a> {
    pub current: BindScopeRef,
    pub bind_context: &'a BindContext,
}

impl<'a> SelectExprExpander<'a> {
    /// An expander for the select list of the query at `current`.
    pub fn new(current: BindScopeRef, bind_context: &'a BindContext) -> (expander: Self)
        ensures
            expander.current == current,
            *expander.bind_context == *bind_context,
    {
        SelectExprExpander { current, bind_context }
    }

    /// Expands every item of a select list, in their order. Fails with what
    /// the first item that cannot be expanded fails with.
    pub fn expand_all_select_exprs(&self, exprs: Vec<SelectExpr>) -> (result: Result<
        Vec<ExpandedSelectExpr>,
        ExpandError,
    >)
        requires
            self.bind_context.wf(),
        ensures
            comes_to(
                *self.bind_context,
                result,
                expansion_of_all(*self.bind_context, self.current, exprs@, exprs@.len()),
            ),
    {
        let ghost all = exprs@;
        let mut expanded: Vec<ExpandedSelectExpr> = Vec::new();
        assert(item_views(expanded@) =~= Seq::<ItemView>::empty());
        for expr in it: exprs
            invariant
                it.seq() == all,
                self.bind_context.wf(),
                typed_by(*self.bind_context, expanded@),
                expansion_of_all(*self.bind_context, self.current, all, it.index() as nat)
                    == Outcome::Items(item_views(expanded@)),
        {
            let ghost before = expanded@;
            let mut items = match self.expand_select_expr(expr) {
                Ok(items) => items,
                Err(e) => {
                    proof {
                        lemma_failure_stays(
                            *self.bind_context,
                            self.current,
                            all,
                            (it.index() + 1) as nat,
                            all.len(),
                        );
                    }
                    return Err(e);
                },
            };
            let ghost added = items@;
            expanded.append(&mut items);
            assert(item_views(expanded@) =~= item_views(before) + item_views(added));
        }
        Ok(expanded)
    }

    /// Expands one item of a select list.
    ///
    /// An expression stays as it is, with its alias if it has one. `*`
    /// becomes the merged columns of joins with `USING`, then the columns
    /// of every table in scope that takes part in `*`, without those called
    /// like a merged column. `table.*` becomes the columns of the first
    /// table in scope that goes by that name. Both are then subject to the
    /// wildcard's modifier. `COLUMNS('pattern')` becomes the columns of all
    /// tables in scope whose names the pattern matches.
    pub fn expand_select_expr(&self, expr: SelectExpr) -> (result: Result<
        Vec<ExpandedSelectExpr>,
        ExpandError,
    >)
        requires
            self.bind_context.wf(),
        ensures
            comes_to(
                *self.bind_context,
                result,
                expansion(*self.bind_context, self.current, expr),
            ),
    {
        match expr {
            SelectExpr::Wildcard(modifier) => {
                let scope = match self.bind_context.get_scope(self.current) {
                    Ok(scope) => scope,
                    Err(e) => {
                        return Err(ExpandError::Bind(e));
                    },
                };
                let exprs = self.star_columns(scope);
                exclude_and_replace_cols(self.bind_context, exprs, modifier)
            },
            SelectExpr::QualifiedWildcard(reference, modifier) => {
                if reference.0.len() > 1 {
                    return Err(ExpandError::QualifiedWildcardTooLong);
                }
                if reference.0.len() == 0 {
                    return Err(ExpandError::EmptyReference);
                }
                let scope = match self.bind_context.get_scope(self.current) {
                    Ok(scope) => scope,
                    Err(e) => {
                        return Err(ExpandError::Bind(e));
                    },
                };
                let alias = TableAlias {
                    database: None,
                    schema: None,
                    table: BinderIdent::from_ident(&reference.0[0]),
                };
                let table = match self.find_table(scope, &alias) {
                    Some(table) => table,
                    None => {
                        return Err(ExpandError::MissingTable);
                    },
                };
                let mut exprs: Vec<ExpandedSelectExpr> = Vec::new();
                let usings: Vec<UsingColumn> = Vec::new();
                let keep = not_merged(table, &usings);
                proof {
                    assert(usings@ =~= Seq::<UsingColumn>::empty());
                    lemma_chosen_is_table_items(
                        *table,
                        usings@,
                        keep@,
                        table.column_names@.len(),
                    );
                }
                push_chosen_columns(&mut exprs, table, &keep);
                proof {
                    assert(item_views(exprs@) =~= table_items(
                        *table,
                        Seq::empty(),
                        table.column_names@.len(),
                    ));
                    assert(typed_by(*self.bind_context, exprs@));
                }
                exclude_and_replace_cols(self.bind_context, exprs, modifier)
            },
            SelectExpr::AliasedExpr(expr, alias) => {
                let alias = BinderIdent::from_ident(&alias);
                let mut exprs: Vec<ExpandedSelectExpr> = Vec::new();
                exprs.push(ExpandedSelectExpr::Expr { expr, alias: Some(alias) });
                assert(item_views(exprs@) =~= seq![
                    ItemView::Expr { expr, alias: Some(alias@) },
                ]);
                Ok(exprs)
            },
            SelectExpr::Expr(expr) => {
                // Check if this is a COLUMNS expr, expand if it is.
                match expr {
                    Expr::Columns(ColumnsExpr::Pattern(pattern)) => {
                        self.pattern_columns(pattern.as_str())
                    },
                    other => {
                        // Normal expression.
                        let mut exprs: Vec<ExpandedSelectExpr> = Vec::new();
                        exprs.push(ExpandedSelectExpr::Expr { expr: other, alias: None });
                        assert(item_views(exprs@) =~= seq![
                            ItemView::Expr { expr: other, alias: None },
                        ]);
                        Ok(exprs)
                    },
                }
            },
        }
    }

    /// The first table in `scope` that a reference to `alias` refers to.
    fn find_table(&self, scope: &BindScope, alias: &TableAlias) -> (found: Option<&'a Table>)
        requires
            self.bind_context.wf(),
            exists|s: int|
                0 <= s < self.bind_context.scopes@.len() && self.bind_context.scopes@[s] == *scope,
            alias.database.is_none(),
            alias.schema.is_none(),
        ensures
            first_named(*self.bind_context, scope.tables@, alias.table@, scope.tables@.len())
                matches Some(i) ==> found == Some(
                &self.bind_context.tables@[scope.tables@[i] as int],
            ) && self.bind_context.has_table(scope.tables@[i]),
            first_named(
                *self.bind_context,
                scope.tables@,
                alias.table@,
                scope.tables@.len(),
            ).is_none() ==> found.is_none(),
    {
        let ghost s = choose|s: int|
            0 <= s < self.bind_context.scopes@.len() && self.bind_context.scopes@[s] == *scope;
        let mut k: usize = 0;
        while k < scope.tables.len()
            invariant
                k <= scope.tables.len(),
                self.bind_context.wf(),
                0 <= s < self.bind_context.scopes@.len() && self.bind_context.scopes@[s] == *scope,
                alias.database.is_none(),
                alias.schema.is_none(),
                first_named(*self.bind_context, scope.tables@, alias.table@, k as nat).is_none(),
            decreases scope.tables.len() - k,
        {
            let table_ref = scope.tables[k];
            assert(self.bind_context.has_table(self.bind_context.scopes@[s].tables@[k as int]));
            let table = &self.bind_context.tables[table_ref];
            let matching = match &table.alias {
                Some(have) => have.matches(alias),
                None => false,
            };
            assert(matching == goes_by(*table, alias.table@));
            if matching {
                proof {
                    lemma_first_named_stays(
                        *self.bind_context,
                        scope.tables@,
                        alias.table@,
                        (k + 1) as nat,
                        scope.tables@.len(),
                    );
                }
                return Some(table);
            }
            k += 1;
        }
        None
    }

    /// The columns that `*` stands for in `scope`, before the modifier.
    ///
    /// Columns merged by `USING` are listed first and only once: the
    /// columns of the tables that are called like one of them are left
    /// out.
    fn star_columns(&self, scope: &BindScope) -> (exprs: Vec<ExpandedSelectExpr>)
        requires
            self.bind_context.wf(),
            exists|s: int|
                0 <= s < self.bind_context.scopes@.len() && self.bind_context.scopes@[s] == *scope,
        ensures
            typed_by(*self.bind_context, exprs@),
            item_views(exprs@) == using_items(scope.using_columns@, scope.using_columns@.len())
                + star_items(
                *self.bind_context,
                scope.tables@,
                scope.using_columns@,
                scope.tables@.len(),
            ),
    {
        let ghost s = choose|s: int|
            0 <= s < self.bind_context.scopes@.len() && self.bind_context.scopes@[s] == *scope;
        let usings = &scope.using_columns;
        let mut exprs: Vec<ExpandedSelectExpr> = Vec::new();
        let mut u: usize = 0;
        assert(item_views(exprs@) =~= using_items(usings@, 0));
        while u < usings.len()
            invariant
                u <= usings.len(),
                self.bind_context.wf(),
                0 <= s < self.bind_context.scopes@.len() && self.bind_context.scopes@[s] == *scope,
                usings@ == scope.using_columns@,
                typed_by(*self.bind_context, exprs@),
                item_views(exprs@) == using_items(usings@, u as nat),
            decreases usings.len() - u,
        {
            let using = &usings[u];
            let reference = ColumnReference { table_scope: using.table_ref, column: using.col_idx };
            assert(self.bind_context.has_column(reference)) by {
                let merged = self.bind_context.scopes@[s].using_columns@[u as int];
                assert(self.bind_context.has_column(
                    ColumnReference { table_scope: merged.table_ref, column: merged.col_idx },
                ));
            }
            let table = &self.bind_context.tables[using.table_ref];
            assert(table.wf());
            let ghost before = exprs@;
            let item = ExpandedSelectExpr::Column {
                expr: ColumnExpr {
                    reference,
                    datatype: table.column_types[using.col_idx].duplicate(),
                },
                name: using.column.duplicate(),
            };
            exprs.push(item);
            assert(item_views(exprs@) =~= item_views(before).push(item_view(item)));
            u += 1;
        }
        let ghost merged = exprs@;
        let mut k: usize = 0;
        assert(item_views(exprs@) =~= item_views(merged) + star_items(
            *self.bind_context,
            scope.tables@,
            usings@,
            0,
        ));
        while k < scope.tables.len()
            invariant
                k <= scope.tables.len(),
                self.bind_context.wf(),
                0 <= s < self.bind_context.scopes@.len() && self.bind_context.scopes@[s] == *scope,
                usings@ == scope.using_columns@,
                typed_by(*self.bind_context, exprs@),
                item_views(exprs@) == item_views(merged) + star_items(
                    *self.bind_context,
                    scope.tables@,
                    usings@,
                    k as nat,
                ),
            decreases scope.tables.len() - k,
        {
            let table_ref = scope.tables[k];
            assert(self.bind_context.has_table(self.bind_context.scopes@[s].tables@[k as int]));
            let table = &self.bind_context.tables[table_ref];
            assert(table.wf() && table.reference == table_ref);
            if table.star_expandable {
                let keep = not_merged(table, usings);
                let ghost before = exprs@;
                proof {
                    lemma_chosen_is_table_items(
                        *table,
                        usings@,
                        keep@,
                        table.column_names@.len(),
                    );
                }
                push_chosen_columns(&mut exprs, table, &keep);
                proof {
                    let added = table_items(*table, usings@, table.column_names@.len());
                    let so_far = star_items(
                        *self.bind_context,
                        scope.tables@,
                        usings@,
                        k as nat,
                    );
                    assert(item_views(merged) + so_far + added =~= item_views(merged) + (so_far
                        + added));
                }
            } else {
                proof {
                    let so_far = star_items(
                        *self.bind_context,
                        scope.tables@,
                        usings@,
                        k as nat,
                    );
                    assert(so_far + Seq::<ItemView>::empty() =~= so_far);
                }
            }
            k += 1;
        }
        exprs
    }

    /// The columns in scope whose names the regular expression `pattern`
    /// matches, table by table.
    fn pattern_columns(&self, pattern: &str) -> (result: Result<
        Vec<ExpandedSelectExpr>,
        ExpandError,
    >)
        requires
            self.bind_context.wf(),
        ensures
            comes_to(
                *self.bind_context,
                result,
                if !pattern_compiles(pattern@) {
                    Outcome::Fails(ExpandError::InvalidPattern)
                } else if self.current.context_idx >= self.bind_context.scopes@.len() {
                    Outcome::Fails(
                        ExpandError::Bind(
                            BindError::MissingScope { context_idx: self.current.context_idx },
                        ),
                    )
                } else {
                    Outcome::Items(
                        pattern_items(
                            *self.bind_context,
                            self.bind_context.scopes@[self.current.context_idx as int].tables@,
                            pattern@,
                            self.bind_context.scopes@[self.current.context_idx
                                as int].tables@.len(),
                        ),
                    )
                },
            ),
    {
        // Whether the pattern is a regular expression at all is settled
        // before the columns are looked at.
        match is_match(pattern, "") {
            Ok(_) => {},
            Err(_) => {
                return Err(ExpandError::InvalidPattern);
            },
        }
        let scope = match self.bind_context.get_scope(self.current) {
            Ok(scope) => scope,
            Err(e) => {
                return Err(ExpandError::Bind(e));
            },
        };
        let ghost s = self.current.context_idx as int;
        let mut exprs: Vec<ExpandedSelectExpr> = Vec::new();
        let mut k: usize = 0;
        assert(item_views(exprs@) =~= pattern_items(
            *self.bind_context,
            scope.tables@,
            pattern@,
            0,
        ));
        // Iter all columns in the context, select the ones that match the
        // regex.
        while k < scope.tables.len()
            invariant
                k <= scope.tables.len(),
                self.bind_context.wf(),
                pattern_compiles(pattern@),
                0 <= s < self.bind_context.scopes@.len() && self.bind_context.scopes@[s] == *scope,
                typed_by(*self.bind_context, exprs@),
                item_views(exprs@) == pattern_items(
                    *self.bind_context,
                    scope.tables@,
                    pattern@,
                    k as nat,
                ),
            decreases scope.tables.len() - k,
        {
            let table_ref = scope.tables[k];
            assert(self.bind_context.has_table(self.bind_context.scopes@[s].tables@[k as int]));
            let table = &self.bind_context.tables[table_ref];
            assert(table.wf() && table.reference == table_ref);
            let keep = matched_by(table, pattern)?;
            proof {
                lemma_chosen_is_matching_items(
                    *table,
                    pattern@,
                    keep@,
                    table.column_names@.len(),
                );
            }
            push_chosen_columns(&mut exprs, table, &keep);
            k += 1;
        }
        Ok(exprs)
    }
}

proof fn lemma_first_named_stays(
    context: BindContext,
    refs: Seq<TableRef>,
    name: Seq<char>,
    n: nat,
    m: nat,
)
    requires
        1 <= n <= m <= refs.len(),
        first_named(context, refs, name, (n - 1) as nat).is_none(),
        goes_by(context.tables@[refs[n - 1] as int], name),
    ensures
        first_named(context, refs, name, m) == Some((n - 1) as int),
    decreases m,
{
    if n < m {
        lemma_first_named_stays(context, refs, name, n, (m - 1) as nat);
    }
}

proof fn lemma_failure_stays(
    context: BindContext,
    scope: BindScopeRef,
    exprs: Seq<SelectExpr>,
    n: nat,
    m: nat,
)
    requires
        n <= m <= exprs.len(),
        expansion_of_all(context, scope, exprs, n) is Fails,
    ensures
        expansion_of_all(context, scope, exprs, m) == expansion_of_all(context, scope, exprs, n),
    decreases m,
{
    if n < m {
        lemma_failure_stays(context, scope, exprs, n, (m - 1) as nat);
    }
}

} // verus!
