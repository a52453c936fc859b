//! The parts of a parsed statement that binding a select list looks at.

use vstd::prelude::*;
use vstd::string::StringExecFns;

verus! {

/// An identifier as written.
#[derive(Debug, Clone, PartialEq, Eq)]
pub struct Ident {
    /// The identifier, without quotes.
    pub value: String,
    /// Whether the identifier was written in quotes.
    pub quoted: bool,
}

impl Ident {
    /// An identifier that was written without quotes.
    pub fn new_unquoted(value: &str) -> (ident: Ident)
        ensures
            ident.value@ == value@,
            !ident.quoted,
    {
        Ident { value: String::from_str(value), quoted: false }
    }

    /// An identifier that was written in quotes.
    pub fn new_quoted(value: &str) -> (ident: Ident)
        ensures
            ident.value@ == value@,
            ident.quoted,
    {
        Ident { value: String::from_str(value), quoted: true }
    }

    /// A copy of the identifier.
    pub fn duplicate(&self) -> (copy: Ident)
        ensures
            copy == *self,
    {
        Ident { value: self.value.clone(), quoted: self.quoted }
    }
}

/// A reference to an object, such as `schema.table`: its parts in order.
#[derive(Debug, Clone, PartialEq, Eq)]
pub struct ObjectReference(pub Vec<Ident>);

/// A literal value.
#[derive(Debug, Clone, PartialEq, Eq)]
pub enum Literal {
    /// A number, as it was written.
    Number(String),
    /// A string that was written in single quotes.
    SingleQuotedString(String),
    Boolean(bool),
    Null,
}

/// `COLUMNS(...)`: stands for the columns that its argument selects.
#[derive(Debug, Clone, PartialEq, Eq)]
pub enum ColumnsExpr {
    /// All columns whose names a regular expression matches.
    Pattern(String),
}

/// An expression.
#[derive(Debug, Clone, PartialEq, Eq)]
pub enum Expr {
    Ident(Ident),
    Literal(Literal),
    Columns(ColumnsExpr),
}

impl Expr {
    /// A copy of the expression.
    pub fn duplicate(&self) -> (copy: Expr)
        ensures
            copy == *self,
    {
        match self {
            Expr::Ident(ident) => Expr::Ident(ident.duplicate()),
            Expr::Literal(literal) => Expr::Literal(
                match literal {
                    Literal::Number(text) => Literal::Number(text.clone()),
                    Literal::SingleQuotedString(text) => Literal::SingleQuotedString(text.clone()),
                    Literal::Boolean(value) => Literal::Boolean(*value),
                    Literal::Null => Literal::Null,
                },
            ),
            Expr::Columns(columns) => Expr::Columns(
                match columns {
                    ColumnsExpr::Pattern(pattern) => ColumnsExpr::Pattern(pattern.clone()),
                },
            ),
        }
    }
}

/// `REPLACE (expr AS col)`: the expression to output in place of a column.
#[derive(Debug, Clone, PartialEq, Eq)]
pub struct ReplaceColumn {
    pub col: Ident,
    pub expr: Expr,
}

/// What follows a wildcard: the columns to leave out and those to replace.
#[derive(Debug, Clone, PartialEq, Eq)]
pub struct WildcardModifier {
    pub exclude_cols: Vec<Ident>,
    pub replace_cols: Vec<ReplaceColumn>,
}

/// The form of output that an `EXPLAIN` asks for.
#[derive(Debug, Clone, Copy, PartialEq, Eq, Structural)]
pub enum ExplainOutput {
    Text,
    Json,
}

/// `EXPLAIN [ANALYZE] [VERBOSE] [(FORMAT ..)]`, without the statement to
/// explain.
#[derive(Debug, Clone, Copy, PartialEq, Eq, Structural)]
pub struct ExplainNode {
    pub analyze: bool,
    pub verbose: bool,
    pub output: Option<ExplainOutput>,
}

/// An item of a select list.
#[derive(Debug, Clone, PartialEq, Eq)]
pub enum SelectExpr {
    /// An expression.
    Expr(Expr),
    /// An expression with an alias: `expr AS alias`.
    AliasedExpr(Expr, Ident),
    /// All columns of one table: `table.*`.
    QualifiedWildcard(ObjectReference, WildcardModifier),
    /// All columns in scope: `*`.
    Wildcard(WildcardModifier),
}

} // verus!
