//! Scalar expressions, as far as planning looks into them.

use vstd::prelude::*;
use vstd::multiset::Multiset;
use crate::arrays::datatype::DataType;
use crate::logical::binder::TableRef;
use crate::optimizer::join_reorder::sorted_ids::{insert_id, is_ordered, members, union_ids};

verus! {

/// Operator of a comparison between two expressions.
#[derive(Debug, Clone, Copy, PartialEq, Eq, Structural)]
pub enum ComparisonOperator {
    Eq,
    NotEq,
    Lt,
    LtEq,
    Gt,
    GtEq,
}

impl ComparisonOperator {
    /// The operator that compares the same two operands in the other order.
    pub open spec fn flipped(self) -> ComparisonOperator {
        match self {
            ComparisonOperator::Eq => ComparisonOperator::Eq,
            ComparisonOperator::NotEq => ComparisonOperator::NotEq,
            ComparisonOperator::Lt => ComparisonOperator::Gt,
            ComparisonOperator::LtEq => ComparisonOperator::GtEq,
            ComparisonOperator::Gt => ComparisonOperator::Lt,
            ComparisonOperator::GtEq => ComparisonOperator::LtEq,
        }
    }

    /// The operator to use once the operands have changed sides.
    pub fn flip(self) -> (op: ComparisonOperator)
        ensures
            op == self.flipped(),
    {
        match self {
            ComparisonOperator::Eq => ComparisonOperator::Eq,
            ComparisonOperator::NotEq => ComparisonOperator::NotEq,
            ComparisonOperator::Lt => ComparisonOperator::Gt,
            ComparisonOperator::LtEq => ComparisonOperator::GtEq,
            ComparisonOperator::Gt => ComparisonOperator::Lt,
            ComparisonOperator::GtEq => ComparisonOperator::LtEq,
        }
    }
}

/// Operator joining the parts of a conjunction expression.
#[derive(Debug, Clone, Copy, PartialEq, Eq, Structural)]
pub enum ConjunctionOperator {
    And,
    Or,
}

/// Reference to a column of a table in scope.
#[derive(Debug, Clone, Copy, PartialEq, Eq, Structural)]
pub struct ColumnReference {
    pub table_scope: TableRef,
    pub column: usize,
}

/// A column used as an expression.
#[derive(Debug, PartialEq, Eq)]
pub struct ColumnExpr {
    pub reference: ColumnReference,
    pub datatype: DataType,
}

/// Comparison of two expressions.
#[derive(Debug, PartialEq, Eq)]
pub struct ComparisonExpr {
    pub left: Box<Expression>,
    pub right: Box<Expression>,
    pub op: ComparisonOperator,
}

/// Several expressions joined by AND or by OR.
#[derive(Debug, PartialEq, Eq)]
pub struct ConjunctionExpr {
    pub op: ConjunctionOperator,
    pub expressions: Vec<Expression>,
}

/// A scalar expression.
#[derive(Debug, PartialEq, Eq)]
pub enum Expression {
    Column(ColumnExpr),
    Literal(i64),
    Comparison(ComparisonExpr),
    Conjunction(ConjunctionExpr),
}

/// The tables referenced by the first `n` of `exprs`.
pub open spec fn table_refs_of(exprs: Seq<Expression>, n: nat) -> Set<TableRef>
    decreases exprs, n,
{
    if n == 0 || n > exprs.len() {
        Set::empty()
    } else {
        table_refs_of(exprs, (n - 1) as nat).union(exprs[n - 1].table_refs())
    }
}

/// The conjuncts of the first `n` of `exprs`, taken together.
pub open spec fn conjuncts_of(exprs: Seq<Expression>, n: nat) -> Multiset<Expression>
    decreases exprs, n,
{
    if n == 0 || n > exprs.len() {
        Multiset::empty()
    } else {
        conjuncts_of(exprs, (n - 1) as nat).add(exprs[n - 1].conjuncts())
    }
}

impl Expression {
    /// The tables whose columns the expression mentions.
    pub open spec fn table_refs(self) -> Set<TableRef>
        decreases self,
    {
        match self {
            Expression::Column(col) => set![col.reference.table_scope],
            Expression::Literal(_) => Set::empty(),
            Expression::Comparison(comparison) => comparison.left.table_refs().union(
                comparison.right.table_refs(),
            ),
            Expression::Conjunction(conj) => table_refs_of(
                conj.expressions@,
                conj.expressions@.len(),
            ),
        }
    }

    /// The predicates that an AND of predicates is made of, each as often as
    /// it occurs: an AND stands for the conjuncts of its parts, anything else
    /// for itself.
    pub open spec fn conjuncts(self) -> Multiset<Expression>
        decreases self,
    {
        match self {
            Expression::Conjunction(conj) => if conj.op == ConjunctionOperator::And {
                conjuncts_of(conj.expressions@, conj.expressions@.len())
            } else {
                Multiset::singleton(self)
            },
            _ => Multiset::singleton(self),
        }
    }

    /// The tables whose columns the expression mentions, in increasing order.
    pub fn get_table_refs(&self) -> (refs: Vec<TableRef>)
        ensures
            is_ordered(refs@),
            members(refs@) == self.table_refs(),
        decreases self,
    {
        match self {
            Expression::Column(col) => {
                let mut refs: Vec<TableRef> = Vec::new();
                insert_id(&mut refs, col.reference.table_scope);
                assert(members(refs@) =~= set![col.reference.table_scope]);
                refs
            },
            Expression::Literal(_) => {
                let refs: Vec<TableRef> = Vec::new();
                assert(members(refs@) =~= Set::<TableRef>::empty());
                refs
            },
            Expression::Comparison(comparison) => {
                let left = comparison.left.get_table_refs();
                let right = comparison.right.get_table_refs();
                union_ids(&left, &right)
            },
            Expression::Conjunction(conj) => {
                let mut refs: Vec<TableRef> = Vec::new();
                assert(members(refs@) =~= Set::<TableRef>::empty());
                let mut i: usize = 0;
                while i < conj.expressions.len()
                    invariant
                        i <= conj.expressions.len(),
                        decreases_to!(self => conj.expressions),
                        is_ordered(refs@),
                        members(refs@) == table_refs_of(conj.expressions@, i as nat),
                    decreases conj.expressions.len() - i,
                {
                    assert(decreases_to!(conj.expressions => conj.expressions[i as int]));

                    let part = conj.expressions[i].get_table_refs();
                    refs = union_ids(&refs, &part);
                    i += 1;
                }
                refs
            },
        }
    }
}

/// The first `n` expressions of a sequence have the same conjuncts when more
/// expressions follow them.
pub proof fn lemma_conjuncts_of_prefix(a: Seq<Expression>, b: Seq<Expression>, n: nat)
    requires
        n <= a.len(),
        n <= b.len(),
        forall|i: int| 0 <= i < n ==> a[i] == b[i],
    ensures
        conjuncts_of(a, n) == conjuncts_of(b, n),
    decreases n,
{
    if n > 0 {
        lemma_conjuncts_of_prefix(a, b, (n - 1) as nat);
    }
}

/// The conjuncts of a sequence followed by one more expression.
pub proof fn lemma_conjuncts_of_push(a: Seq<Expression>, e: Expression)
    ensures
        conjuncts_of(a.push(e), a.len() + 1) == conjuncts_of(a, a.len()).add(e.conjuncts()),
{
    lemma_conjuncts_of_prefix(a.push(e), a, a.len());
}

} // verus!
