//! Join conditions that the optimizer may move, and filters on single
//! relations.

use vstd::prelude::*;
use vstd::multiset::Multiset;
use crate::expr::Expression;
use crate::logical::binder::TableRef;
use crate::logical::logical_join::{
    conditions_of, flip_all, flipped_all, lemma_flip_unoriented, ComparisonCondition,
};
use super::sorted_ids::{is_ordered, members, union_ids};

verus! {

/// A join condition that takes part in join reordering.
#[derive(Debug, PartialEq, Eq)]
pub enum ReorderableCondition {
    /// Condition of an inner join.
    Inner { condition: ComparisonCondition },
    /// Conditions of a semi join. The left side of each is over the relation
    /// whose rows the join returns, the right side over the relation in
    /// which matches are looked for.
    Semi { conditions: Vec<ComparisonCondition> },
}

/// The tables mentioned on the left sides of the first `n` of `conditions`.
pub open spec fn left_refs_of(conditions: Seq<ComparisonCondition>, n: nat) -> Set<TableRef>
    decreases n,
{
    if n == 0 || n > conditions.len() {
        Set::empty()
    } else {
        left_refs_of(conditions, (n - 1) as nat).union(conditions[n - 1].left.table_refs())
    }
}

/// The tables mentioned on the right sides of the first `n` of `conditions`.
pub open spec fn right_refs_of(conditions: Seq<ComparisonCondition>, n: nat) -> Set<TableRef>
    decreases n,
{
    if n == 0 || n > conditions.len() {
        Set::empty()
    } else {
        right_refs_of(conditions, (n - 1) as nat).union(conditions[n - 1].right.table_refs())
    }
}

impl ReorderableCondition {
    /// Whether this is the condition of a semi join.
    pub open spec fn spec_is_semi(self) -> bool {
        self is Semi
    }

    /// The tables mentioned on the left side.
    pub open spec fn left_table_refs(self) -> Set<TableRef> {
        match self {
            ReorderableCondition::Inner { condition } => condition.left.table_refs(),
            ReorderableCondition::Semi { conditions } => left_refs_of(
                conditions@,
                conditions@.len(),
            ),
        }
    }

    /// The tables mentioned on the right side.
    pub open spec fn right_table_refs(self) -> Set<TableRef> {
        match self {
            ReorderableCondition::Inner { condition } => condition.right.table_refs(),
            ReorderableCondition::Semi { conditions } => right_refs_of(
                conditions@,
                conditions@.len(),
            ),
        }
    }

    /// The comparisons that the condition consists of, in their order.
    pub open spec fn comparison_seq(self) -> Seq<ComparisonCondition> {
        match self {
            ReorderableCondition::Inner { condition } => seq![condition],
            ReorderableCondition::Semi { conditions } => conditions@,
        }
    }

    /// The comparisons that the condition consists of, each without regard
    /// to sides.
    pub open spec fn comparisons(self) -> Multiset<Set<ComparisonCondition>> {
        match self {
            ReorderableCondition::Inner { condition } => Multiset::singleton(
                condition.unoriented(),
            ),
            ReorderableCondition::Semi { conditions } => conditions_of(
                conditions@,
                conditions@.len(),
            ),
        }
    }

    /// Whether this is the condition of a semi join.
    pub fn is_semi(&self) -> (semi: bool)
        ensures
            semi == self.spec_is_semi(),
    {
        match self {
            ReorderableCondition::Inner { .. } => false,
            ReorderableCondition::Semi { .. } => true,
        }
    }

    /// The condition for a join whose inputs have changed sides: every
    /// comparison with its sides changed.
    pub fn flip_sides(self) -> (flipped: ReorderableCondition)
        ensures
            flipped.spec_is_semi() == self.spec_is_semi(),
            flipped.comparison_seq() == flipped_all(self.comparison_seq()),
            flipped.comparisons() == self.comparisons(),
            flipped.left_table_refs() == self.right_table_refs(),
            flipped.right_table_refs() == self.left_table_refs(),
            self matches ReorderableCondition::Inner { condition } ==> flipped
                == (ReorderableCondition::Inner { condition: condition.flipped() }),
            self matches ReorderableCondition::Semi { conditions } ==> (
            flipped matches ReorderableCondition::Semi { conditions: changed } && changed@.len()
                == conditions@.len() && forall|i: int|
                0 <= i < conditions@.len() ==> changed@[i] == conditions@[i].flipped()),
    {
        match self {
            ReorderableCondition::Inner { condition } => {
                let mut condition = condition;
                proof {
                    lemma_flip_unoriented(condition);
                }
                condition.flip_sides();
                assert(seq![condition] =~= flipped_all(self.comparison_seq()));
                ReorderableCondition::Inner { condition }
            },
            ReorderableCondition::Semi { conditions } => {
                let changed = flip_all(conditions);
                proof {
                    lemma_refs_of_flipped(conditions@, changed@, conditions@.len());
                    assert(changed@ =~= flipped_all(conditions@));
                }
                ReorderableCondition::Semi { conditions: changed }
            },
        }
    }

    /// The comparisons that the condition consists of, in their order.
    pub fn into_comparisons(self) -> (comparisons: Vec<ComparisonCondition>)
        ensures
            comparisons@ == self.comparison_seq(),
            conditions_of(comparisons@, comparisons@.len()) == self.comparisons(),
            self matches ReorderableCondition::Inner { condition } ==> comparisons@
                == seq![condition],
            self matches ReorderableCondition::Semi { conditions } ==> comparisons@ == conditions@,
    {
        match self {
            ReorderableCondition::Inner { condition } => {
                let mut comparisons: Vec<ComparisonCondition> = Vec::new();
                comparisons.push(condition);
                proof {
                    reveal_with_fuel(conditions_of, 2);
                    assert(comparisons@ =~= seq![condition]);
                    assert(conditions_of(comparisons@, 1) =~= Multiset::singleton(
                        condition.unoriented(),
                    ));
                }
                comparisons
            },
            ReorderableCondition::Semi { conditions } => conditions,
        }
    }

    /// The tables mentioned on the left side and on the right side.
    pub fn get_left_right_table_refs(&self) -> (refs: (Vec<TableRef>, Vec<TableRef>))
        ensures
            is_ordered(refs.0@),
            is_ordered(refs.1@),
            members(refs.0@) == self.left_table_refs(),
            members(refs.1@) == self.right_table_refs(),
    {
        match self {
            ReorderableCondition::Inner { condition } => {
                (condition.left.get_table_refs(), condition.right.get_table_refs())
            },
            ReorderableCondition::Semi { conditions } => {
                let mut left: Vec<TableRef> = Vec::new();
                let mut right: Vec<TableRef> = Vec::new();
                assert(members(left@) =~= Set::<TableRef>::empty());
                assert(members(right@) =~= Set::<TableRef>::empty());
                let mut i: usize = 0;
                while i < conditions.len()
                    invariant
                        i <= conditions.len(),
                        is_ordered(left@),
                        is_ordered(right@),
                        members(left@) == left_refs_of(conditions@, i as nat),
                        members(right@) == right_refs_of(conditions@, i as nat),
                    decreases conditions.len() - i,
                {
                    let l = conditions[i].left.get_table_refs();
                    let r = conditions[i].right.get_table_refs();
                    left = union_ids(&left, &l);
                    right = union_ids(&right, &r);
                    i += 1;
                }
                (left, right)
            },
        }
    }
}

/// Conditions with their sides changed mention on the left the tables that
/// were mentioned on the right, and the other way round.
proof fn lemma_refs_of_flipped(
    conditions: Seq<ComparisonCondition>,
    changed: Seq<ComparisonCondition>,
    n: nat,
)
    requires
        n <= conditions.len(),
        changed.len() == conditions.len(),
        forall|i: int| 0 <= i < conditions.len() ==> changed[i] == conditions[i].flipped(),
    ensures
        left_refs_of(changed, n) == right_refs_of(conditions, n),
        right_refs_of(changed, n) == left_refs_of(conditions, n),
    decreases n,
{
    if n > 0 {
        lemma_refs_of_flipped(conditions, changed, (n - 1) as nat);
        assert(changed[n - 1] == conditions[n - 1].flipped());
    }
}

/// A filter on one relation, taken out of the plan for the optimizer to put
/// back.
#[derive(Debug, PartialEq, Eq)]
pub struct ExtractedFilter {
    /// The predicate.
    pub filter: Expression,
    /// The tables that the predicate depends on. A filter that depends on
    /// none is constant.
    pub table_refs: Vec<TableRef>,
}

impl ExtractedFilter {
    /// The filter for `expr`, with the tables that `expr` mentions.
    pub fn from_expr(expr: Expression) -> (extracted: ExtractedFilter)
        ensures
            extracted.filter == expr,
            is_ordered(extracted.table_refs@),
            members(extracted.table_refs@) == expr.table_refs(),
    {
        let table_refs = expr.get_table_refs();
        ExtractedFilter { filter: expr, table_refs }
    }
}

} // verus!
