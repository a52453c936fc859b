//! Join operators and their conditions.

use vstd::prelude::*;
use vstd::multiset::Multiset;
use crate::expr::{ComparisonOperator, Expression};

verus! {

/// Kind of a join.
#[derive(Debug, Clone, Copy, PartialEq, Eq, Structural)]
pub enum JoinType {
    Left,
    Right,
    Inner,
    Full,
    /// Rows of the left input that have a match in the right input.
    LeftSemi,
    /// Rows of the left input that have no match in the right input.
    LeftAnti,
}

impl JoinType {
    /// Whether only the left input's columns are in the join's output.
    pub open spec fn spec_outputs_left_only(self) -> bool {
        self == JoinType::LeftSemi || self == JoinType::LeftAnti
    }

    /// Whether only the left input's columns are in the join's output.
    pub fn outputs_left_only(self) -> (left_only: bool)
        ensures
            left_only == self.spec_outputs_left_only(),
    {
        match self {
            JoinType::LeftSemi => true,
            JoinType::LeftAnti => true,
            _ => false,
        }
    }
}

/// Condition of a join: a comparison between an expression on the left input
/// and one on the right input.
#[derive(Debug, PartialEq, Eq)]
pub struct ComparisonCondition {
    /// Expression over the left input.
    pub left: Expression,
    /// Expression over the right input.
    pub right: Expression,
    /// The comparison.
    pub op: ComparisonOperator,
}

impl ComparisonCondition {
    /// The same condition for a join whose inputs have changed sides.
    pub open spec fn flipped(self) -> ComparisonCondition {
        ComparisonCondition { left: self.right, right: self.left, op: self.op.flipped() }
    }

    /// The condition without regard to which input is on which side: the
    /// condition together with its flipped form.
    pub open spec fn unoriented(self) -> Set<ComparisonCondition> {
        set![self, self.flipped()]
    }

    /// Changes the condition over to a join whose inputs have changed sides.
    pub fn flip_sides(&mut self)
        ensures
            *final(self) == old(self).flipped(),
    {
        std::mem::swap(&mut self.left, &mut self.right);
        self.op = self.op.flip();
    }
}

/// Flipping a condition twice gives the condition back, and flipping does not
/// change what the condition is without regard to sides.
pub proof fn lemma_flip_unoriented(c: ComparisonCondition)
    ensures
        c.flipped().flipped() == c,
        c.flipped().unoriented() == c.unoriented(),
{
    assert(c.op.flipped().flipped() == c.op);
    assert(c.flipped().unoriented() =~= c.unoriented());
}

/// The first `n` of `conditions`, each without regard to sides and as often
/// as it occurs.
pub open spec fn conditions_of(conditions: Seq<ComparisonCondition>, n: nat) -> Multiset<
    Set<ComparisonCondition>,
>
    decreases n,
{
    if n == 0 || n > conditions.len() {
        Multiset::empty()
    } else {
        conditions_of(conditions, (n - 1) as nat).insert(conditions[n - 1].unoriented())
    }
}

/// The first `n` conditions of a sequence are the same when more follow.
pub proof fn lemma_conditions_of_prefix(
    a: Seq<ComparisonCondition>,
    b: Seq<ComparisonCondition>,
    n: nat,
)
    requires
        n <= a.len(),
        n <= b.len(),
        forall|i: int| 0 <= i < n ==> a[i].unoriented() == b[i].unoriented(),
    ensures
        conditions_of(a, n) == conditions_of(b, n),
    decreases n,
{
    if n > 0 {
        lemma_conditions_of_prefix(a, b, (n - 1) as nat);
    }
}

/// The conditions of one sequence followed by another.
pub proof fn lemma_conditions_of_concat(
    a: Seq<ComparisonCondition>,
    b: Seq<ComparisonCondition>,
    n: nat,
)
    requires
        n <= b.len(),
    ensures
        conditions_of(a + b, a.len() + n) == conditions_of(a, a.len()).add(conditions_of(b, n)),
    decreases n,
{
    if n == 0 {
        lemma_conditions_of_prefix(a + b, a, a.len());
        assert(conditions_of(a, a.len()).add(Multiset::empty()) =~= conditions_of(a, a.len()));
    } else {
        lemma_conditions_of_concat(a, b, (n - 1) as nat);
        assert((a + b)[a.len() + n - 1] == b[n - 1]);
        assert(conditions_of(a, a.len()).add(conditions_of(b, (n - 1) as nat)).insert(
            b[n - 1].unoriented(),
        ) =~= conditions_of(a, a.len()).add(
            conditions_of(b, (n - 1) as nat).insert(b[n - 1].unoriented()),
        ));
    }
}

/// The conditions with sides changed, in the same order.
pub open spec fn flipped_all(conditions: Seq<ComparisonCondition>) -> Seq<ComparisonCondition> {
    Seq::new(conditions.len(), |i: int| conditions[i].flipped())
}

/// The conditions with sides changed, in the same order.
pub fn flip_all(conditions: Vec<ComparisonCondition>) -> (flipped: Vec<ComparisonCondition>)
    ensures
        flipped@ == flipped_all(conditions@),
        flipped@.len() == conditions@.len(),
        forall|i: int| 0 <= i < conditions@.len() ==> flipped@[i] == conditions@[i].flipped(),
        conditions_of(flipped@, flipped@.len()) == conditions_of(conditions@, conditions@.len()),
{
    let ghost all = conditions@;
    let mut flipped: Vec<ComparisonCondition> = Vec::new();
    for condition in it: conditions
        invariant
            it.seq() == all,
            flipped@.len() == it.index(),
            forall|i: int| 0 <= i < flipped@.len() ==> flipped@[i] == all[i].flipped(),
    {
        let mut condition = condition;
        condition.flip_sides();
        flipped.push(condition);
    }
    proof {
        assert forall|i: int| 0 <= i < all.len() implies flipped@[i].unoriented()
            == all[i].unoriented() by {
            lemma_flip_unoriented(all[i]);
        }
        lemma_conditions_of_prefix(flipped@, all, all.len());
        assert(flipped@ =~= flipped_all(all));
    }
    flipped
}

/// Join of every row of one input with every row of the other.
#[derive(Debug, Clone, Copy, PartialEq, Eq, Structural)]
pub struct LogicalCrossJoin;

/// Join on one or more comparisons between the two inputs.
#[derive(Debug, PartialEq, Eq)]
pub struct LogicalComparisonJoin {
    pub join_type: JoinType,
    pub conditions: Vec<ComparisonCondition>,
}

/// Join on an arbitrary predicate.
#[derive(Debug, PartialEq, Eq)]
pub struct LogicalArbitraryJoin {
    pub join_type: JoinType,
    pub condition: Expression,
}

} // verus!
