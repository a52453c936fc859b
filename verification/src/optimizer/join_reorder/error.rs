//! Why join ordering can fail.

use vstd::prelude::*;
use super::edge::EdgeId;
use super::node::FilterId;

verus! {

/// Failure of the join order optimizer.
///
/// Only the first kind says something about the input. The others say
/// that the optimizer's own bookkeeping does not add up; they are checked
/// for rather than assumed away.
#[derive(Debug, Clone, Copy, PartialEq, Eq, Structural)]
pub enum JoinOrderError {
    /// The join condition at `index` does not join two relations: it
    /// mentions a table that no base relation outputs, mentions no table on
    /// one of its sides, or mentions tables of a single relation only.
    InvalidCondition { index: usize },
    /// No plan is known for the left side of a pair.
    MissingBestPlanLeft,
    /// No plan is known for the right side of a pair.
    MissingBestPlanRight,
    /// No plan was found that joins all relations.
    MissingLongestPlan,
    /// A base relation was asked for twice.
    MissingBaseRelation,
    /// The plan for the left input of a join is gone.
    MissingLeftInput,
    /// The plan for the right input of a join is gone.
    MissingRightInput,
    /// A join refers to an edge that the graph does not have.
    MissingEdge { edge_id: EdgeId },
    /// A join refers to an edge whose condition is already in the plan.
    EdgeAlreadyUsed { edge_id: EdgeId },
    /// A filter was to be applied a second time.
    FilterPreviouslyUsed { filter_id: FilterId },
    /// A base relation is left once the plan for all relations is built.
    UnusedBaseRelation,
    /// An edge with a condition is left once the plan for all relations is
    /// built.
    UnusedCondition,
}

impl JoinOrderError {
    /// What went wrong, in words.
    pub open spec fn text(self) -> Seq<char> {
        match self {
            JoinOrderError::InvalidCondition { .. } =>
                "Join condition does not join two relations"@,
            JoinOrderError::MissingBestPlanLeft => "missing best plan for left"@,
            JoinOrderError::MissingBestPlanRight => "missing best plan for right"@,
            JoinOrderError::MissingLongestPlan => "Missing longest best plan"@,
            JoinOrderError::MissingBaseRelation => "Missing base relation"@,
            JoinOrderError::MissingLeftInput => "Missing left input"@,
            JoinOrderError::MissingRightInput => "Missing right input"@,
            JoinOrderError::MissingEdge { .. } => "Missing edge"@,
            JoinOrderError::EdgeAlreadyUsed { .. } => "Edge already used"@,
            JoinOrderError::FilterPreviouslyUsed { .. } => "Filter previously used"@,
            JoinOrderError::UnusedBaseRelation => "Base relation left unused"@,
            JoinOrderError::UnusedCondition => "Join condition left unused"@,
        }
    }

    /// What went wrong, in words.
    pub fn message(&self) -> (text: &'static str)
        ensures
            text@ == self.text(),
    {
        match self {
            JoinOrderError::InvalidCondition { .. } => "Join condition does not join two relations",
            JoinOrderError::MissingBestPlanLeft => "missing best plan for left",
            JoinOrderError::MissingBestPlanRight => "missing best plan for right",
            JoinOrderError::MissingLongestPlan => "Missing longest best plan",
            JoinOrderError::MissingBaseRelation => "Missing base relation",
            JoinOrderError::MissingLeftInput => "Missing left input",
            JoinOrderError::MissingRightInput => "Missing right input",
            JoinOrderError::MissingEdge { .. } => "Missing edge",
            JoinOrderError::EdgeAlreadyUsed { .. } => "Edge already used",
            JoinOrderError::FilterPreviouslyUsed { .. } => "Filter previously used",
            JoinOrderError::UnusedBaseRelation => "Base relation left unused",
            JoinOrderError::UnusedCondition => "Join condition left unused",
        }
    }
}

} // verus!
