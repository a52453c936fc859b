//! The relations that are joined and the plans found for sets of them.

use vstd::prelude::*;
use crate::logical::binder::TableRef;
use crate::logical::operator::LogicalOperator;
use super::edge::EdgeId;
use super::relation_set::{RelId, RelationSet};
use super::sorted_ids::{is_ordered, members, union_ids};
use super::subgraph::Subgraph;

verus! {

/// Unique id of a filter in the graph.
pub type FilterId = usize;

/// Tracks filters that have been used thus far in a particular join ordering.
#[derive(Debug, Clone, Default, PartialEq, Eq)]
pub struct UsedFilters {
    /// Complete set of filters used, in increasing order.
    pub filters: Vec<FilterId>,
}

impl UsedFilters {
    /// No filter used.
    pub fn none() -> (used: UsedFilters)
        ensures
            used.filters@ == Seq::<FilterId>::empty(),
    {
        UsedFilters { filters: Vec::new() }
    }

    /// The filters used on either of two sides.
    pub fn unioned(left: &UsedFilters, right: &UsedFilters) -> (used: UsedFilters)
        ensures
            is_ordered(used.filters@),
            members(used.filters@) == members(left.filters@).union(members(right.filters@)),
    {
        UsedFilters { filters: union_ids(&left.filters, &right.filters) }
    }

    /// Records `filters` as used.
    pub fn mark_filters_used(&mut self, filters: &Vec<FilterId>)
        ensures
            is_ordered(final(self).filters@),
            members(final(self).filters@) == members(old(self).filters@).union(members(filters@)),
    {
        self.filters = union_ids(&self.filters, filters);
    }
}

/// One of the plans to be joined.
#[derive(Debug, PartialEq, Eq)]
pub struct BaseRelation {
    /// Position of the relation among the inputs.
    pub rel_id: RelId,
    /// The plan that produces the relation.
    pub operator: LogicalOperator,
    /// The tables in the plan's output.
    pub output_refs: Vec<TableRef>,
    /// Estimated number of rows, at least one.
    pub cardinality: u128,
}

/// The best plan known for a set of relations.
#[derive(Debug, Clone, PartialEq, Eq)]
pub struct JoinNode {
    /// The set of base relations making up this node.
    pub set: RelationSet,
    /// The cost for producing this node.
    pub cost: u128,
    /// Left child relations. Empty for a base relation.
    pub left: RelationSet,
    /// Right child relations. Empty for a base relation.
    pub right: RelationSet,
    /// Current subgraph for estimating cardinality.
    pub subgraph: Subgraph,
    /// Tables in the output of this plan: those of all its relations.
    pub output_refs: Vec<TableRef>,
    /// Edges with the conditions to join left and right on. Empty for a base
    /// relation.
    pub edges: Vec<EdgeId>,
    /// Filters to apply to the left input. Empty for a base relation.
    pub left_filters: Vec<FilterId>,
    /// Filters to apply to the right input. Empty for a base relation.
    pub right_filters: Vec<FilterId>,
    /// All filters used in this plan, those of its inputs' plans included,
    /// so that a join order uses no filter twice.
    pub used: UsedFilters,
}

} // verus!
