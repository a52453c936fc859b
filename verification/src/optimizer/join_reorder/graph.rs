//! Join ordering based on dynamic programming on hyper graphs.
//!
//! The graph is made from the plans to join (the base relations), the join
//! conditions and the filters. Conditions become hyper edges between base
//! relations. Filters are not edges: a join applies to each of its inputs
//! the filters that depend only on tables in the input's output and that
//! the input's plan has not used. A filter on one relation so ends up
//! directly above that relation, a filter on several above the first join
//! that has them all in one input, and what no join applies ends up on top
//! of the plan.
//!
//! Every hyper edge has a number of distinct values, at first the smallest
//! cardinality among the relations that it touches. The estimated
//! cardinality of a join is the product of the cardinalities of all base
//! relations in it, divided by the product of the numbers of distinct values
//! of the edges joined on.
//!
//! The cost of a plan is its estimated cardinality plus the costs of its two
//! inputs.

use vstd::prelude::*;
use crate::logical::binder::TableRef;
use super::condition::ExtractedFilter;
use super::driver::covers;
use super::edge::{EdgeId, EdgeType, HyperEdges, NeighborEdge};
use super::error::JoinOrderError;
use super::memo::BestPlans;
use super::node::{BaseRelation, FilterId, JoinNode, UsedFilters};
use super::relation_set::{lemma_canonical_of_ordered, RelId, RelationSet};
use super::sorted_ids::{
    below, contains_id, is_ordered, is_subset_ids, lemma_members_empty, members, union_ids,
};
use super::subgraph::{sat_add, saturating_sum, Subgraph};

verus! {

/// Whether one of `edges` joins on the conditions of a semi join.
pub open spec fn any_semi(edges: Seq<NeighborEdge>) -> bool {
    exists|k: int| 0 <= k < edges.len() && (#[trigger] edges[k]).edge_op == EdgeType::Semi
}

/// The largest number of distinct values among the first `n` of `edges`.
pub open spec fn max_ndv(edges: Seq<NeighborEdge>, n: nat) -> u128
    decreases n,
{
    if n == 0 || n > edges.len() {
        0
    } else {
        let rest = max_ndv(edges, (n - 1) as nat);
        if edges[n - 1].min_ndv > rest {
            edges[n - 1].min_ndv
        } else {
            rest
        }
    }
}

/// The ids of `edges`, in their order.
pub open spec fn ids_of(edges: Seq<NeighborEdge>) -> Seq<EdgeId> {
    Seq::new(edges.len(), |k: int| edges[k].edge_id)
}

/// The estimate for the join of a left with a right subgraph on `edges`,
/// with `filters` filters applied to its inputs.
///
/// A semi join does not take in the right side's numerator, nor with it the
/// filters applied within the right side. Of several
/// edges only the one with the most distinct values counts: conditions
/// between the same relations are taken to be correlated.
pub open spec fn joined_subgraph(
    left: Subgraph,
    right: Subgraph,
    edges: Seq<NeighborEdge>,
    filters: nat,
) -> Subgraph {
    let multiplied = if any_semi(edges) {
        left
    } else {
        left.with_numerator(right)
    };
    let filtered = multiplied.with_filters(filters);
    if edges.len() > 0 {
        filtered.with_denom(right, max_ndv(edges, edges.len()))
    } else {
        filtered
    }
}

/// The edges `ids` of `edges`, each as a search finds it.
pub open spec fn described(edges: HyperEdges, ids: Seq<EdgeId>) -> Seq<NeighborEdge> {
    Seq::new(ids.len(), |k: int| edges.edge(ids[k] as int).describe())
}

/// The cost of a join: its estimated cardinality, a whole number of rows
/// rounded down, and the costs of its inputs.
pub open spec fn joined_cost(subgraph: Subgraph, left_cost: u128, right_cost: u128) -> u128 {
    sat_add(subgraph.cardinality(), sat_add(left_cost, right_cost))
}

/// Whether one of `edges` joins on the conditions of a semi join.
fn has_semi(edges: &Vec<NeighborEdge>) -> (semi: bool)
    ensures
        semi == any_semi(edges@),
{
    let mut k: usize = 0;
    while k < edges.len()
        invariant
            k <= edges.len(),
            forall|j: int| 0 <= j < k ==> (#[trigger] edges@[j]).edge_op != EdgeType::Semi,
        decreases edges.len() - k,
    {
        match edges[k].edge_op {
            EdgeType::Semi => {
                return true;
            },
            _ => {},
        }
        k += 1;
    }
    false
}

/// The first of the edges with the most distinct values.
fn most_distinct(edges: &Vec<NeighborEdge>) -> (best: Option<NeighborEdge>)
    ensures
        best.is_some() == (edges@.len() > 0),
        best matches Some(edge)
            ==> edge.min_ndv == max_ndv(edges@, edges@.len()) && edges@.contains(
            edge,
        ),
{
    if edges.len() == 0 {
        return None;
    }
    let mut best = edges[0];
    let mut k: usize = 1;
    proof {
        reveal_with_fuel(max_ndv, 2);
    }
    while k < edges.len()
        invariant
            1 <= k <= edges.len(),
            edges@.contains(best),
            best.min_ndv == max_ndv(edges@, k as nat),
        decreases edges.len() - k,
    {
        if edges[k].min_ndv > best.min_ndv {
            best = edges[k];
        }
        k += 1;
    }
    Some(best)
}

/// The ids of `edges`, in their order.
fn edge_ids(edges: &Vec<NeighborEdge>) -> (ids: Vec<EdgeId>)
    ensures
        ids@ == ids_of(edges@),
{
    let mut ids: Vec<EdgeId> = Vec::new();
    let mut k: usize = 0;
    while k < edges.len()
        invariant
            k <= edges.len(),
            ids@.len() == k,
            forall|j: int| 0 <= j < k ==> ids@[j] == edges@[j].edge_id,
        decreases edges.len() - k,
    {
        ids.push(edges[k].edge_id);
        k += 1;
    }
    assert(ids@ =~= ids_of(edges@));
    ids
}

/// The estimate for the join of a left with a right subgraph on `edges`,
/// with filters applied to the left and to the right input.
fn estimate(
    left: Subgraph,
    right: Subgraph,
    edges: &Vec<NeighborEdge>,
    left_filters: usize,
    right_filters: usize,
) -> (subgraph: Subgraph)
    ensures
        subgraph == joined_subgraph(left, right, edges@, (left_filters + right_filters) as nat),
{
    // Start from the left subgraph and account for the join with the
    // right one. A semi join keeps the left side's rows only.
    let mut subgraph = left;
    if !has_semi(edges) {
        subgraph.update_numerator(&right);
    }
    // Filters change the cardinality. They need not be on the columns
    // joined on, so the numbers of distinct values stay as they are.
    let ghost start = subgraph;
    let mut i: usize = 0;
    while i < left_filters
        invariant
            i <= left_filters,
            subgraph == start.with_filters(i as nat),
        decreases left_filters - i,
    {
        subgraph.apply_filter();
        i += 1;
    }
    let mut j: usize = 0;
    while j < right_filters
        invariant
            j <= right_filters,
            subgraph == start.with_filters((left_filters + j) as nat),
        decreases right_filters - j,
    {
        subgraph.apply_filter();
        j += 1;
    }
    // Only the edge with the most distinct values counts.
    match most_distinct(edges) {
        Some(edge) => {
            subgraph.update_denom(&right, &edge);
        },
        None => {},
    }
    subgraph
}

/// The tables in the output of each of `bases`, none for one that has left.
pub open spec fn outputs_of(bases: Seq<Option<BaseRelation>>) -> Seq<Seq<TableRef>> {
    Seq::new(
        bases.len(),
        |r: int|
            if bases[r].is_some() {
                bases[r].unwrap().output_refs@
            } else {
                Seq::empty()
            },
    )
}

/// A filter that depends on `tables` is on relation `r` alone: the output of
/// `r`, given by `refs`, has all of `tables`, and no other relation outputs
/// one of them.
pub open spec fn placed_on(refs: Seq<Seq<TableRef>>, r: int, tables: Seq<TableRef>) -> bool {
    &&& covers(refs, r, tables)
    &&& forall|q: int, t: TableRef|
        #![trigger refs[q], members(tables).contains(t)]
        0 <= q < refs.len() && q != r && members(tables).contains(t) ==> !members(
            refs[q],
        ).contains(t)
}

/// Filter `f` goes with the relation it is on, if there is one: the
/// relation that alone outputs the tables that the filter depends on. A
/// filter that depends on no table is on none.
pub open spec fn filter_goes_to(
    filters: Seq<Option<ExtractedFilter>>,
    owners: Seq<Option<RelId>>,
    bases: Seq<Option<BaseRelation>>,
    f: int,
) -> bool {
    let tables = filters[f].unwrap().table_refs@;
    match owners[f] {
        Some(r) => tables.len() > 0 && placed_on(outputs_of(bases), r as int, tables),
        None => forall|r: int|
            tables.len() > 0 ==> !#[trigger] placed_on(outputs_of(bases), r, tables),
    }
}

/// The state of one run of the join order optimizer.
#[derive(Debug, PartialEq, Eq)]
pub struct Graph {
    /// Hyper edges in the graph: the join conditions.
    pub hyper_edges: HyperEdges,
    /// The filters, each at the position that is its id, until the plan
    /// takes it.
    pub filters: Vec<Option<ExtractedFilter>>,
    /// For each filter the relation that it is on: the one that alone
    /// outputs the tables that the filter depends on. A filter is on none
    /// if it is constant, if it depends on tables of several relations, or
    /// if several relations output a table that it depends on.
    pub filter_owner: Vec<Option<RelId>>,
    /// The filters that depend on a table and are on no relation, by
    /// increasing id. Where a plan applies such a filter depends on how the
    /// plan's inputs are put together.
    pub unplaced: Vec<FilterId>,
    /// The base relations, each at the position that is its id, until the
    /// plan takes it.
    pub base_relations: Vec<Option<BaseRelation>>,
    /// Best plans found for sets of relations.
    pub best_plans: BestPlans,
    /// Count of join pairs considered.
    pub pairs_considered: usize,
}

impl Graph {
    /// Number of base relations.
    pub open spec fn n(self) -> nat {
        self.base_relations@.len()
    }

    /// The relation that filter `f` is on.
    pub open spec fn owner(self, f: int) -> Option<RelId> {
        if 0 <= f < self.filter_owner@.len() {
            self.filter_owner@[f]
        } else {
            None
        }
    }

    /// The filters on relations of `rels`.
    pub open spec fn owned_by(self, rels: Set<RelId>) -> Set<FilterId> {
        Set::new(
            |f: FilterId|
                self.owner(f as int).is_some() && rels.contains(self.owner(f as int).unwrap()),
        )
    }

    /// The filters that a join applies to an input with the relations
    /// `input`: those on the relation, if the input is a single relation. The
    /// filters on the relations of a larger input are applied inside it.
    pub open spec fn pending_for(self, input: Seq<RelId>) -> Set<FilterId> {
        if input.len() == 1 {
            self.owned_by(members(input))
        } else {
            Set::empty()
        }
    }

    /// The filters in the graph that are on a relation of `node` and that
    /// the plan of `node` has not used.
    pub open spec fn applicable(self, node: JoinNode) -> Set<FilterId> {
        Set::new(
            |f: FilterId|
                f < self.filters@.len() && self.filters@[f as int].is_some() && self.owned_by(
                    node.set.rels(),
                ).contains(f) && !members(node.used.filters@).contains(f),
        )
    }

    /// `node` is the plan of a single relation: nothing is joined or applied,
    /// at no cost.
    pub open spec fn base_entry(node: JoinNode) -> bool {
        &&& node.cost == 0
        &&& node.left@.len() == 0
        &&& node.right@.len() == 0
        &&& node.edges@.len() == 0
        &&& node.left_filters@.len() == 0
        &&& node.right_filters@.len() == 0
        &&& node.used.filters@.len() == 0
    }

    /// `node` is the plan of a join: its inputs are two disjoint nonempty
    /// sets with plans of their own, and its edges, of which there is at
    /// least one, are edges of the graph that join the two and among them
    /// all that have a condition. Where every filter is on one relation,
    /// its filters are those on an input that is a single relation, and it
    /// has used the filters on all its relations.
    pub open spec fn join_entry(self, node: JoinNode) -> bool {
        &&& node.left.wf()
        &&& node.right.wf()
        &&& node.left@.len() >= 1
        &&& node.right@.len() >= 1
        &&& node.left.rels().disjoint(node.right.rels())
        &&& node.set.rels() == node.left.rels().union(node.right.rels())
        &&& self.best_plans.contains(node.left@)
        &&& self.best_plans.contains(node.right@)
        &&& is_ordered(node.edges@)
        &&& node.edges@.len() > 0
        &&& forall|k: int|
            0 <= k < node.edges@.len() ==> self.hyper_edges.joins_at(
                (#[trigger] node.edges@[k]) as int,
                node.left.rels(),
                node.right.rels(),
            )
        &&& forall|id: int| #[trigger]
            self.hyper_edges.joins_at(id, node.left.rels(), node.right.rels())
                && self.hyper_edges.edge(id).filter.is_some() ==> node.edges@.contains(id as usize)
        &&& is_ordered(node.left_filters@)
        &&& is_ordered(node.right_filters@)
        &&& self.all_placed() ==> {
            &&& members(node.left_filters@) == self.pending_for(node.left@)
            &&& members(node.right_filters@) == self.pending_for(node.right@)
            &&& members(node.used.filters@) == self.owned_by(node.set.rels())
        }
    }

    /// Base relation `r` is in the graph and outputs table `t`.
    pub open spec fn base_outputs(self, r: RelId, t: TableRef) -> bool {
        r < self.base_relations@.len() && self.base_relations@[r as int].is_some() && members(
            self.base_relations@[r as int].unwrap().output_refs@,
        ).contains(t)
    }

    /// The tables in the output of the relations `rels`.
    pub open spec fn tables_of(self, rels: Set<RelId>) -> Set<TableRef> {
        Set::new(
            |t: TableRef| exists|r: RelId| rels.contains(r) && #[trigger] self.base_outputs(r, t),
        )
    }

    /// `node` is a sound plan for its set.
    #[verifier::opaque]
    pub open spec fn entry_ok(self, node: JoinNode) -> bool {
        &&& node.set.wf()
        &&& node.set@.len() >= 1
        &&& below(node.set@, self.n() as int)
        &&& members(node.output_refs@) == self.tables_of(node.set.rels())
        &&& node.set@.len() == 1 ==> Self::base_entry(node) && node.subgraph == self.base_subgraph(
            node.set@[0] as int,
        )
        &&& node.set@.len() >= 2 ==> self.join_entry(node)
    }

    /// The estimate for base relation `r` alone: all rows of the relation.
    pub open spec fn base_subgraph(self, r: int) -> Subgraph {
        Subgraph::of_rows(self.base_relations@[r].unwrap().cardinality)
    }

    /// `node` has the shape of a plan of this graph: it is for a nonempty
    /// set of relations of the graph, and if it is for more than one, its
    /// inputs are two disjoint nonempty sets that make up its set, and its
    /// edges, of which there is at least one, are edges of the graph that
    /// join the two and among them all that have a condition.
    #[verifier::opaque]
    pub open spec fn shaped(self, node: JoinNode) -> bool {
        &&& node.set.wf()
        &&& node.set@.len() >= 1
        &&& below(node.set@, self.n() as int)
        &&& node.set@.len() >= 2 ==> {
            &&& node.left.wf()
            &&& node.right.wf()
            &&& node.left@.len() >= 1
            &&& node.right@.len() >= 1
            &&& node.left.rels().disjoint(node.right.rels())
            &&& node.set.rels() == node.left.rels().union(node.right.rels())
            &&& is_ordered(node.edges@)
            &&& node.edges@.len() > 0
            &&& forall|k: int|
                0 <= k < node.edges@.len() ==> self.hyper_edges.joins_at(
                    (#[trigger] node.edges@[k]) as int,
                    node.left.rels(),
                    node.right.rels(),
                )
            &&& forall|id: int| #[trigger]
                self.hyper_edges.joins_at(id, node.left.rels(), node.right.rels())
                    && self.hyper_edges.edge(id).filter.is_some() ==> node.edges@.contains(
                    id as usize,
                )
        }
    }

    /// A sound plan has the shape of a plan.
    pub proof fn lemma_sound_is_shaped(self, node: JoinNode)
        requires
            self.entry_ok(node),
        ensures
            self.shaped(node),
    {
        reveal(Graph::entry_ok);
        reveal(Graph::shaped);
    }

    /// The estimate and the cost of `node` are those of the join of the
    /// plans `left` and `right`, which are plans for its two inputs, on
    /// its edges, with the filters that fit each of the two applied. Its
    /// output is the output of both, and it has used the filters that they
    /// have used and those applied to them.
    pub open spec fn joins_up(self, node: JoinNode, left: JoinNode, right: JoinNode) -> bool {
        &&& left.set@ == node.left@
        &&& right.set@ == node.right@
        &&& left.set@.len() < node.set@.len()
        &&& right.set@.len() < node.set@.len()
        &&& node.subgraph == joined_subgraph(
            left.subgraph,
            right.subgraph,
            described(self.hyper_edges, node.edges@),
            self.fitting(left).len() + self.fitting(right).len(),
        )
        &&& node.cost == joined_cost(node.subgraph, left.cost, right.cost)
        &&& members(node.output_refs@) == members(left.output_refs@).union(
            members(right.output_refs@),
        )
        &&& members(node.used.filters@) == members(left.used.filters@).union(
            members(right.used.filters@),
        ).union(self.fitting(left)).union(self.fitting(right))
    }

    /// The estimate and the cost of `node` are worked out from the
    /// relations and edges of the graph: `node` has the shape of a plan, a
    /// single relation has all its rows at no cost, and a join has the
    /// estimate and the cost of joining two plans for its inputs that are
    /// worked out in the same way. Those need not be the plans that the
    /// memo has for the inputs now: a cheaper one may have taken the place
    /// of one of them since.
    pub open spec fn worked_out(self, node: JoinNode) -> bool
        decreases node.set@.len(),
    {
        if node.set@.len() < 2 {
            self.shaped(node) && Self::base_entry(node) && node.subgraph == self.base_subgraph(
                node.set@[0] as int,
            ) && members(node.output_refs@) == self.tables_of(node.set.rels())
        } else {
            &&& self.shaped(node)
            &&& exists|left: JoinNode, right: JoinNode|
                #![trigger self.joins_up(node, left, right)]
                self.joins_up(node, left, right) && left.set@.len() < node.set@.len()
                    && right.set@.len() < node.set@.len() && self.worked_out(left)
                    && self.worked_out(right)
        }
    }

    /// What is worked out stays worked out in a graph with the same
    /// relations and filters and with all edges that this one has.
    pub proof fn lemma_worked_out_stays(self, later: Graph, node: JoinNode)
        requires
            self.worked_out(node),
            later.filters == self.filters,
            later.filter_owner == self.filter_owner,
            later.unplaced == self.unplaced,
            later.base_relations == self.base_relations,
            forall|id: int| #[trigger]
                self.hyper_edges.present(id) ==> later.hyper_edges.present(id)
                    && later.hyper_edges.edge(id) == self.hyper_edges.edge(id),
            forall|id: int|
                later.hyper_edges.present(id) && !self.hyper_edges.present(id) ==> (
                #[trigger] later.hyper_edges.edge(id)).filter.is_none(),
        ensures
            later.worked_out(node),
        decreases node.set@.len(),
    {
        assert(later.shaped(node)) by {
            reveal(Graph::shaped);
            if node.set@.len() >= 2 {
                assert forall|k: int| 0 <= k < node.edges@.len() implies later.hyper_edges.joins_at(
                    (#[trigger] node.edges@[k]) as int,
                    node.left.rels(),
                    node.right.rels(),
                ) by {
                    assert(self.hyper_edges.joins_at(
                        node.edges@[k] as int,
                        node.left.rels(),
                        node.right.rels(),
                    ));
                }
                assert forall|id: int| #[trigger]
                    later.hyper_edges.joins_at(id, node.left.rels(), node.right.rels())
                        && later.hyper_edges.edge(id).filter.is_some() implies node.edges@.contains(
                    id as usize,
                ) by {
                    if !self.hyper_edges.present(id) {
                        assert(later.hyper_edges.edge(id).filter.is_none());
                    }
                    assert(self.hyper_edges.joins_at(id, node.left.rels(), node.right.rels()));
                }
            }
        }
        self.lemma_tables_same(later, node.set.rels());
        if node.set@.len() >= 2 {
            let (left, right) = choose|left: JoinNode, right: JoinNode|
                #![trigger self.joins_up(node, left, right)]
                self.joins_up(node, left, right) && left.set@.len() < node.set@.len()
                    && right.set@.len() < node.set@.len() && self.worked_out(left)
                    && self.worked_out(right);
            self.lemma_worked_out_stays(later, left);
            self.lemma_worked_out_stays(later, right);
            assert forall|k: int| 0 <= k < node.edges@.len() implies later.hyper_edges.present(
                #[trigger] node.edges@[k] as int,
            ) && later.hyper_edges.edge(node.edges@[k] as int) == self.hyper_edges.edge(
                node.edges@[k] as int,
            ) by {
                let id = node.edges@[k] as int;
                assert(self.hyper_edges.joins_at(id, node.left.rels(), node.right.rels())) by {
                    reveal(Graph::shaped);
                }
            }
            assert(described(later.hyper_edges, node.edges@) =~= described(
                self.hyper_edges,
                node.edges@,
            ));
            assert(later.fitting(left) =~= self.fitting(left));
            assert(later.fitting(right) =~= self.fitting(right));
            assert(later.joins_up(node, left, right));
        }
    }

    /// Filter `f` is in the graph and depends on a table, all tables it
    /// depends on are in the output of `node`, and the plan of `node` has
    /// not used it.
    pub open spec fn fits(self, node: JoinNode, f: FilterId) -> bool {
        &&& f < self.filters@.len()
        &&& self.filters@[f as int].is_some()
        &&& self.filters@[f as int].unwrap().table_refs@.len() > 0
        &&& members(self.filters@[f as int].unwrap().table_refs@).subset_of(
            members(node.output_refs@),
        )
        &&& !members(node.used.filters@).contains(f)
    }

    /// The filters that a join applies to the input with the plan `node`:
    /// those that depend on a table, depend only on tables in the output of
    /// `node`, and are not used by the plan of `node`.
    pub open spec fn fitting(self, node: JoinNode) -> Set<FilterId> {
        Set::new(|f: FilterId| self.fits(node, f))
    }

    /// Every filter that depends on a table is on one relation.
    pub open spec fn all_placed(self) -> bool {
        self.unplaced@.len() == 0
    }

    /// The graph is ready to search: all relations and filters are in it,
    /// every filter is on the relation that alone outputs its tables, if
    /// there is one, the edges are well formed, and the memo
    /// holds a plan for every single relation and only sound plans, whose
    /// estimates and costs are worked out from the relations and edges.
    pub open spec fn wf(self) -> bool {
        &&& self.filters@.len() == self.filter_owner@.len()
        &&& forall|f: int| 0 <= f < self.filters@.len() ==> (#[trigger] self.filters@[f]).is_some()
        &&& forall|f: int|
            0 <= f < self.filter_owner@.len() && (#[trigger] self.filter_owner@[f]).is_some()
                ==> self.filter_owner@[f].unwrap() < self.n()
        &&& forall|r: int|
            0 <= r < self.n() ==> (#[trigger] self.base_relations@[r]).is_some()
                && self.base_relations@[r].unwrap().rel_id == r
        &&& forall|f: int|
            0 <= f < self.filters@.len() ==> #[trigger] filter_goes_to(
                self.filters@,
                self.filter_owner@,
                self.base_relations@,
                f,
            )
        &&& is_ordered(self.unplaced@)
        &&& forall|f: FilterId|
            members(self.unplaced@).contains(f) <==> f < self.filters@.len()
                && self.filter_owner@[f as int].is_none() && (
            #[trigger] self.filters@[f as int]).unwrap().table_refs@.len() > 0
        &&& self.hyper_edges.wf(self.n())
        &&& self.best_plans.wf()
        &&& forall|key: Seq<usize>| #[trigger]
            self.best_plans.contains(key) ==> self.best_plans.entry(key).set@ == key
                && self.entry_ok(self.best_plans.entry(key)) && self.worked_out(
                self.best_plans.entry(key),
            )
        &&& forall|r: RelId| r < self.n() ==> #[trigger] self.has_base_plan(r)
    }

    /// The memo holds a plan for the single relation `r`.
    pub open spec fn has_base_plan(self, r: RelId) -> bool {
        self.best_plans.contains(seq![r])
    }

    /// The search went from `self` to `later`: nothing but the memo and the
    /// count of pairs has changed, every set that had a plan still has one,
    /// and where the plan is another one it costs less.
    pub open spec fn advances_to(self, later: Graph) -> bool {
        &&& later.hyper_edges == self.hyper_edges
        &&& later.filters == self.filters
        &&& later.filter_owner == self.filter_owner
        &&& later.unplaced == self.unplaced
        &&& later.base_relations == self.base_relations
        &&& forall|key: Seq<usize>| #[trigger]
            self.best_plans.contains(key) ==> later.best_plans.contains(key) && (
            later.best_plans.entry(key) == self.best_plans.entry(key) || later.best_plans.entry(
                key,
            ).cost < self.best_plans.entry(key).cost)
    }

    /// Going on from where a search has got to is going on from the start.
    pub proof fn lemma_advances_transitive(self, mid: Graph, later: Graph)
        requires
            self.advances_to(mid),
            mid.advances_to(later),
        ensures
            self.advances_to(later),
    {
        assert forall|key: Seq<usize>|
            #[trigger] self.best_plans.contains(key) implies later.best_plans.contains(key) && (
            later.best_plans.entry(key) == self.best_plans.entry(key) || later.best_plans.entry(
                key,
            ).cost < self.best_plans.entry(key).cost) by {
            assert(mid.best_plans.contains(key));
        }
    }

    /// Where every filter is on one relation, the filters that fit a plan
    /// are the filters on the plan's relations that it has not used.
    pub proof fn lemma_fitting_is_applicable(self, node: JoinNode)
        requires
            self.wf(),
            self.all_placed(),
            self.entry_ok(node),
        ensures
            self.fitting(node) == self.applicable(node),
    {
        reveal(Graph::entry_ok);
        let rels = node.set.rels();
        let refs = outputs_of(self.base_relations@);
        assert forall|f: FilterId| self.applicable(node).contains(f) implies self.fits(node, f) by {
            let r = self.owner(f as int).unwrap();
            let tables = self.filters@[f as int].unwrap().table_refs@;
            assert(filter_goes_to(
                self.filters@,
                self.filter_owner@,
                self.base_relations@,
                f as int,
            ));
            assert(self.base_relations@[r as int].is_some());
            assert forall|t: TableRef| members(tables).contains(t) implies members(
                node.output_refs@,
            ).contains(t) by {
                assert(members(refs[r as int]).contains(t));
                assert(self.base_outputs(r, t));
                assert(self.tables_of(rels).contains(t));
            }
        }
        assert forall|f: FilterId| self.fits(node, f) implies self.applicable(node).contains(f) by {
            let tables = self.filters@[f as int].unwrap().table_refs@;
            assert(filter_goes_to(
                self.filters@,
                self.filter_owner@,
                self.base_relations@,
                f as int,
            ));
            if self.filter_owner@[f as int].is_none() {
                assert(members(self.unplaced@).contains(f));
                assert(self.unplaced@.contains(f));
            }
            let r = self.filter_owner@[f as int].unwrap();
            let t = tables[0];
            assert(tables.contains(t));
            assert(members(tables).contains(t));
            assert(self.tables_of(rels).contains(t));
            let q = choose|q: RelId| rels.contains(q) && #[trigger] self.base_outputs(q, t);
            assert(self.base_relations@[q as int].is_some());
            if q != r {
                assert(!members(refs[q as int]).contains(t));
            }
        }
        assert(self.fitting(node) =~= self.applicable(node));
    }

    /// Find filters that apply fully to the given plan and that the plan has
    /// not used, by increasing id: the filters in the graph that depend on
    /// a table and only on tables in the plan's output.
    pub fn find_filters(&self, node: &JoinNode) -> (found: Vec<FilterId>)
        ensures
            is_ordered(found@),
            members(found@) == self.fitting(*node),
    {
        let mut found: Vec<FilterId> = Vec::new();
        let mut f: usize = 0;
        proof {
            lemma_members_empty(found@);
        }
        while f < self.filters.len()
            invariant
                f <= self.filters.len(),
                is_ordered(found@),
                forall|k: int| 0 <= k < found@.len() ==> found@[k] < f,
                forall|x: FilterId| members(found@).contains(x) <==> x < f && self.fits(*node, x),
            decreases self.filters.len() - f,
        {
            let take = match &self.filters[f] {
                // A constant filter goes to the top of the plan, and a
                // filter is to be used once only.
                Some(filter) => filter.table_refs.len() > 0 && !contains_id(&node.used.filters, f)
                    && is_subset_ids(&filter.table_refs, &node.output_refs),
                None => false,
            };
            assert(take == self.fits(*node, f));
            if take {
                let ghost before = found@;
                found.push(f);
                proof {
                    assert forall|x: FilterId|
                        members(found@).contains(x) <==> x < f + 1 && self.fits(*node, x) by {
                        if found@.contains(x) {
                            let k = choose|k: int| 0 <= k < found@.len() && found@[k] == x;
                            if k < before.len() {
                                assert(before[k] == x);
                                assert(before.contains(x));
                            }
                        }
                        if before.contains(x) {
                            let k = choose|k: int| 0 <= k < before.len() && before[k] == x;
                            assert(found@[k] == x);
                        }
                        if x == f {
                            assert(found@[before.len() as int] == x);
                        }
                    }
                }
            }
            f += 1;
        }
        assert(members(found@) =~= self.fitting(*node));
        found
    }
}


impl Graph {
    /// `edges` are the edges of the graph that join `left` with `right`: all
    /// of them, by increasing id.
    pub open spec fn edges_between(
        self,
        edges: Seq<NeighborEdge>,
        left: Set<RelId>,
        right: Set<RelId>,
    ) -> bool {
        &&& forall|k: int|
            0 <= k < edges.len() ==> self.hyper_edges.is_found(#[trigger] edges[k], left, right)
        &&& forall|j: int, k: int| 0 <= j < k < edges.len() ==> edges[j].edge_id < edges[k].edge_id
        &&& forall|id: int| #[trigger]
            self.hyper_edges.joins_at(id, left, right) ==> exists|k: int|
                0 <= k < edges.len() && (#[trigger] edges[k]).edge_id == id
    }

    /// The estimate for joining the plans of `left` and `right` on `edges`.
    pub open spec fn candidate_subgraph(
        self,
        left: JoinNode,
        right: JoinNode,
        edges: Seq<NeighborEdge>,
    ) -> Subgraph {
        joined_subgraph(
            left.subgraph,
            right.subgraph,
            edges,
            self.fitting(left).len() + self.fitting(right).len(),
        )
    }

    /// The edges of the graph that join `left` with `right`, by increasing
    /// id.
    pub open spec fn edges_joining(self, left: Set<RelId>, right: Set<RelId>) -> Seq<
        NeighborEdge,
    > {
        choose|edges: Seq<NeighborEdge>| self.edges_between(edges, left, right)
    }

    /// There is one way only to list the edges between two sets.
    pub proof fn lemma_edges_between_unique(
        self,
        a: Seq<NeighborEdge>,
        b: Seq<NeighborEdge>,
        left: Set<RelId>,
        right: Set<RelId>,
    )
        requires
            self.edges_between(a, left, right),
            self.edges_between(b, left, right),
        ensures
            a == b,
            a == self.edges_joining(left, right),
    {
        self.lemma_edges_between_unique_of(a, b, left, right);
        self.lemma_edges_between_unique_of(a, self.edges_joining(left, right), left, right);
    }

    /// Two lists of the edges between two sets are the same list.
    proof fn lemma_edges_between_unique_of(
        self,
        a: Seq<NeighborEdge>,
        b: Seq<NeighborEdge>,
        left: Set<RelId>,
        right: Set<RelId>,
    )
        requires
            self.edges_between(a, left, right),
            self.edges_between(b, left, right),
        ensures
            a == b,
    {
        let ia = ids_of(a);
        let ib = ids_of(b);
        assert(is_ordered(ia) && is_ordered(ib));
        assert forall|x: usize| members(ia).contains(x) == members(ib).contains(x) by {
            if ia.contains(x) {
                let k = choose|k: int| 0 <= k < ia.len() && ia[k] == x;
                assert(self.hyper_edges.is_found(a[k], left, right));
                assert(self.hyper_edges.joins_at(x as int, left, right));
                let j = choose|j: int| 0 <= j < b.len() && (#[trigger] b[j]).edge_id == x as int;
                assert(ib[j] == x);
            }
            if ib.contains(x) {
                let k = choose|k: int| 0 <= k < ib.len() && ib[k] == x;
                assert(self.hyper_edges.is_found(b[k], left, right));
                assert(self.hyper_edges.joins_at(x as int, left, right));
                let j = choose|j: int| 0 <= j < a.len() && (#[trigger] a[j]).edge_id == x as int;
                assert(ia[j] == x);
            }
        }
        assert(members(ia) =~= members(ib));
        super::sorted_ids::lemma_ordered_unique(ia, ib);
        assert(a =~= b) by {
            assert(a.len() == ia.len() && b.len() == ib.len());
            assert forall|k: int| 0 <= k < a.len() implies a[k] == b[k] by {
                assert(ia[k] == ib[k]);
                assert(self.hyper_edges.is_found(a[k], left, right));
                assert(self.hyper_edges.is_found(b[k], left, right));
            }
        }
    }

    /// What it costs to join the plans that the memo has for `left` and
    /// for `right` on the edges between them.
    pub open spec fn pair_cost(self, left: Seq<RelId>, right: Seq<RelId>) -> u128 {
        let l = self.best_plans.entry(left);
        let r = self.best_plans.entry(right);
        joined_cost(
            self.candidate_subgraph(l, r, self.edges_joining(members(left), members(right))),
            l.cost,
            r.cost,
        )
    }

    /// The plans of `self` are the plans of `later` but for plans for `set`
    /// joined with more: every plan for a set that is `set` itself or does
    /// not have all relations of `set` is the same.
    pub open spec fn kept_but_above(self, later: Graph, set: Seq<RelId>) -> bool {
        forall|key: Seq<usize>| #[trigger]
            self.best_plans.contains(key) && (key == set || !members(set).subset_of(members(key)))
                ==> later.best_plans.contains(key) && later.best_plans.entry(key)
                == self.best_plans.entry(key)
    }

    /// `node` is the join of the plans `left` and `right` on `edges`.
    pub open spec fn is_join_of(
        self,
        node: JoinNode,
        left: JoinNode,
        right: JoinNode,
        edges: Seq<NeighborEdge>,
    ) -> bool {
        &&& node.set@ == RelationSet::spec_union(left.set@, right.set@)
        &&& node.left@ == left.set@
        &&& node.right@ == right.set@
        &&& node.subgraph == self.candidate_subgraph(left, right, edges)
        &&& node.cost == joined_cost(node.subgraph, left.cost, right.cost)
        &&& node.edges@ == ids_of(edges)
        &&& is_ordered(node.left_filters@)
        &&& is_ordered(node.right_filters@)
        &&& members(node.left_filters@) == self.fitting(left)
        &&& members(node.right_filters@) == self.fitting(right)
        &&& is_ordered(node.output_refs@)
        &&& members(node.output_refs@) == members(left.output_refs@).union(
            members(right.output_refs@),
        )
        &&& is_ordered(node.used.filters@)
        &&& members(node.used.filters@) == members(left.used.filters@).union(
            members(right.used.filters@),
        ).union(self.fitting(left)).union(self.fitting(right))
    }

    /// The tables of relations are the same in a graph in which those
    /// relations are the same.
    pub proof fn lemma_tables_same(self, later: Graph, rels: Set<RelId>)
        requires
            later.base_relations@.len() == self.base_relations@.len(),
            forall|r: RelId|
                rels.contains(r) && r < self.base_relations@.len()
                    ==> #[trigger] later.base_relations@[r as int]
                        == self.base_relations@[r as int],
        ensures
            later.tables_of(rels) == self.tables_of(rels),
    {
        assert forall|t: TableRef| later.tables_of(rels).contains(t) == self.tables_of(
            rels,
        ).contains(t) by {
            if later.tables_of(rels).contains(t) {
                let r = choose|r: RelId| rels.contains(r) && #[trigger] later.base_outputs(r, t);
                assert(later.base_relations@[r as int] == self.base_relations@[r as int]);
                assert(self.base_outputs(r, t));
            }
            if self.tables_of(rels).contains(t) {
                let r = choose|r: RelId| rels.contains(r) && #[trigger] self.base_outputs(r, t);
                assert(later.base_relations@[r as int] == self.base_relations@[r as int]);
                assert(later.base_outputs(r, t));
            }
        }
        assert(later.tables_of(rels) =~= self.tables_of(rels));
    }

    /// The tables of two sets of relations together are the tables of each.
    pub proof fn lemma_tables_union(self, a: Set<RelId>, b: Set<RelId>)
        ensures
            self.tables_of(a.union(b)) == self.tables_of(a).union(self.tables_of(b)),
    {
        assert forall|t: TableRef| self.tables_of(a.union(b)).contains(t) == self.tables_of(
            a,
        ).union(self.tables_of(b)).contains(t) by {
            if self.tables_of(a.union(b)).contains(t) {
                let r = choose|r: RelId|
                    a.union(b).contains(r) && #[trigger] self.base_outputs(r, t);
                if a.contains(r) {
                    assert(self.tables_of(a).contains(t));
                } else {
                    assert(self.tables_of(b).contains(t));
                }
            }
            if self.tables_of(a).contains(t) {
                let r = choose|r: RelId| a.contains(r) && #[trigger] self.base_outputs(r, t);
                assert(a.union(b).contains(r));
            }
            if self.tables_of(b).contains(t) {
                let r = choose|r: RelId| b.contains(r) && #[trigger] self.base_outputs(r, t);
                assert(a.union(b).contains(r));
            }
        }
        assert(self.tables_of(a.union(b)) =~= self.tables_of(a).union(self.tables_of(b)));
    }

    /// Where every filter is on one relation, the filters that fit the plan
    /// of an input are those on the input if it is a single relation, and
    /// none if it is a join.
    pub proof fn lemma_applicable_is_pending(self, node: JoinNode)
        requires
            self.wf(),
            self.all_placed(),
            self.entry_ok(node),
        ensures
            self.fitting(node) == self.pending_for(node.set@),
            self.applicable(node) == self.pending_for(node.set@),
    {
        self.lemma_fitting_is_applicable(node);
        reveal(Graph::entry_ok);
        if node.set@.len() == 1 {
            lemma_members_empty(node.used.filters@);
            assert forall|f: FilterId|
                self.applicable(node).contains(f) == self.owned_by(members(node.set@)).contains(
                    f,
                ) by {
                if self.owned_by(members(node.set@)).contains(f) {
                    assert(self.filters@[f as int].is_some());
                }
            }
            assert(self.applicable(node) =~= self.pending_for(node.set@));
        } else {
            assert(self.applicable(node) =~= self.pending_for(node.set@));
        }
    }

    /// A sound plan stays sound while the search goes on.
    pub proof fn lemma_entry_ok_stays(self, later: Graph, node: JoinNode)
        requires
            self.entry_ok(node),
            later.hyper_edges == self.hyper_edges,
            later.filter_owner == self.filter_owner,
            later.unplaced == self.unplaced,
            later.base_relations == self.base_relations,
            forall|key: Seq<usize>| #[trigger]
                self.best_plans.contains(key) ==> later.best_plans.contains(key),
        ensures
            later.entry_ok(node),
    {
        reveal(Graph::entry_ok);
        self.lemma_tables_same(later, node.set.rels());
        if node.set@.len() >= 2 {
            assert(self.best_plans.contains(node.left@));
            assert(self.best_plans.contains(node.right@));
            assert(later.owned_by(node.set.rels()) =~= self.owned_by(node.set.rels()));
            assert(later.pending_for(node.left@) =~= self.pending_for(node.left@)) by {
                assert(later.owned_by(members(node.left@)) =~= self.owned_by(members(node.left@)));
            }
            assert(later.pending_for(node.right@) =~= self.pending_for(node.right@)) by {
                assert(later.owned_by(members(node.right@)) =~= self.owned_by(
                    members(node.right@),
                ));
            }
        }
    }

    /// The join of two sound plans for disjoint sets on the edges between
    /// them is a sound plan.
    proof fn lemma_join_is_sound(
        self,
        node: JoinNode,
        left: JoinNode,
        right: JoinNode,
        edges: Seq<NeighborEdge>,
    )
        requires
            self.wf(),
            self.best_plans.contains(left.set@),
            self.best_plans.contains(right.set@),
            self.entry_ok(left),
            self.entry_ok(right),
            left.set.rels().disjoint(right.set.rels()),
            self.edges_between(edges, left.set.rels(), right.set.rels()),
            edges.len() > 0,
            self.is_join_of(node, left, right, edges),
            node.set.wf(),
            node.set.rels() == left.set.rels().union(right.set.rels()),
        ensures
            self.entry_ok(node),
            node.set@.len() >= 2,
    {
        reveal(Graph::entry_ok);
        // The set has at least two members and they are relations of the graph.
        let a = left.set@[0];
        let b = right.set@[0];
        assert(left.set@.contains(a) && right.set@.contains(b));
        assert(left.set.rels().contains(a) && right.set.rels().contains(b));
        assert(node.set.rels().contains(a) && node.set.rels().contains(b));
        assert(a != b);
        assert(node.set@.len() >= 2) by {
            let ia = choose|k: int| 0 <= k < node.set@.len() && node.set@[k] == a;
            let ib = choose|k: int| 0 <= k < node.set@.len() && node.set@[k] == b;
            assert(ia != ib);
        }
        assert(below(node.set@, self.n() as int)) by {
            assert forall|k: int| 0 <= k < node.set@.len() implies node.set@[k] < self.n() by {
                let x = node.set@[k];
                assert(node.set@.contains(x));
                assert(node.set.rels().contains(x));
                if left.set.rels().contains(x) {
                    let q = choose|q: int| 0 <= q < left.set@.len() && left.set@[q] == x;
                } else {
                    let q = choose|q: int| 0 <= q < right.set@.len() && right.set@[q] == x;
                }
            }
        }
        self.lemma_join_edges(node, left, right, edges);
        if self.all_placed() {
            self.lemma_join_filters(node, left, right, edges);
        }
        self.lemma_tables_union(left.set.rels(), right.set.rels());
    }

    /// The edges of a join are edges between its inputs, and all such edges
    /// with a condition are among them.
    proof fn lemma_join_edges(
        self,
        node: JoinNode,
        left: JoinNode,
        right: JoinNode,
        edges: Seq<NeighborEdge>,
    )
        requires
            self.edges_between(edges, left.set.rels(), right.set.rels()),
            node.edges@ == ids_of(edges),
            node.left@ == left.set@,
            node.right@ == right.set@,
        ensures
            is_ordered(node.edges@),
            forall|k: int|
                0 <= k < node.edges@.len() ==> self.hyper_edges.joins_at(
                    (#[trigger] node.edges@[k]) as int,
                    node.left.rels(),
                    node.right.rels(),
                ),
            forall|id: int| #[trigger]
                self.hyper_edges.joins_at(id, node.left.rels(), node.right.rels())
                    && self.hyper_edges.edge(id).filter.is_some() ==> node.edges@.contains(
                    id as usize,
                ),
    {
        assert forall|k: int| 0 <= k < node.edges@.len() implies self.hyper_edges.joins_at(
            (#[trigger] node.edges@[k]) as int,
            node.left.rels(),
            node.right.rels(),
        ) by {
            assert(self.hyper_edges.is_found(edges[k], left.set.rels(), right.set.rels()));
        }
        assert forall|id: int| #[trigger]
            self.hyper_edges.joins_at(id, node.left.rels(), node.right.rels())
                && self.hyper_edges.edge(id).filter.is_some() implies node.edges@.contains(
            id as usize,
        ) by {
            let k = choose|k: int| 0 <= k < edges.len() && (#[trigger] edges[k]).edge_id == id;
            assert(node.edges@[k] == id as usize);
        }
    }

    /// The filters of a join are those on an input that is a single
    /// relation, and the filters it has used are those on all its relations.
    proof fn lemma_join_filters(
        self,
        node: JoinNode,
        left: JoinNode,
        right: JoinNode,
        edges: Seq<NeighborEdge>,
    )
        requires
            self.wf(),
            self.all_placed(),
            self.entry_ok(left),
            self.entry_ok(right),
            self.is_join_of(node, left, right, edges),
            node.set.rels() == left.set.rels().union(right.set.rels()),
        ensures
            members(node.left_filters@) == self.pending_for(node.left@),
            members(node.right_filters@) == self.pending_for(node.right@),
            members(node.used.filters@) == self.owned_by(node.set.rels()),
    {
        reveal(Graph::entry_ok);
        self.lemma_applicable_is_pending(left);
        self.lemma_applicable_is_pending(right);
        let lu = members(left.used.filters@);
        let ru = members(right.used.filters@);
        let lp = self.pending_for(left.set@);
        let rp = self.pending_for(right.set@);
        assert(lu.union(lp) =~= self.owned_by(left.set.rels())) by {
            if left.set@.len() == 1 {
                lemma_members_empty(left.used.filters@);
            }
        }
        assert(ru.union(rp) =~= self.owned_by(right.set.rels())) by {
            if right.set@.len() == 1 {
                lemma_members_empty(right.used.filters@);
            }
        }
        assert(self.owned_by(left.set.rels()).union(self.owned_by(right.set.rels()))
            =~= self.owned_by(node.set.rels()));
        assert(members(node.used.filters@) =~= lu.union(lp).union(ru.union(rp)));
    }

    /// The join of two plans that are worked out is worked out.
    proof fn lemma_join_worked_out(
        self,
        node: JoinNode,
        left: JoinNode,
        right: JoinNode,
        edges: Seq<NeighborEdge>,
    )
        requires
            self.wf(),
            self.entry_ok(left),
            self.entry_ok(right),
            self.worked_out(left),
            self.worked_out(right),
            left.set.rels().disjoint(right.set.rels()),
            self.edges_between(edges, left.set.rels(), right.set.rels()),
            self.is_join_of(node, left, right, edges),
            self.entry_ok(node),
            node.set@.len() >= 2,
        ensures
            self.worked_out(node),
    {
        reveal(Graph::entry_ok);
        super::sorted_ids::lemma_disjoint_union_len(left.set@, right.set@, node.set@);
        assert(edges =~= described(self.hyper_edges, node.edges@)) by {
            assert forall|k: int| 0 <= k < edges.len() implies edges[k] == described(
                self.hyper_edges,
                node.edges@,
            )[k] by {
                assert(self.hyper_edges.is_found(edges[k], left.set.rels(), right.set.rels()));
            }
        }
        self.lemma_sound_is_shaped(node);
        assert(self.joins_up(node, left, right));
    }

    /// The plan that joins the plans `left` and `right` on `edges`.
    fn join_node(&self, left: &JoinNode, right: &JoinNode, edges: &Vec<NeighborEdge>) -> (node:
        JoinNode)
        requires
            self.wf(),
            self.best_plans.contains(left.set@),
            self.best_plans.contains(right.set@),
            self.entry_ok(*left),
            self.entry_ok(*right),
            left.set.rels().disjoint(right.set.rels()),
            self.edges_between(edges@, left.set.rels(), right.set.rels()),
            edges@.len() > 0,
            self.worked_out(*left),
            self.worked_out(*right),
        ensures
            self.is_join_of(node, *left, *right, edges@),
            self.entry_ok(node),
            self.worked_out(node),
            node.set@.len() >= 2,
    {
        let set = RelationSet::union(&left.set, &right.set);
        let left_filters = self.find_filters(left);
        let right_filters = self.find_filters(right);
        proof {
            super::sorted_ids::lemma_ordered_len(left_filters@);
            super::sorted_ids::lemma_ordered_len(right_filters@);
        }

        let subgraph = estimate(
            left.subgraph,
            right.subgraph,
            edges,
            left_filters.len(),
            right_filters.len(),
        );
        let cardinality = subgraph.estimated_cardinality();
        // The costs add up, so that a plan pays for all joins below it.
        let cost = saturating_sum(cardinality, saturating_sum(left.cost, right.cost));

        let mut used = UsedFilters::unioned(&left.used, &right.used);
        used.mark_filters_used(&left_filters);
        used.mark_filters_used(&right_filters);
        let output_refs = union_ids(&left.output_refs, &right.output_refs);
        let node = JoinNode {
            set,
            cost,
            left: left.set.duplicate(),
            right: right.set.duplicate(),
            subgraph,
            output_refs,
            edges: edge_ids(edges),
            left_filters,
            right_filters,
            used,
        };
        proof {
            lemma_canonical_of_ordered(node.set@);
            assert(self.is_join_of(node, *left, *right, edges@));
            self.lemma_join_is_sound(node, *left, *right, edges@);
            self.lemma_join_worked_out(node, *left, *right, edges@);
        }
        node
    }

    /// Emits a join pair between left and right, which at least one edge
    /// joins.
    ///
    /// If the join costs less than the best plan known for the union of
    /// left and right, or none is known, it becomes the plan for the union.
    /// A plan that costs the same stays. So the plan for the union costs no
    /// more afterwards than the join of the two plans.
    pub fn emit_pair(
        &mut self,
        left: &RelationSet,
        right: &RelationSet,
        edges: Vec<NeighborEdge>,
    ) -> (result: Result<(), JoinOrderError>)
        requires
            old(self).wf(),
            left.rels().disjoint(right.rels()),
            old(self).edges_between(edges@, left.rels(), right.rels()),
            edges@.len() > 0,
        ensures
            final(self).wf(),
            old(self).advances_to(*final(self)),
            final(self).pairs_considered == if old(self).pairs_considered == usize::MAX {
                usize::MAX
            } else {
                (old(self).pairs_considered + 1) as usize
            },
            result.is_ok() <==> old(self).best_plans.contains(left@)
                && old(self).best_plans.contains(right@),
            result matches Err(e) ==> e == (if old(self).best_plans.contains(left@) {
                JoinOrderError::MissingBestPlanRight
            } else {
                JoinOrderError::MissingBestPlanLeft
            }) && final(self).best_plans == old(self).best_plans,
            forall|other: Seq<usize>|
                other != RelationSet::spec_union(left@, right@) ==> (
                #[trigger] final(self).best_plans.contains(other)) == old(self).best_plans.contains(
                    other,
                ),
            forall|other: Seq<usize>|
                other != RelationSet::spec_union(left@, right@) && old(self).best_plans.contains(
                    other,
                ) ==> (#[trigger] final(self).best_plans.entry(other)) == old(
                    self,
                ).best_plans.entry(other),
            result.is_ok() ==> final(self).best_plans.entry(
                RelationSet::spec_union(left@, right@),
            ).cost <= old(self).pair_cost(left@, right@),
            result.is_ok() ==> ({
                let l = old(self).best_plans.entry(left@);
                let r = old(self).best_plans.entry(right@);
                let key = RelationSet::spec_union(left@, right@);
                let cost = joined_cost(old(self).candidate_subgraph(l, r, edges@), l.cost, r.cost);
                &&& final(self).best_plans.contains(key)
                &&& old(self).best_plans.contains(key) && old(self).best_plans.entry(key).cost
                    <= cost ==> final(self).best_plans == old(self).best_plans
                &&& !(old(self).best_plans.contains(key) && old(self).best_plans.entry(key).cost
                    <= cost)
                        ==> old(self).is_join_of(final(self).best_plans.entry(key), l, r, edges@)
            }),
    {
        self.pairs_considered = self.pairs_considered.saturating_add(1);
        proof {
            assert(old(self).advances_to(*self));
            assert(self.wf()) by {
                assert forall|key: Seq<usize>| #[trigger]
                    self.best_plans.contains(key) implies self.best_plans.entry(key).set@ == key
                    && self.entry_ok(self.best_plans.entry(key)) && self.worked_out(
                    self.best_plans.entry(key),
                ) by {
                    old(self).lemma_entry_ok_stays(*self, self.best_plans.entry(key));
                    old(self).lemma_worked_out_stays(*self, self.best_plans.entry(key));
                }
                assert forall|r: RelId| r < self.n() implies #[trigger] self.has_base_plan(r) by {
                    assert(old(self).has_base_plan(r));
                }
            }
        }
        let li = match self.best_plans.position(left) {
            Some(i) => i,
            None => {
                return Err(JoinOrderError::MissingBestPlanLeft);
            },
        };
        let ri = match self.best_plans.position(right) {
            Some(i) => i,
            None => {
                return Err(JoinOrderError::MissingBestPlanRight);
            },
        };
        proof {
            self.best_plans.lemma_entry_at(li as int);
            self.best_plans.lemma_entry_at(ri as int);
            assert(self.best_plans.contains(left@));
            assert(self.best_plans.contains(right@));
        }
        let node = self.join_node(&self.best_plans.nodes[li], &self.best_plans.nodes[ri], &edges);
        let ghost key = node.set@;
        let ghost before = *self;
        proof {
            let l = self.best_plans.nodes@[li as int];
            let r = self.best_plans.nodes@[ri as int];
            assert(l == old(self).best_plans.entry(left@));
            assert(r == old(self).best_plans.entry(right@));
            assert(old(self).fitting(l) =~= self.fitting(l));
            assert(old(self).fitting(r) =~= self.fitting(r));
            old(self).lemma_edges_between_unique(edges@, edges@, left.rels(), right.rels());
            assert(old(self).is_join_of(node, l, r, edges@));
        }
        let replace = match self.best_plans.get(&node.set) {
            Some(existing) => !(existing.cost <= node.cost),
            None => true,
        };
        if replace {
            self.best_plans.insert(node);
            proof {
                assert forall|other: Seq<usize>| #[trigger]
                    before.best_plans.contains(other) implies self.best_plans.contains(other) && (
                self.best_plans.entry(other) == before.best_plans.entry(other)
                    || self.best_plans.entry(other).cost < before.best_plans.entry(other).cost) by {
                    if other != key {
                        assert(self.best_plans.contains(other)
                            == before.best_plans.contains(other));
                        assert(self.best_plans.entry(other) == before.best_plans.entry(other));
                    }
                }
                assert forall|other: Seq<usize>| #[trigger]
                    self.best_plans.contains(other) implies self.best_plans.entry(other).set@
                    == other && self.entry_ok(self.best_plans.entry(other)) && self.worked_out(
                    self.best_plans.entry(other),
                ) by {
                    if other != key {
                        assert(self.best_plans.contains(other)
                            == before.best_plans.contains(other));
                        assert(self.best_plans.entry(other) == before.best_plans.entry(other));
                    }
                    before.lemma_entry_ok_stays(*self, self.best_plans.entry(other));
                    before.lemma_worked_out_stays(*self, self.best_plans.entry(other));
                }
                assert forall|r: RelId| r < self.n() implies #[trigger] self.has_base_plan(r) by {
                    assert(before.has_base_plan(r));
                }
                assert(self.wf());
                assert(before.advances_to(*self));
                old(self).lemma_advances_transitive(before, *self);
            }
        }
        Ok(())
    }
}

} // verus!
