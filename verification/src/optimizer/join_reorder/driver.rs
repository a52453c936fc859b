//! Setting up the graph and running the optimizer.

use vstd::prelude::*;
use vstd::multiset::Multiset;
use crate::expr::Expression;
use crate::logical::binder::{BindContext, TableRef};
use crate::logical::logical_join::ComparisonCondition;
use crate::logical::operator::LogicalOperator;
use crate::statistics::assumptions::DEFAULT_CARDINALITY;
use super::condition::{ExtractedFilter, ReorderableCondition};
use super::edge::{cards_of, is_edge_for, joins_two, refs_of, HyperEdges};
use super::error::JoinOrderError;
use super::graph::{filter_goes_to, outputs_of, placed_on, Graph};
use super::memo::BestPlans;
use super::node::{BaseRelation, FilterId, JoinNode, UsedFilters};
use super::reconstruct::{filtered_shape, predicates_of};
use super::relation_set::{canonical, lemma_canonical_of_ordered, RelId, RelationSet};
use super::accounting::{
    base_conditions_held, base_filters_held, bases_held, conditions_held, filters_held, gathered,
    joins_held, leaves_held, lemma_gathered_prefix, scans_held, scans_of_relations,
};
use super::sorted_ids::{
    ids_below, intersects_ids, is_subset_ids, lemma_ordered_full, lemma_ordered_unique,
    lemma_range_seq, members, ordered_from, range_ids, range_seq,
};
use super::subgraph::Subgraph;

verus! {

/// The number of rows that the optimizer takes a plan to have: the plan's
/// own estimate, but at least one, or the default where the plan has none.
pub open spec fn cardinality_of(plan: LogicalOperator) -> u128 {
    match plan.spec_estimated_cardinality().spec_value() {
        Some(rows) => if rows == 0 {
            1
        } else {
            rows as u128
        },
        None => DEFAULT_CARDINALITY as u128,
    }
}

/// The tables in the output of each of `plans`.
pub open spec fn output_refs_of_each(plans: Seq<LogicalOperator>, context: BindContext) -> Seq<
    Seq<TableRef>,
> {
    Seq::new(plans.len(), |r: int| plans[r].output_refs(context))
}

/// The number of rows that the optimizer takes each of `plans` to have.
pub open spec fn cardinality_of_each(plans: Seq<LogicalOperator>) -> Seq<u128> {
    Seq::new(plans.len(), |r: int| cardinality_of(plans[r]))
}

/// Relation `r`, with its output given by `refs`, outputs all of `tables`.
pub open spec fn covers(refs: Seq<Seq<TableRef>>, r: int, tables: Seq<TableRef>) -> bool {
    0 <= r < refs.len() && members(tables).subset_of(members(refs[r]))
}

/// The relation that the filter depending on `tables` is on is `owner`: the
/// relation that alone outputs the tables, if the filter depends on a table
/// and there is such a relation.
pub open spec fn is_placement(
    refs: Seq<Seq<TableRef>>,
    tables: Seq<TableRef>,
    owner: Option<RelId>,
) -> bool {
    match owner {
        Some(r) => tables.len() > 0 && placed_on(refs, r as int, tables),
        None => forall|r: int| tables.len() > 0 ==> !#[trigger] placed_on(refs, r, tables),
    }
}

/// The number of rows to take `plan` to have.
fn estimated_rows(plan: &LogicalOperator) -> (rows: u128)
    ensures
        rows == cardinality_of(*plan),
        rows >= 1,
{
    let estimate = plan.estimated_cardinality();
    match estimate.value() {
        Some(rows) => if *rows == 0 {
            1
        } else {
            *rows as u128
        },
        None => DEFAULT_CARDINALITY as u128,
    }
}

/// The base relations for `base_ops`, in their order.
fn base_relations_for(base_ops: Vec<LogicalOperator>, bind_context: &BindContext) -> (bases: Vec<
    BaseRelation,
>)
    ensures
        bases@.len() == base_ops@.len(),
        forall|r: int|
            0 <= r < bases@.len() ==> (#[trigger] bases@[r]).rel_id == r && bases@[r].operator
                == base_ops@[r] && bases@[r].output_refs@ == base_ops@[r].output_refs(*bind_context)
                && bases@[r].cardinality == cardinality_of(base_ops@[r]),
        refs_of(bases@) == output_refs_of_each(base_ops@, *bind_context),
        cards_of(bases@) == cardinality_of_each(base_ops@),
{
    let ghost ops = base_ops@;
    let mut bases: Vec<BaseRelation> = Vec::new();
    for op in it: base_ops
        invariant
            it.seq() == ops,
            bases@.len() == it.index(),
            forall|r: int|
                0 <= r < bases@.len() ==> (#[trigger] bases@[r]).rel_id == r && bases@[r].operator
                    == ops[r] && bases@[r].output_refs@ == ops[r].output_refs(*bind_context)
                    && bases@[r].cardinality == cardinality_of(ops[r]),
    {
        let rel_id = bases.len();
        let output_refs = op.get_output_table_refs(bind_context);
        let cardinality = estimated_rows(&op);
        bases.push(BaseRelation { rel_id, operator: op, output_refs, cardinality });
    }
    assert(refs_of(bases@) =~= output_refs_of_each(ops, *bind_context));
    assert(cards_of(bases@) =~= cardinality_of_each(ops));
    bases
}

/// The relation that alone outputs `tables`, if there is one.
fn find_filter_owner(bases: &Vec<BaseRelation>, tables: &Vec<TableRef>) -> (found: Option<RelId>)
    requires
        tables@.len() > 0,
    ensures
        is_placement(refs_of(bases@), tables@, found),
{
    let ghost refs = refs_of(bases@);
    let ghost t0 = tables@[0];
    assert(tables@.contains(t0));
    assert(members(tables@).contains(t0));
    // The first relation that outputs all of the tables.
    let mut first: usize = 0;
    while first < bases.len() && !is_subset_ids(tables, &bases[first].output_refs)
        invariant
            first <= bases.len(),
            forall|q: int| 0 <= q < first ==> !covers(refs_of(bases@), q, tables@),
        decreases bases.len() - first,
    {
        first += 1;
    }
    if first == bases.len() {
        return None;
    }
    assert(covers(refs, first as int, tables@));
    // No other relation may output one of them.
    let mut q: usize = 0;
    while q < bases.len()
        invariant
            q <= bases.len(),
            first < bases.len(),
            refs == refs_of(bases@),
            members(tables@).contains(t0),
            covers(refs, first as int, tables@),
            forall|p: int, t: TableRef|
                #![trigger refs[p], members(tables@).contains(t)]
                0 <= p < q && p != first && members(tables@).contains(t) ==> !members(
                    refs[p],
                ).contains(t),
        decreases bases.len() - q,
    {
        if q != first && intersects_ids(tables, &bases[q].output_refs) {
            proof {
                let t = choose|t: usize|
                    members(tables@).contains(t) && members(bases@[q as int].output_refs@).contains(
                        t,
                    );
                assert forall|r: int| !#[trigger] placed_on(refs, r, tables@) by {
                    if placed_on(refs, r, tables@) {
                        if r == first {
                            assert(!members(refs[q as int]).contains(t));
                        } else {
                            assert(members(refs[first as int]).contains(t0));
                            assert(!members(refs[first as int]).contains(t0));
                        }
                    }
                }
            }
            return None;
        }
        q += 1;
    }
    Some(first)
}

/// For each filter the relation that it is on, if any, and the filters
/// that depend on a table and are on no relation.
fn place_filters(bases: &Vec<BaseRelation>, filters: &Vec<ExtractedFilter>) -> (placed: (
    Vec<Option<RelId>>,
    Vec<FilterId>,
))
    ensures
        placed.0@.len() == filters@.len(),
        forall|f: int|
            0 <= f < filters@.len() ==> is_placement(
                refs_of(bases@),
                (#[trigger] filters@[f]).table_refs@,
                placed.0@[f],
            ),
        super::sorted_ids::is_ordered(placed.1@),
        forall|f: FilterId|
            members(placed.1@).contains(f) <==> f < filters@.len() && placed.0@[f as int].is_none()
                && (#[trigger] filters@[f as int]).table_refs@.len() > 0,
{
    let mut owners: Vec<Option<RelId>> = Vec::new();
    let mut unplaced: Vec<FilterId> = Vec::new();
    let mut f: usize = 0;
    proof {
        super::sorted_ids::lemma_members_empty(unplaced@);
    }
    while f < filters.len()
        invariant
            f <= filters.len(),
            owners@.len() == f,
            forall|g: int|
                0 <= g < f ==> is_placement(
                    refs_of(bases@),
                    (#[trigger] filters@[g]).table_refs@,
                    owners@[g],
                ),
            super::sorted_ids::is_ordered(unplaced@),
            forall|k: int| 0 <= k < unplaced@.len() ==> unplaced@[k] < f,
            forall|g: FilterId|
                members(unplaced@).contains(g) <==> g < f && owners@[g as int].is_none() && (
                #[trigger] filters@[g as int]).table_refs@.len() > 0,
        decreases filters.len() - f,
    {
        let tables = &filters[f].table_refs;
        let owner = if tables.len() == 0 {
            // A constant filter. It goes to the top of the plan.
            None
        } else {
            find_filter_owner(bases, tables)
        };
        let free = tables.len() > 0 && owner.is_none();
        owners.push(owner);
        if free {
            let ghost before = unplaced@;
            unplaced.push(f);
            proof {
                assert forall|g: FilterId|
                    members(unplaced@).contains(g) <==> g < f + 1 && owners@[g as int].is_none()
                        && (#[trigger] filters@[g as int]).table_refs@.len() > 0 by {
                    if unplaced@.contains(g) {
                        let k = choose|k: int| 0 <= k < unplaced@.len() && unplaced@[k] == g;
                        if k < before.len() {
                            assert(before[k] == g);
                            assert(before.contains(g));
                        }
                    }
                    if before.contains(g) {
                        let k = choose|k: int| 0 <= k < before.len() && before[k] == g;
                        assert(unplaced@[k] == g);
                    }
                    if g == f {
                        assert(unplaced@[before.len() as int] == g);
                    }
                }
            }
        }
        f += 1;
    }
    (owners, unplaced)
}

/// The memo to start from: for each base relation the plan that is the
/// relation itself, at no cost.
fn base_plans(bases: &Vec<BaseRelation>) -> (plans: BestPlans)
    ensures
        plans.wf(),
        plans.nodes@.len() == bases@.len(),
        forall|r: int|
            0 <= r < bases@.len() ==> {
                let node = #[trigger] plans.nodes@[r];
                &&& node.set@ == seq![r as usize]
                &&& node.cost == 0
                &&& node.subgraph == Subgraph::of_rows(bases@[r].cardinality)
                &&& members(node.output_refs@) == members(bases@[r].output_refs@)
                &&& Graph::base_entry(node)
            },
{
    let mut plans = BestPlans { nodes: Vec::new() };
    let mut r: usize = 0;
    while r < bases.len()
        invariant
            r <= bases.len(),
            plans.nodes@.len() == r,
            forall|q: int|
                0 <= q < r ==> {
                    let node = #[trigger] plans.nodes@[q];
                    &&& node.set@ == seq![q as usize]
                    &&& node.cost == 0
                    &&& node.subgraph == Subgraph::of_rows(bases@[q].cardinality)
                    &&& members(node.output_refs@) == members(bases@[q].output_refs@)
                    &&& Graph::base_entry(node)
                },
        decreases bases.len() - r,
    {
        // Initial subgraph, we're selecting everything from the base
        // relation.
        let subgraph = Subgraph::for_rows(bases[r].cardinality);
        let node = JoinNode {
            set: RelationSet::base(r),
            cost: 0,
            left: RelationSet::empty(),
            right: RelationSet::empty(),
            subgraph,
            output_refs: ordered_from(&bases[r].output_refs),
            edges: Vec::new(),
            left_filters: Vec::new(),
            right_filters: Vec::new(),
            used: UsedFilters::none(),
        };
        plans.nodes.push(node);
        r += 1;
    }
    assert(plans.wf()) by {
        assert forall|i: int, j: int| 0 <= i < j < plans.nodes@.len() implies (
        #[trigger] plans.nodes@[i]).set@ != (#[trigger] plans.nodes@[j]).set@ by {
            assert(plans.nodes@[i].set@[0] == i as usize);
            assert(plans.nodes@[j].set@[0] == j as usize);
        }
    }
    plans
}

/// The values with each wrapped as present.
fn all_present<T>(values: Vec<T>) -> (wrapped: Vec<Option<T>>)
    ensures
        wrapped@.len() == values@.len(),
        forall|i: int| 0 <= i < values@.len() ==> #[trigger] wrapped@[i] == Some(values@[i]),
{
    let ghost all = values@;
    let mut wrapped: Vec<Option<T>> = Vec::new();
    for value in it: values
        invariant
            it.seq() == all,
            wrapped@.len() == it.index(),
            forall|i: int| 0 <= i < wrapped@.len() ==> #[trigger] wrapped@[i] == Some(all[i]),
    {
        wrapped.push(Some(value));
    }
    wrapped
}

impl Graph {
    /// The graph is the one to start from for the plans `base_ops`, the
    /// conditions and the filters: it holds them all, each condition as an
    /// edge between the relations whose tables it mentions, each filter
    /// with the relation it is on, if any, and for every single relation a
    /// plan at no cost, with all rows and the tables of the relation, that
    /// joins nothing and applies no filter.
    pub open spec fn starts_from(
        self,
        base_ops: Seq<LogicalOperator>,
        conditions: Seq<ReorderableCondition>,
        filters: Seq<ExtractedFilter>,
        context: BindContext,
    ) -> bool {
        let refs = output_refs_of_each(base_ops, context);
        let cards = cardinality_of_each(base_ops);
        &&& self.pairs_considered == 0
        &&& self.base_relations@.len() == base_ops.len()
        &&& forall|r: int|
            0 <= r < base_ops.len() ==> (#[trigger] self.base_relations@[r]).is_some() && {
                let base = self.base_relations@[r].unwrap();
                &&& base.rel_id == r
                &&& base.operator == base_ops[r]
                &&& base.output_refs@ == refs[r]
                &&& base.cardinality == cards[r]
            }
        &&& self.filters@.len() == filters.len()
        &&& self.filter_owner@.len() == filters.len()
        &&& forall|f: int| 0 <= f < filters.len()
            ==> #[trigger] self.filters@[f] == Some(filters[f])
        &&& forall|f: int|
            0 <= f < filters.len() ==> is_placement(
                refs,
                (#[trigger] filters[f]).table_refs@,
                self.filter_owner@[f],
            )
        &&& self.hyper_edges.edges@.len() == conditions.len()
        &&& forall|i: int|
            0 <= i < conditions.len() ==> self.hyper_edges.present(i) && is_edge_for(
                refs,
                cards,
                #[trigger] self.hyper_edges.edge(i),
                i,
                conditions[i],
            )
        &&& self.best_plans.nodes@.len() == base_ops.len()
        &&& forall|r: int|
            0 <= r < base_ops.len() ==> {
                let node = #[trigger] self.best_plans.nodes@[r];
                &&& node.set@ == seq![r as usize]
                &&& node.subgraph == Subgraph::of_rows(cards[r])
                &&& members(node.output_refs@) == members(refs[r])
                &&& Self::base_entry(node)
            }
    }

    /// The graph for joining the plans `base_ops` on `conditions`, with
    /// `filters` to put back into the plan.
    ///
    /// A plan's cardinality is its own estimate, at least one, or the
    /// default where it has none.
    ///
    /// Every filter is taken. One that depends on tables of one relation
    /// alone is on that relation and goes directly above it in the plan.
    /// One that depends on tables of several relations, or on a table that
    /// several relations output, goes above the first join in the plan
    /// whose input has all its tables. One that depends on no table goes
    /// on top of the plan.
    ///
    /// Fails on the first condition that does not join two relations.
    pub fn try_new(
        base_ops: Vec<LogicalOperator>,
        conditions: Vec<ReorderableCondition>,
        filters: Vec<ExtractedFilter>,
        bind_context: &BindContext,
    ) -> (result: Result<Graph, JoinOrderError>)
        ensures
            result.is_ok() <==> forall|i: int|
                0 <= i < conditions@.len() ==> joins_two(
                    output_refs_of_each(base_ops@, *bind_context),
                    #[trigger] conditions@[i],
                ),
            result matches Err(e) ==> exists|i: int|
                0 <= i < conditions@.len() && e == (JoinOrderError::InvalidCondition {
                    index: i as usize,
                }) && !joins_two(output_refs_of_each(base_ops@, *bind_context), conditions@[i])
                    && forall|j: int|
                    0 <= j < i ==> joins_two(
                        output_refs_of_each(base_ops@, *bind_context),
                        #[trigger] conditions@[j],
                    ),
            result matches Ok(graph) ==> graph.wf() && graph.starts_from(
                base_ops@,
                conditions@,
                filters@,
                *bind_context,
            ),
    {
        let bases = base_relations_for(base_ops, bind_context);
        let hyper_edges = HyperEdges::new(conditions, &bases)?;
        let (filter_owner, unplaced) = place_filters(&bases, &filters);
        let best_plans = base_plans(&bases);
        let ghost relations = bases@;
        let ghost given = filters@;
        let graph = Graph {
            hyper_edges,
            filters: all_present(filters),
            filter_owner,
            unplaced,
            best_plans,
            base_relations: all_present(bases),
            pairs_considered: 0,
        };
        proof {
            assert forall|f: int|
                0 <= f < graph.filter_owner@.len() && (
                #[trigger] graph.filter_owner@[f]).is_some() implies graph.filter_owner@[f].unwrap()
                < graph.n() by {
                assert(is_placement(
                    refs_of(relations),
                    given[f].table_refs@,
                    graph.filter_owner@[f],
                ));
            }
            assert(outputs_of(graph.base_relations@) =~= refs_of(relations));
            assert forall|f: int| 0 <= f < graph.filters@.len() implies #[trigger] filter_goes_to(
                graph.filters@,
                graph.filter_owner@,
                graph.base_relations@,
                f,
            ) by {
                assert(is_placement(
                    refs_of(relations),
                    given[f].table_refs@,
                    graph.filter_owner@[f],
                ));
            }
            assert forall|key: Seq<usize>| #[trigger]
                graph.best_plans.contains(key) implies graph.best_plans.entry(key).set@ == key
                && graph.entry_ok(graph.best_plans.entry(key)) && graph.worked_out(
                graph.best_plans.entry(key),
            ) by {
                reveal(Graph::entry_ok);
                reveal(Graph::shaped);
                let i = graph.best_plans.index_of(key);
                assert(graph.best_plans.has_at(key, i));
                let node = graph.best_plans.nodes@[i];
                assert(node.set@ == seq![i as usize]);
                assert(node.set@[0] == i as usize);
                assert(members(node.output_refs@) =~= graph.tables_of(node.set.rels())) by {
                    assert(graph.base_relations@[i] == Some(relations[i]));
                    assert forall|t: TableRef|
                        members(node.output_refs@).contains(t) == graph.tables_of(
                            node.set.rels(),
                        ).contains(t) by {
                        if members(node.output_refs@).contains(t) {
                            assert(node.set@.contains(i as usize));
                            assert(graph.base_outputs(i as usize, t));
                        }
                        if graph.tables_of(node.set.rels()).contains(t) {
                            let r = choose|r: RelId|
                                node.set.rels().contains(r) && #[trigger] graph.base_outputs(r, t);
                            let q = choose|q: int| 0 <= q < node.set@.len() && node.set@[q] == r;
                        }
                    }
                }
            }
            assert forall|r: RelId| r < graph.n() implies #[trigger] graph.has_base_plan(r) by {
                assert(graph.best_plans.has_at(seq![r], r as int));
            }
            assert forall|f: FilterId|
                members(graph.unplaced@).contains(f) <==> f < graph.filters@.len()
                    && graph.filter_owner@[f as int].is_none() && (
                #[trigger] graph.filters@[f as int]).unwrap().table_refs@.len() > 0 by {
                if f < given.len() {
                    assert(graph.filters@[f as int] == Some(given[f as int]));
                }
            }
            assert(graph.wf());
            assert(graph.starts_from(base_ops@, conditions@, given, *bind_context));
        }
        Ok(graph)
    }
}


impl Graph {
    /// `later` is `self` with one more edge, without a condition, between
    /// the relations `a` and `b`.
    pub open spec fn with_cross_product(self, later: Graph, a: RelId, b: RelId) -> bool {
        &&& later.filters == self.filters
        &&& later.filter_owner == self.filter_owner
        &&& later.unplaced == self.unplaced
        &&& later.base_relations == self.base_relations
        &&& later.best_plans == self.best_plans
        &&& later.hyper_edges.edges@.len() == self.hyper_edges.edges@.len() + 1
        &&& forall|id: int|
            0 <= id < self.hyper_edges.edges@.len() ==> later.hyper_edges.edges@[id]
                == self.hyper_edges.edges@[id]
        &&& later.hyper_edges.present(self.hyper_edges.edges@.len() as int)
        &&& ({
            let edge = later.hyper_edges.edge(self.hyper_edges.edges@.len() as int);
            &&& edge.id == self.hyper_edges.edges@.len()
            &&& edge.left_rels@ == seq![a]
            &&& edge.right_rels@ == seq![b]
            &&& edge.filter.is_none()
        })
    }

    /// A sound plan stays sound when an edge without a condition is added.
    proof fn lemma_entry_ok_with_cross_product(
        self,
        later: Graph,
        a: RelId,
        b: RelId,
        node: JoinNode,
    )
        requires
            self.entry_ok(node),
            self.with_cross_product(later, a, b),
        ensures
            later.entry_ok(node),
    {
        reveal(Graph::entry_ok);
        self.lemma_tables_same(later, node.set.rels());
        let len = self.hyper_edges.edges@.len() as int;
        if node.set@.len() >= 2 {
            assert forall|k: int| 0 <= k < node.edges@.len() implies later.hyper_edges.joins_at(
                (#[trigger] node.edges@[k]) as int,
                node.left.rels(),
                node.right.rels(),
            ) by {
                assert(self.hyper_edges.joins_at(
                    node.edges@[k] as int,
                    node.left.rels(),
                    node.right.rels(),
                ));
            }
            assert forall|id: int| #[trigger]
                later.hyper_edges.joins_at(id, node.left.rels(), node.right.rels())
                    && later.hyper_edges.edge(id).filter.is_some() implies node.edges@.contains(
                id as usize,
            ) by {
                assert(id < len);
                assert(self.hyper_edges.joins_at(id, node.left.rels(), node.right.rels()));
            }
            assert(later.owned_by(node.set.rels()) =~= self.owned_by(node.set.rels()));
            assert(later.pending_for(node.left@) =~= self.pending_for(node.left@)) by {
                assert(later.owned_by(members(node.left@)) =~= self.owned_by(members(node.left@)));
            }
            assert(later.pending_for(node.right@) =~= self.pending_for(node.right@)) by {
                assert(later.owned_by(members(node.right@)) =~= self.owned_by(
                    members(node.right@),
                ));
            }
        }
    }

    /// The edges stay well formed when an edge without a condition between
    /// two relations of the graph is added, and the new edge links the two.
    proof fn lemma_edges_with_cross_product(self, later: Graph, a: RelId, b: RelId)
        requires
            self.hyper_edges.wf(self.n()),
            a < self.n(),
            b < self.n(),
            self.with_cross_product(later, a, b),
        ensures
            later.hyper_edges.wf(later.n()),
            later.hyper_edges.links(self.hyper_edges.edges@.len() as int, a, b),
            forall|x: RelId, y: RelId| #[trigger]
                self.hyper_edges.linked(x, y) ==> later.hyper_edges.linked(x, y),
    {
        let len = self.hyper_edges.edges@.len() as int;
        let added = later.hyper_edges.edge(len);
        assert(added.span() =~= set![a, b]) by {
            assert forall|x: RelId| added.span().contains(x) == set![a, b].contains(x) by {
                if added.left_rels@.contains(x) {
                    let k = choose|k: int|
                        0 <= k < added.left_rels@.len() && added.left_rels@[k] == x;
                }
                if added.right_rels@.contains(x) {
                    let k = choose|k: int|
                        0 <= k < added.right_rels@.len() && added.right_rels@[k] == x;
                }
                if x == a {
                    assert(added.left_rels@[0] == x);
                }
                if x == b {
                    assert(added.right_rels@[0] == x);
                }
            }
        }
        assert forall|id: int| later.hyper_edges.present(id) implies (
        #[trigger] later.hyper_edges.edge(id)).wf(id, later.n()) by {
            if id < len {
                assert(self.hyper_edges.present(id));
                assert(self.hyper_edges.edge(id).wf(id, self.n()));
            }
        }
        assert forall|x: RelId, y: RelId| #[trigger]
            self.hyper_edges.linked(x, y) implies later.hyper_edges.linked(x, y) by {
            let id = choose|id: int| #[trigger] self.hyper_edges.links(id, x, y);
            assert(later.hyper_edges.links(id, x, y));
        }
    }

    /// An edge without a condition changes nothing about what is pending.
    proof fn lemma_pending_with_cross_product(self, later: Graph, a: RelId, b: RelId)
        requires
            self.with_cross_product(later, a, b),
        ensures
            later.pending_conditions() == self.pending_conditions(),
    {
        let len = self.hyper_edges.edges@.len() as int;
        let held = conditions_held(self.hyper_edges.edges@);
        let held_later = conditions_held(later.hyper_edges.edges@);
        lemma_gathered_prefix(held_later, held, len as nat);
        assert(held_later[len] == Multiset::<Set<ComparisonCondition>>::empty());
        assert(gathered(held_later, (len + 1) as nat) =~= gathered(held, len as nat));
    }

    /// One more edge without a condition keeps the graph ready to search,
    /// keeps what is pending, and links the two relations of the edge.
    proof fn lemma_wf_with_cross_product(self, later: Graph, a: RelId, b: RelId)
        requires
            self.wf(),
            a < self.n(),
            b < self.n(),
            self.with_cross_product(later, a, b),
        ensures
            later.wf(),
            later.hyper_edges.links(self.hyper_edges.edges@.len() as int, a, b),
            forall|x: RelId, y: RelId| #[trigger]
                self.hyper_edges.linked(x, y) ==> later.hyper_edges.linked(x, y),
            later.pending_conditions() == self.pending_conditions(),
    {
        self.lemma_edges_with_cross_product(later, a, b);
        self.lemma_pending_with_cross_product(later, a, b);
        assert forall|key: Seq<usize>| #[trigger]
            later.best_plans.contains(key) implies later.best_plans.entry(key).set@ == key
            && later.entry_ok(later.best_plans.entry(key)) && later.worked_out(
            later.best_plans.entry(key),
        ) by {
            self.lemma_entry_ok_with_cross_product(later, a, b, self.best_plans.entry(key));
            self.lemma_worked_out_stays(later, self.best_plans.entry(key));
        }
        assert forall|r: RelId| r < later.n() implies #[trigger] later.has_base_plan(r) by {
            assert(self.has_base_plan(r));
        }
    }

    /// Adds an edge without a condition between every two relations, in
    /// both directions, so that a plan can be found whatever the conditions
    /// connect.
    pub fn connect_all(&mut self)
        requires
            old(self).wf(),
        ensures
            final(self).wf(),
            final(self).hyper_edges.fully_connected(final(self).n()),
            final(self).filters == old(self).filters,
            final(self).filter_owner == old(self).filter_owner,
            final(self).unplaced == old(self).unplaced,
            final(self).base_relations == old(self).base_relations,
            final(self).best_plans == old(self).best_plans,
            final(self).pairs_considered == old(self).pairs_considered,
            final(self).pending_conditions() == old(self).pending_conditions(),
            final(self).hyper_edges.edges@.len() >= old(self).hyper_edges.edges@.len(),
            forall|id: int|
                0 <= id < old(self).hyper_edges.edges@.len() ==> final(self).hyper_edges.edges@[id]
                    == old(self).hyper_edges.edges@[id],
            forall|id: int|
                old(self).hyper_edges.edges@.len() <= id < final(self).hyper_edges.edges@.len()
                    ==> final(self).hyper_edges.present(id)
                    && (#[trigger] final(self).hyper_edges.edge(id)).filter.is_none(),
    {
        let n = self.base_relations.len();
        let mut i: usize = 0;
        while i < n
            invariant
                i <= n,
                n == self.base_relations@.len(),
                self.wf(),
                self.filters == old(self).filters,
                self.filter_owner == old(self).filter_owner,
                self.unplaced == old(self).unplaced,
                self.base_relations == old(self).base_relations,
                self.best_plans == old(self).best_plans,
                self.pairs_considered == old(self).pairs_considered,
                self.pending_conditions() == old(self).pending_conditions(),
                self.hyper_edges.edges@.len() >= old(self).hyper_edges.edges@.len(),
                forall|id: int|
                    0 <= id < old(self).hyper_edges.edges@.len() ==> self.hyper_edges.edges@[id]
                        == old(self).hyper_edges.edges@[id],
                forall|id: int|
                    old(self).hyper_edges.edges@.len() <= id < self.hyper_edges.edges@.len()
                        ==> self.hyper_edges.present(id) && (#[trigger] self.hyper_edges.edge(
                        id,
                    )).filter.is_none(),
                forall|a: RelId, b: RelId|
                    a < i && b < n && a != b ==> #[trigger] self.hyper_edges.linked(a, b),
            decreases n - i,
        {
            let mut j: usize = 0;
            while j < n
                invariant
                    i < n,
                    j <= n,
                    n == self.base_relations@.len(),
                    self.wf(),
                    self.filters == old(self).filters,
                    self.filter_owner == old(self).filter_owner,
                    self.unplaced == old(self).unplaced,
                    self.base_relations == old(self).base_relations,
                    self.best_plans == old(self).best_plans,
                    self.pairs_considered == old(self).pairs_considered,
                    self.pending_conditions() == old(self).pending_conditions(),
                    self.hyper_edges.edges@.len() >= old(self).hyper_edges.edges@.len(),
                    forall|id: int|
                        0 <= id < old(self).hyper_edges.edges@.len() ==> self.hyper_edges.edges@[id]
                            == old(self).hyper_edges.edges@[id],
                    forall|id: int|
                        old(self).hyper_edges.edges@.len() <= id < self.hyper_edges.edges@.len()
                            ==> self.hyper_edges.present(id) && (#[trigger] self.hyper_edges.edge(
                            id,
                        )).filter.is_none(),
                    forall|a: RelId, b: RelId|
                        (a < i || (a == i && b < j)) && b < n && a != b
                            ==> #[trigger] self.hyper_edges.linked(a, b),
                decreases n - j,
            {
                if i != j {
                    let ghost before = *self;
                    match (&self.base_relations[i], &self.base_relations[j]) {
                        (Some(left), Some(right)) => {
                            self.hyper_edges.insert_cross_product(left, right);
                        },
                        _ => {},
                    }
                    proof {
                        assert(before.base_relations@[i as int].is_some());
                        assert(before.base_relations@[j as int].is_some());
                        assert(before.with_cross_product(*self, i, j));
                        before.lemma_wf_with_cross_product(*self, i, j);
                        assert(self.hyper_edges.linked(i, j));
                        assert forall|id: int|
                            old(self).hyper_edges.edges@.len() <= id
                                < self.hyper_edges.edges@.len() implies self.hyper_edges.present(
                            id,
                        ) && (#[trigger] self.hyper_edges.edge(id)).filter.is_none() by {
                            if id < before.hyper_edges.edges@.len() {
                                assert(before.hyper_edges.present(id));
                                assert(before.hyper_edges.edge(id).filter.is_none());
                                assert(self.hyper_edges.edges@[id]
                                    == before.hyper_edges.edges@[id]);
                            }
                        }
                        assert forall|a: RelId, b: RelId|
                            (a < i || (a == i && b < j + 1)) && b < n && a
                                != b implies #[trigger] self.hyper_edges.linked(a, b) by {
                            if !(a == i && b == j) {
                                assert(before.hyper_edges.linked(a, b));
                            }
                        }
                    }
                }
                j += 1;
            }
            i += 1;
        }
    }

    /// The ids of the filters that are still in the graph, in increasing
    /// order.
    fn remaining_filters(&self) -> (ids: Vec<FilterId>)
        ensures
            super::sorted_ids::is_ordered(ids@),
            forall|f: FilterId| members(ids@).contains(f) <==> self.filter_present(f as int),
    {
        let mut ids: Vec<FilterId> = Vec::new();
        let mut f: usize = 0;
        while f < self.filters.len()
            invariant
                f <= self.filters.len(),
                super::sorted_ids::is_ordered(ids@),
                forall|k: int| 0 <= k < ids@.len() ==> ids@[k] < f,
                forall|x: FilterId|
                    members(ids@).contains(x) <==> x < f && self.filter_present(x as int),
            decreases self.filters.len() - f,
        {
            if self.filters[f].is_some() {
                let ghost before = ids@;
                ids.push(f);
                proof {
                    assert forall|x: FilterId|
                        members(ids@).contains(x) <==> x < f + 1 && self.filter_present(
                            x as int,
                        ) by {
                        if ids@.contains(x) {
                            let k = choose|k: int| 0 <= k < ids@.len() && ids@[k] == x;
                            if k < before.len() {
                                assert(before[k] == x);
                                assert(before.contains(x));
                            }
                        }
                        if before.contains(x) {
                            let k = choose|k: int| 0 <= k < before.len() && before[k] == x;
                            assert(ids@[k] == x);
                        }
                        if x == f {
                            assert(ids@[before.len() as int] == x);
                        }
                    }
                }
            }
            f += 1;
        }
        ids
    }

    /// Nothing is pending in a graph without relations, without filters and
    /// without edges that have a condition.
    proof fn lemma_nothing_pending(self)
        requires
            forall|r: int|
                0 <= r < self.base_relations@.len() ==> self.base_relations@[r].is_none(),
            forall|f: int| 0 <= f < self.filters@.len() ==> self.filters@[f].is_none(),
            forall|id: int|
                self.hyper_edges.present(id)
                    ==> (#[trigger] self.hyper_edges.edge(id)).filter.is_none(),
        ensures
            self.pending_joins() == 0,
            self.pending_leaves() == 0,
            self.pending_filters() == Multiset::<Expression>::empty(),
            self.pending_conditions() == Multiset::<Set<ComparisonCondition>>::empty(),
    {
        let n = self.base_relations@.len();
        super::accounting::lemma_total_zero(joins_held(self.base_relations@), n);
        super::accounting::lemma_total_zero(leaves_held(self.base_relations@), n);
        super::accounting::lemma_gathered_empty(base_filters_held(self.base_relations@), n);
        super::accounting::lemma_gathered_empty(base_conditions_held(self.base_relations@), n);
        super::accounting::lemma_gathered_empty(filters_held(self.filters@), self.filters@.len());
        assert forall|id: int|
            0 <= id < self.hyper_edges.edges@.len() implies conditions_held(
            self.hyper_edges.edges@,
        )[id] == Multiset::<Set<ComparisonCondition>>::empty() by {
            if self.hyper_edges.edges@[id].is_some() {
                assert(self.hyper_edges.present(id));
                assert(self.hyper_edges.edge(id).filter.is_none());
            }
        }
        super::accounting::lemma_gathered_empty(
            conditions_held(self.hyper_edges.edges@),
            self.hyper_edges.edges@.len(),
        );
        assert(Multiset::<Expression>::empty().add(Multiset::<Expression>::empty())
            =~= Multiset::<Expression>::empty());
        assert(Multiset::<Set<ComparisonCondition>>::empty().add(
            Multiset::<Set<ComparisonCondition>>::empty(),
        ) =~= Multiset::<Set<ComparisonCondition>>::empty());
    }

    /// The filters left once the plan for all relations is built are those
    /// that no join applies, and the plan under them is the plan topped.
    proof fn lemma_topped(
        self,
        ready: Graph,
        built: Graph,
        top: JoinNode,
        ids: Seq<FilterId>,
        joined: LogicalOperator,
        plan: LogicalOperator,
    )
        requires
            self.wf(),
            self.n() >= 1,
            ready.filters == self.filters,
            ready.filter_owner == self.filter_owner,
            ready.unplaced == self.unplaced,
            ready.base_relations == self.base_relations,
            top.set.rels() == ids_below(self.n() as int),
            top.set@.len() == self.n(),
            built.built_from(ready, top.set.rels(), top.set@.len() >= 2),
            super::sorted_ids::is_ordered(ids),
            forall|f: FilterId| members(ids).contains(f) <==> built.filter_present(f as int),
            ids.len() == 0 ==> plan == joined,
            ids.len() > 0 ==> filtered_shape(joined, predicates_of(built.filters@, ids), plan),
        ensures
            self.is_topped(joined, plan),
    {
        reveal(Graph::built_from);
        assert(self.filters.len() <= usize::MAX);
        assert forall|f: FilterId| members(ids).contains(f) == self.filters_for_top().contains(
            f,
        ) by {
            if f < self.filters@.len() {
                assert(self.filters@[f as int].is_some());
                assert(built.filters@[f as int] == (if top.set@.len() >= 2 && ready.owned_by(
                    top.set.rels(),
                ).contains(f) {
                    None
                } else {
                    ready.filters@[f as int]
                }));
                assert(ready.owner(f as int) == self.filter_owner@[f as int]);
                if self.filter_owner@[f as int].is_some() {
                    let r = self.filter_owner@[f as int].unwrap();
                    assert(r < self.n());
                    assert(top.set.rels().contains(r));
                    assert(ready.owned_by(top.set.rels()).contains(f));
                    assert(built.filter_present(f as int) == (self.n() == 1));
                } else {
                    assert(!ready.owned_by(top.set.rels()).contains(f));
                    assert(built.filter_present(f as int));
                }
                assert(self.filters_for_top().contains(f) == built.filter_present(f as int));
            } else {
                assert(!built.filter_present(f as int));
                assert(!self.filters_for_top().contains(f));
            }
        }
        assert(members(ids) =~= self.filters_for_top());
        lemma_canonical_of_ordered(ids);
        assert(predicates_of(built.filters@, ids) =~= predicates_of(self.filters@, ids)) by {
            assert forall|k: int| 0 <= k < ids.len() implies built.filters@[ids[k] as int]
                == self.filters@[ids[k] as int] by {
                assert(ids.contains(ids[k]));
                assert(members(ids).contains(ids[k]));
                assert(built.filter_present(ids[k] as int));
            }
        }
    }

    /// Whether no base relation is left in the graph.
    fn all_relations_taken(&self) -> (all: bool)
        ensures
            all == forall|r: int|
                0 <= r < self.base_relations@.len() ==> (
                #[trigger] self.base_relations@[r]).is_none(),
    {
        let mut r: usize = 0;
        while r < self.base_relations.len()
            invariant
                r <= self.base_relations.len(),
                forall|q: int| 0 <= q < r ==> (#[trigger] self.base_relations@[q]).is_none(),
            decreases self.base_relations.len() - r,
        {
            if self.base_relations[r].is_some() {
                return false;
            }
            r += 1;
        }
        true
    }

    /// Where every filter is on one relation, the plan that a search has
    /// found for all relations can be built once it is taken out of the
    /// memo.
    proof fn lemma_ready_to_build(self, solved: Graph, ready: Graph, top: JoinNode)
        requires
            solved.wf(),
            solved.all_placed(),
            solved.best_plans.contains(range_seq(solved.n())),
            top == solved.best_plans.entry(range_seq(solved.n())),
            solved.n() >= 1,
            ready.hyper_edges == solved.hyper_edges,
            ready.filters == solved.filters,
            ready.filter_owner == solved.filter_owner,
            ready.unplaced == solved.unplaced,
            ready.base_relations == solved.base_relations,
            ready.best_plans.wf(),
            !ready.best_plans.contains(range_seq(solved.n())),
            forall|other: Seq<usize>|
                other != range_seq(solved.n()) ==> (#[trigger] ready.best_plans.contains(other))
                    == solved.best_plans.contains(other),
            forall|other: Seq<usize>|
                other != range_seq(solved.n()) && solved.best_plans.contains(other) ==> (
                #[trigger] ready.best_plans.entry(other)) == solved.best_plans.entry(other),
        ensures
            ready.buildable(top),
            solved.keeps(ready, top.set.rels()),
            top.set.rels() == ids_below(solved.n() as int),
    {
        assert(solved.base_relations.len() <= usize::MAX);
        lemma_range_seq(solved.n());
        let all = top.set.rels();
        assert(solved.entry_ok(top));
        assert(all == ids_below(solved.n() as int));
        assert(solved.shape_ok());
        assert(solved.subtree_ok(all));
        assert(solved.resources_ok(all)) by {
            assert forall|r: RelId| #[trigger] all.contains(r) implies solved.base_present(
                r as int,
            ) by {
                assert(solved.base_relations@[r as int].is_some());
            }
            assert forall|f: FilterId| #[trigger]
                solved.owned_by(all).contains(f) implies solved.filter_present(f as int) by {
                assert(solved.filters@[f as int].is_some());
            }
        }
        assert(solved.keeps(ready, all)) by {
            reveal(Graph::keeps);
            assert(ready.no_entry_for(all)) by {
                assert forall|key: Seq<usize>| #[trigger]
                    ready.best_plans.contains(key) implies members(key) != all by {
                    if members(key) == all {
                        reveal(Graph::entry_ok);
                        assert(solved.best_plans.contains(key));
                        assert(solved.entry_ok(solved.best_plans.entry(key)));
                        lemma_ordered_unique(key, range_seq(solved.n()));
                    }
                }
            }
        }
        solved.lemma_buildable_kept(ready, top);
    }

    /// Once the plan for all relations is built, no base relation and no
    /// edge with a condition is left in the graph.
    proof fn lemma_all_taken(ready: Graph, built: Graph, top: JoinNode)
        requires
            ready.hyper_edges.wf(ready.n()),
            top.set.rels() == ids_below(ready.n() as int),
            built.built_from(ready, top.set.rels(), top.set@.len() >= 2),
        ensures
            forall|r: int|
                0 <= r < built.base_relations@.len() ==> (
                #[trigger] built.base_relations@[r]).is_none(),
            forall|id: int|
                built.hyper_edges.present(id) ==> (#[trigger] built.hyper_edges.edge(
                    id,
                )).filter.is_none(),
    {
        reveal(Graph::built_from);
        assert(ready.base_relations.len() <= usize::MAX);
        assert forall|r: int|
            0 <= r < built.base_relations@.len() implies (
        #[trigger] built.base_relations@[r]).is_none() by {
            assert(top.set.rels().contains(r as usize));
            assert(built.base_relations@[(r as usize) as int].is_none());
        }
        assert forall|id: int| built.hyper_edges.present(id) implies (
        #[trigger] built.hyper_edges.edge(id)).filter.is_none() by {
            let edge = built.hyper_edges.edge(id);
            if edge.filter.is_some() {
                assert(built.hyper_edges.edges@[id] == ready.hyper_edges.edges@[id]);
                assert(ready.hyper_edges.present(id));
                assert(ready.hyper_edges.edge(id).wf(id, ready.n()));
                assert(edge.span().subset_of(top.set.rels())) by {
                    assert forall|x: RelId| edge.span().contains(x) implies top.set.rels().contains(
                        x,
                    ) by {
                        if edge.left_rels@.contains(x) {
                            let k = choose|k: int|
                                0 <= k < edge.left_rels@.len() && edge.left_rels@[k] == x;
                        } else {
                            let k = choose|k: int|
                                0 <= k < edge.right_rels@.len() && edge.right_rels@[k] == x;
                        }
                    }
                }
            }
        }
    }

    /// A plan built from a graph with all its relations, which has left no
    /// relation and no edge with a condition in the graph and has the
    /// filters that were left applied to it, joins everything in the graph.
    proof fn lemma_all_used(
        ready: Graph,
        built: Graph,
        done: Graph,
        ids: Seq<FilterId>,
        joined: LogicalOperator,
        plan: LogicalOperator,
    )
        requires
            forall|r: int|
                0 <= r < ready.base_relations@.len() ==> (
                #[trigger] ready.base_relations@[r]).is_some(),
            ready.conserves(built, joined),
            forall|r: int|
                0 <= r < built.base_relations@.len() ==> (
                #[trigger] built.base_relations@[r]).is_none(),
            forall|id: int|
                built.hyper_edges.present(id) ==> (#[trigger] built.hyper_edges.edge(
                    id,
                )).filter.is_none(),
            forall|f: FilterId| members(ids).contains(f) <==> built.filter_present(f as int),
            done.hyper_edges == built.hyper_edges,
            done.base_relations == built.base_relations,
            done.filters@.len() == built.filters@.len(),
            forall|f: int|
                0 <= f < built.filters@.len() ==> #[trigger] done.filters@[f] == (if members(
                    ids,
                ).contains(f as usize) {
                    None
                } else {
                    built.filters@[f]
                }),
            plan.join_count() == joined.join_count(),
            plan.leaf_count() == joined.leaf_count(),
            plan.scans() == joined.scans(),
            plan.join_conditions() == joined.join_conditions(),
            plan.filter_conjuncts().add(done.pending_filters()) == joined.filter_conjuncts().add(
                built.pending_filters(),
            ),
        ensures
            ready.builds(plan),
    {
        assert(built.filters.len() <= usize::MAX);
        assert forall|f: int| 0 <= f < done.filters@.len() implies done.filters@[f].is_none() by {
            if built.filters@[f].is_some() {
                assert(built.filter_present((f as usize) as int));
                assert(members(ids).contains(f as usize));
            }
        }
        done.lemma_nothing_pending();
        let n = ready.base_relations@.len();
        let left = built.base_relations@.len();
        super::accounting::lemma_total_zero(bases_held(built.base_relations@), left);
        super::accounting::lemma_total_ones(bases_held(ready.base_relations@), n);
        super::accounting::lemma_gathered_empty(
            scans_held(built.base_relations@, ids_below(left as int)),
            left,
        );
        assert(built.pending_joins() == done.pending_joins());
        assert(built.pending_leaves() == done.pending_leaves());
        assert(built.pending_conditions() == done.pending_conditions());
        let e = Multiset::<Expression>::empty();
        assert(plan.filter_conjuncts().add(e) =~= plan.filter_conjuncts());
        let c = Multiset::<Set<ComparisonCondition>>::empty();
        assert(joined.join_conditions().add(c) =~= joined.join_conditions());
        let o = Multiset::<LogicalOperator>::empty();
        assert(joined.scans().add(o) =~= joined.scans());
    }

    /// `plan` joins everything in the graph: it has one join more than the
    /// plans of the base relations for every relation but one, the leaves
    /// of those plans and no others, each as often as those plans have it,
    /// and every filter predicate and join
    /// condition in the graph exactly as often as the graph has it, be it
    /// in a relation's plan, as a filter or on an edge.
    pub open spec fn builds(self, plan: LogicalOperator) -> bool {
        &&& plan.join_count() + 1 == self.pending_joins() + self.n()
        &&& plan.leaf_count() == self.pending_leaves()
        &&& plan.scans() == scans_of_relations(self.base_relations@, ids_below(self.n() as int))
        &&& plan.filter_conjuncts() == self.pending_filters()
        &&& plan.join_conditions() == self.pending_conditions()
    }

    /// What a search can make of the graph: `found` has the relations and
    /// filters of `self`, its edges and maybe more edges without a
    /// condition, and only sound plans, among them one for all relations
    /// and, for every set that had a plan, the plan it had or a cheaper one.
    /// No edge is added where the search is sure to reach all relations
    /// over the edges there are.
    pub open spec fn searched(self, found: Graph) -> bool {
        &&& found.wf()
        &&& found.filters == self.filters
        &&& found.filter_owner == self.filter_owner
        &&& found.unplaced == self.unplaced
        &&& found.base_relations == self.base_relations
        &&& found.hyper_edges.edges@.len() >= self.hyper_edges.edges@.len()
        &&& forall|id: int|
            0 <= id < self.hyper_edges.edges@.len() ==> found.hyper_edges.edges@[id]
                == self.hyper_edges.edges@[id]
        &&& forall|id: int|
            self.hyper_edges.edges@.len() <= id < found.hyper_edges.edges@.len()
                ==> found.hyper_edges.present(id) && (#[trigger] found.hyper_edges.edge(
                id,
            )).filter.is_none()
        &&& forall|key: Seq<usize>| #[trigger]
            self.best_plans.contains(key) ==> found.best_plans.contains(key) && (
            found.best_plans.entry(key) == self.best_plans.entry(key) || found.best_plans.entry(
                key,
            ).cost < self.best_plans.entry(key).cost)
        &&& found.best_plans.contains(range_seq(self.n()))
        &&& self.reaches_all() ==> found.hyper_edges == self.hyper_edges
    }

    /// The filters that no join applies: those that depend on no table, and
    /// all filters if there is only one relation.
    pub open spec fn filters_for_top(self) -> Set<FilterId> {
        Set::new(
            |f: FilterId|
                f < self.filters@.len() && (self.n() == 1
                    || self.filter_owner@[f as int].is_none()),
        )
    }

    /// `plan` is `joined` under the filters that no join applies, by
    /// increasing id: `joined` itself if there are none.
    pub open spec fn is_topped(self, joined: LogicalOperator, plan: LogicalOperator) -> bool {
        let ids = canonical(self.filters_for_top());
        if ids.len() == 0 {
            plan == joined
        } else {
            filtered_shape(joined, predicates_of(self.filters@, ids), plan)
        }
    }

    /// `plan` is what the optimizer makes of the graph: the whole plan of
    /// the plan that a search has found for all relations, under the
    /// filters that no join applies.
    pub open spec fn is_plan_found(self, plan: LogicalOperator) -> bool {
        exists|found: Graph, joined: LogicalOperator|
            #![trigger self.searched(found), self.is_topped(joined, plan)]
            self.searched(found) && found.is_tree_of(
                found.best_plans.entry(range_seq(self.n())),
                joined,
            ) && self.is_topped(joined, plan)
    }

    /// The plan that joins all relations of the graph.
    ///
    /// The search is run. If it finds no plan for all relations, the
    /// conditions do not connect them: edges without a condition are added
    /// between all relations and the search is run once more, which then
    /// finds one. The plan is built from what the search has found, and the
    /// filters that no join has taken, such as constant ones, are applied
    /// on top of it.
    ///
    /// The plan holds every base relation's plan, every condition and every
    /// filter of the graph exactly once, and one join more than the base
    /// relations' plans for every relation but one.
    ///
    /// Where every filter that depends on a table is on one relation, the
    /// plan is the whole plan of a plan found for all relations: each join
    /// made here has two inputs, is a cross join if its edges give no
    /// condition and else joins on their conditions, with the estimate of
    /// its plan, and the filters that depend on no table are applied on
    /// top. Such a graph fails only if it has no relations.
    ///
    /// Where a filter is on no single relation, the join that applies it
    /// goes by the plans of the inputs as they were when the join was
    /// found. If a cheaper plan has since taken the place of an input and
    /// applies the filter itself, building the plan reports that the
    /// filter is used twice. What is left over once the plan is built is
    /// reported as well.
    pub fn try_build(self) -> (result: Result<LogicalOperator, JoinOrderError>)
        requires
            self.wf(),
        ensures
            self.n() == 0 ==> result == Err::<LogicalOperator, JoinOrderError>(
                JoinOrderError::MissingLongestPlan,
            ),
            self.n() >= 1 && self.all_placed() ==> result.is_ok(),
            result matches Ok(plan) ==> self.n() >= 1 && self.builds(plan),
            result matches Ok(plan) ==> (self.all_placed() ==> self.is_plan_found(plan)),
    {
        let ghost given = self;
        let mut graph = self;
        graph.solve()?;
        let ghost once = graph;
        let longest_set = RelationSet { relation_indices: range_ids(graph.base_relations.len()) };
        // Check if we were able to actually create a best plan for the
        // longest set. If we weren't, then there's a disjunction in the
        // relations.
        if !graph.best_plans.contains_key(&longest_set) {
            // Generate edges for each relation such that cross joins are
            // possible at every level.
            graph.connect_all();
            // Try to solve again, now with the new edges. The graph is now
            // fully connected and solvable.
            graph.solve()?;
        }
        let ghost solved = graph;
        proof {
            assert(solved.pending_conditions() == given.pending_conditions());
            if given.reaches_all() {
                let r = choose|r: RelId| #[trigger] given.reached_from(r, range_seq(given.n()));
                assert(once.best_plans.contains(range_seq(given.n())));
                assert(solved.hyper_edges == given.hyper_edges);
            }
            assert forall|key: Seq<usize>| #[trigger]
                given.best_plans.contains(key) implies solved.best_plans.contains(key) && (
            solved.best_plans.entry(key) == given.best_plans.entry(key) || solved.best_plans.entry(
                key,
            ).cost < given.best_plans.entry(key).cost) by {
                assert(once.best_plans.contains(key));
            }
        }
        let longest = match graph.best_plans.remove(&longest_set) {
            Some(plan) => plan,
            None => {
                proof {
                    if given.n() >= 1 {
                        assert(solved.best_plans.contains(longest_set@));
                    }
                }
                return Err(JoinOrderError::MissingLongestPlan);
            },
        };
        let ghost ready = graph;
        proof {
            assert(solved.entry_ok(longest));
            assert(longest.set@.len() >= 1) by {
                reveal(Graph::entry_ok);
            }
            assert(given.n() >= 1);
            lemma_range_seq(given.n());
            if given.all_placed() {
                given.lemma_ready_to_build(solved, ready, longest);
            }
        }
        let plan = graph.build_from_generated(longest)?;
        let ghost built = graph;
        let ghost joined = plan;
        proof {
            lemma_ordered_full(longest.set@, given.n() as int);
            if given.all_placed() {
                Self::lemma_all_taken(ready, built, longest);
            }
        }
        // All base relations and all edges with a condition should have
        // been used to build up the plan.
        if !graph.all_relations_taken() {
            return Err(JoinOrderError::UnusedBaseRelation);
        }
        if !graph.hyper_edges.all_non_empty_edges_removed() {
            return Err(JoinOrderError::UnusedCondition);
        }
        // But we may still have filters. Apply them to the final plan.
        let filter_ids = graph.remaining_filters();
        proof {
            assert forall|k: int| 0 <= k < filter_ids@.len() implies graph.filter_present(
                #[trigger] filter_ids@[k] as int,
            ) by {
                assert(filter_ids@.contains(filter_ids@[k]));
                assert(members(filter_ids@).contains(filter_ids@[k]));
            }
        }
        let plan = graph.apply_filters(plan, &filter_ids)?;
        proof {
            if given.all_placed() {
                solved.lemma_kept_is_same(ready, longest.set.rels());
                solved.lemma_tree_same(ready, longest, joined);
                assert(longest == solved.best_plans.entry(range_seq(given.n())));
                assert(given.searched(solved));
                given.lemma_topped(ready, built, longest, filter_ids@, joined, plan);
                assert(given.is_plan_found(plan));
            }
            assert(ready.base_relations == given.base_relations);
            assert(ready.filters == given.filters);
            assert(ready.pending_conditions() == given.pending_conditions());
            Self::lemma_all_used(ready, built, graph, filter_ids@, joined, plan);
        }
        Ok(plan)
    }
}

} // verus!
