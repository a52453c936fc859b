//! What holds of every plan that the optimizer returns, stated over what
//! the optimizer was given.

use vstd::prelude::*;
use vstd::multiset::Multiset;
use crate::expr::Expression;
use crate::logical::binder::{BindContext, TableRef};
use crate::logical::logical_join::{flipped_all, ComparisonCondition};
use crate::logical::operator::{
    filter_conjuncts_of, join_conditions_of, join_count_of, leaf_count_of, LogicalOperator,
};
use super::accounting::{
    base_conditions_held, base_filters_held, conditions_held, filters_held, gathered, joins_held,
    leaves_held, total,
};
use super::condition::{left_refs_of, right_refs_of, ExtractedFilter, ReorderableCondition};
use super::edge::{EdgeId, HyperEdge, HyperEdges};
use super::graph::{described, joined_subgraph, Graph};
use super::node::{BaseRelation, JoinNode};
use super::reconstruct::{comparisons_taken, conditions_taken, semi_among, sides_swapped};
use super::relation_set::{canonical, lemma_canonical_finite, RelId};
use super::sorted_ids::{members, range_seq};

verus! {

/// The conjuncts of the first `n` of `filters`, taken together.
pub open spec fn filters_given(filters: Seq<ExtractedFilter>, n: nat) -> Multiset<Expression>
    decreases n,
{
    if n == 0 || n > filters.len() {
        Multiset::empty()
    } else {
        filters_given(filters, (n - 1) as nat).add(filters[n - 1].filter.conjuncts())
    }
}

/// The comparisons of the first `n` of `conditions`, taken together, each
/// without regard to sides.
pub open spec fn comparisons_given(conditions: Seq<ReorderableCondition>, n: nat) -> Multiset<
    Set<ComparisonCondition>,
>
    decreases n,
{
    if n == 0 || n > conditions.len() {
        Multiset::empty()
    } else {
        comparisons_given(conditions, (n - 1) as nat).add(conditions[n - 1].comparisons())
    }
}

proof fn lemma_bases_account(bases: Seq<Option<BaseRelation>>, plans: Seq<LogicalOperator>, n: nat)
    requires
        n <= bases.len(),
        bases.len() == plans.len(),
        forall|r: int|
            0 <= r < bases.len() ==> (#[trigger] bases[r]).is_some() && bases[r].unwrap().operator
                == plans[r],
    ensures
        total(joins_held(bases), n) == join_count_of(plans, n),
        total(leaves_held(bases), n) == leaf_count_of(plans, n),
        gathered(base_filters_held(bases), n) == filter_conjuncts_of(plans, n),
        gathered(base_conditions_held(bases), n) == join_conditions_of(plans, n),
    decreases n,
{
    if n > 0 {
        lemma_bases_account(bases, plans, (n - 1) as nat);
        assert(bases[n - 1].is_some());
    }
}

proof fn lemma_filters_account(
    held: Seq<Option<ExtractedFilter>>,
    filters: Seq<ExtractedFilter>,
    n: nat,
)
    requires
        n <= held.len(),
        held.len() == filters.len(),
        forall|f: int| 0 <= f < held.len() ==> #[trigger] held[f] == Some(filters[f]),
    ensures
        gathered(filters_held(held), n) == filters_given(filters, n),
    decreases n,
{
    if n > 0 {
        lemma_filters_account(held, filters, (n - 1) as nat);
        assert(held[n - 1] == Some(filters[n - 1]));
    }
}

proof fn lemma_conditions_account(
    edges: Seq<Option<HyperEdge>>,
    conditions: Seq<ReorderableCondition>,
    n: nat,
)
    requires
        n <= edges.len(),
        edges.len() == conditions.len(),
        forall|i: int|
            0 <= i < edges.len() ==> (#[trigger] edges[i]).is_some() && edges[i].unwrap().filter
                == Some(conditions[i]),
    ensures
        gathered(conditions_held(edges), n) == comparisons_given(conditions, n),
    decreases n,
{
    if n > 0 {
        lemma_conditions_account(edges, conditions, (n - 1) as nat);
        assert(edges[n - 1].is_some());
    }
}

/// What is pending in the graph to start from is what the optimizer was
/// given: the joins, leaves, filter predicates and join conditions of the
/// plans to join, the filters, and the conditions.
pub proof fn lemma_starting_accounts(
    graph: Graph,
    base_ops: Seq<LogicalOperator>,
    conditions: Seq<ReorderableCondition>,
    filters: Seq<ExtractedFilter>,
    context: BindContext,
)
    requires
        graph.starts_from(base_ops, conditions, filters, context),
    ensures
        graph.n() == base_ops.len(),
        graph.pending_joins() == join_count_of(base_ops, base_ops.len()),
        graph.pending_leaves() == leaf_count_of(base_ops, base_ops.len()),
        graph.pending_filters() == filter_conjuncts_of(base_ops, base_ops.len()).add(
            filters_given(filters, filters.len()),
        ),
        graph.pending_conditions() == join_conditions_of(base_ops, base_ops.len()).add(
            comparisons_given(conditions, conditions.len()),
        ),
{
    lemma_bases_account(graph.base_relations@, base_ops, base_ops.len());
    lemma_filters_account(graph.filters@, filters, filters.len());
    assert forall|i: int| 0 <= i < graph.hyper_edges.edges@.len() implies (
    #[trigger] graph.hyper_edges.edges@[i]).is_some() && graph.hyper_edges.edges@[i].unwrap().filter
        == Some(conditions[i]) by {
        assert(graph.hyper_edges.present(i));
        assert(graph.hyper_edges.edge(i).filter == Some(conditions[i]));
    }
    lemma_conditions_account(graph.hyper_edges.edges@, conditions, conditions.len());
}

/// Completeness: the plan built for a graph that was made from `base_ops`
/// has the leaves of those plans and no others, and one join more than
/// they have for every plan but one. Where the plans are single operators,
/// as many as there are relations, the plan has exactly that many leaves,
/// and one join less.
pub proof fn lemma_plan_is_complete(
    graph: Graph,
    base_ops: Seq<LogicalOperator>,
    conditions: Seq<ReorderableCondition>,
    filters: Seq<ExtractedFilter>,
    context: BindContext,
    plan: LogicalOperator,
)
    requires
        graph.starts_from(base_ops, conditions, filters, context),
        graph.builds(plan),
    ensures
        plan.leaf_count() == leaf_count_of(base_ops, base_ops.len()),
        plan.join_count() + 1 == join_count_of(base_ops, base_ops.len()) + base_ops.len(),
        (forall|r: int| 0 <= r < base_ops.len() ==> (#[trigger] base_ops[r]).children().len() == 0
            && !base_ops[r].is_join()) ==> plan.leaf_count() == base_ops.len()
            && plan.join_count() + 1 == base_ops.len(),
{
    lemma_starting_accounts(graph, base_ops, conditions, filters, context);
    if forall|r: int|
        0 <= r < base_ops.len() ==> (#[trigger] base_ops[r]).children().len() == 0
            && !base_ops[r].is_join() {
        lemma_single_operators(base_ops, base_ops.len());
    }
}

/// Plans that are single operators and no joins have one leaf each and no
/// joins.
proof fn lemma_single_operators(plans: Seq<LogicalOperator>, n: nat)
    requires
        n <= plans.len(),
        forall|r: int|
            0 <= r < plans.len() ==> (#[trigger] plans[r]).children().len() == 0
                && !plans[r].is_join(),
    ensures
        leaf_count_of(plans, n) == n,
        join_count_of(plans, n) == 0,
    decreases n,
{
    if n > 0 {
        lemma_single_operators(plans, (n - 1) as nat);
        let plan = plans[n - 1];
        assert(plan.children().len() == 0 && !plan.is_join());
        assert(join_count_of(plan.children(), 0) == 0);
        assert(plan.join_count() == 0);
        assert(plan.leaf_count() == 1);
    }
}

/// Single use: the plan built for a graph that was made from `base_ops`,
/// `conditions` and `filters` filters by the predicates of the plans
/// joined and by the conjuncts of the filters, and joins on the conditions
/// of the plans joined and on the comparisons of the conditions, each
/// exactly as often as it was given. Nothing is lost and nothing is used
/// twice.
pub proof fn lemma_everything_used_once(
    graph: Graph,
    base_ops: Seq<LogicalOperator>,
    conditions: Seq<ReorderableCondition>,
    filters: Seq<ExtractedFilter>,
    context: BindContext,
    plan: LogicalOperator,
)
    requires
        graph.starts_from(base_ops, conditions, filters, context),
        graph.builds(plan),
    ensures
        plan.filter_conjuncts() == filter_conjuncts_of(base_ops, base_ops.len()).add(
            filters_given(filters, filters.len()),
        ),
        plan.join_conditions() == join_conditions_of(base_ops, base_ops.len()).add(
            comparisons_given(conditions, conditions.len()),
        ),
{
    lemma_starting_accounts(graph, base_ops, conditions, filters, context);
}

/// Monotonic memoization: however far the search has gone on, a set that
/// had a plan of some cost has that same plan or one that costs less.
pub proof fn lemma_memo_is_monotonic(before: Graph, later: Graph, key: Seq<usize>)
    requires
        before.advances_to(later),
        before.best_plans.contains(key),
    ensures
        later.best_plans.contains(key),
        later.best_plans.entry(key) != before.best_plans.entry(key) ==> later.best_plans.entry(
            key,
        ).cost < before.best_plans.entry(key).cost,
{
}

/// Edge `id` is in the graph and is the edge of a semi join.
pub open spec fn is_semi_edge(edges: HyperEdges, id: EdgeId) -> bool {
    edges.edge(id as int).filter.is_some() && edges.edge(id as int).filter.unwrap().spec_is_semi()
}

/// The tables on the left side of the condition of edge `id`: for a semi
/// join those of the relation whose rows the join returns.
pub open spec fn left_tables_of(edges: HyperEdges, id: EdgeId) -> Set<TableRef> {
    edges.edge(id as int).filter.unwrap().left_table_refs()
}

/// Where the left tables of every semi join among the first `n` edges are
/// in the output of one input and not all in that of the other, the
/// inputs have changed sides after those edges exactly if that input is
/// the right one and there is a semi join among the edges.
proof fn lemma_sides_settle(
    edges: HyperEdges,
    ids: Seq<EdgeId>,
    left: Set<TableRef>,
    right: Set<TableRef>,
    on_right: bool,
    n: nat,
)
    requires
        n <= ids.len(),
        forall|k: int|
            0 <= k < n && is_semi_edge(edges, #[trigger] ids[k]) ==> left_tables_of(
                edges,
                ids[k],
            ).subset_of(
                if on_right {
                    right
                } else {
                    left
                },
            ) && !left_tables_of(edges, ids[k]).subset_of(
                if on_right {
                    left
                } else {
                    right
                },
            ),
    ensures
        sides_swapped(edges, ids, left, right, n) == (on_right && semi_among(edges, ids, n)),
    decreases n,
{
    if n > 0 {
        lemma_sides_settle(edges, ids, left, right, on_right, (n - 1) as nat);
        let id = ids[n - 1];
        if is_semi_edge(edges, id) {
            assert(left_tables_of(edges, id).subset_of(
                if on_right {
                    right
                } else {
                    left
                },
            ));
        }
    }
}

/// Semi-join side preservation: where an edge of a join is the edge of a
/// semi join, and the left tables of every such edge, those of the relation
/// whose rows the join returns, are in the output of one input of the join
/// and not all in that of the other, that input is on the left in the plan,
/// whichever of the two inputs it is and whatever their sizes.
pub proof fn lemma_semi_join_keeps_sides(graph: Graph, node: JoinNode, on_right: bool)
    requires
        semi_among(graph.hyper_edges, node.edges@, node.edges@.len()),
        forall|k: int|
            0 <= k < node.edges@.len() && is_semi_edge(graph.hyper_edges, #[trigger] node.edges@[k])
                ==> left_tables_of(graph.hyper_edges, node.edges@[k]).subset_of(
                members(
                    graph.best_plans.entry(
                        if on_right {
                            node.right@
                        } else {
                            node.left@
                        },
                    ).output_refs@,
                ),
            ) && !left_tables_of(graph.hyper_edges, node.edges@[k]).subset_of(
                members(
                    graph.best_plans.entry(
                        if on_right {
                            node.left@
                        } else {
                            node.right@
                        },
                    ).output_refs@,
                ),
            ),
    ensures
        graph.left_input(node) == graph.best_plans.entry(
            if on_right {
                node.right@
            } else {
                node.left@
            },
        ).set@,
        graph.right_input(node) == graph.best_plans.entry(
            if on_right {
                node.left@
            } else {
                node.right@
            },
        ).set@,
{
    lemma_sides_settle(
        graph.hyper_edges,
        node.edges@,
        members(graph.best_plans.entry(node.left@).output_refs@),
        members(graph.best_plans.entry(node.right@).output_refs@),
        on_right,
        node.edges@.len(),
    );
}

/// Semi-join side preservation, by relations: let every semi join among the
/// edges of a join return rows of relation `a`, in that the left tables of
/// its condition are tables of `a`, and let no table be in the output of
/// two relations. Then the input of the join that holds `a` is on the left
/// in the plan, whatever the relations' ids.
pub proof fn lemma_semi_join_side_of_relation(
    graph: Graph,
    node: JoinNode,
    a: RelId,
    on_right: bool,
)
    requires
        graph.entry_ok(graph.best_plans.entry(node.left@)),
        graph.entry_ok(graph.best_plans.entry(node.right@)),
        graph.best_plans.entry(node.left@).set.rels().disjoint(
            graph.best_plans.entry(node.right@).set.rels(),
        ),
        graph.best_plans.entry(
            if on_right {
                node.right@
            } else {
                node.left@
            },
        ).set.rels().contains(a),
        forall|r: RelId, s: RelId, t: TableRef|
            r != s
                ==> !(#[trigger] graph.base_outputs(r, t) && #[trigger] graph.base_outputs(s, t)),
        semi_among(graph.hyper_edges, node.edges@, node.edges@.len()),
        forall|k: int|
            0 <= k < node.edges@.len() && is_semi_edge(graph.hyper_edges, #[trigger] node.edges@[k])
                ==> (exists|t: TableRef|
                    left_tables_of(graph.hyper_edges, node.edges@[k]).contains(t))
                && forall|t: TableRef|
                left_tables_of(graph.hyper_edges, node.edges@[k]).contains(t)
                    ==> graph.base_outputs(a, t),
    ensures
        graph.left_input(node) == graph.best_plans.entry(
            if on_right {
                node.right@
            } else {
                node.left@
            },
        ).set@,
        members(graph.left_input(node)).contains(a),
{
    reveal(Graph::entry_ok);
    let target = graph.best_plans.entry(
        if on_right {
            node.right@
        } else {
            node.left@
        },
    );
    let other = graph.best_plans.entry(
        if on_right {
            node.left@
        } else {
            node.right@
        },
    );
    assert forall|k: int|
        0 <= k < node.edges@.len() && is_semi_edge(
            graph.hyper_edges,
            #[trigger] node.edges@[k],
        ) implies left_tables_of(graph.hyper_edges, node.edges@[k]).subset_of(
        members(target.output_refs@),
    ) && !left_tables_of(graph.hyper_edges, node.edges@[k]).subset_of(
        members(other.output_refs@),
    ) by {
        let tables = left_tables_of(graph.hyper_edges, node.edges@[k]);
        assert forall|t: TableRef| tables.contains(t) implies members(
            target.output_refs@,
        ).contains(t) by {
            assert(graph.base_outputs(a, t));
            assert(graph.tables_of(target.set.rels()).contains(t));
        }
        let t = choose|t: TableRef| tables.contains(t);
        assert(graph.base_outputs(a, t));
        if members(other.output_refs@).contains(t) {
            assert(graph.tables_of(other.set.rels()).contains(t));
            let r = choose|r: RelId|
                other.set.rels().contains(r) && #[trigger] graph.base_outputs(r, t);
            assert(r != a);
        }
    }
    lemma_semi_join_keeps_sides(graph, node, on_right);
}

/// The plan for two relations: its estimate is that of joining the two
/// relations, each with all its rows, on the edges of the plan, with the
/// filters that fit each of the two applied, and its cost is its estimated
/// cardinality.
pub proof fn lemma_pair_estimate(graph: Graph, key: Seq<RelId>)
    requires
        graph.wf(),
        graph.best_plans.contains(key),
        key.len() == 2,
    ensures
        ({
            let plan = graph.best_plans.entry(key);
            &&& plan.left@.len() == 1
            &&& plan.right@.len() == 1
            &&& plan.subgraph == joined_subgraph(
                graph.base_subgraph(plan.left@[0] as int),
                graph.base_subgraph(plan.right@[0] as int),
                described(graph.hyper_edges, plan.edges@),
                graph.fitting(graph.best_plans.entry(plan.left@)).len() + graph.fitting(
                    graph.best_plans.entry(plan.right@),
                ).len(),
            )
            &&& plan.cost == plan.subgraph.cardinality()
        }),
{
    let plan = graph.best_plans.entry(key);
    assert(graph.entry_ok(plan) && graph.worked_out(plan));
    assert(plan.left@.len() >= 1 && plan.right@.len() >= 1 && graph.best_plans.contains(plan.left@)
        && graph.best_plans.contains(plan.right@)) by {
        reveal(Graph::entry_ok);
    }
    let (left, right) = choose|left: JoinNode, right: JoinNode|
        #![trigger graph.joins_up(plan, left, right)]
        graph.joins_up(plan, left, right) && left.set@.len() < plan.set@.len() && right.set@.len()
            < plan.set@.len() && graph.worked_out(left) && graph.worked_out(right);
    assert(graph.joins_up(plan, left, right));
    let l = graph.best_plans.entry(plan.left@);
    let r = graph.best_plans.entry(plan.right@);
    assert(graph.entry_ok(l) && graph.entry_ok(r));
    assert(graph.fitting(left) =~= graph.fitting(l) && graph.fitting(right) =~= graph.fitting(
        r,
    )) by {
        reveal(Graph::entry_ok);
        super::sorted_ids::lemma_members_empty(left.used.filters@);
        super::sorted_ids::lemma_members_empty(right.used.filters@);
        super::sorted_ids::lemma_members_empty(l.used.filters@);
        super::sorted_ids::lemma_members_empty(r.used.filters@);
        assert(left.set@ =~= l.set@);
        assert(right.set@ =~= r.set@);
    }
}

/// No plan joins what no edge joins: the two inputs of every plan of a join
/// in the memo are joined by an edge of the graph.
pub proof fn lemma_joined_by_an_edge(graph: Graph, key: Seq<RelId>)
    requires
        graph.wf(),
        graph.best_plans.contains(key),
        key.len() >= 2,
    ensures
        graph.hyper_edges.connected(
            graph.best_plans.entry(key).left.rels(),
            graph.best_plans.entry(key).right.rels(),
        ),
{
    reveal(Graph::entry_ok);
    let plan = graph.best_plans.entry(key);
    assert(graph.entry_ok(plan));
    assert(graph.hyper_edges.joins_at(plan.edges@[0] as int, plan.left.rels(), plan.right.rels()));
}

/// Every join in the whole plan `plan` of `node` is a cross join of two
/// inputs.
pub open spec fn cross_joined(graph: Graph, node: JoinNode, plan: LogicalOperator) -> bool
    decreases node.set@.len(),
{
    node.set@.len() >= 2 ==> {
        &&& plan is CrossJoin
        &&& plan.children().len() == 2
        &&& graph.left_node(node).set@.len() >= 2 ==> graph.left_node(node).set@.len()
            < node.set@.len() && cross_joined(graph, graph.left_node(node), plan.children()[0])
        &&& graph.right_node(node).set@.len() >= 2 ==> graph.right_node(node).set@.len()
            < node.set@.len() && cross_joined(graph, graph.right_node(node), plan.children()[1])
    }
}

/// Edges without a condition give a join nothing to join on.
proof fn lemma_nothing_taken(
    edges: HyperEdges,
    ids: Seq<EdgeId>,
    right_refs: Set<TableRef>,
    n: nat,
)
    requires
        n <= ids.len(),
        forall|k: int| 0 <= k < n ==> edges.edge(#[trigger] ids[k] as int).filter.is_none(),
    ensures
        conditions_taken(edges, ids, right_refs, n).len() == 0,
    decreases n,
{
    if n > 0 {
        lemma_nothing_taken(edges, ids, right_refs, (n - 1) as nat);
        assert(edges.edge(ids[n - 1] as int).filter.is_none());
    }
}

/// Where no edge has a condition, every join of a whole plan is a cross
/// join.
pub proof fn lemma_cross_joins_without_conditions(
    graph: Graph,
    node: JoinNode,
    plan: LogicalOperator,
)
    requires
        graph.all_placed(),
        graph.entry_ok(node),
        graph.subtree_ok(node.set.rels()),
        graph.is_tree_of(node, plan),
        forall|id: int|
            graph.hyper_edges.present(id) ==> (#[trigger] graph.hyper_edges.edge(
                id,
            )).filter.is_none(),
    ensures
        cross_joined(graph, node, plan),
    decreases node.set@.len(),
{
    if node.set@.len() >= 2 {
        graph.lemma_join_plan_same(graph, node, plan);
        assert forall|k: int| 0 <= k < node.edges@.len() implies graph.hyper_edges.edge(
            #[trigger] node.edges@[k] as int,
        ).filter.is_none() by {
            reveal(Graph::entry_ok);
            assert(graph.hyper_edges.joins_at(
                node.edges@[k] as int,
                node.left.rels(),
                node.right.rels(),
            ));
        }
        lemma_nothing_taken(
            graph.hyper_edges,
            node.edges@,
            members(graph.second_input(node).output_refs@),
            node.edges@.len(),
        );
        assert(graph.conditions_joined_on(node).len() == 0);
        let left = graph.left_node(node);
        let right = graph.right_node(node);
        if left.set@.len() >= 2 {
            assert(graph.subtree_ok(left.set.rels())) by {
                assert forall|key: Seq<usize>| #[trigger]
                    graph.best_plans.contains(key) && members(key).subset_of(
                        left.set.rels(),
                    ) implies graph.best_plans.entry(key).set@ == key && graph.entry_ok(
                    graph.best_plans.entry(key),
                ) by {
                    assert(members(key).subset_of(node.set.rels()));
                }
            }
            lemma_cross_joins_without_conditions(graph, left, plan.children()[0]);
        }
        if right.set@.len() >= 2 {
            assert(graph.subtree_ok(right.set.rels())) by {
                assert forall|key: Seq<usize>| #[trigger]
                    graph.best_plans.contains(key) && members(key).subset_of(
                        right.set.rels(),
                    ) implies graph.best_plans.entry(key).set@ == key && graph.entry_ok(
                    graph.best_plans.entry(key),
                ) by {
                    assert(members(key).subset_of(node.set.rels()));
                }
            }
            lemma_cross_joins_without_conditions(graph, right, plan.children()[1]);
        }
    }
}

/// Disconnected-graph fallback: from a graph without conditions and without
/// filters the optimizer makes a plan in which every join is a cross join
/// of two inputs.
pub proof fn lemma_cross_product_plan(graph: Graph, plan: LogicalOperator)
    requires
        graph.wf(),
        graph.filters@.len() == 0,
        forall|id: int|
            graph.hyper_edges.present(id) ==> (#[trigger] graph.hyper_edges.edge(
                id,
            )).filter.is_none(),
        graph.is_plan_found(plan),
    ensures
        exists|found: Graph| #[trigger]
            graph.searched(found) && cross_joined(
                found,
                found.best_plans.entry(range_seq(graph.n())),
                plan,
            ),
{
    let (found, joined) = choose|found: Graph, joined: LogicalOperator|
        #![trigger graph.searched(found), graph.is_topped(joined, plan)]
        graph.searched(found) && found.is_tree_of(
            found.best_plans.entry(range_seq(graph.n())),
            joined,
        ) && graph.is_topped(joined, plan);
    let ids = canonical(graph.filters_for_top());
    lemma_canonical_finite(graph.filters_for_top(), 0);
    if ids.len() > 0 {
        assert(ids.contains(ids[0]));
        assert(members(ids).contains(ids[0]));
    }
    assert(plan == joined);
    let top = found.best_plans.entry(range_seq(graph.n()));
    assert(found.entry_ok(top));
    assert(found.all_placed()) by {
        if found.unplaced@.len() > 0 {
            let f = found.unplaced@[0];
            assert(found.unplaced@.contains(f));
            assert(members(found.unplaced@).contains(f));
            let held = found.filters@[f as int];
            assert(f < found.filters@.len());
        }
    }
    assert forall|id: int| found.hyper_edges.present(id) implies (#[trigger] found.hyper_edges.edge(
        id,
    )).filter.is_none() by {
        if id < graph.hyper_edges.edges@.len() {
            assert(found.hyper_edges.edges@[id] == graph.hyper_edges.edges@[id]);
            assert(graph.hyper_edges.present(id));
            assert(graph.hyper_edges.edge(id).filter.is_none());
        } else {
            assert(found.hyper_edges.edge(id).filter.is_none());
        }
    }
    lemma_cross_joins_without_conditions(found, top, plan);
}

/// Every one of `conditions` compares an expression over tables of `left`
/// with an expression over tables of `right`.
pub open spec fn faces(
    conditions: Seq<ComparisonCondition>,
    left: Set<TableRef>,
    right: Set<TableRef>,
) -> bool {
    forall|i: int|
        0 <= i < conditions.len() ==> (#[trigger] conditions[i]).left.table_refs().subset_of(left)
            && conditions[i].right.table_refs().subset_of(right)
}

/// The condition of `edge`, if it has one, runs between two inputs of a
/// join with the tables `first` and `second`: the edge lists the tables of
/// its condition, and either the left side of the condition is over `first`
/// and not all over `second`, and its right side over `second`, or the
/// left side is over `second` and the right side over `first`.
pub open spec fn runs_between(
    edge: HyperEdge,
    first: Set<TableRef>,
    second: Set<TableRef>,
) -> bool {
    edge.filter matches Some(condition) ==> members(edge.left_refs@)
        == condition.left_table_refs() && ((condition.left_table_refs().subset_of(first)
        && !condition.left_table_refs().subset_of(second)
        && condition.right_table_refs().subset_of(second)) || (
    condition.left_table_refs().subset_of(second) && condition.right_table_refs().subset_of(first)))
}

/// The tables of each of the first `n` conditions are among the tables of
/// all of them.
proof fn lemma_refs_within(conditions: Seq<ComparisonCondition>, n: nat, i: int)
    requires
        0 <= i < n <= conditions.len(),
    ensures
        conditions[i].left.table_refs().subset_of(left_refs_of(conditions, n)),
        conditions[i].right.table_refs().subset_of(right_refs_of(conditions, n)),
    decreases n,
{
    if i < n - 1 {
        lemma_refs_within(conditions, (n - 1) as nat, i);
    }
}

/// The comparisons of a condition are over the tables of the condition.
proof fn lemma_comparisons_within(condition: ReorderableCondition)
    ensures
        faces(
            condition.comparison_seq(),
            condition.left_table_refs(),
            condition.right_table_refs(),
        ),
{
    let all = condition.comparison_seq();
    assert forall|i: int| 0 <= i < all.len() implies (
    #[trigger] all[i]).left.table_refs().subset_of(condition.left_table_refs())
        && all[i].right.table_refs().subset_of(condition.right_table_refs()) by {
        match condition {
            ReorderableCondition::Inner { condition: only } => {},
            ReorderableCondition::Semi { conditions } => {
                lemma_refs_within(conditions@, conditions@.len(), i);
            },
        }
    }
}

/// What a join takes from edges that run between its inputs has its left
/// sides over the first input and its right sides over the second.
proof fn lemma_taken_faces(
    edges: HyperEdges,
    ids: Seq<EdgeId>,
    first: Set<TableRef>,
    second: Set<TableRef>,
    n: nat,
)
    requires
        n <= ids.len(),
        forall|k: int|
            0 <= k < n ==> runs_between(edges.edge(#[trigger] ids[k] as int), first, second),
    ensures
        faces(conditions_taken(edges, ids, second, n), first, second),
    decreases n,
{
    if n > 0 {
        lemma_taken_faces(edges, ids, first, second, (n - 1) as nat);
        let before = conditions_taken(edges, ids, second, (n - 1) as nat);
        let edge = edges.edge(ids[n - 1] as int);
        let own = comparisons_taken(edge, second);
        let all = conditions_taken(edges, ids, second, n);
        assert(all == before + own);
        assert(runs_between(edge, first, second));
        assert(faces(own, first, second)) by {
            if edge.filter.is_some() {
                let condition = edge.filter.unwrap();
                lemma_comparisons_within(condition);
                let given = condition.comparison_seq();
                assert forall|i: int| 0 <= i < own.len() implies (
                #[trigger] own[i]).left.table_refs().subset_of(first)
                    && own[i].right.table_refs().subset_of(second) by {
                    assert(given[i].left.table_refs().subset_of(condition.left_table_refs()));
                    assert(given[i].right.table_refs().subset_of(condition.right_table_refs()));
                    if members(edge.left_refs@).subset_of(second) {
                        assert(own[i] == given[i].flipped());
                    } else {
                        assert(own[i] == given[i]);
                    }
                }
            }
        }
        assert forall|i: int| 0 <= i < all.len() implies (
        #[trigger] all[i]).left.table_refs().subset_of(first)
            && all[i].right.table_refs().subset_of(second) by {
            if i < before.len() {
                assert(all[i] == before[i]);
            } else {
                assert(all[i] == own[i - before.len()]);
            }
        }
    }
}

/// The conditions of a join face its inputs: where the conditions of the
/// edges of a join run between its two inputs, every condition that the
/// plan joins on has its left side over the tables of the input on the
/// left and its right side over the tables of the input on the right,
/// whichever sides the inputs end up on.
pub proof fn lemma_conditions_face_inputs(graph: Graph, node: JoinNode)
    requires
        forall|k: int|
            0 <= k < node.edges@.len() ==> runs_between(
                graph.hyper_edges.edge(#[trigger] node.edges@[k] as int),
                members(graph.first_input(node).output_refs@),
                members(graph.second_input(node).output_refs@),
            ),
    ensures
        faces(
            graph.conditions_joined_on(node),
            members(graph.left_node(node).output_refs@),
            members(graph.right_node(node).output_refs@),
        ),
{
    let first = members(graph.first_input(node).output_refs@);
    let second = members(graph.second_input(node).output_refs@);
    lemma_taken_faces(graph.hyper_edges, node.edges@, first, second, node.edges@.len());
    let taken = conditions_taken(graph.hyper_edges, node.edges@, second, node.edges@.len());
    if graph.build_swapped(node) {
        let changed = flipped_all(taken);
        assert forall|i: int| 0 <= i < changed.len() implies (
        #[trigger] changed[i]).left.table_refs().subset_of(second)
            && changed[i].right.table_refs().subset_of(first) by {
            assert(changed[i] == taken[i].flipped());
        }
    }
}

/// Filter consumption: where every filter that depends on a table is on one
/// relation, a join with a single relation for an input applies to that
/// input the filters on the relation, all of them, directly above the
/// relation's own plan. A join applies no filter to an input that is itself
/// a join.
pub proof fn lemma_filters_above_their_relation(
    graph: Graph,
    node: JoinNode,
    plan: LogicalOperator,
)
    requires
        graph.all_placed(),
        graph.entry_ok(node),
        node.set@.len() >= 2,
        graph.subtree_ok(node.set.rels()),
        graph.is_join_plan(node, plan),
    ensures
        members(graph.filters_on_left(node)) == graph.pending_for(graph.left_input(node)),
        members(graph.filters_on_right(node)) == graph.pending_for(graph.right_input(node)),
        graph.is_filtered_input(
            graph.left_input(node),
            graph.filters_on_left(node),
            plan.children()[0],
        ),
        graph.is_filtered_input(
            graph.right_input(node),
            graph.filters_on_right(node),
            plan.children()[1],
        ),
{
    reveal(Graph::entry_ok);
    assert(members(node.left@).subset_of(node.set.rels()));
    assert(members(node.right@).subset_of(node.set.rels()));
    assert(graph.best_plans.contains(node.left@) && graph.best_plans.contains(node.right@));
    assert(graph.best_plans.entry(node.left@).set@ == node.left@);
    assert(graph.best_plans.entry(node.right@).set@ == node.right@);
}

} // verus!
