//! Building the plan from the memo once the search is done.

use vstd::prelude::*;
use vstd::multiset::Multiset;
use crate::expr::{
    conjuncts_of, lemma_conjuncts_of_push, ConjunctionExpr, ConjunctionOperator, Expression,
};
use crate::logical::binder::TableRef;
use crate::logical::logical_filter::LogicalFilter;
use crate::logical::logical_join::{
    conditions_of, flip_all, flipped_all, lemma_conditions_of_concat, ComparisonCondition,
    JoinType, LogicalArbitraryJoin, LogicalComparisonJoin, LogicalCrossJoin,
};
use crate::logical::operator::{
    lemma_one_child, lemma_two_children, LocationRequirement, LogicalOperator, Node,
};
use crate::statistics::value::StatisticsValue;
use super::accounting::{
    base_conditions_held, base_filters_held, bases_held, conditions_held, filters_held, gathered,
    joins_held, leaves_held, lemma_gathered_without, scans_held, scans_of_relations, total,
};
use super::condition::ExtractedFilter;
use super::edge::{EdgeId, HyperEdge, HyperEdges};
use super::error::JoinOrderError;
use super::graph::Graph;
use super::node::{BaseRelation, FilterId, JoinNode};
use super::relation_set::RelId;
use super::sorted_ids::{ids_below, is_ordered, is_subset_ids, lemma_ordered_unique, members};

verus! {

/// `predicate` is the AND of exactly `parts`, in their order.
pub open spec fn is_and_of(predicate: Expression, parts: Seq<Expression>) -> bool {
    predicate matches Expression::Conjunction(conjunction) && conjunction.op
        == ConjunctionOperator::And && conjunction.expressions@ == parts
}

/// What applying the filters `filters` makes of a plan: a filter's
/// predicate takes them in, in front of its own, as does the condition of
/// an inner join on an arbitrary predicate; a cross join becomes such a
/// join on the filters; any other plan gets a filter on top. The result
/// has no estimated cardinality.
pub open spec fn filtered_shape(
    input: LogicalOperator,
    filters: Seq<Expression>,
    plan: LogicalOperator,
) -> bool {
    &&& plan.spec_estimated_cardinality() == StatisticsValue::<usize>::Unknown
    &&& match input {
        LogicalOperator::Filter(before) => plan matches LogicalOperator::Filter(after)
            && after.children == before.children && after.location == before.location
            && is_and_of(after.node.filter, filters.push(before.node.filter)),
        LogicalOperator::ArbitraryJoin(before) => if before.node.join_type == JoinType::Inner {
            plan matches LogicalOperator::ArbitraryJoin(after) && after.children == before.children
                && after.location == before.location && after.node.join_type == JoinType::Inner
                && is_and_of(after.node.condition, filters.push(before.node.condition))
        } else {
            plan matches LogicalOperator::Filter(after) && after.children@ == seq![input]
                && after.location == LocationRequirement::Any && is_and_of(
                after.node.filter,
                filters,
            )
        },
        LogicalOperator::CrossJoin(before) => plan matches LogicalOperator::ArbitraryJoin(after)
            && after.children == before.children && after.location == before.location
            && after.node.join_type == JoinType::Inner && is_and_of(after.node.condition, filters),
        _ => plan matches LogicalOperator::Filter(after) && after.children@ == seq![input]
            && after.location == LocationRequirement::Any && is_and_of(after.node.filter, filters),
    }
}

/// The predicates of the filters `ids`, in the order of `ids`.
pub open spec fn predicates_of(filters: Seq<Option<ExtractedFilter>>, ids: Seq<FilterId>) -> Seq<
    Expression,
> {
    Seq::new(ids.len(), |k: int| filters[ids[k] as int].unwrap().filter)
}

impl Graph {
    /// Filter `f` is in the graph.
    pub open spec fn filter_present(self, f: int) -> bool {
        0 <= f < self.filters@.len() && self.filters@[f].is_some()
    }

    /// Number of joins in the plans of the base relations still in the graph.
    pub open spec fn pending_joins(self) -> nat {
        total(joins_held(self.base_relations@), self.base_relations@.len())
    }

    /// Number of leaves in the plans of the base relations still in the graph.
    pub open spec fn pending_leaves(self) -> nat {
        total(leaves_held(self.base_relations@), self.base_relations@.len())
    }

    /// Number of base relations still in the graph.
    pub open spec fn pending_bases(self) -> nat {
        total(bases_held(self.base_relations@), self.base_relations@.len())
    }

    /// The scans in the plans of the base relations still in the graph.
    pub open spec fn pending_scans(self) -> Multiset<LogicalOperator> {
        scans_of_relations(self.base_relations@, ids_below(self.base_relations@.len() as int))
    }

    /// Nothing is lost and nothing repeated between this graph and the
    /// graph `after` with the plan `plan` built from it: the plan and what
    /// is pending in `after` hold every leaf, filter predicate and join
    /// condition that was pending here, as often as it was, and the plan
    /// has one join more for every base relation taken but one.
    pub open spec fn conserves(self, after: Graph, plan: LogicalOperator) -> bool {
        &&& plan.join_count() + after.pending_joins() + after.pending_bases() + 1
            == self.pending_joins() + self.pending_bases()
        &&& plan.leaf_count() + after.pending_leaves() == self.pending_leaves()
        &&& plan.scans().add(after.pending_scans()) == self.pending_scans()
        &&& plan.filter_conjuncts().add(after.pending_filters()) == self.pending_filters()
        &&& plan.join_conditions().add(after.pending_conditions()) == self.pending_conditions()
    }

    /// Taking the plan of a base relation out of the graph loses nothing.
    proof fn lemma_base_taken(self, later: Graph, r: RelId)
        requires
            self.base_held(r as int),
            later.hyper_edges == self.hyper_edges,
            later.filters == self.filters,
            later.base_relations@ == self.base_relations@.update(r as int, None),
        ensures
            self.conserves(later, self.base_relations@[r as int].unwrap().operator),
    {
        let n = self.base_relations@.len();
        let op = self.base_relations@[r as int].unwrap().operator;
        let all = ids_below(n as int);
        assert(self.base_relations.len() <= usize::MAX);
        assert(joins_held(later.base_relations@) =~= joins_held(self.base_relations@).update(
            r as int,
            0,
        ));
        assert(leaves_held(later.base_relations@) =~= leaves_held(self.base_relations@).update(
            r as int,
            0,
        ));
        assert(bases_held(later.base_relations@) =~= bases_held(self.base_relations@).update(
            r as int,
            0,
        ));
        assert(scans_held(later.base_relations@, all) =~= scans_held(
            self.base_relations@,
            all,
        ).update(r as int, Multiset::empty()));
        assert(base_filters_held(later.base_relations@) =~= base_filters_held(
            self.base_relations@,
        ).update(r as int, Multiset::empty()));
        assert(base_conditions_held(later.base_relations@) =~= base_conditions_held(
            self.base_relations@,
        ).update(r as int, Multiset::empty()));
        super::accounting::lemma_total_without(joins_held(self.base_relations@), r as int, n);
        super::accounting::lemma_total_without(leaves_held(self.base_relations@), r as int, n);
        super::accounting::lemma_total_without(bases_held(self.base_relations@), r as int, n);
        lemma_gathered_without(scans_held(self.base_relations@, all), r as int, n);
        lemma_gathered_without(base_filters_held(self.base_relations@), r as int, n);
        lemma_gathered_without(base_conditions_held(self.base_relations@), r as int, n);
        let f = gathered(filters_held(self.filters@), self.filters@.len());
        let bf = gathered(base_filters_held(later.base_relations@), n);
        assert(op.filter_conjuncts().add(bf.add(f)) =~= bf.add(op.filter_conjuncts()).add(f));
        let c = gathered(
            conditions_held(self.hyper_edges.edges@),
            self.hyper_edges.edges@.len(),
        );
        let bc = gathered(base_conditions_held(later.base_relations@), n);
        assert(op.join_conditions().add(bc.add(c)) =~= bc.add(op.join_conditions()).add(c));
        assert(op.scans().add(later.pending_scans()) =~= self.pending_scans());
    }

    /// Joining two plans built one after the other, each under filters
    /// taken from the graph, on conditions taken from the graph loses
    /// nothing.
    proof fn lemma_join_conserves(
        self,
        split: Graph,
        first: Graph,
        second: Graph,
        third: Graph,
        done: Graph,
        own: Multiset<Set<ComparisonCondition>>,
        a_plan: LogicalOperator,
        b_plan: LogicalOperator,
        a_filtered: LogicalOperator,
        b_filtered: LogicalOperator,
        plan: LogicalOperator,
    )
        requires
            split.base_relations == self.base_relations,
            split.filters == self.filters,
            own.add(split.pending_conditions()) == self.pending_conditions(),
            split.conserves(first, a_plan),
            first.conserves(second, b_plan),
            third.base_relations == second.base_relations,
            third.hyper_edges == second.hyper_edges,
            done.base_relations == third.base_relations,
            done.hyper_edges == third.hyper_edges,
            a_filtered.join_count() == a_plan.join_count(),
            a_filtered.leaf_count() == a_plan.leaf_count(),
            a_filtered.scans() == a_plan.scans(),
            a_filtered.join_conditions() == a_plan.join_conditions(),
            a_filtered.filter_conjuncts().add(third.pending_filters())
                == a_plan.filter_conjuncts().add(second.pending_filters()),
            b_filtered.join_count() == b_plan.join_count(),
            b_filtered.leaf_count() == b_plan.leaf_count(),
            b_filtered.scans() == b_plan.scans(),
            b_filtered.join_conditions() == b_plan.join_conditions(),
            b_filtered.filter_conjuncts().add(done.pending_filters())
                == b_plan.filter_conjuncts().add(third.pending_filters()),
            plan.join_count() == a_filtered.join_count() + b_filtered.join_count() + 1,
            plan.leaf_count() == a_filtered.leaf_count() + b_filtered.leaf_count(),
            plan.scans() == a_filtered.scans().add(b_filtered.scans()) || plan.scans()
                == b_filtered.scans().add(a_filtered.scans()),
            plan.filter_conjuncts() == a_filtered.filter_conjuncts().add(
                b_filtered.filter_conjuncts(),
            ) || plan.filter_conjuncts() == b_filtered.filter_conjuncts().add(
                a_filtered.filter_conjuncts(),
            ),
            plan.join_conditions() == own.add(a_filtered.join_conditions()).add(
                b_filtered.join_conditions(),
            ) || plan.join_conditions() == own.add(b_filtered.join_conditions()).add(
                a_filtered.join_conditions(),
            ),
        ensures
            self.conserves(done, plan),
    {
        let af = a_filtered.filter_conjuncts();
        let bf = b_filtered.filter_conjuncts();
        let ac = a_filtered.join_conditions();
        let bc = b_filtered.join_conditions();
        assert(plan.filter_conjuncts() =~= af.add(bf));
        assert(plan.join_conditions() =~= own.add(ac).add(bc));
        assert(plan.scans() =~= a_plan.scans().add(b_plan.scans()));
        assert(self.pending_filters() == split.pending_filters());
        lemma_filters_add_up(
            self.pending_filters(),
            first.pending_filters(),
            second.pending_filters(),
            third.pending_filters(),
            done.pending_filters(),
            a_plan.filter_conjuncts(),
            b_plan.filter_conjuncts(),
            af,
            bf,
        );
        lemma_conditions_add_up(
            self.pending_conditions(),
            split.pending_conditions(),
            first.pending_conditions(),
            second.pending_conditions(),
            own,
            ac,
            bc,
        );
        assert(done.pending_conditions() == second.pending_conditions());
        assert(a_plan.scans().add(b_plan.scans()).add(second.pending_scans())
            =~= a_plan.scans().add(b_plan.scans().add(second.pending_scans())));
    }

    /// The filter predicates still in the graph: those in the plans of its
    /// base relations and its filters.
    pub open spec fn pending_filters(self) -> Multiset<Expression> {
        gathered(base_filters_held(self.base_relations@), self.base_relations@.len()).add(
            gathered(filters_held(self.filters@), self.filters@.len()),
        )
    }

    /// The join conditions still in the graph: those in the plans of its
    /// base relations and those of its edges.
    pub open spec fn pending_conditions(self) -> Multiset<Set<ComparisonCondition>> {
        gathered(base_conditions_held(self.base_relations@), self.base_relations@.len()).add(
            gathered(conditions_held(self.hyper_edges.edges@), self.hyper_edges.edges@.len()),
        )
    }

    /// The graph has the filters of `before` but for the filters `taken`,
    /// which have left it.
    pub open spec fn filters_taken(self, before: Graph, taken: Seq<FilterId>) -> bool {
        &&& self.filters@.len() == before.filters@.len()
        &&& forall|f: int|
            0 <= f < before.filters@.len() ==> #[trigger] self.filters@[f] == (if members(
                taken,
            ).contains(f as usize) {
                None
            } else {
                before.filters@[f]
            })
    }

    /// Takes filter `id` out of the graph.
    fn take_filter(&mut self, id: FilterId) -> (taken: Option<ExtractedFilter>)
        ensures
            final(self).hyper_edges == old(self).hyper_edges,
            final(self).filter_owner == old(self).filter_owner,
            final(self).unplaced == old(self).unplaced,
            final(self).base_relations == old(self).base_relations,
            final(self).best_plans == old(self).best_plans,
            final(self).pairs_considered == old(self).pairs_considered,
            old(self).filter_present(id as int) ==> taken == old(self).filters@[id as int]
                && final(self).filters@ == old(self).filters@.update(id as int, None),
            !old(self).filter_present(id as int) ==> taken.is_none() && final(self).filters@
                == old(self).filters@,
    {
        if id < self.filters.len() {
            let mut slot: Option<ExtractedFilter> = None;
            std::mem::swap(&mut self.filters[id], &mut slot);
            assert(self.filters@ =~= old(self).filters@.update(id as int, None));
            if slot.is_none() {
                assert(self.filters@ =~= old(self).filters@);
            }
            slot
        } else {
            None
        }
    }

    /// Apply filters to a plan we're building up.
    ///
    /// The filters leave the graph for the plan. They are squashed into the
    /// plan's root where that is a filter, a cross join or an inner join on
    /// an arbitrary predicate; any other plan is wrapped in a filter.
    ///
    /// Fails on the first filter that is no longer in the graph, be it that
    /// an earlier one of `filters` is the same filter. The filters before
    /// it have then left the graph, and the plan is lost.
    pub fn apply_filters(&mut self, input: LogicalOperator, filters: &Vec<FilterId>) -> (result:
        Result<LogicalOperator, JoinOrderError>)
        ensures
            final(self).hyper_edges == old(self).hyper_edges,
            final(self).filter_owner == old(self).filter_owner,
            final(self).unplaced == old(self).unplaced,
            final(self).base_relations == old(self).base_relations,
            final(self).best_plans == old(self).best_plans,
            final(self).pairs_considered == old(self).pairs_considered,
            final(self).filters@.len() == old(self).filters@.len(),
            result.is_ok() <==> filters@.no_duplicates() && forall|k: int|
                0 <= k < filters@.len() ==> old(self).filter_present(#[trigger] filters@[k] as int),
            result matches Err(e) ==> exists|k: int|
                0 <= k < filters@.len() && e == (JoinOrderError::FilterPreviouslyUsed {
                    filter_id: filters@[k],
                }) && (!old(self).filter_present(filters@[k] as int) || members(
                    filters@.take(k),
                ).contains(filters@[k])) && final(self).filters_taken(
                    *old(self),
                    filters@.take(k),
                ),
            result matches Ok(plan) ==> {
                &&& forall|f: int|
                    0 <= f < old(self).filters@.len() ==> #[trigger] final(self).filters@[f] == (
                    if members(filters@).contains(f as usize) {
                        None
                    } else {
                        old(self).filters@[f]
                    })
                &&& plan.join_count() == input.join_count()
                &&& plan.leaf_count() == input.leaf_count()
                &&& plan.scans() == input.scans()
                &&& plan.join_conditions() == input.join_conditions()
                &&& plan.filter_conjuncts().add(final(self).pending_filters())
                    == input.filter_conjuncts().add(old(self).pending_filters())
                &&& filters@.len() == 0 ==> plan == input
                &&& filters@.len() > 0 ==> filtered_shape(
                    input,
                    predicates_of(old(self).filters@, filters@),
                    plan,
                )
            },
    {
        if filters.len() == 0 {
            // Nothing to do.
            return Ok(input);
        }
        let ghost held = gathered(filters_held(old(self).filters@), old(self).filters@.len());
        let mut input_filters: Vec<Expression> = Vec::new();
        let mut k: usize = 0;
        proof {
            assert(conjuncts_of(input_filters@, 0).add(held) =~= held);
            assert(input_filters@ =~= predicates_of(old(self).filters@, filters@.take(0)));
            assert(self.filters.len() <= usize::MAX);
            super::sorted_ids::lemma_members_empty(filters@.take(0));
        }
        while k < filters.len()
            invariant
                k <= filters.len(),
                forall|a: int, b: int| 0 <= a < b < k ==> filters@[a] != filters@[b],
                self.hyper_edges == old(self).hyper_edges,
                self.filter_owner == old(self).filter_owner,
                self.unplaced == old(self).unplaced,
                self.base_relations == old(self).base_relations,
                self.best_plans == old(self).best_plans,
                self.pairs_considered == old(self).pairs_considered,
                self.filters@.len() == old(self).filters@.len(),
                self.filters@.len() <= usize::MAX,
                held == gathered(filters_held(old(self).filters@), old(self).filters@.len()),
                forall|j: int|
                    0 <= j < k ==> old(self).filter_present(#[trigger] filters@[j] as int),
                forall|f: int|
                    0 <= f < old(self).filters@.len() ==> #[trigger] self.filters@[f] == (
                    if members(filters@.take(k as int)).contains(f as usize) {
                        None
                    } else {
                        old(self).filters@[f]
                    }),
                conjuncts_of(input_filters@, input_filters@.len()).add(
                    gathered(filters_held(self.filters@), self.filters@.len()),
                ) == held,
                input_filters@ == predicates_of(old(self).filters@, filters@.take(k as int)),
            decreases filters.len() - k,
        {
            let filter_id = filters[k];
            let ghost before = self.filters@;
            let ghost taken_before = input_filters@;
            let ghost earlier = filters@.take(k as int);
            proof {
                super::sorted_ids::lemma_members_take_next(filters@, k as int);
            }
            match self.take_filter(filter_id) {
                Some(filter) => {
                    input_filters.push(filter.filter);
                    proof {
                        assert(!members(earlier).contains(filter_id));
                        assert forall|a: int| 0 <= a < k implies filters@[a] != filter_id by {
                            assert(earlier[a] == filters@[a]);
                            assert(earlier.contains(filters@[a]));
                        }
                        assert(input_filters@ =~= predicates_of(
                            old(self).filters@,
                            filters@.take(k + 1),
                        ));
                        let len = before.len();
                        assert(filters_held(self.filters@) =~= filters_held(before).update(
                            filter_id as int,
                            Multiset::empty(),
                        ));
                        lemma_gathered_without(filters_held(before), filter_id as int, len);
                        lemma_conjuncts_of_push(taken_before, filter.filter);
                        let c = conjuncts_of(taken_before, taken_before.len());
                        let x = filter.filter.conjuncts();
                        let g = gathered(filters_held(self.filters@), len);
                        assert(c.add(x).add(g) =~= c.add(g.add(x)));
                    }
                },
                None => {
                    proof {
                        if old(self).filter_present(filter_id as int) {
                            assert(members(earlier).contains(filter_id));
                            let a = choose|a: int|
                                0 <= a < earlier.len() && earlier[a] == filter_id;
                            assert(filters@[a] == filters@[k as int]);
                        }
                    }
                    return Err(JoinOrderError::FilterPreviouslyUsed { filter_id });
                },
            }
            k += 1;
        }
        assert(filters@.take(filters.len() as int) =~= filters@);
        let ghost taken = conjuncts_of(input_filters@, input_filters@.len());
        let ghost rest = gathered(filters_held(self.filters@), self.filters@.len());
        let ghost bases = gathered(
            base_filters_held(self.base_relations@),
            self.base_relations@.len(),
        );
        // Try to squash into underlying operator if able. Otherwise just
        // wrap in a filter.
        let plan = match input {
            LogicalOperator::Filter(filter) => {
                let Node { node, location, children, estimated_cardinality: _ } = filter;
                let ghost own = node.filter.conjuncts();
                let ghost below = crate::logical::operator::filter_conjuncts_of(
                    children@,
                    children@.len(),
                );
                let mut expressions = input_filters;
                proof {
                    lemma_conjuncts_of_push(expressions@, node.filter);
                }
                expressions.push(node.filter);
                let plan = LogicalOperator::Filter(
                    Node {
                        node: LogicalFilter {
                            filter: Expression::Conjunction(
                                ConjunctionExpr { op: ConjunctionOperator::And, expressions },
                            ),
                        },
                        location,
                        children,
                        estimated_cardinality: StatisticsValue::Unknown,
                    },
                );
                proof {
                    assert(plan.filter_conjuncts() == taken.add(own).add(below));
                    assert(taken.add(own).add(below).add(bases.add(rest)) =~= own.add(below).add(
                        bases.add(taken.add(rest)),
                    ));
                }
                plan
            },
            LogicalOperator::ArbitraryJoin(join) => {
                match join.node.join_type {
                    JoinType::Inner => {
                        let Node { node, location, children, estimated_cardinality: _ } = join;
                        let ghost own = node.condition.conjuncts();
                        let ghost below = crate::logical::operator::filter_conjuncts_of(
                            children@,
                            children@.len(),
                        );
                        let mut expressions = input_filters;
                        proof {
                            lemma_conjuncts_of_push(expressions@, node.condition);
                        }
                        expressions.push(node.condition);
                        let plan = LogicalOperator::ArbitraryJoin(
                            Node {
                                node: LogicalArbitraryJoin {
                                    join_type: JoinType::Inner,
                                    condition: Expression::Conjunction(
                                        ConjunctionExpr {
                                            op: ConjunctionOperator::And,
                                            expressions,
                                        },
                                    ),
                                },
                                location,
                                children,
                                estimated_cardinality: StatisticsValue::Unknown,
                            },
                        );
                        proof {
                            assert(plan.filter_conjuncts() == taken.add(own).add(below));
                            assert(taken.add(own).add(below).add(bases.add(rest)) =~= own.add(
                                below,
                            ).add(bases.add(taken.add(rest))));
                        }
                        plan
                    },
                    _ => {
                        let other = LogicalOperator::ArbitraryJoin(join);
                        self.wrap_in_filter(other, input_filters)
                    },
                }
            },
            LogicalOperator::CrossJoin(join) => {
                let Node { node: _, location, children, estimated_cardinality: _ } = join;
                let ghost below = crate::logical::operator::filter_conjuncts_of(
                    children@,
                    children@.len(),
                );
                let plan = LogicalOperator::ArbitraryJoin(
                    Node {
                        node: LogicalArbitraryJoin {
                            join_type: JoinType::Inner,
                            condition: Expression::Conjunction(
                                ConjunctionExpr {
                                    op: ConjunctionOperator::And,
                                    expressions: input_filters,
                                },
                            ),
                        },
                        location,
                        children,
                        estimated_cardinality: StatisticsValue::Unknown,
                    },
                );
                proof {
                    assert(plan.filter_conjuncts() == taken.add(below));
                    assert(input.filter_conjuncts() =~= below);
                    assert(taken.add(below).add(bases.add(rest)) =~= below.add(
                        bases.add(taken.add(rest)),
                    ));
                }
                plan
            },
            other => self.wrap_in_filter(other, input_filters),
        };
        proof {
            assert(old(self).pending_filters() == bases.add(taken.add(rest)));
            assert(self.pending_filters() == bases.add(rest));
        }
        Ok(plan)
    }

    /// A filter on `filters`, all of them, above `input`.
    fn wrap_in_filter(&self, input: LogicalOperator, filters: Vec<Expression>) -> (plan:
        LogicalOperator)
        ensures
            plan matches LogicalOperator::Filter(node) && node.children@ == seq![input]
                && node.location == LocationRequirement::Any && is_and_of(
                node.node.filter,
                filters@,
            ),
            plan.spec_estimated_cardinality() == StatisticsValue::<usize>::Unknown,
            plan.join_count() == input.join_count(),
            plan.leaf_count() == input.leaf_count(),
            plan.scans() == input.scans(),
            plan.join_conditions() == input.join_conditions(),
            plan.filter_conjuncts() == conjuncts_of(filters@, filters@.len()).add(
                input.filter_conjuncts(),
            ),
    {
        let mut children: Vec<LogicalOperator> = Vec::new();
        children.push(input);
        let plan = LogicalOperator::Filter(
            Node {
                node: LogicalFilter {
                    filter: Expression::Conjunction(
                        ConjunctionExpr { op: ConjunctionOperator::And, expressions: filters },
                    ),
                },
                location: LocationRequirement::Any,
                children,
                estimated_cardinality: StatisticsValue::Unknown,
            },
        );
        proof {
            assert(plan.children() =~= seq![input]);
            lemma_one_child(plan.children());
            assert(Multiset::<LogicalOperator>::empty().add(input.scans()) =~= input.scans());
            assert(Multiset::<Set<ComparisonCondition>>::empty().add(input.join_conditions())
                =~= input.join_conditions());
        }
        plan
    }
}


/// The number of rows to record on a plan for an estimate of `rows`: the
/// estimate, or the largest number that fits.
pub open spec fn recorded_rows(rows: u128) -> usize {
    if rows > usize::MAX {
        usize::MAX
    } else {
        rows as usize
    }
}

/// The join of `left` with `right`: a cross join if there are no
/// conditions, else a join on the conditions, a semi join if `any_semi`
/// says so or else an inner join, with `cardinality` as its estimate.
pub fn join_plans(
    left: LogicalOperator,
    right: LogicalOperator,
    conditions: Vec<ComparisonCondition>,
    any_semi: bool,
    cardinality: u128,
) -> (plan: LogicalOperator)
    ensures
        plan.children() == seq![left, right],
        conditions@.len() == 0 ==> plan is CrossJoin,
        conditions@.len() > 0 ==> (plan matches LogicalOperator::ComparisonJoin(join)
            && join.node.conditions == conditions && join.node.join_type == (if any_semi {
            JoinType::LeftSemi
        } else {
            JoinType::Inner
        }) && join.estimated_cardinality == StatisticsValue::Estimated(recorded_rows(cardinality))
            && join.location == LocationRequirement::Any),
        plan.join_count() == left.join_count() + right.join_count() + 1,
        plan.leaf_count() == left.leaf_count() + right.leaf_count(),
        plan.scans() == left.scans().add(right.scans()),
        plan.filter_conjuncts() == left.filter_conjuncts().add(right.filter_conjuncts()),
        plan.join_conditions() == conditions_of(conditions@, conditions@.len()).add(
            left.join_conditions(),
        ).add(right.join_conditions()),
{
    let ghost own = conditions_of(conditions@, conditions@.len());
    let mut children: Vec<LogicalOperator> = Vec::new();
    children.push(left);
    children.push(right);
    assert(children@ =~= seq![left, right]);
    let plan = if conditions.len() == 0 {
        // No conditions, simple cross join.
        LogicalOperator::CrossJoin(
            Node {
                node: LogicalCrossJoin,
                location: LocationRequirement::Any,
                children,
                estimated_cardinality: StatisticsValue::Unknown,
            },
        )
    } else {
        let join_type = if any_semi {
            JoinType::LeftSemi
        } else {
            JoinType::Inner
        };
        let rows: usize = if cardinality > usize::MAX as u128 {
            usize::MAX
        } else {
            cardinality as usize
        };
        // We have conditions, create comparison join.
        LogicalOperator::ComparisonJoin(
            Node {
                node: LogicalComparisonJoin { join_type, conditions },
                location: LocationRequirement::Any,
                children,
                estimated_cardinality: StatisticsValue::Estimated(rows),
            },
        )
    };
    proof {
        lemma_two_children(plan.children());
        assert(Multiset::<LogicalOperator>::empty().add(left.scans().add(right.scans()))
            =~= left.scans().add(right.scans()));
        let l = left.filter_conjuncts();
        let r = right.filter_conjuncts();
        assert(Multiset::<Expression>::empty().add(l.add(r)) =~= l.add(r));
        let lc = left.join_conditions();
        let rc = right.join_conditions();
        assert(own.add(lc.add(rc)) =~= own.add(lc).add(rc));
    }
    plan
}

/// The comparisons that a join takes from `edge` when the tables
/// `right_refs` are in the output of its right input: those of the edge's
/// condition, in their order, with sides changed if the left side of the
/// condition is over tables of the right input. An edge without a condition
/// gives none.
pub open spec fn comparisons_taken(edge: HyperEdge, right_refs: Set<TableRef>) -> Seq<
    ComparisonCondition,
> {
    match edge.filter {
        Some(condition) => if members(edge.left_refs@).subset_of(right_refs) {
            flipped_all(condition.comparison_seq())
        } else {
            condition.comparison_seq()
        },
        None => Seq::empty(),
    }
}

/// The comparisons that a join takes from the first `n` of the edges `ids`,
/// in the order of the edges.
pub open spec fn conditions_taken(
    edges: HyperEdges,
    ids: Seq<EdgeId>,
    right_refs: Set<TableRef>,
    n: nat,
) -> Seq<ComparisonCondition>
    decreases n,
{
    if n == 0 || n > ids.len() {
        Seq::empty()
    } else {
        conditions_taken(edges, ids, right_refs, (n - 1) as nat) + comparisons_taken(
            edges.edge(ids[n - 1] as int),
            right_refs,
        )
    }
}

impl Graph {
    /// Base relation `r` is in the graph, under its id.
    pub open spec fn base_present(self, r: int) -> bool {
        0 <= r < self.base_relations@.len() && self.base_relations@[r].is_some()
            && self.base_relations@[r].unwrap().rel_id == r
    }

    /// Takes base relation `r` out of the graph.
    fn take_base(&mut self, r: RelId) -> (taken: Option<BaseRelation>)
        ensures
            final(self).hyper_edges == old(self).hyper_edges,
            final(self).filter_owner == old(self).filter_owner,
            final(self).unplaced == old(self).unplaced,
            final(self).filters == old(self).filters,
            final(self).best_plans == old(self).best_plans,
            final(self).pairs_considered == old(self).pairs_considered,
            r < old(self).base_relations@.len() && old(self).base_relations@[r as int].is_some()
                ==> taken == old(self).base_relations@[r as int] && final(self).base_relations@
                == old(self).base_relations@.update(r as int, None),
            !(r < old(self).base_relations@.len() && old(self).base_relations@[r as int].is_some())
                ==> taken.is_none() && final(self).base_relations@ == old(self).base_relations@,
    {
        if r < self.base_relations.len() {
            let mut slot: Option<BaseRelation> = None;
            std::mem::swap(&mut self.base_relations[r], &mut slot);
            assert(self.base_relations@ =~= old(self).base_relations@.update(r as int, None));
            if slot.is_none() {
                assert(self.base_relations@ =~= old(self).base_relations@);
            }
            slot
        } else {
            None
        }
    }

    /// Takes the conditions of the edges `edge_ids` out of the graph, in the
    /// order of the edges. A condition whose left side is over tables in
    /// `right_refs` has its sides changed.
    ///
    /// Fails on the first edge that is no longer in the graph, be it that
    /// an earlier one of `edge_ids` is the same edge.
    fn take_conditions(&mut self, edge_ids: &Vec<EdgeId>, right_refs: &Vec<TableRef>) -> (result:
        Result<Vec<ComparisonCondition>, JoinOrderError>)
        ensures
            final(self).filters == old(self).filters,
            final(self).filter_owner == old(self).filter_owner,
            final(self).unplaced == old(self).unplaced,
            final(self).base_relations == old(self).base_relations,
            final(self).best_plans == old(self).best_plans,
            final(self).pairs_considered == old(self).pairs_considered,
            final(self).hyper_edges.edges@.len() == old(self).hyper_edges.edges@.len(),
            result.is_ok() <==> edge_ids@.no_duplicates() && forall|k: int|
                0 <= k < edge_ids@.len() ==> old(self).hyper_edges.present(
                    #[trigger] edge_ids@[k] as int,
                ),
            result matches Err(e) ==> exists|k: int|
                0 <= k < edge_ids@.len() && e == (JoinOrderError::EdgeAlreadyUsed {
                    edge_id: edge_ids@[k],
                }) && (!old(self).hyper_edges.present(edge_ids@[k] as int) || members(
                    edge_ids@.take(k),
                ).contains(edge_ids@[k])),
            result matches Ok(conditions) ==> {
                &&& conditions@ == conditions_taken(
                    old(self).hyper_edges,
                    edge_ids@,
                    members(right_refs@),
                    edge_ids@.len(),
                )
                &&& forall|id: int|
                    0 <= id < old(self).hyper_edges.edges@.len()
                        ==> #[trigger] final(self).hyper_edges.edges@[id] == (if members(
                        edge_ids@,
                    ).contains(id as usize) {
                        None
                    } else {
                        old(self).hyper_edges.edges@[id]
                    })
                &&& conditions_of(conditions@, conditions@.len()).add(
                    gathered(
                        conditions_held(final(self).hyper_edges.edges@),
                        final(self).hyper_edges.edges@.len(),
                    ),
                ) == gathered(
                    conditions_held(old(self).hyper_edges.edges@),
                    old(self).hyper_edges.edges@.len(),
                )
            },
    {
        let ghost held = gathered(
            conditions_held(old(self).hyper_edges.edges@),
            old(self).hyper_edges.edges@.len(),
        );
        let mut conditions: Vec<ComparisonCondition> = Vec::new();
        let mut k: usize = 0;
        proof {
            assert(conditions_of(conditions@, 0).add(held) =~= held);
            assert(self.hyper_edges.edges.len() <= usize::MAX);
            super::sorted_ids::lemma_members_empty(edge_ids@.take(0));
        }
        while k < edge_ids.len()
            invariant
                k <= edge_ids.len(),
                forall|a: int, b: int| 0 <= a < b < k ==> edge_ids@[a] != edge_ids@[b],
                self.filters == old(self).filters,
                self.filter_owner == old(self).filter_owner,
                self.unplaced == old(self).unplaced,
                self.base_relations == old(self).base_relations,
                self.best_plans == old(self).best_plans,
                self.pairs_considered == old(self).pairs_considered,
                self.hyper_edges.edges@.len() == old(self).hyper_edges.edges@.len(),
                self.hyper_edges.edges@.len() <= usize::MAX,
                held == gathered(
                    conditions_held(old(self).hyper_edges.edges@),
                    old(self).hyper_edges.edges@.len(),
                ),
                forall|j: int|
                    0 <= j < k ==> old(self).hyper_edges.present(#[trigger] edge_ids@[j] as int),
                forall|id: int|
                    0 <= id < old(self).hyper_edges.edges@.len()
                        ==> #[trigger] self.hyper_edges.edges@[id] == (if members(
                        edge_ids@.take(k as int),
                    ).contains(id as usize) {
                        None
                    } else {
                        old(self).hyper_edges.edges@[id]
                    }),
                conditions_of(conditions@, conditions@.len()).add(
                    gathered(
                        conditions_held(self.hyper_edges.edges@),
                        self.hyper_edges.edges@.len(),
                    ),
                ) == held,
                conditions@ == conditions_taken(
                    old(self).hyper_edges,
                    edge_ids@,
                    members(right_refs@),
                    k as nat,
                ),
            decreases edge_ids.len() - k,
        {
            let edge_id = edge_ids[k];
            let ghost before = self.hyper_edges.edges@;
            let ghost taken_before = conditions_of(conditions@, conditions@.len());
            let ghost earlier = edge_ids@.take(k as int);
            proof {
                super::sorted_ids::lemma_members_take_next(edge_ids@, k as int);
            }
            let edge = match self.hyper_edges.remove_edge(edge_id) {
                Some(edge) => edge,
                None => {
                    proof {
                        if old(self).hyper_edges.present(edge_id as int) {
                            assert(members(earlier).contains(edge_id));
                            let a = choose|a: int| 0 <= a < earlier.len() && earlier[a] == edge_id;
                            assert(edge_ids@[a] == edge_ids@[k as int]);
                        }
                    }
                    return Err(JoinOrderError::EdgeAlreadyUsed { edge_id });
                },
            };
            proof {
                assert(!members(earlier).contains(edge_id));
                assert forall|a: int| 0 <= a < k implies edge_ids@[a] != edge_id by {
                    assert(earlier[a] == edge_ids@[a]);
                    assert(earlier.contains(edge_ids@[a]));
                }
                let len = before.len();
                assert(conditions_held(self.hyper_edges.edges@) =~= conditions_held(before).update(
                    edge_id as int,
                    Multiset::empty(),
                ));
                lemma_gathered_without(conditions_held(before), edge_id as int, len);
            }
            let ghost own = conditions_held(before)[edge_id as int];
            let ghost rest = gathered(
                conditions_held(self.hyper_edges.edges@),
                self.hyper_edges.edges@.len(),
            );
            // The edges do not say which side is which: the tables do.
            let swap_sides = is_subset_ids(&edge.left_refs, right_refs);
            let ghost held_before = conditions@;
            assert(edge == old(self).hyper_edges.edge(edge_id as int));
            match edge.filter {
                Some(condition) => {
                    let condition = if swap_sides {
                        condition.flip_sides()
                    } else {
                        condition
                    };
                    let mut comparisons = condition.into_comparisons();
                    proof {
                        lemma_conditions_of_concat(held_before, comparisons@, comparisons@.len());
                        assert(comparisons@ == comparisons_taken(edge, members(right_refs@)));
                    }
                    conditions.append(&mut comparisons);
                },
                None => {
                    // No condition on this edge, a cross join.
                    assert(taken_before.add(own) =~= taken_before);
                    assert(conditions@ =~= held_before + comparisons_taken(
                        edge,
                        members(right_refs@),
                    ));
                },
            }
            proof {
                assert(taken_before.add(own).add(rest) =~= taken_before.add(rest.add(own)));
            }
            k += 1;
        }
        assert(edge_ids@.take(edge_ids.len() as int) =~= edge_ids@);
        Ok(conditions)
    }
}


/// Whether, after looking at the first `n` of the edges `ids`, the inputs of
/// a join have changed sides.
///
/// The inputs change sides at each edge of a semi join whose left tables are
/// not all in the output of the input that is on the left at that point.
pub open spec fn sides_swapped(
    edges: HyperEdges,
    ids: Seq<EdgeId>,
    left_refs: Set<TableRef>,
    right_refs: Set<TableRef>,
    n: nat,
) -> bool
    decreases n,
{
    if n == 0 || n > ids.len() {
        false
    } else {
        let before = sides_swapped(edges, ids, left_refs, right_refs, (n - 1) as nat);
        let on_left = if before {
            right_refs
        } else {
            left_refs
        };
        let edge = edges.edge(ids[n - 1] as int);
        if edge.filter.is_some() && edge.filter.unwrap().spec_is_semi()
            && !edge.filter.unwrap().left_table_refs().subset_of(on_left) {
            !before
        } else {
            before
        }
    }
}

/// Whether one of the first `n` of the edges `ids` is the edge of a semi join.
pub open spec fn semi_among(edges: HyperEdges, ids: Seq<EdgeId>, n: nat) -> bool
    decreases n,
{
    if n == 0 || n > ids.len() {
        false
    } else {
        semi_among(edges, ids, (n - 1) as nat) || (edges.edge(ids[n - 1] as int).filter.is_some()
            && edges.edge(ids[n - 1] as int).filter.unwrap().spec_is_semi())
    }
}

/// What a join reads off its edges is told by those edges alone.
pub proof fn lemma_edge_specs_same(
    a: HyperEdges,
    b: HyperEdges,
    ids: Seq<EdgeId>,
    left_refs: Set<TableRef>,
    right_refs: Set<TableRef>,
    n: nat,
)
    requires
        n <= ids.len(),
        forall|k: int| 0 <= k < n ==> b.edge(#[trigger] ids[k] as int) == a.edge(ids[k] as int),
    ensures
        semi_among(b, ids, n) == semi_among(a, ids, n),
        sides_swapped(b, ids, left_refs, right_refs, n) == sides_swapped(
            a,
            ids,
            left_refs,
            right_refs,
            n,
        ),
        conditions_taken(b, ids, right_refs, n) == conditions_taken(a, ids, right_refs, n),
    decreases n,
{
    if n > 0 {
        lemma_edge_specs_same(a, b, ids, left_refs, right_refs, (n - 1) as nat);
        assert(b.edge(ids[n - 1] as int) == a.edge(ids[n - 1] as int));
    }
}

impl Graph {
    /// Looks at the edges of a join for conditions of a semi join. Says
    /// whether there is one, and whether the inputs have to change sides so
    /// that the input which the semi join returns rows of is on the left.
    ///
    /// Fails on the first edge that is not in the graph.
    fn semi_sides(
        &self,
        edge_ids: &Vec<EdgeId>,
        left_refs: &Vec<TableRef>,
        right_refs: &Vec<TableRef>,
    ) -> (result: Result<(bool, bool), JoinOrderError>)
        ensures
            result.is_ok() <==> forall|k: int|
                0 <= k < edge_ids@.len()
                    ==> self.hyper_edges.present(#[trigger] edge_ids@[k] as int),
            result matches Err(e) ==> exists|k: int|
                0 <= k < edge_ids@.len() && e == (JoinOrderError::MissingEdge {
                    edge_id: edge_ids@[k],
                }) && !self.hyper_edges.present(edge_ids@[k] as int),
            result matches Ok(sides) ==> sides.0 == semi_among(
                self.hyper_edges,
                edge_ids@,
                edge_ids@.len(),
            ) && sides.1 == sides_swapped(
                self.hyper_edges,
                edge_ids@,
                members(left_refs@),
                members(right_refs@),
                edge_ids@.len(),
            ),
    {
        let mut any_semi = false;
        let mut swapped = false;
        let mut k: usize = 0;
        while k < edge_ids.len()
            invariant
                k <= edge_ids.len(),
                forall|j: int|
                    0 <= j < k ==> self.hyper_edges.present(#[trigger] edge_ids@[j] as int),
                any_semi == semi_among(self.hyper_edges, edge_ids@, k as nat),
                swapped == sides_swapped(
                    self.hyper_edges,
                    edge_ids@,
                    members(left_refs@),
                    members(right_refs@),
                    k as nat,
                ),
            decreases edge_ids.len() - k,
        {
            let edge_id = edge_ids[k];
            let edge = match self.hyper_edges.get_edge(edge_id) {
                Some(edge) => edge,
                None => {
                    return Err(JoinOrderError::MissingEdge { edge_id });
                },
            };
            match &edge.filter {
                Some(condition) => {
                    if condition.is_semi() {
                        let (condition_left, _condition_right) =
                            condition.get_left_right_table_refs();
                        let on_left = if swapped {
                            right_refs
                        } else {
                            left_refs
                        };
                        if !is_subset_ids(&condition_left, on_left) {
                            // The plans have to change sides.
                            swapped = !swapped;
                        }
                        any_semi = true;
                    }
                },
                None => {},
            }
            k += 1;
        }
        Ok((any_semi, swapped))
    }
}


/// A join taken apart: the plans of its two inputs, the filters to apply to
/// each, the conditions to join them on, whether one of those is the
/// condition of a semi join, and the join's estimated cardinality.
pub struct JoinParts {
    pub a: JoinNode,
    pub b: JoinNode,
    pub a_filters: Vec<FilterId>,
    pub b_filters: Vec<FilterId>,
    pub conditions: Vec<ComparisonCondition>,
    pub any_semi: bool,
    pub cardinality: u128,
}

/// The filters of a join's plan and those left in the graph are those that
/// were in the graph before.
proof fn lemma_filters_add_up(
    start: Multiset<Expression>,
    first: Multiset<Expression>,
    second: Multiset<Expression>,
    third: Multiset<Expression>,
    done: Multiset<Expression>,
    a_plan: Multiset<Expression>,
    b_plan: Multiset<Expression>,
    a_filtered: Multiset<Expression>,
    b_filtered: Multiset<Expression>,
)
    requires
        a_plan.add(first) == start,
        b_plan.add(second) == first,
        a_filtered.add(third) == a_plan.add(second),
        b_filtered.add(done) == b_plan.add(third),
    ensures
        a_filtered.add(b_filtered).add(done) == start,
{
    assert(a_filtered.add(b_filtered).add(done) =~= a_filtered.add(b_filtered.add(done)));
    assert(a_filtered.add(b_plan.add(third)) =~= b_plan.add(a_filtered.add(third)));
    assert(b_plan.add(a_plan.add(second)) =~= a_plan.add(b_plan.add(second)));
}

/// The conditions of a join's plan and those left in the graph are those
/// that were in the graph before.
proof fn lemma_conditions_add_up(
    start: Multiset<Set<ComparisonCondition>>,
    split: Multiset<Set<ComparisonCondition>>,
    first: Multiset<Set<ComparisonCondition>>,
    second: Multiset<Set<ComparisonCondition>>,
    own: Multiset<Set<ComparisonCondition>>,
    a_plan: Multiset<Set<ComparisonCondition>>,
    b_plan: Multiset<Set<ComparisonCondition>>,
)
    requires
        own.add(split) == start,
        a_plan.add(first) == split,
        b_plan.add(second) == first,
    ensures
        own.add(a_plan).add(b_plan).add(second) == start,
{
    assert(own.add(a_plan).add(b_plan).add(second) =~= own.add(a_plan.add(b_plan.add(second))));
}

impl Graph {
    /// The graph is in shape for building: filters and their relations go
    /// together, the edges are well formed and the memo holds no set twice.
    pub open spec fn shape_ok(self) -> bool {
        &&& self.filters@.len() == self.filter_owner@.len()
        &&& forall|f: int|
            0 <= f < self.filter_owner@.len() && (#[trigger] self.filter_owner@[f]).is_some()
                ==> self.filter_owner@[f].unwrap() < self.n()
        &&& self.hyper_edges.wf(self.n())
        &&& self.best_plans.wf()
    }

    /// Every plan in the memo for a set within `rels` is sound.
    pub open spec fn subtree_ok(self, rels: Set<RelId>) -> bool {
        forall|key: Seq<usize>| #[trigger]
            self.best_plans.contains(key) && members(key).subset_of(rels)
                ==> self.best_plans.entry(key).set@ == key && self.entry_ok(
                self.best_plans.entry(key),
            )
    }

    /// The relations `rels` and the filters on them are all in the graph.
    pub open spec fn resources_ok(self, rels: Set<RelId>) -> bool {
        &&& forall|r: RelId| #[trigger] rels.contains(r) ==> self.base_present(r as int)
        &&& forall|f: FilterId| #[trigger]
            self.owned_by(rels).contains(f) ==> self.filter_present(f as int)
    }

    /// The memo holds no plan for the relations `rels`.
    pub open spec fn no_entry_for(self, rels: Set<RelId>) -> bool {
        forall|key: Seq<usize>| #[trigger] self.best_plans.contains(key) ==> members(key) != rels
    }

    /// The plan of `node` can be built: every filter that depends on a
    /// table is on one relation, the plan has left the memo, it is sound
    /// and so are the plans for all sets within its set, and what the plans
    /// need is in the graph.
    #[verifier::opaque]
    pub open spec fn buildable(self, node: JoinNode) -> bool {
        &&& self.all_placed()
        &&& self.shape_ok()
        &&& self.entry_ok(node)
        &&& self.subtree_ok(node.set.rels())
        &&& self.resources_ok(node.set.rels())
        &&& self.no_entry_for(node.set.rels())
    }

    /// What building a plan for the relations `rels` has made of the graph
    /// `before`: the relations have left it, with the filters on them if
    /// the plan is a join, and with the conditions of all edges among them.
    /// Nothing else has changed but that plans for sets within `rels` may
    /// have left the memo.
    #[verifier::opaque]
    pub open spec fn built_from(self, before: Graph, rels: Set<RelId>, joined: bool) -> bool {
        &&& self.filter_owner == before.filter_owner
        &&& self.unplaced == before.unplaced
        &&& self.pairs_considered == before.pairs_considered
        &&& self.base_relations@.len() == before.base_relations@.len()
        &&& self.filters@.len() == before.filters@.len()
        &&& self.hyper_edges.edges@.len() == before.hyper_edges.edges@.len()
        &&& forall|r: RelId|
            r < before.base_relations@.len() ==> #[trigger] self.base_relations@[r as int] == (
            if rels.contains(r) {
                None
            } else {
                before.base_relations@[r as int]
            })
        &&& forall|f: FilterId|
            f < before.filters@.len() ==> #[trigger] self.filters@[f as int] == (if joined
                && before.owned_by(rels).contains(f) {
                None
            } else {
                before.filters@[f as int]
            })
        &&& forall|id: int|
            0 <= id < before.hyper_edges.edges@.len() ==> (#[trigger] self.hyper_edges.edges@[id])
                == before.hyper_edges.edges@[id] || (self.hyper_edges.edges@[id].is_none()
                && before.hyper_edges.present(id) && before.hyper_edges.edge(id).span().subset_of(
                rels,
            ))
        &&& forall|id: int|
            before.hyper_edges.present(id) && (#[trigger] before.hyper_edges.edge(
                id,
            )).filter.is_some() && before.hyper_edges.edge(id).span().subset_of(rels)
                ==> self.hyper_edges.edges@[id].is_none()
        &&& self.best_plans.wf()
        &&& forall|key: Seq<usize>| #[trigger]
            self.best_plans.contains(key) ==> before.best_plans.contains(key)
                && self.best_plans.entry(key) == before.best_plans.entry(key)
        &&& forall|key: Seq<usize>| #[trigger]
            before.best_plans.contains(key) && !members(key).subset_of(rels)
                ==> self.best_plans.contains(key)
    }

    /// What is needed to build a plan for the relations `rels` is in `later`
    /// as it is in `self`: the relations, the filters on them, the edges
    /// among them and the plans for the sets within them. The memo of
    /// `later` has no plan for `rels` itself.
    #[verifier::opaque]
    pub open spec fn keeps(self, later: Graph, rels: Set<RelId>) -> bool {
        &&& later.filter_owner == self.filter_owner
        &&& later.unplaced == self.unplaced
        &&& later.base_relations@.len() == self.base_relations@.len()
        &&& later.filters@.len() == self.filters@.len()
        &&& later.hyper_edges.edges@.len() == self.hyper_edges.edges@.len()
        &&& forall|r: RelId|
            rels.contains(r) && r < self.base_relations@.len()
                ==> #[trigger] later.base_relations@[r as int] == self.base_relations@[r as int]
        &&& forall|f: FilterId| #[trigger]
            self.owned_by(rels).contains(f) ==> later.filters@[f as int] == self.filters@[f as int]
        &&& forall|id: int|
            0 <= id < self.hyper_edges.edges@.len() ==> (#[trigger] later.hyper_edges.edges@[id])
                == self.hyper_edges.edges@[id] || later.hyper_edges.edges@[id].is_none()
        &&& forall|id: int|
            self.hyper_edges.present(id) && (#[trigger] self.hyper_edges.edge(id)).span().subset_of(
                rels,
            ) ==> later.hyper_edges.edges@[id] == self.hyper_edges.edges@[id]
        &&& later.best_plans.wf()
        &&& forall|key: Seq<usize>| #[trigger]
            later.best_plans.contains(key) ==> self.best_plans.contains(key)
                && later.best_plans.entry(key) == self.best_plans.entry(key)
        &&& forall|key: Seq<usize>| #[trigger]
            self.best_plans.contains(key) && members(key).subset_of(rels) && members(key) != rels
                ==> later.best_plans.contains(key)
        &&& later.no_entry_for(rels)
    }

    /// A sound plan for relations within `rels` is sound in a graph that
    /// keeps what `rels` needs.
    pub proof fn lemma_entry_kept(self, later: Graph, entry: JoinNode, rels: Set<RelId>)
        requires
            self.entry_ok(entry),
            entry.set.rels().subset_of(rels),
            self.keeps(later, rels),
        ensures
            later.entry_ok(entry),
    {
        reveal(Graph::entry_ok);
        reveal(Graph::keeps);
        self.lemma_tables_same(later, entry.set.rels());
        if entry.set@.len() >= 2 {
            let l = entry.left;
            let r = entry.right;
            assert(later.best_plans.contains(l@)) by {
                let x = r@[0];
                assert(r@.contains(x));
                assert(r.rels().contains(x));
                assert(!l.rels().contains(x));
                assert(entry.set.rels().contains(x));
                assert(rels.contains(x));
            }
            assert(later.best_plans.contains(r@)) by {
                let x = l@[0];
                assert(l@.contains(x));
                assert(l.rels().contains(x));
                assert(!r.rels().contains(x));
                assert(entry.set.rels().contains(x));
                assert(rels.contains(x));
            }
            assert forall|k: int| 0 <= k < entry.edges@.len() implies later.hyper_edges.joins_at(
                (#[trigger] entry.edges@[k]) as int,
                l.rels(),
                r.rels(),
            ) by {
                let id = entry.edges@[k] as int;
                assert(self.hyper_edges.joins_at(id, l.rels(), r.rels()));
                assert(self.hyper_edges.edge(id).span().subset_of(rels));
            }
            assert forall|id: int| #[trigger]
                later.hyper_edges.joins_at(id, l.rels(), r.rels()) && later.hyper_edges.edge(
                    id,
                ).filter.is_some() implies entry.edges@.contains(id as usize) by {
                assert(later.hyper_edges.edges@[id] == self.hyper_edges.edges@[id]);
                assert(self.hyper_edges.joins_at(id, l.rels(), r.rels()));
            }
            assert(later.owned_by(entry.set.rels()) =~= self.owned_by(entry.set.rels()));
            assert(later.pending_for(l@) =~= self.pending_for(l@)) by {
                assert(later.owned_by(members(l@)) =~= self.owned_by(members(l@)));
            }
            assert(later.pending_for(r@) =~= self.pending_for(r@)) by {
                assert(later.owned_by(members(r@)) =~= self.owned_by(members(r@)));
            }
        }
    }

    /// A plan that can be built can be built in a graph that keeps what its
    /// relations need.
    pub proof fn lemma_buildable_kept(self, later: Graph, node: JoinNode)
        requires
            self.all_placed(),
            self.shape_ok(),
            self.entry_ok(node),
            self.subtree_ok(node.set.rels()),
            self.resources_ok(node.set.rels()),
            self.keeps(later, node.set.rels()),
        ensures
            later.buildable(node),
    {
        reveal(Graph::keeps);
        reveal(Graph::buildable);
        let rels = node.set.rels();
        self.lemma_entry_kept(later, node, rels);
        assert(later.hyper_edges.wf(later.n())) by {
            assert forall|id: int| later.hyper_edges.present(id) implies (
            #[trigger] later.hyper_edges.edge(id)).wf(id, later.n()) by {
                assert(later.hyper_edges.edges@[id] == self.hyper_edges.edges@[id]);
                assert(self.hyper_edges.present(id));
                assert(self.hyper_edges.edge(id).wf(id, self.n()));
            }
        }
        assert forall|key: Seq<usize>| #[trigger]
            later.best_plans.contains(key) && members(key).subset_of(
                rels,
            ) implies later.best_plans.entry(key).set@ == key && later.entry_ok(
            later.best_plans.entry(key),
        ) by {
            assert(self.best_plans.contains(key));
            let entry = self.best_plans.entry(key);
            self.lemma_entry_kept(later, entry, rels);
        }
        assert forall|r: RelId| #[trigger] rels.contains(r) implies later.base_present(
            r as int,
        ) by {
            assert(self.base_present(r as int));
        }
        assert forall|f: FilterId| #[trigger]
            later.owned_by(rels).contains(f) implies later.filter_present(f as int) by {
            assert(self.owned_by(rels).contains(f));
            assert(self.filter_present(f as int));
        }
    }

    /// Once a join has taken its two inputs' plans out of the memo and its
    /// edges out of the graph, the graph keeps what each input needs.
    proof fn lemma_keeps_after_split(self, later: Graph, node: JoinNode, input: JoinNode)
        requires
            self.shape_ok(),
            self.entry_ok(node),
            node.set@.len() >= 2,
            self.subtree_ok(node.set.rels()),
            input.set@ == node.left@ || input.set@ == node.right@,
            later.split_from(self, node),
        ensures
            self.keeps(later, input.set.rels()),
    {
        reveal(Graph::entry_ok);
        reveal(Graph::keeps);
        reveal(Graph::split_from);
        let rels = input.set.rels();
        let l = node.left;
        let r = node.right;
        let other = if input.set@ == l@ {
            r
        } else {
            l
        };
        assert(rels.disjoint(other.rels()));
        let witness = other@[0];
        assert(other@.contains(witness));
        assert(other.rels().contains(witness));
        assert(self.hyper_edges.edges.len() <= usize::MAX);
        assert forall|id: int|
            self.hyper_edges.present(id) && (#[trigger] self.hyper_edges.edge(id)).span().subset_of(
                rels,
            ) implies later.hyper_edges.edges@[id] == self.hyper_edges.edges@[id] by {
            if members(node.edges@).contains(id as usize) {
                let k = choose|k: int| 0 <= k < node.edges@.len() && node.edges@[k] == id as usize;
                assert(self.hyper_edges.joins_at(node.edges@[k] as int, l.rels(), r.rels()));
                let edge = self.hyper_edges.edge(id);
                let x = choose|x: RelId| edge.span().contains(x) && other.rels().contains(x);
                assert(rels.contains(x));
            }
        }
        assert forall|key: Seq<usize>| #[trigger]
            self.best_plans.contains(key) && members(key).subset_of(rels) && members(key)
                != rels implies later.best_plans.contains(key) by {
            assert(members(l@).subset_of(node.set.rels()));
            assert(members(r@).subset_of(node.set.rels()));
            if key == other@ {
                assert(members(key).contains(witness));
            }
        }
        assert(later.no_entry_for(rels)) by {
            assert forall|key: Seq<usize>|
                #[trigger] later.best_plans.contains(key) implies members(
                key,
            ) != rels by {
                if members(key) == rels {
                    assert(self.best_plans.contains(key));
                    assert(members(key).subset_of(node.set.rels()));
                    assert(self.best_plans.entry(key).set@ == key);
                    assert(self.entry_ok(self.best_plans.entry(key)));
                    assert(self.best_plans.contains(input.set@));
                    assert(members(input.set@).subset_of(node.set.rels()));
                    assert(self.entry_ok(self.best_plans.entry(input.set@)));
                    lemma_ordered_unique(key, input.set@);
                }
            }
        }
    }

    /// Building the plan of one input of a join leaves in the graph what
    /// the other input needs.
    proof fn lemma_keeps_after_sibling(
        self,
        later: Graph,
        built: Set<RelId>,
        joined: bool,
        sibling: JoinNode,
    )
        requires
            self.buildable(sibling),
            later.built_from(self, built, joined),
            built.disjoint(sibling.set.rels()),
        ensures
            self.keeps(later, sibling.set.rels()),
    {
        reveal(Graph::entry_ok);
        reveal(Graph::keeps);
        reveal(Graph::buildable);
        reveal(Graph::built_from);
        let rels = sibling.set.rels();
        assert forall|r: RelId|
            rels.contains(r) && r < self.base_relations@.len()
                implies #[trigger] later.base_relations@[r as int]
                    == self.base_relations@[r as int] by {
            assert(!built.contains(r));
        }
        assert forall|f: FilterId| #[trigger]
            self.owned_by(rels).contains(f)
                implies later.filters@[f as int] == self.filters@[f as int] by {
            assert(!self.owned_by(built).contains(f));
            assert(self.filter_present(f as int));
        }
        assert forall|id: int|
            self.hyper_edges.present(id) && (#[trigger] self.hyper_edges.edge(id)).span().subset_of(
                rels,
            ) implies later.hyper_edges.edges@[id] == self.hyper_edges.edges@[id] by {
            let edge = self.hyper_edges.edge(id);
            assert(edge.wf(id, self.n()));
            let x = edge.left_rels@[0];
            assert(edge.left_rels@.contains(x));
            assert(edge.span().contains(x));
            assert(rels.contains(x));
            assert(!built.contains(x));
        }
        assert forall|key: Seq<usize>| #[trigger]
            self.best_plans.contains(key) && members(key).subset_of(rels) && members(key)
                != rels implies later.best_plans.contains(key) by {
            assert(self.entry_ok(self.best_plans.entry(key)));
            let x = key[0];
            assert(key.contains(x));
            assert(members(key).contains(x));
            assert(rels.contains(x));
            assert(!built.contains(x));
        }
        assert(later.no_entry_for(rels)) by {
            assert forall|key: Seq<usize>|
                #[trigger] later.best_plans.contains(key) implies members(
                key,
            ) != rels by {
                assert(self.best_plans.contains(key));
            }
        }
    }
}


impl Graph {
    /// What a join has made of the graph once both inputs are built and
    /// their filters applied.
    proof fn lemma_built_join(
        self,
        split: Graph,
        first: Graph,
        second: Graph,
        third: Graph,
        done: Graph,
        node: JoinNode,
        a: JoinNode,
        b: JoinNode,
        a_filters: Seq<FilterId>,
        b_filters: Seq<FilterId>,
    )
        requires
            self.buildable(node),
            node.set@.len() >= 2,
            Self::inputs_of(node, a, b, a_filters, b_filters),
            a.set@.len() >= 1,
            b.set@.len() >= 1,
            self.entry_ok(a),
            self.entry_ok(b),
            split.split_from(self, node),
            first.built_from(split, a.set.rels(), a.set@.len() >= 2),
            second.built_from(first, b.set.rels(), b.set@.len() >= 2),
            third.filter_owner == second.filter_owner,
            third.unplaced == second.unplaced,
            third.pairs_considered == second.pairs_considered,
            third.base_relations == second.base_relations,
            third.hyper_edges == second.hyper_edges,
            third.best_plans == second.best_plans,
            third.filters@.len() == second.filters@.len(),
            forall|f: int|
                0 <= f < second.filters@.len() ==> #[trigger] third.filters@[f] == (if members(
                    a_filters,
                ).contains(f as usize) {
                    None
                } else {
                    second.filters@[f]
                }),
            done.filter_owner == third.filter_owner,
            done.unplaced == third.unplaced,
            done.pairs_considered == third.pairs_considered,
            done.base_relations == third.base_relations,
            done.hyper_edges == third.hyper_edges,
            done.best_plans == third.best_plans,
            done.filters@.len() == third.filters@.len(),
            forall|f: int|
                0 <= f < third.filters@.len() ==> #[trigger] done.filters@[f] == (if members(
                    b_filters,
                ).contains(f as usize) {
                    None
                } else {
                    third.filters@[f]
                }),
            members(a_filters) == self.pending_for(a.set@),
            members(b_filters) == self.pending_for(b.set@),
        ensures
            done.built_from(self, node.set.rels(), true),
            done.used_up(node),
    {
        reveal(Graph::entry_ok);
        reveal(Graph::buildable);
        reveal(Graph::split_from);
        reveal(Graph::built_from);
        let rels = node.set.rels();
        assert(done.used_up(node)) by {
            if done.best_plans.contains(node.left@) {
                assert(second.best_plans.contains(node.left@));
                assert(first.best_plans.contains(node.left@));
            }
            if done.best_plans.contains(node.right@) {
                assert(second.best_plans.contains(node.right@));
                assert(first.best_plans.contains(node.right@));
            }
            assert forall|k: int| 0 <= k < node.edges@.len() implies !done.hyper_edges.present(
                #[trigger] node.edges@[k] as int,
            ) by {
                let id = node.edges@[k] as int;
                assert(node.edges@.contains(node.edges@[k]));
                assert(self.hyper_edges.joins_at(id, node.left.rels(), node.right.rels()));
                assert(split.hyper_edges.edges@[id].is_none());
                assert(first.hyper_edges.edges@[id].is_none());
                assert(second.hyper_edges.edges@[id].is_none());
            }
        }
        let ar = a.set.rels();
        let br = b.set.rels();
        assert(rels =~= ar.union(br));
        assert(ar.disjoint(br));
        assert(self.hyper_edges.edges.len() <= usize::MAX);
        assert forall|r: RelId|
            r < self.base_relations@.len() implies #[trigger] done.base_relations@[r as int] == (
        if rels.contains(r) {
            None
        } else {
            self.base_relations@[r as int]
        }) by {
            assert(first.base_relations@[r as int] == (if ar.contains(r) {
                None
            } else {
                split.base_relations@[r as int]
            }));
            assert(second.base_relations@[r as int] == (if br.contains(r) {
                None
            } else {
                first.base_relations@[r as int]
            }));
        }
        assert forall|f: FilterId|
            f < self.filters@.len() implies #[trigger] done.filters@[f as int] == (if self.owned_by(
            rels,
        ).contains(f) {
            None
        } else {
            self.filters@[f as int]
        }) by {
            assert(first.filters@[f as int] == (if a.set@.len() >= 2 && split.owned_by(
                ar,
            ).contains(f) {
                None
            } else {
                split.filters@[f as int]
            }));
            assert(second.filters@[f as int] == (if b.set@.len() >= 2 && first.owned_by(
                br,
            ).contains(f) {
                None
            } else {
                first.filters@[f as int]
            }));
            assert(split.owned_by(ar) =~= self.owned_by(ar));
            assert(first.owned_by(br) =~= self.owned_by(br));
            assert(self.owned_by(rels) =~= self.owned_by(ar).union(self.owned_by(br)));
            assert(self.owned_by(members(a.set@)) == self.owned_by(ar));
            assert(self.owned_by(members(b.set@)) == self.owned_by(br));
            assert(third.filters@[f as int] == (if members(a_filters).contains(f) {
                None
            } else {
                second.filters@[f as int]
            }));
            assert(done.filters@[f as int] == (if members(b_filters).contains(f) {
                None
            } else {
                third.filters@[f as int]
            }));
        }
        assert forall|id: int|
            0 <= id < self.hyper_edges.edges@.len() implies (
        #[trigger] done.hyper_edges.edges@[id]) == self.hyper_edges.edges@[id] || (
        done.hyper_edges.edges@[id].is_none() && self.hyper_edges.present(id)
            && self.hyper_edges.edge(id).span().subset_of(rels)) by {
            let at_split = split.hyper_edges.edges@[id];
            let at_first = first.hyper_edges.edges@[id];
            let at_second = second.hyper_edges.edges@[id];
            if members(node.edges@).contains(id as usize) {
                let k = choose|k: int| 0 <= k < node.edges@.len() && node.edges@[k] == id as usize;
                assert(self.hyper_edges.joins_at(
                    node.edges@[k] as int,
                    node.left.rels(),
                    node.right.rels(),
                ));
            }
        }
        assert forall|id: int|
            self.hyper_edges.present(id) && (#[trigger] self.hyper_edges.edge(id)).filter.is_some()
                && self.hyper_edges.edge(id).span().subset_of(
                rels,
            ) implies done.hyper_edges.edges@[id].is_none() by {
            let edge = self.hyper_edges.edge(id);
            assert(edge.wf(id, self.n()));
            let at_split = split.hyper_edges.edges@[id];
            let at_first = first.hyper_edges.edges@[id];
            let at_second = second.hyper_edges.edges@[id];
            if members(node.edges@).contains(id as usize) {
            } else if edge.span().subset_of(ar) {
                assert(split.hyper_edges.present(id));
                assert(split.hyper_edges.edge(id) == edge);
            } else if edge.span().subset_of(br) {
                assert(split.hyper_edges.present(id));
                assert(split.hyper_edges.edge(id) == edge);
                if first.hyper_edges.edges@[id].is_some() {
                    assert(first.hyper_edges.present(id));
                    assert(first.hyper_edges.edge(id) == edge);
                }
            } else {
                let x = choose|x: RelId| edge.span().contains(x) && !ar.contains(x);
                let y = choose|y: RelId| edge.span().contains(y) && !br.contains(y);
                assert(br.contains(x));
                assert(ar.contains(y));
                assert(edge.touches(ar));
                assert(edge.touches(br));
                assert(edge.span().subset_of(node.left.rels().union(node.right.rels())));
                assert(edge.touches(node.left.rels()));
                assert(edge.touches(node.right.rels()));
                assert(self.hyper_edges.joins_at(id, node.left.rels(), node.right.rels()));
                assert(node.edges@.contains(id as usize));
            }
        }
        assert forall|key: Seq<usize>| #[trigger]
            self.best_plans.contains(key) && !members(key).subset_of(
                rels,
            ) implies done.best_plans.contains(key) by {
            assert(members(node.left@).subset_of(rels));
            assert(members(node.right@).subset_of(rels));
            assert(split.best_plans.contains(key));
            assert(first.best_plans.contains(key));
        }
        assert forall|key: Seq<usize>| #[trigger]
            done.best_plans.contains(key) implies self.best_plans.contains(key)
            && done.best_plans.entry(key) == self.best_plans.entry(key) by {
            assert(first.best_plans.contains(key));
            assert(split.best_plans.contains(key));
        }
    }

    /// Whether the conditions of a semi join among the edges of `node` make
    /// its inputs change sides.
    pub open spec fn semi_swapped(self, node: JoinNode) -> bool {
        sides_swapped(
            self.hyper_edges,
            node.edges@,
            members(self.best_plans.entry(node.left@).output_refs@),
            members(self.best_plans.entry(node.right@).output_refs@),
            node.edges@.len(),
        )
    }

    /// The plan of the input of `node` that comes first once semi joins
    /// have had their say: the one that a semi join returns rows of.
    pub open spec fn first_input(self, node: JoinNode) -> JoinNode {
        if self.semi_swapped(node) {
            self.best_plans.entry(node.right@)
        } else {
            self.best_plans.entry(node.left@)
        }
    }

    /// The plan of the other input of `node`.
    pub open spec fn second_input(self, node: JoinNode) -> JoinNode {
        if self.semi_swapped(node) {
            self.best_plans.entry(node.left@)
        } else {
            self.best_plans.entry(node.right@)
        }
    }

    /// Whether the inputs of `node` change sides for the smaller one to be
    /// on the left. They never do where one of the edges is the edge of a
    /// semi join.
    pub open spec fn build_swapped(self, node: JoinNode) -> bool {
        !semi_among(self.hyper_edges, node.edges@, node.edges@.len()) && self.second_input(
            node,
        ).subgraph.cardinality() < self.first_input(node).subgraph.cardinality()
    }

    /// The relations of the input of `node` that is on the left in the plan.
    pub open spec fn left_input(self, node: JoinNode) -> Seq<RelId> {
        if self.build_swapped(node) {
            self.second_input(node).set@
        } else {
            self.first_input(node).set@
        }
    }

    /// The relations of the input of `node` that is on the right in the plan.
    pub open spec fn right_input(self, node: JoinNode) -> Seq<RelId> {
        if self.build_swapped(node) {
            self.first_input(node).set@
        } else {
            self.second_input(node).set@
        }
    }

    /// The filters that `node` applies to the input that is on the left in
    /// the plan.
    pub open spec fn filters_on_left(self, node: JoinNode) -> Seq<FilterId> {
        if self.semi_swapped(node) != self.build_swapped(node) {
            node.right_filters@
        } else {
            node.left_filters@
        }
    }

    /// The filters that `node` applies to the input that is on the right in
    /// the plan.
    pub open spec fn filters_on_right(self, node: JoinNode) -> Seq<FilterId> {
        if self.semi_swapped(node) != self.build_swapped(node) {
            node.left_filters@
        } else {
            node.right_filters@
        }
    }

    /// `plan` is the plan of the relations `input` under the filters `ids`,
    /// as far as `input` is a single relation: the relation's own plan if
    /// there are no filters, else what applying the filters makes of it.
    pub open spec fn is_filtered_input(
        self,
        input: Seq<RelId>,
        ids: Seq<FilterId>,
        plan: LogicalOperator,
    ) -> bool {
        input.len() == 1 ==> self.base_operator(input[0] as int).is_some() && (if ids.len() == 0 {
            plan == self.base_operator(input[0] as int).unwrap()
        } else {
            filtered_shape(
                self.base_operator(input[0] as int).unwrap(),
                predicates_of(self.filters@, ids),
                plan,
            )
        })
    }

    /// The plan built for `relations` relations, and what is pending in
    /// the graph `after`, together account for what was pending in this
    /// graph: the plan has one join more for every relation but one, and
    /// no leaf, filter predicate or join condition is lost or repeated.
    pub open spec fn accounts_for(
        self,
        after: Graph,
        plan: LogicalOperator,
        relations: nat,
    ) -> bool {
        &&& plan.join_count() + after.pending_joins() + 1 == self.pending_joins() + relations
        &&& plan.leaf_count() + after.pending_leaves() == self.pending_leaves()
        &&& plan.filter_conjuncts().add(after.pending_filters()) == self.pending_filters()
        &&& plan.join_conditions().add(after.pending_conditions()) == self.pending_conditions()
    }

    /// The conditions that the plan of the join `node` joins on: the
    /// comparisons of its edges, in the order of the edges, turned to the
    /// sides that the inputs have in the plan.
    ///
    /// A comparison has its sides changed if the tables on its left side
    /// are in the output of the second input, and all are changed once more
    /// if the inputs change sides for the smaller one to be on the left.
    pub open spec fn conditions_joined_on(self, node: JoinNode) -> Seq<ComparisonCondition> {
        let taken = conditions_taken(
            self.hyper_edges,
            node.edges@,
            members(self.second_input(node).output_refs@),
            node.edges@.len(),
        );
        if self.build_swapped(node) {
            flipped_all(taken)
        } else {
            taken
        }
    }

    /// `plan` is the plan of the join `node`: a cross join if the edges of
    /// `node` give no condition to join on, else a join on exactly those
    /// conditions, whose kind goes by whether an edge of `node` is the edge
    /// of a semi join and whose estimate is that of `node`. Its two inputs
    /// hold the scans of the relations of the input that belongs on each
    /// side, and an input that is a single relation is that relation's plan
    /// under the filters that `node` applies to it.
    pub open spec fn is_join_plan(self, node: JoinNode, plan: LogicalOperator) -> bool {
        &&& plan.children().len() == 2
        &&& plan is CrossJoin || plan is ComparisonJoin
        &&& (plan is CrossJoin) == (self.conditions_joined_on(node).len() == 0)
        &&& plan matches LogicalOperator::ComparisonJoin(join) ==> join.node.conditions@
            == self.conditions_joined_on(node) && join.node.join_type == (if semi_among(
            self.hyper_edges,
            node.edges@,
            node.edges@.len(),
        ) {
            JoinType::LeftSemi
        } else {
            JoinType::Inner
        }) && join.estimated_cardinality == StatisticsValue::Estimated(
            recorded_rows(node.subgraph.cardinality()),
        )
        &&& plan.children()[0].scans() == scans_of_relations(
            self.base_relations@,
            members(self.left_input(node)),
        )
        &&& plan.children()[1].scans() == scans_of_relations(
            self.base_relations@,
            members(self.right_input(node)),
        )
        &&& self.is_filtered_input(
            self.left_input(node),
            self.filters_on_left(node),
            plan.children()[0],
        )
        &&& self.is_filtered_input(
            self.right_input(node),
            self.filters_on_right(node),
            plan.children()[1],
        )
    }

    /// The plan of the input of `node` that is on the left in the plan.
    pub open spec fn left_node(self, node: JoinNode) -> JoinNode {
        if self.build_swapped(node) {
            self.second_input(node)
        } else {
            self.first_input(node)
        }
    }

    /// The plan of the input of `node` that is on the right in the plan.
    pub open spec fn right_node(self, node: JoinNode) -> JoinNode {
        if self.build_swapped(node) {
            self.first_input(node)
        } else {
            self.second_input(node)
        }
    }

    /// `plan` is the whole plan of `node`: for a single relation the
    /// relation's own plan, for a join the plan of the join, in which each
    /// input that is itself a join is the whole plan of that join. So every
    /// join in it that is not part of a relation's own plan has two inputs,
    /// joins on the conditions of its own edges, and has the filters on a
    /// single relation directly above that relation.
    pub open spec fn is_tree_of(self, node: JoinNode, plan: LogicalOperator) -> bool
        decreases node.set@.len(),
    {
        if node.set@.len() < 2 {
            node.set@.len() == 1 && Some(plan) == self.base_operator(node.set@[0] as int)
        } else {
            &&& self.is_join_plan(node, plan)
            &&& self.left_node(node).set@.len() >= 2 ==> self.left_node(node).set@.len()
                < node.set@.len() && self.is_tree_of(self.left_node(node), plan.children()[0])
            &&& self.right_node(node).set@.len() >= 2 ==> self.right_node(node).set@.len()
                < node.set@.len() && self.is_tree_of(self.right_node(node), plan.children()[1])
        }
    }

    /// `later` has what the plans for the relations `rels` are made of as
    /// `self` has it: the relations, the filters on them, the edges among
    /// them and the plans for the sets within them.
    pub open spec fn same_within(self, later: Graph, rels: Set<RelId>) -> bool {
        &&& later.filter_owner == self.filter_owner
        &&& later.unplaced == self.unplaced
        &&& later.base_relations@.len() == self.base_relations@.len()
        &&& later.filters@.len() == self.filters@.len()
        &&& forall|r: RelId|
            rels.contains(r) && r < self.base_relations@.len()
                ==> #[trigger] later.base_relations@[r as int] == self.base_relations@[r as int]
        &&& forall|f: FilterId| #[trigger]
            self.owned_by(rels).contains(f) ==> later.filters@[f as int] == self.filters@[f as int]
        &&& forall|id: int|
            self.hyper_edges.present(id) && (#[trigger] self.hyper_edges.edge(id)).span().subset_of(
                rels,
            ) ==> later.hyper_edges.edges@[id] == self.hyper_edges.edges@[id]
        &&& forall|key: Seq<usize>| #[trigger]
            self.best_plans.contains(key) && members(key).subset_of(rels) && members(key) != rels
                ==> later.best_plans.contains(key) && later.best_plans.entry(key)
                == self.best_plans.entry(key)
    }

    /// A graph that keeps what the relations `rels` need has it as before.
    pub proof fn lemma_kept_is_same(self, later: Graph, rels: Set<RelId>)
        requires
            self.keeps(later, rels),
        ensures
            self.same_within(later, rels),
    {
        reveal(Graph::keeps);
    }

    /// What is the same within a set of relations is the same within a
    /// part of it.
    pub proof fn lemma_same_within_part(self, later: Graph, rels: Set<RelId>, part: Set<RelId>)
        requires
            self.same_within(later, rels),
            part.subset_of(rels),
        ensures
            self.same_within(later, part),
    {
        assert forall|f: FilterId| #[trigger]
            self.owned_by(part).contains(f) implies later.filters@[f as int]
            == self.filters@[f as int] by {
            assert(self.owned_by(rels).contains(f));
        }
        assert forall|key: Seq<usize>| #[trigger]
            self.best_plans.contains(key) && members(key).subset_of(part) && members(key)
                != part implies later.best_plans.contains(key) && later.best_plans.entry(key)
            == self.best_plans.entry(key) by {
            assert(members(key).subset_of(rels));
            if members(key) == rels {
                assert(members(key) =~= part);
            }
        }
    }

    /// The plan of a join is told by what is the same within the join's
    /// relations, and so are the plans of its inputs.
    pub proof fn lemma_join_plan_same(self, later: Graph, node: JoinNode, plan: LogicalOperator)
        requires
            self.all_placed(),
            self.entry_ok(node),
            node.set@.len() >= 2,
            self.subtree_ok(node.set.rels()),
            self.same_within(later, node.set.rels()),
        ensures
            later.is_join_plan(node, plan) == self.is_join_plan(node, plan),
            later.left_node(node) == self.left_node(node),
            later.right_node(node) == self.right_node(node),
            self.left_node(node).set@ == node.left@ || self.left_node(node).set@ == node.right@,
            self.right_node(node).set@ == node.left@ || self.right_node(node).set@ == node.right@,
            self.entry_ok(self.left_node(node)),
            self.entry_ok(self.right_node(node)),
            self.left_node(node).set@.len() < node.set@.len(),
            self.right_node(node).set@.len() < node.set@.len(),
            self.left_node(node).set.rels().subset_of(node.set.rels()),
            self.right_node(node).set.rels().subset_of(node.set.rels()),
    {
        reveal(Graph::entry_ok);
        let rels = node.set.rels();
        let l = node.left;
        let r = node.right;
        assert(members(l@).subset_of(rels) && members(r@).subset_of(rels));
        assert(members(l@) != rels) by {
            let x = r@[0];
            assert(r@.contains(x));
            assert(r.rels().contains(x));
        }
        assert(members(r@) != rels) by {
            let x = l@[0];
            assert(l@.contains(x));
            assert(l.rels().contains(x));
        }
        assert(self.best_plans.contains(l@) && self.best_plans.contains(r@));
        let left = self.best_plans.entry(l@);
        let right = self.best_plans.entry(r@);
        assert(later.best_plans.entry(l@) == left);
        assert(later.best_plans.entry(r@) == right);
        assert(left.set@ == l@ && right.set@ == r@);
        assert(self.entry_ok(left) && self.entry_ok(right));
        super::sorted_ids::lemma_disjoint_union_len(l@, r@, node.set@);
        assert(self.hyper_edges.edges.len() <= usize::MAX);
        assert forall|k: int| 0 <= k < node.edges@.len() implies later.hyper_edges.edge(
            #[trigger] node.edges@[k] as int,
        ) == self.hyper_edges.edge(node.edges@[k] as int) by {
            let id = node.edges@[k] as int;
            assert(self.hyper_edges.joins_at(id, l.rels(), r.rels()));
            assert(self.hyper_edges.edge(id).span().subset_of(rels));
        }
        let all = node.edges@.len();
        lemma_edge_specs_same(
            self.hyper_edges,
            later.hyper_edges,
            node.edges@,
            members(left.output_refs@),
            members(right.output_refs@),
            all,
        );
        assert(later.semi_swapped(node) == self.semi_swapped(node));
        assert(later.first_input(node) == self.first_input(node));
        assert(later.second_input(node) == self.second_input(node));
        lemma_edge_specs_same(
            self.hyper_edges,
            later.hyper_edges,
            node.edges@,
            members(left.output_refs@),
            members(self.second_input(node).output_refs@),
            all,
        );
        assert(later.build_swapped(node) == self.build_swapped(node));
        assert(later.conditions_joined_on(node) == self.conditions_joined_on(node));
        assert(self.base_relations.len() <= usize::MAX);
        super::accounting::lemma_scans_same(self.base_relations@, later.base_relations@, l.rels());
        super::accounting::lemma_scans_same(self.base_relations@, later.base_relations@, r.rels());
        assert(self.owned_by(l.rels()).subset_of(self.owned_by(rels)));
        assert(self.owned_by(r.rels()).subset_of(self.owned_by(rels)));
        assert(predicates_of(later.filters@, node.left_filters@) =~= predicates_of(
            self.filters@,
            node.left_filters@,
        )) by {
            let ids = node.left_filters@;
            assert forall|k: int| 0 <= k < ids.len() implies later.filters@[ids[k] as int]
                == self.filters@[ids[k] as int] by {
                let f = ids[k];
                assert(ids.contains(f));
                assert(members(ids).contains(f));
                assert(self.owned_by(rels).contains(f));
            }
        }
        assert(predicates_of(later.filters@, node.right_filters@) =~= predicates_of(
            self.filters@,
            node.right_filters@,
        )) by {
            let ids = node.right_filters@;
            assert forall|k: int| 0 <= k < ids.len() implies later.filters@[ids[k] as int]
                == self.filters@[ids[k] as int] by {
                let f = ids[k];
                assert(ids.contains(f));
                assert(members(ids).contains(f));
                assert(self.owned_by(rels).contains(f));
            }
        }
        if l@.len() == 1 {
            assert(l@.contains(l@[0]));
            assert(rels.contains(l@[0]));
            assert(later.base_operator(l@[0] as int) == self.base_operator(l@[0] as int));
        }
        if r@.len() == 1 {
            assert(r@.contains(r@[0]));
            assert(rels.contains(r@[0]));
            assert(later.base_operator(r@[0] as int) == self.base_operator(r@[0] as int));
        }
        assert(later.is_filtered_input(
            self.left_input(node),
            self.filters_on_left(node),
            plan.children()[0],
        ) == self.is_filtered_input(
            self.left_input(node),
            self.filters_on_left(node),
            plan.children()[0],
        ));
        assert(later.is_filtered_input(
            self.right_input(node),
            self.filters_on_right(node),
            plan.children()[1],
        ) == self.is_filtered_input(
            self.right_input(node),
            self.filters_on_right(node),
            plan.children()[1],
        ));
    }

    /// The whole plan of `node` is told by what is the same within the
    /// relations of `node`.
    pub proof fn lemma_tree_same(self, later: Graph, node: JoinNode, plan: LogicalOperator)
        requires
            self.all_placed(),
            self.entry_ok(node),
            self.subtree_ok(node.set.rels()),
            self.same_within(later, node.set.rels()),
        ensures
            later.is_tree_of(node, plan) == self.is_tree_of(node, plan),
        decreases node.set@.len(),
    {
        if node.set@.len() < 2 {
            if node.set@.len() == 1 {
                let r = node.set@[0];
                assert(node.set@.contains(r));
                assert(node.set.rels().contains(r));
                assert(self.base_relations.len() <= usize::MAX);
            }
        } else {
            self.lemma_join_plan_same(later, node, plan);
            let left = self.left_node(node);
            let right = self.right_node(node);
            if left.set@.len() >= 2 {
                self.lemma_same_within_part(later, node.set.rels(), left.set.rels());
                self.lemma_tree_same(later, left, plan.children()[0]);
            }
            if right.set@.len() >= 2 {
                self.lemma_same_within_part(later, node.set.rels(), right.set.rels());
                self.lemma_tree_same(later, right, plan.children()[1]);
            }
        }
    }

    /// Building the plan of the join `node` has used up what the join was
    /// made of: the plans of its two inputs have left the memo and all its
    /// edges have left the graph.
    pub open spec fn used_up(self, node: JoinNode) -> bool {
        &&& !self.best_plans.contains(node.left@)
        &&& !self.best_plans.contains(node.right@)
        &&& forall|k: int|
            0 <= k < node.edges@.len() ==> !self.hyper_edges.present(
                #[trigger] node.edges@[k] as int,
            )
    }

    /// A join has been taken apart in the graph `before`: the plans of the
    /// inputs of `node` have left the memo and its edges the graph. Nothing
    /// else has changed.
    #[verifier::opaque]
    pub open spec fn split_from(self, before: Graph, node: JoinNode) -> bool {
        &&& self.filter_owner == before.filter_owner
        &&& self.unplaced == before.unplaced
        &&& self.pairs_considered == before.pairs_considered
        &&& self.base_relations == before.base_relations
        &&& self.filters == before.filters
        &&& self.hyper_edges.edges@.len() == before.hyper_edges.edges@.len()
        &&& forall|id: int|
            0 <= id < before.hyper_edges.edges@.len() ==> #[trigger] self.hyper_edges.edges@[id]
                == (if members(node.edges@).contains(id as usize) {
                None
            } else {
                before.hyper_edges.edges@[id]
            })
        &&& self.best_plans.wf()
        &&& forall|key: Seq<usize>| #[trigger]
            self.best_plans.contains(key) ==> before.best_plans.contains(key)
                && self.best_plans.entry(key) == before.best_plans.entry(key)
        &&& forall|key: Seq<usize>| #[trigger]
            before.best_plans.contains(key) && key != node.left@ && key != node.right@
                ==> self.best_plans.contains(key)
        &&& !self.best_plans.contains(node.left@)
        &&& !self.best_plans.contains(node.right@)
    }

    /// The inputs `a` and `b` with their filters are those of `node`, on the
    /// sides they have in `node` or on the other sides.
    pub open spec fn inputs_of(
        node: JoinNode,
        a: JoinNode,
        b: JoinNode,
        a_filters: Seq<FilterId>,
        b_filters: Seq<FilterId>,
    ) -> bool {
        ||| (a.set@ == node.left@ && b.set@ == node.right@ && a_filters == node.left_filters@
            && b_filters == node.right_filters@)
        ||| (a.set@ == node.right@ && b.set@ == node.left@ && a_filters == node.right_filters@
            && b_filters == node.left_filters@)
    }

    /// The join `node` can be taken apart: the memo has plans for its two
    /// inputs, which are not the same set, and all its edges are in the
    /// graph, none of them twice among the edges of `node`.
    pub open spec fn can_split(self, node: JoinNode) -> bool {
        &&& self.best_plans.contains(node.left@)
        &&& self.best_plans.contains(node.right@)
        &&& node.left@ != node.right@
        &&& forall|k: int|
            0 <= k < node.edges@.len() ==> self.hyper_edges.present(
                #[trigger] node.edges@[k] as int,
            )
        &&& node.edges@.no_duplicates()
    }

    /// One of the edges of `node` is not in the graph.
    pub open spec fn lacks_edge(self, node: JoinNode) -> bool {
        exists|k: int|
            0 <= k < node.edges@.len() && !self.hyper_edges.present(
                #[trigger] node.edges@[k] as int,
            )
    }

    /// `error` says why the join `node` cannot be taken apart: the first of
    /// these that holds. The memo has no plan for the left input. It has
    /// none for the right input, or none once the plan for the left input
    /// is taken, the two being the same set. An edge of `node` is not in
    /// the graph. An edge is twice among the edges of `node`.
    pub open spec fn split_error(self, node: JoinNode, error: JoinOrderError) -> bool {
        if !self.best_plans.contains(node.left@) {
            error == JoinOrderError::MissingLeftInput
        } else if !self.best_plans.contains(node.right@) || node.right@ == node.left@ {
            error == JoinOrderError::MissingRightInput
        } else if self.lacks_edge(node) {
            exists|k: int|
                0 <= k < node.edges@.len() && !self.hyper_edges.present(
                    #[trigger] node.edges@[k] as int,
                ) && error == (JoinOrderError::MissingEdge { edge_id: node.edges@[k] })
        } else {
            exists|k: int|
                0 <= k < node.edges@.len() && members(node.edges@.take(k)).contains(
                    #[trigger] node.edges@[k],
                ) && error == (JoinOrderError::EdgeAlreadyUsed { edge_id: node.edges@[k] })
        }
    }

    /// A join whose plan can be built can be taken apart.
    proof fn lemma_buildable_can_split(self, node: JoinNode)
        requires
            self.buildable(node),
            node.set@.len() >= 2,
        ensures
            self.can_split(node),
    {
        reveal(Graph::buildable);
        reveal(Graph::entry_ok);
        assert(node.left@ != node.right@) by {
            let x = node.left@[0];
            assert(node.left@.contains(x));
            assert(node.left.rels().contains(x));
        }
        assert forall|k: int| 0 <= k < node.edges@.len() implies self.hyper_edges.present(
            #[trigger] node.edges@[k] as int,
        ) by {
            assert(self.hyper_edges.joins_at(
                node.edges@[k] as int,
                node.left.rels(),
                node.right.rels(),
            ));
        }
    }

    /// Takes a join apart: the plans of its inputs leave the memo, the
    /// conditions of its edges leave the graph.
    ///
    /// Where an edge is the edge of a semi join, the input that the join
    /// returns rows of comes first, with its filters. A condition whose
    /// left side is over the second input has its sides changed.
    ///
    /// Fails if the memo has no plan for an input, or if an edge is not in
    /// the graph or is there twice among the edges of the join.
    fn split_join(&mut self, node: JoinNode) -> (result: Result<JoinParts, JoinOrderError>)
        requires
            old(self).best_plans.wf(),
        ensures
            final(self).best_plans.wf(),
            final(self).base_relations == old(self).base_relations,
            final(self).filters == old(self).filters,
            final(self).best_plans.nodes@.len() <= old(self).best_plans.nodes@.len(),
            result.is_ok() ==> final(self).best_plans.nodes@.len() < old(
                self,
            ).best_plans.nodes@.len(),
            result.is_ok() <==> old(self).can_split(node),
            result matches Err(e) ==> old(self).split_error(node, e),
            result matches Ok(parts) ==> conditions_of(
                parts.conditions@,
                parts.conditions@.len(),
            ).add(final(self).pending_conditions()) == old(self).pending_conditions(),
            old(self).buildable(node) && node.set@.len() >= 2 ==> (result matches Ok(parts) ==> {
                &&& final(self).split_from(*old(self), node)
                &&& Self::inputs_of(node, parts.a, parts.b, parts.a_filters@, parts.b_filters@)
                &&& old(self).entry_ok(parts.a)
                &&& old(self).entry_ok(parts.b)
                &&& final(self).buildable(parts.a)
                &&& final(self).buildable(parts.b)
                &&& parts.a.set@.len() >= 1
                &&& parts.b.set@.len() >= 1
                &&& parts.a.set.rels().disjoint(parts.b.set.rels())
                &&& parts.a.set@.len() + parts.b.set@.len() == node.set@.len()
                &&& parts.cardinality == node.subgraph.cardinality()
                &&& parts.a == old(self).first_input(node)
                &&& parts.b == old(self).second_input(node)
                &&& parts.a_filters@ == (if old(self).semi_swapped(node) {
                    node.right_filters@
                } else {
                    node.left_filters@
                })
                &&& parts.b_filters@ == (if old(self).semi_swapped(node) {
                    node.left_filters@
                } else {
                    node.right_filters@
                })
                &&& parts.any_semi == semi_among(
                    old(self).hyper_edges,
                    node.edges@,
                    node.edges@.len(),
                )
                &&& conditions_of(parts.conditions@, parts.conditions@.len()).add(
                    final(self).pending_conditions(),
                ) == old(self).pending_conditions()
                &&& parts.conditions@ == conditions_taken(
                    old(self).hyper_edges,
                    node.edges@,
                    members(parts.b.output_refs@),
                    node.edges@.len(),
                )
            }),
    {
        let ghost start = *self;
        let ghost whole = node;
        let ghost sound = start.buildable(whole) && whole.set@.len() >= 2;
        proof {
            if sound {
                start.lemma_buildable_can_split(whole);
            }
        }
        let JoinNode {
            set,
            cost: _,
            left,
            right,
            subgraph,
            output_refs: _,
            edges,
            left_filters,
            right_filters,
            used: _,
        } = node;
        let left_gen = match self.best_plans.remove(&left) {
            Some(plan) => plan,
            None => {
                return Err(JoinOrderError::MissingLeftInput);
            },
        };
        let right_gen = match self.best_plans.remove(&right) {
            Some(plan) => plan,
            None => {
                return Err(JoinOrderError::MissingRightInput);
            },
        };
        // If any of the conditions are part of a semi join, ensure the
        // correct order of the plans and prevent swapping sides.
        let sides = match self.semi_sides(&edges, &left_gen.output_refs, &right_gen.output_refs) {
            Ok(sides) => sides,
            Err(e) => {
                assert(start.lacks_edge(whole));
                return Err(e);
            },
        };
        let (any_semi, swapped) = sides;
        // The filters go with the plans.
        let (a, b, a_filters, b_filters) = if swapped {
            (right_gen, left_gen, right_filters, left_filters)
        } else {
            (left_gen, right_gen, left_filters, right_filters)
        };
        let conditions = match self.take_conditions(&edges, &b.output_refs) {
            Ok(conditions) => conditions,
            Err(e) => {
                assert(!start.lacks_edge(whole));
                return Err(e);
            },
        };
        let cardinality = subgraph.estimated_cardinality();
        proof {
            assert(!start.lacks_edge(whole));
            let bases = gathered(
                base_conditions_held(start.base_relations@),
                start.base_relations@.len(),
            );
            let own = conditions_of(conditions@, conditions@.len());
            let e2 = gathered(
                conditions_held(self.hyper_edges.edges@),
                self.hyper_edges.edges@.len(),
            );
            assert(own.add(bases.add(e2)) =~= bases.add(own.add(e2)));
            if sound {
                reveal(Graph::buildable);
                reveal(Graph::split_from);
                reveal(Graph::entry_ok);
                assert(self.split_from(start, whole));
                start.lemma_split_inputs(*self, whole, a, b);
                super::sorted_ids::lemma_disjoint_union_len(left@, right@, set@);
            }
        }
        Ok(JoinParts { a, b, a_filters, b_filters, conditions, any_semi, cardinality })
    }

    /// Once a join is taken apart, the plans of both its inputs can be built.
    proof fn lemma_split_inputs(self, split: Graph, node: JoinNode, a: JoinNode, b: JoinNode)
        requires
            self.buildable(node),
            node.set@.len() >= 2,
            split.split_from(self, node),
            (a == self.best_plans.entry(node.left@) && b == self.best_plans.entry(node.right@))
                || (a == self.best_plans.entry(node.right@) && b == self.best_plans.entry(
                node.left@,
            )),
        ensures
            self.entry_ok(a),
            self.entry_ok(b),
            split.buildable(a),
            split.buildable(b),
            (a.set@ == node.left@ && b.set@ == node.right@) || (a.set@ == node.right@ && b.set@
                == node.left@),
    {
        reveal(Graph::entry_ok);
        reveal(Graph::buildable);
        reveal(Graph::split_from);
        assert(members(node.left@).subset_of(node.set.rels()));
        assert(members(node.right@).subset_of(node.set.rels()));
        assert(self.best_plans.contains(node.left@));
        assert(self.best_plans.contains(node.right@));
        assert(self.entry_ok(a) && self.entry_ok(b));
        assert(self.subtree_ok(a.set.rels()));
        assert(self.subtree_ok(b.set.rels()));
        assert(self.resources_ok(a.set.rels())) by {
            assert(self.owned_by(a.set.rels()).subset_of(self.owned_by(node.set.rels())));
        }
        assert(self.resources_ok(b.set.rels())) by {
            assert(self.owned_by(b.set.rels()).subset_of(self.owned_by(node.set.rels())));
        }
        self.lemma_keeps_after_split(split, node, a);
        self.lemma_keeps_after_split(split, node, b);
        self.lemma_buildable_kept(split, a);
        self.lemma_buildable_kept(split, b);
    }

    /// Base relation `r` is in the graph.
    pub open spec fn base_held(self, r: int) -> bool {
        0 <= r < self.base_relations@.len() && self.base_relations@[r].is_some()
    }

    /// Recursively builds up the logical operator from a generated join node.
    ///
    /// The plan of a single relation is the relation's own plan, taken out of
    /// the graph. The plan of a join is the join of its inputs' plans, each
    /// under the filters that the join applies to it, on the conditions of
    /// the join's edges, which leave the graph.
    ///
    /// Where an edge is the edge of a semi join, the input that the join
    /// returns rows of goes on the left and the sides stay as they are.
    /// Otherwise the input with the smaller estimated cardinality goes on
    /// the left, and the conditions change sides with the inputs.
    ///
    /// A plan that is sound, with all it is made of in the graph and every
    /// filter on one relation, is built. Otherwise what is missing is
    /// reported where it is missed: a single relation that is not in the
    /// graph, a join that cannot be taken apart, a filter that is applied a
    /// second time, or the like further down in an input. Whatever plan
    /// comes back, nothing is lost or repeated between it and the graph.
    #[verifier::rlimit(40)]
    pub fn build_from_generated(&mut self, node: JoinNode) -> (result: Result<
        LogicalOperator,
        JoinOrderError,
    >)
        requires
            old(self).best_plans.wf(),
        ensures
            final(self).best_plans.wf(),
            final(self).best_plans.nodes@.len() <= old(self).best_plans.nodes@.len(),
            old(self).buildable(node) ==> result.is_ok(),
            node.set@.len() == 1 && !old(self).base_held(node.set@[0] as int) ==> result == Err::<
                LogicalOperator,
                JoinOrderError,
            >(JoinOrderError::MissingBaseRelation),
            node.set@.len() == 1 && old(self).base_held(node.set@[0] as int) ==> result == Ok::<
                LogicalOperator,
                JoinOrderError,
            >(old(self).base_relations@[node.set@[0] as int].unwrap().operator),
            node.set@.len() != 1 && !old(self).can_split(node) ==> (result matches Err(e)
                && old(self).split_error(node, e)),
            node.set@.len() == 1 ==> final(self).hyper_edges == old(self).hyper_edges,
            node.set@.len() == 1 ==> final(self).filters == old(self).filters,
            node.set@.len() == 1 ==> final(self).best_plans == old(self).best_plans,
            node.set@.len() == 1 ==> final(self).base_relations@ == (if old(self).base_held(
                node.set@[0] as int,
            ) {
                old(self).base_relations@.update(node.set@[0] as int, None)
            } else {
                old(self).base_relations@
            }),
            result matches Ok(plan) ==> old(self).conserves(*final(self), plan),
            old(self).buildable(node) ==> final(self).built_from(
                *old(self),
                node.set.rels(),
                node.set@.len() >= 2,
            ),
            old(self).buildable(node) ==> (result matches Ok(plan) ==> {
                &&& old(self).accounts_for(*final(self), plan, node.set@.len())
                &&& plan.scans() == scans_of_relations(old(self).base_relations@, node.set.rels())
                &&& old(self).is_tree_of(node, plan)
                &&& node.set@.len() >= 2 ==> final(self).used_up(node)
            }),
        decreases old(self).best_plans.nodes@.len(),
    {
        let ghost start = *self;
        let ghost sound = start.buildable(node);
        // If we're building a base relation, we can just return the relation
        // as-is.
        if node.set.is_base() {
            let r = node.set.relation_indices[0];
            let rel = match self.take_base(r) {
                Some(rel) => rel,
                None => {
                    proof {
                        if sound {
                            assert(node.set@.contains(r));
                            assert(node.set.rels().contains(r));
                            assert(start.base_present(r as int)) by {
                                reveal(Graph::buildable);
                            }
                        }
                    }
                    return Err(JoinOrderError::MissingBaseRelation);
                },
            };
            proof {
                start.lemma_base_taken(*self, r);
                if sound {
                    assert(node.set@.contains(r));
                    assert(node.set.rels().contains(r));
                    assert(start.base_present(r as int)) by {
                        reveal(Graph::buildable);
                    }
                    start.lemma_built_base(*self, node, r);
                }
            }
            return Ok(rel.operator);
        }
        // Otherwise build up the plan.
        let ghost whole = node;
        proof {
            if sound {
                assert(node.set@.len() >= 2 && start.entry_ok(node)) by {
                    reveal(Graph::buildable);
                    reveal(Graph::entry_ok);
                }
                start.lemma_buildable_can_split(node);
            }
        }
        let JoinParts { a, b, a_filters, b_filters, conditions, any_semi, cardinality } =
            self.split_join(node)?;
        let ghost split = *self;
        let ghost a_node = a;
        let ghost b_node = b;
        // Determine if we should swap sides. We always want left (build)
        // side to have the lower cardinality (not necessarily cost).
        //
        // Don't swap sides yet, still need to apply filters.
        let plan_swap_sides = !any_semi && b.subgraph.estimated_cardinality()
            < a.subgraph.estimated_cardinality();

        let a_plan = self.build_from_generated(a)?;
        let ghost first = *self;
        proof {
            if sound {
                assert(a_node.set.rels().disjoint(b_node.set.rels()));
                split.lemma_keeps_after_sibling(
                    first,
                    a_node.set.rels(),
                    a_node.set@.len() >= 2,
                    b_node,
                );
                assert(split.all_placed() && split.shape_ok() && split.entry_ok(b_node)
                    && split.subtree_ok(b_node.set.rels()) && split.resources_ok(
                    b_node.set.rels(),
                )) by {
                    reveal(Graph::buildable);
                }
                split.lemma_buildable_kept(first, b_node);
            }
        }
        let b_plan = self.build_from_generated(b)?;
        let ghost second = *self;
        proof {
            if sound {
                start.lemma_filters_left(
                    split,
                    first,
                    second,
                    whole,
                    a_node,
                    b_node,
                    a_filters@,
                    b_filters@,
                );
            }
        }
        let a_filtered = self.apply_filters(a_plan, &a_filters)?;
        let ghost third = *self;
        proof {
            if sound {
                assert forall|k: int| 0 <= k < b_filters@.len() implies third.filter_present(
                    #[trigger] b_filters@[k] as int,
                ) by {
                    let f = b_filters@[k];
                    assert(b_filters@.contains(f));
                    assert(members(b_filters@).contains(f));
                    assert(second.filter_present(f as int));
                    assert(!members(a_filters@).contains(f));
                }
            }
        }
        let b_filtered = self.apply_filters(b_plan, &b_filters)?;
        proof {
            if sound {
                start.lemma_joined(
                    split,
                    first,
                    second,
                    third,
                    *self,
                    whole,
                    a_node,
                    b_node,
                    a_filters@,
                    b_filters@,
                    a_plan,
                    b_plan,
                    a_filtered,
                    b_filtered,
                );
            }
        }
        let ghost own = conditions_of(conditions@, conditions@.len());
        // If we swapped sides, we'll need to flip the join conditions to match.
        let plan = if plan_swap_sides {
            join_plans(b_filtered, a_filtered, flip_all(conditions), any_semi, cardinality)
        } else {
            join_plans(a_filtered, b_filtered, conditions, any_semi, cardinality)
        };
        proof {
            start.lemma_join_conserves(
                split,
                first,
                second,
                third,
                *self,
                own,
                a_plan,
                b_plan,
                a_filtered,
                b_filtered,
                plan,
            );
        }
        Ok(plan)
    }

    /// What holds once both inputs of a join are built and their filters
    /// applied: what the join has made of the graph, which plans the
    /// inputs' plans are, and that an input which is a join has no filters
    /// applied to it.
    proof fn lemma_joined(
        self,
        split: Graph,
        first: Graph,
        second: Graph,
        third: Graph,
        done: Graph,
        node: JoinNode,
        a: JoinNode,
        b: JoinNode,
        a_filters: Seq<FilterId>,
        b_filters: Seq<FilterId>,
        a_plan: LogicalOperator,
        b_plan: LogicalOperator,
        a_filtered: LogicalOperator,
        b_filtered: LogicalOperator,
    )
        requires
            self.buildable(node),
            node.set@.len() >= 2,
            Self::inputs_of(node, a, b, a_filters, b_filters),
            a.set@.len() >= 1,
            b.set@.len() >= 1,
            self.entry_ok(a),
            self.entry_ok(b),
            split.split_from(self, node),
            split.base_relations == self.base_relations,
            split.buildable(b),
            first.built_from(split, a.set.rels(), a.set@.len() >= 2),
            second.built_from(first, b.set.rels(), b.set@.len() >= 2),
            split.is_tree_of(a, a_plan),
            first.is_tree_of(b, b_plan),
            third.filter_owner == second.filter_owner,
            third.unplaced == second.unplaced,
            third.pairs_considered == second.pairs_considered,
            third.base_relations == second.base_relations,
            third.hyper_edges == second.hyper_edges,
            third.best_plans == second.best_plans,
            third.filters@.len() == second.filters@.len(),
            forall|f: int|
                0 <= f < second.filters@.len() ==> #[trigger] third.filters@[f] == (if members(
                    a_filters,
                ).contains(f as usize) {
                    None
                } else {
                    second.filters@[f]
                }),
            done.filter_owner == third.filter_owner,
            done.unplaced == third.unplaced,
            done.pairs_considered == third.pairs_considered,
            done.base_relations == third.base_relations,
            done.hyper_edges == third.hyper_edges,
            done.best_plans == third.best_plans,
            done.filters@.len() == third.filters@.len(),
            forall|f: int|
                0 <= f < third.filters@.len() ==> #[trigger] done.filters@[f] == (if members(
                    b_filters,
                ).contains(f as usize) {
                    None
                } else {
                    third.filters@[f]
                }),
            a_filters.len() == 0 ==> a_filtered == a_plan,
            a_filters.len() > 0 ==> filtered_shape(
                a_plan,
                predicates_of(second.filters@, a_filters),
                a_filtered,
            ),
            b_filters.len() == 0 ==> b_filtered == b_plan,
            b_filters.len() > 0 ==> filtered_shape(
                b_plan,
                predicates_of(third.filters@, b_filters),
                b_filtered,
            ),
        ensures
            done.built_from(self, node.set.rels(), true),
            done.used_up(node),
            self.is_tree_of(a, a_plan),
            self.is_tree_of(b, b_plan),
            a.set@.len() >= 2 ==> a_filtered == a_plan,
            b.set@.len() >= 2 ==> b_filtered == b_plan,
            self.is_filtered_input(a.set@, a_filters, a_filtered),
            self.is_filtered_input(b.set@, b_filters, b_filtered),
            scans_of_relations(first.base_relations@, b.set.rels()) == scans_of_relations(
                self.base_relations@,
                b.set.rels(),
            ),
            scans_of_relations(self.base_relations@, node.set.rels()) == scans_of_relations(
                self.base_relations@,
                a.set.rels(),
            ).add(scans_of_relations(self.base_relations@, b.set.rels())),
    {
        self.lemma_filters_left(split, first, second, node, a, b, a_filters, b_filters);
        self.lemma_built_join(split, first, second, third, done, node, a, b, a_filters, b_filters);
        assert(self.entry_ok(node)) by {
            reveal(Graph::buildable);
        }
        self.lemma_scans_of_inputs(split, first, node, a, b);
        self.lemma_trees_of_inputs(split, first, node, a, b, a_plan, b_plan);
        if a.set@.len() >= 2 {
            if a_filters.len() > 0 {
                assert(a_filters.contains(a_filters[0]));
                assert(members(a_filters).contains(a_filters[0]));
            }
        } else {
            assert(split.base_operator(a.set@[0] as int) == self.base_operator(
                a.set@[0] as int,
            ));
        }
        if b.set@.len() >= 2 {
            if b_filters.len() > 0 {
                assert(b_filters.contains(b_filters[0]));
                assert(members(b_filters).contains(b_filters[0]));
            }
        }
        assert(predicates_of(third.filters@, b_filters) =~= predicates_of(
            second.filters@,
            b_filters,
        )) by {
            assert forall|k: int|
                0 <= k < b_filters.len() implies third.filters@[b_filters[k] as int]
                == second.filters@[b_filters[k] as int] by {
                let f = b_filters[k];
                assert(b_filters.contains(f));
                assert(members(b_filters).contains(f));
                assert(second.filter_present(f as int));
                assert(!members(a_filters).contains(f));
            }
        }
    }

    /// The whole plans of the two inputs of a join, built one after the
    /// other once the join is taken apart, are their whole plans in the
    /// graph before.
    proof fn lemma_trees_of_inputs(
        self,
        split: Graph,
        first: Graph,
        node: JoinNode,
        a: JoinNode,
        b: JoinNode,
        a_plan: LogicalOperator,
        b_plan: LogicalOperator,
    )
        requires
            self.buildable(node),
            node.set@.len() >= 2,
            (a.set@ == node.left@ && b.set@ == node.right@) || (a.set@ == node.right@ && b.set@
                == node.left@),
            self.entry_ok(a),
            self.entry_ok(b),
            split.split_from(self, node),
            split.buildable(b),
            first.built_from(split, a.set.rels(), a.set@.len() >= 2),
            split.is_tree_of(a, a_plan),
            first.is_tree_of(b, b_plan),
        ensures
            self.is_tree_of(a, a_plan),
            self.is_tree_of(b, b_plan),
    {
        assert(self.all_placed() && self.shape_ok() && self.entry_ok(node) && self.subtree_ok(
            node.set.rels(),
        )) by {
            reveal(Graph::buildable);
        }
        assert(a.set.rels().subset_of(node.set.rels()) && b.set.rels().subset_of(node.set.rels())
            && a.set.rels().disjoint(b.set.rels())) by {
            reveal(Graph::entry_ok);
        }
        self.lemma_keeps_after_split(split, node, a);
        self.lemma_kept_is_same(split, a.set.rels());
        self.lemma_tree_same(split, a, a_plan);
        assert(split.all_placed() && split.entry_ok(b) && split.subtree_ok(b.set.rels())) by {
            reveal(Graph::buildable);
        }
        split.lemma_keeps_after_sibling(first, a.set.rels(), a.set@.len() >= 2, b);
        split.lemma_kept_is_same(first, b.set.rels());
        split.lemma_tree_same(first, b, b_plan);
        self.lemma_keeps_after_split(split, node, b);
        self.lemma_kept_is_same(split, b.set.rels());
        self.lemma_tree_same(split, b, b_plan);
    }

    /// The scans of the relations of a join are those of its two inputs,
    /// and those of the second input are the same once the first is built.
    proof fn lemma_scans_of_inputs(
        self,
        split: Graph,
        first: Graph,
        node: JoinNode,
        a: JoinNode,
        b: JoinNode,
    )
        requires
            self.entry_ok(node),
            node.set@.len() >= 2,
            (a.set@ == node.left@ && b.set@ == node.right@) || (a.set@ == node.right@ && b.set@
                == node.left@),
            split.base_relations == self.base_relations,
            first.built_from(split, a.set.rels(), a.set@.len() >= 2),
        ensures
            scans_of_relations(first.base_relations@, b.set.rels()) == scans_of_relations(
                self.base_relations@,
                b.set.rels(),
            ),
            scans_of_relations(self.base_relations@, node.set.rels()) == scans_of_relations(
                self.base_relations@,
                a.set.rels(),
            ).add(scans_of_relations(self.base_relations@, b.set.rels())),
    {
        reveal(Graph::entry_ok);
        reveal(Graph::built_from);
        let ar = a.set.rels();
        let br = b.set.rels();
        assert(ar.disjoint(br));
        assert(node.set.rels() =~= ar.union(br));
        assert(self.base_relations.len() <= usize::MAX);
        super::accounting::lemma_scans_disjoint(self.base_relations@, ar, br);
        assert forall|r: usize|
            br.contains(r) && r < self.base_relations@.len()
                implies #[trigger] first.base_relations@[r as int]
                    == self.base_relations@[r as int] by {
            assert(!ar.contains(r));
        }
        super::accounting::lemma_scans_same(self.base_relations@, first.base_relations@, br);
    }

    /// The plan of base relation `r`, while the relation is in the graph.
    pub open spec fn base_operator(self, r: int) -> Option<LogicalOperator> {
        if 0 <= r < self.base_relations@.len() && self.base_relations@[r].is_some() {
            Some(self.base_relations@[r].unwrap().operator)
        } else {
            None
        }
    }

    /// What taking a single relation's plan has made of the graph.
    proof fn lemma_built_base(self, later: Graph, node: JoinNode, r: RelId)
        requires
            self.buildable(node),
            node.set@.len() == 1,
            r == node.set@[0],
            self.base_present(r as int),
            later.hyper_edges == self.hyper_edges,
            later.filter_owner == self.filter_owner,
            later.unplaced == self.unplaced,
            later.filters == self.filters,
            later.best_plans == self.best_plans,
            later.pairs_considered == self.pairs_considered,
            later.base_relations@ == self.base_relations@.update(r as int, None),
        ensures
            later.built_from(self, node.set.rels(), false),
            self.base_relations@[r as int].unwrap().operator.join_count() + later.pending_joins()
                == self.pending_joins(),
            self.base_relations@[r as int].unwrap().operator.leaf_count() + later.pending_leaves()
                == self.pending_leaves(),
            self.base_relations@[r as int].unwrap().operator.filter_conjuncts().add(
                later.pending_filters(),
            ) == self.pending_filters(),
            self.base_relations@[r as int].unwrap().operator.join_conditions().add(
                later.pending_conditions(),
            ) == self.pending_conditions(),
            self.base_relations@[r as int].unwrap().operator.scans() == scans_of_relations(
                self.base_relations@,
                node.set.rels(),
            ),
    {
        reveal(Graph::entry_ok);
        reveal(Graph::buildable);
        reveal(Graph::built_from);
        let rels = node.set.rels();
        let n = self.base_relations@.len();
        let op = self.base_relations@[r as int].unwrap().operator;
        assert(self.base_relations.len() <= usize::MAX);
        super::accounting::lemma_scans_single(self.base_relations@, r);
        assert(rels =~= set![r]) by {
            assert forall|x: RelId| rels.contains(x) == set![r].contains(x) by {
                if node.set@.contains(x) {
                    let k = choose|k: int| 0 <= k < node.set@.len() && node.set@[k] == x;
                }
                if x == r {
                    assert(node.set@[0] == x);
                }
            }
        }
        assert forall|id: int|
            self.hyper_edges.present(id) && (#[trigger] self.hyper_edges.edge(id)).filter.is_some()
                && self.hyper_edges.edge(id).span().subset_of(
                rels,
            ) implies later.hyper_edges.edges@[id].is_none() by {
            let edge = self.hyper_edges.edge(id);
            assert(edge.wf(id, self.n()));
            let (x, y) = choose|x: RelId, y: RelId|
                x != y && edge.span().contains(x) && edge.span().contains(y);
            assert(rels.contains(x) && rels.contains(y));
        }
        assert(joins_held(later.base_relations@) =~= joins_held(self.base_relations@).update(
            r as int,
            0,
        ));
        assert(leaves_held(later.base_relations@) =~= leaves_held(self.base_relations@).update(
            r as int,
            0,
        ));
        assert(base_filters_held(later.base_relations@) =~= base_filters_held(
            self.base_relations@,
        ).update(r as int, Multiset::empty()));
        assert(base_conditions_held(later.base_relations@) =~= base_conditions_held(
            self.base_relations@,
        ).update(r as int, Multiset::empty()));
        super::accounting::lemma_total_without(joins_held(self.base_relations@), r as int, n);
        super::accounting::lemma_total_without(leaves_held(self.base_relations@), r as int, n);
        lemma_gathered_without(base_filters_held(self.base_relations@), r as int, n);
        lemma_gathered_without(base_conditions_held(self.base_relations@), r as int, n);
        let f = gathered(filters_held(self.filters@), self.filters@.len());
        let bf = gathered(base_filters_held(later.base_relations@), n);
        assert(op.filter_conjuncts().add(bf.add(f)) =~= bf.add(op.filter_conjuncts()).add(f));
        let c = gathered(
            conditions_held(self.hyper_edges.edges@),
            self.hyper_edges.edges@.len(),
        );
        let bc = gathered(base_conditions_held(later.base_relations@), n);
        assert(op.join_conditions().add(bc.add(c)) =~= bc.add(op.join_conditions()).add(c));
    }

    /// After both inputs of a join are built, the filters that the join
    /// applies to its inputs are still in the graph.
    proof fn lemma_filters_left(
        self,
        split: Graph,
        first: Graph,
        second: Graph,
        node: JoinNode,
        a: JoinNode,
        b: JoinNode,
        a_filters: Seq<FilterId>,
        b_filters: Seq<FilterId>,
    )
        requires
            self.buildable(node),
            node.set@.len() >= 2,
            Self::inputs_of(node, a, b, a_filters, b_filters),
            split.split_from(self, node),
            first.built_from(split, a.set.rels(), a.set@.len() >= 2),
            second.built_from(first, b.set.rels(), b.set@.len() >= 2),
        ensures
            is_ordered(a_filters),
            is_ordered(b_filters),
            members(a_filters) == self.pending_for(a.set@),
            members(b_filters) == self.pending_for(b.set@),
            members(a_filters).disjoint(members(b_filters)),
            forall|k: int|
                0 <= k < a_filters.len() ==> second.filter_present(#[trigger] a_filters[k] as int),
            forall|k: int|
                0 <= k < b_filters.len() ==> second.filter_present(#[trigger] b_filters[k] as int),
            predicates_of(second.filters@, a_filters) == predicates_of(self.filters@, a_filters),
            predicates_of(second.filters@, b_filters) == predicates_of(self.filters@, b_filters),
            b.set@.len() == 1 ==> first.base_operator(b.set@[0] as int) == self.base_operator(
                b.set@[0] as int,
            ),
    {
        reveal(Graph::entry_ok);
        reveal(Graph::buildable);
        reveal(Graph::split_from);
        reveal(Graph::built_from);
        let ar = a.set.rels();
        let br = b.set.rels();
        assert(ar.disjoint(br));
        assert(self.owned_by(ar).subset_of(self.owned_by(node.set.rels())));
        assert(self.owned_by(br).subset_of(self.owned_by(node.set.rels())));
        assert(split.owned_by(ar) =~= self.owned_by(ar));
        assert(first.owned_by(br) =~= self.owned_by(br));
        assert forall|k: int| 0 <= k < a_filters.len() implies second.filter_present(
            #[trigger] a_filters[k] as int,
        ) by {
            let f = a_filters[k];
            assert(a_filters.contains(f));
            assert(members(a_filters).contains(f));
            assert(self.filter_present(f as int));
            assert(!self.owned_by(br).contains(f));
        }
        assert forall|k: int| 0 <= k < b_filters.len() implies second.filter_present(
            #[trigger] b_filters[k] as int,
        ) by {
            let f = b_filters[k];
            assert(b_filters.contains(f));
            assert(members(b_filters).contains(f));
            assert(self.filter_present(f as int));
            assert(!self.owned_by(ar).contains(f));
        }
        assert(predicates_of(second.filters@, a_filters) =~= predicates_of(
            self.filters@,
            a_filters,
        )) by {
            assert forall|k: int|
                0 <= k < a_filters.len() implies second.filters@[a_filters[k] as int]
                == self.filters@[a_filters[k] as int] by {
                let f = a_filters[k];
                assert(a_filters.contains(f));
                assert(members(a_filters).contains(f));
                assert(self.filter_present(f as int));
                assert(!self.owned_by(br).contains(f));
                assert(first.filters@[f as int] == split.filters@[f as int]);
                assert(second.filters@[f as int] == first.filters@[f as int]);
            }
        }
        assert(predicates_of(second.filters@, b_filters) =~= predicates_of(
            self.filters@,
            b_filters,
        )) by {
            assert forall|k: int|
                0 <= k < b_filters.len() implies second.filters@[b_filters[k] as int]
                == self.filters@[b_filters[k] as int] by {
                let f = b_filters[k];
                assert(b_filters.contains(f));
                assert(members(b_filters).contains(f));
                assert(self.filter_present(f as int));
                assert(!self.owned_by(ar).contains(f));
                assert(first.filters@[f as int] == split.filters@[f as int]);
                assert(second.filters@[f as int] == first.filters@[f as int]);
            }
        }
        if b.set@.len() == 1 {
            let r = b.set@[0];
            assert(b.set@.contains(r));
            assert(br.contains(r));
            assert(!ar.contains(r));
            assert(first.base_relations@[r as int] == split.base_relations@[r as int]);
        }
    }
}

} // verus!
