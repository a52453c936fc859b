//! The logical operator tree.

use vstd::prelude::*;
use vstd::multiset::Multiset;
use crate::expr::Expression;
use crate::logical::binder::{BindContext, TableRef};
use crate::logical::logical_filter::LogicalFilter;
use crate::logical::logical_join::{
    conditions_of, ComparisonCondition, LogicalArbitraryJoin, LogicalComparisonJoin,
    LogicalCrossJoin,
};
use crate::logical::logical_materialization::{
    materialization_refs, LogicalMagicMaterializationScan, LogicalMaterializationScan,
};
use crate::logical::logical_no_rows::LogicalNoRows;
use crate::logical::logical_scan::LogicalScan;
use crate::statistics::value::StatisticsValue;

verus! {

/// Where an operator has to run.
#[derive(Debug, Clone, Copy, PartialEq, Eq, Structural)]
pub enum LocationRequirement {
    /// On the client.
    ClientLocal,
    /// On the server.
    Remote,
    /// Anywhere.
    Any,
}

/// An operator in the tree: what it does, and what every operator has.
#[derive(Debug, PartialEq, Eq)]
pub struct Node<N> {
    /// The operator itself.
    pub node: N,
    /// Where the operator has to run.
    pub location: LocationRequirement,
    /// The operator's inputs.
    pub children: Vec<LogicalOperator>,
    /// Estimated number of rows in the operator's output.
    pub estimated_cardinality: StatisticsValue<usize>,
}

/// A logical plan.
#[derive(Debug, PartialEq, Eq)]
pub enum LogicalOperator {
    NoRows(Node<LogicalNoRows>),
    MaterializationScan(Node<LogicalMaterializationScan>),
    MagicMaterializationScan(Node<LogicalMagicMaterializationScan>),
    Scan(Node<LogicalScan>),
    Filter(Node<LogicalFilter>),
    CrossJoin(Node<LogicalCrossJoin>),
    ComparisonJoin(Node<LogicalComparisonJoin>),
    ArbitraryJoin(Node<LogicalArbitraryJoin>),
}

/// Number of join operators in the first `n` of `plans`.
pub open spec fn join_count_of(plans: Seq<LogicalOperator>, n: nat) -> nat
    decreases plans, n,
{
    if n == 0 || n > plans.len() {
        0
    } else {
        join_count_of(plans, (n - 1) as nat) + plans[n - 1].join_count()
    }
}

/// Number of operators without inputs in the first `n` of `plans`.
pub open spec fn leaf_count_of(plans: Seq<LogicalOperator>, n: nat) -> nat
    decreases plans, n,
{
    if n == 0 || n > plans.len() {
        0
    } else {
        leaf_count_of(plans, (n - 1) as nat) + plans[n - 1].leaf_count()
    }
}

/// The filter predicates in the first `n` of `plans`.
pub open spec fn filter_conjuncts_of(plans: Seq<LogicalOperator>, n: nat) -> Multiset<Expression>
    decreases plans, n,
{
    if n == 0 || n > plans.len() {
        Multiset::empty()
    } else {
        filter_conjuncts_of(plans, (n - 1) as nat).add(plans[n - 1].filter_conjuncts())
    }
}

/// The join conditions in the first `n` of `plans`.
pub open spec fn join_conditions_of(plans: Seq<LogicalOperator>, n: nat) -> Multiset<
    Set<ComparisonCondition>,
>
    decreases plans, n,
{
    if n == 0 || n > plans.len() {
        Multiset::empty()
    } else {
        join_conditions_of(plans, (n - 1) as nat).add(plans[n - 1].join_conditions())
    }
}

/// The scans in the first `n` of `plans`.
pub open spec fn scans_of(plans: Seq<LogicalOperator>, n: nat) -> Multiset<LogicalOperator>
    decreases plans, n,
{
    if n == 0 || n > plans.len() {
        Multiset::empty()
    } else {
        scans_of(plans, (n - 1) as nat).add(plans[n - 1].scans())
    }
}

/// The tables in the output of the first `n` of `plans`, one plan after the other.
pub open spec fn output_refs_of(plans: Seq<LogicalOperator>, context: BindContext, n: nat) -> Seq<
    TableRef,
>
    decreases plans, n,
{
    if n == 0 || n > plans.len() {
        Seq::empty()
    } else {
        output_refs_of(plans, context, (n - 1) as nat) + plans[n - 1].output_refs(context)
    }
}

impl LogicalOperator {
    /// The operator's inputs.
    pub open spec fn children(self) -> Seq<LogicalOperator> {
        match self {
            LogicalOperator::NoRows(n) => n.children@,
            LogicalOperator::MaterializationScan(n) => n.children@,
            LogicalOperator::MagicMaterializationScan(n) => n.children@,
            LogicalOperator::Scan(n) => n.children@,
            LogicalOperator::Filter(n) => n.children@,
            LogicalOperator::CrossJoin(n) => n.children@,
            LogicalOperator::ComparisonJoin(n) => n.children@,
            LogicalOperator::ArbitraryJoin(n) => n.children@,
        }
    }

    /// Whether the operator is a join of any kind.
    pub open spec fn is_join(self) -> bool {
        self is CrossJoin || self is ComparisonJoin || self is ArbitraryJoin
    }

    /// Whether the operator reads rows rather than working on the rows of
    /// its inputs.
    pub open spec fn is_scan(self) -> bool {
        self is NoRows || self is MaterializationScan || self is MagicMaterializationScan
            || self is Scan
    }

    /// The scans in the plan, each as often as it occurs.
    pub open spec fn scans(self) -> Multiset<LogicalOperator>
        decreases self,
    {
        let own = if self.is_scan() {
            Multiset::singleton(self)
        } else {
            Multiset::empty()
        };
        own.add(scans_of(self.children(), self.children().len()))
    }

    /// Number of join operators in the plan.
    pub open spec fn join_count(self) -> nat
        decreases self,
    {
        let own: nat = if self.is_join() {
            1
        } else {
            0
        };
        own + join_count_of(self.children(), self.children().len())
    }

    /// Number of operators without inputs in the plan.
    pub open spec fn leaf_count(self) -> nat
        decreases self,
    {
        if self.children().len() == 0 {
            1
        } else {
            leaf_count_of(self.children(), self.children().len())
        }
    }

    /// The predicates by which the plan filters rows, each as often as it
    /// occurs: the conjuncts of the predicate of every filter and of every
    /// join on an arbitrary predicate.
    pub open spec fn filter_conjuncts(self) -> Multiset<Expression>
        decreases self,
    {
        let own = match self {
            LogicalOperator::Filter(n) => n.node.filter.conjuncts(),
            LogicalOperator::ArbitraryJoin(n) => n.node.condition.conjuncts(),
            _ => Multiset::empty(),
        };
        own.add(filter_conjuncts_of(self.children(), self.children().len()))
    }

    /// The conditions of the plan's comparison joins, each without regard to
    /// sides and as often as it occurs.
    pub open spec fn join_conditions(self) -> Multiset<Set<ComparisonCondition>>
        decreases self,
    {
        let own = match self {
            LogicalOperator::ComparisonJoin(n) => conditions_of(
                n.node.conditions@,
                n.node.conditions@.len(),
            ),
            _ => Multiset::empty(),
        };
        own.add(join_conditions_of(self.children(), self.children().len()))
    }

    /// How many of the operator's inputs have their tables in its output: the
    /// first one only for a join that outputs its left side alone, else all.
    pub open spec fn output_children(self) -> nat {
        let left_only = match self {
            LogicalOperator::ComparisonJoin(n) => n.node.join_type.spec_outputs_left_only(),
            LogicalOperator::ArbitraryJoin(n) => n.node.join_type.spec_outputs_left_only(),
            _ => false,
        };
        if left_only && self.children().len() >= 1 {
            1
        } else {
            self.children().len()
        }
    }

    /// The tables in the plan's output.
    pub open spec fn output_refs(self, context: BindContext) -> Seq<TableRef>
        decreases self,
    {
        match self {
            LogicalOperator::NoRows(n) => n.node.table_refs@,
            LogicalOperator::MaterializationScan(n) => materialization_refs(context, n.node.mat),
            LogicalOperator::MagicMaterializationScan(n) => seq![n.node.table_ref],
            LogicalOperator::Scan(n) => seq![n.node.table_ref],
            _ => output_refs_of(self.children(), context, self.output_children()),
        }
    }

    /// The plan's estimated number of output rows, as recorded on its root.
    pub open spec fn spec_estimated_cardinality(self) -> StatisticsValue<usize> {
        match self {
            LogicalOperator::NoRows(n) => n.estimated_cardinality,
            LogicalOperator::MaterializationScan(n) => n.estimated_cardinality,
            LogicalOperator::MagicMaterializationScan(n) => n.estimated_cardinality,
            LogicalOperator::Scan(n) => n.estimated_cardinality,
            LogicalOperator::Filter(n) => n.estimated_cardinality,
            LogicalOperator::CrossJoin(n) => n.estimated_cardinality,
            LogicalOperator::ComparisonJoin(n) => n.estimated_cardinality,
            LogicalOperator::ArbitraryJoin(n) => n.estimated_cardinality,
        }
    }

    /// The plan's estimated number of output rows, as recorded on its root.
    pub fn estimated_cardinality(&self) -> (estimate: StatisticsValue<usize>)
        ensures
            estimate == self.spec_estimated_cardinality(),
    {
        match self {
            LogicalOperator::NoRows(n) => n.estimated_cardinality,
            LogicalOperator::MaterializationScan(n) => n.estimated_cardinality,
            LogicalOperator::MagicMaterializationScan(n) => n.estimated_cardinality,
            LogicalOperator::Scan(n) => n.estimated_cardinality,
            LogicalOperator::Filter(n) => n.estimated_cardinality,
            LogicalOperator::CrossJoin(n) => n.estimated_cardinality,
            LogicalOperator::ComparisonJoin(n) => n.estimated_cardinality,
            LogicalOperator::ArbitraryJoin(n) => n.estimated_cardinality,
        }
    }

    /// The tables in the plan's output: a scan's own tables, else those of
    /// the inputs from left to right. A semi or anti join outputs its left
    /// input only.
    pub fn get_output_table_refs(&self, bind_context: &BindContext) -> (refs: Vec<TableRef>)
        ensures
            refs@ == self.output_refs(*bind_context),
        decreases self,
    {
        let children: &Vec<LogicalOperator> = match self {
            LogicalOperator::NoRows(n) => {
                return n.get_output_table_refs();
            },
            LogicalOperator::MaterializationScan(n) => {
                return n.get_output_table_refs(bind_context);
            },
            LogicalOperator::MagicMaterializationScan(n) => {
                return n.get_output_table_refs(bind_context);
            },
            LogicalOperator::Scan(n) => {
                return n.get_output_table_refs();
            },
            LogicalOperator::Filter(n) => &n.children,
            LogicalOperator::CrossJoin(n) => &n.children,
            LogicalOperator::ComparisonJoin(n) => &n.children,
            LogicalOperator::ArbitraryJoin(n) => &n.children,
        };
        let left_only = match self {
            LogicalOperator::ComparisonJoin(n) => n.node.join_type.outputs_left_only(),
            LogicalOperator::ArbitraryJoin(n) => n.node.join_type.outputs_left_only(),
            _ => false,
        };
        let count: usize = if left_only && children.len() >= 1 {
            1
        } else {
            children.len()
        };
        let mut refs: Vec<TableRef> = Vec::new();
        let mut i: usize = 0;
        while i < count
            invariant
                i <= count <= children.len(),
                decreases_to!(self => children),
                children@ == self.children(),
                refs@ == output_refs_of(children@, *bind_context, i as nat),
            decreases count - i,
        {
            assert(decreases_to!(children => children[i as int]));
            let part = children[i].get_output_table_refs(bind_context);
            let mut k: usize = 0;
            let ghost before = refs@;
            while k < part.len()
                invariant
                    k <= part.len(),
                    refs@ == before + part@.take(k as int),
                decreases part.len() - k,
            {
                refs.push(part[k]);
                assert(part@.take(k + 1) =~= part@.take(k as int).push(part@[k as int]));
                k += 1;
            }
            assert(part@.take(part.len() as int) =~= part@);
            i += 1;
        }
        refs
    }
}

/// The counts and contents of a plan with exactly two inputs.
pub proof fn lemma_two_children(plans: Seq<LogicalOperator>)
    requires
        plans.len() == 2,
    ensures
        join_count_of(plans, 2) == plans[0].join_count() + plans[1].join_count(),
        leaf_count_of(plans, 2) == plans[0].leaf_count() + plans[1].leaf_count(),
        filter_conjuncts_of(plans, 2) == plans[0].filter_conjuncts().add(
            plans[1].filter_conjuncts(),
        ),
        join_conditions_of(plans, 2) == plans[0].join_conditions().add(plans[1].join_conditions()),
        scans_of(plans, 2) == plans[0].scans().add(plans[1].scans()),
{
    reveal_with_fuel(scans_of, 3);
    assert(Multiset::<LogicalOperator>::empty().add(plans[0].scans()) =~= plans[0].scans());
    reveal_with_fuel(join_count_of, 3);
    reveal_with_fuel(leaf_count_of, 3);
    reveal_with_fuel(filter_conjuncts_of, 3);
    reveal_with_fuel(join_conditions_of, 3);
    assert(Multiset::<Expression>::empty().add(plans[0].filter_conjuncts())
        =~= plans[0].filter_conjuncts());
    assert(Multiset::<Set<ComparisonCondition>>::empty().add(plans[0].join_conditions())
        =~= plans[0].join_conditions());
}

/// The counts and contents of a plan with exactly one input.
pub proof fn lemma_one_child(plans: Seq<LogicalOperator>)
    requires
        plans.len() == 1,
    ensures
        join_count_of(plans, 1) == plans[0].join_count(),
        leaf_count_of(plans, 1) == plans[0].leaf_count(),
        filter_conjuncts_of(plans, 1) == plans[0].filter_conjuncts(),
        join_conditions_of(plans, 1) == plans[0].join_conditions(),
        scans_of(plans, 1) == plans[0].scans(),
{
    reveal_with_fuel(scans_of, 2);
    assert(Multiset::<LogicalOperator>::empty().add(plans[0].scans()) =~= plans[0].scans());
    reveal_with_fuel(join_count_of, 2);
    reveal_with_fuel(leaf_count_of, 2);
    reveal_with_fuel(filter_conjuncts_of, 2);
    reveal_with_fuel(join_conditions_of, 2);
    assert(Multiset::<Expression>::empty().add(plans[0].filter_conjuncts())
        =~= plans[0].filter_conjuncts());
    assert(Multiset::<Set<ComparisonCondition>>::empty().add(plans[0].join_conditions())
        =~= plans[0].join_conditions());
}

} // verus!
