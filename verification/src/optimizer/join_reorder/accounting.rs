//! Bookkeeping for what the graph still holds and the plan does not yet: the
//! sums by which building the plan is shown to lose and to repeat nothing.

use vstd::prelude::*;
use vstd::multiset::Multiset;
use crate::expr::Expression;
use crate::logical::logical_join::ComparisonCondition;
use crate::logical::operator::LogicalOperator;
use super::condition::ExtractedFilter;
use super::edge::HyperEdge;
use super::node::BaseRelation;

verus! {

/// The sum of the first `n` of `values`.
pub open spec fn total(values: Seq<nat>, n: nat) -> nat
    decreases n,
{
    if n == 0 || n > values.len() {
        0
    } else {
        total(values, (n - 1) as nat) + values[n - 1]
    }
}

/// The first `n` of `values` taken together.
pub open spec fn gathered<T>(values: Seq<Multiset<T>>, n: nat) -> Multiset<T>
    decreases n,
{
    if n == 0 || n > values.len() {
        Multiset::empty()
    } else {
        gathered(values, (n - 1) as nat).add(values[n - 1])
    }
}

/// Setting one value to zero takes it out of the sum.
pub proof fn lemma_total_without(values: Seq<nat>, i: int, n: nat)
    requires
        0 <= i < values.len(),
        n <= values.len(),
    ensures
        total(values, n) == total(values.update(i, 0), n) + (if i < n {
            values[i]
        } else {
            0
        }),
    decreases n,
{
    if n > 0 {
        lemma_total_without(values, i, (n - 1) as nat);
    }
}

/// Emptying one value takes it out of what is gathered.
pub proof fn lemma_gathered_without<T>(values: Seq<Multiset<T>>, i: int, n: nat)
    requires
        0 <= i < values.len(),
        n <= values.len(),
    ensures
        gathered(values, n) == gathered(values.update(i, Multiset::empty()), n).add(
            if i < n {
                values[i]
            } else {
                Multiset::empty()
            },
        ),
    decreases n,
{
    let cleared = values.update(i, Multiset::empty());
    if n == 0 {
        assert(gathered(values, n) =~= gathered(cleared, n).add(Multiset::empty()));
    } else {
        lemma_gathered_without(values, i, (n - 1) as nat);
        let rest = gathered(cleared, (n - 1) as nat);
        if i < n - 1 {
            assert(rest.add(values[i]).add(values[n - 1]) =~= rest.add(values[n - 1]).add(
                values[i],
            ));
        } else if i == n - 1 {
            assert(rest.add(Multiset::empty()).add(values[n - 1]) =~= rest.add(
                Multiset::empty(),
            ).add(values[i]));
        } else {
            assert(rest.add(Multiset::empty()).add(values[n - 1]) =~= rest.add(values[n - 1]).add(
                Multiset::empty(),
            ));
        }
    }
}

/// Values that are all zero sum up to zero.
pub proof fn lemma_total_zero(values: Seq<nat>, n: nat)
    requires
        n <= values.len(),
        forall|i: int| 0 <= i < n ==> values[i] == 0,
    ensures
        total(values, n) == 0,
    decreases n,
{
    if n > 0 {
        lemma_total_zero(values, (n - 1) as nat);
    }
}

/// Values that are all empty gather to nothing.
pub proof fn lemma_gathered_empty<T>(values: Seq<Multiset<T>>, n: nat)
    requires
        n <= values.len(),
        forall|i: int| 0 <= i < n ==> values[i] == Multiset::<T>::empty(),
    ensures
        gathered(values, n) == Multiset::<T>::empty(),
    decreases n,
{
    if n > 0 {
        lemma_gathered_empty(values, (n - 1) as nat);
        assert(Multiset::<T>::empty().add(Multiset::<T>::empty()) =~= Multiset::<T>::empty());
    }
}

/// What is gathered from the first `n` values does not depend on what
/// follows them.
pub proof fn lemma_gathered_prefix<T>(a: Seq<Multiset<T>>, b: Seq<Multiset<T>>, n: nat)
    requires
        n <= a.len(),
        n <= b.len(),
        forall|i: int| 0 <= i < n ==> a[i] == b[i],
    ensures
        gathered(a, n) == gathered(b, n),
    decreases n,
{
    if n > 0 {
        lemma_gathered_prefix(a, b, (n - 1) as nat);
    }
}

/// The joins in each base relation's plan; none where the plan has been taken.
pub open spec fn joins_held(bases: Seq<Option<BaseRelation>>) -> Seq<nat> {
    Seq::new(
        bases.len(),
        |r: int|
            match bases[r] {
                Some(base) => base.operator.join_count(),
                None => 0,
            },
    )
}

/// The leaves in each base relation's plan; none where the plan has been taken.
pub open spec fn leaves_held(bases: Seq<Option<BaseRelation>>) -> Seq<nat> {
    Seq::new(
        bases.len(),
        |r: int|
            match bases[r] {
                Some(base) => base.operator.leaf_count(),
                None => 0,
            },
    )
}

/// The filter predicates in each base relation's plan.
pub open spec fn base_filters_held(bases: Seq<Option<BaseRelation>>) -> Seq<Multiset<Expression>> {
    Seq::new(
        bases.len(),
        |r: int|
            match bases[r] {
                Some(base) => base.operator.filter_conjuncts(),
                None => Multiset::empty(),
            },
    )
}

/// The join conditions in each base relation's plan.
pub open spec fn base_conditions_held(bases: Seq<Option<BaseRelation>>) -> Seq<
    Multiset<Set<ComparisonCondition>>,
> {
    Seq::new(
        bases.len(),
        |r: int|
            match bases[r] {
                Some(base) => base.operator.join_conditions(),
                None => Multiset::empty(),
            },
    )
}

/// The conjuncts of each filter that is still in the graph.
pub open spec fn filters_held(filters: Seq<Option<ExtractedFilter>>) -> Seq<Multiset<Expression>> {
    Seq::new(
        filters.len(),
        |f: int|
            match filters[f] {
                Some(filter) => filter.filter.conjuncts(),
                None => Multiset::empty(),
            },
    )
}

/// The comparisons of the condition of each edge that is still in the graph.
pub open spec fn conditions_held(edges: Seq<Option<HyperEdge>>) -> Seq<
    Multiset<Set<ComparisonCondition>>,
> {
    Seq::new(
        edges.len(),
        |id: int|
            match edges[id] {
                Some(edge) => match edge.filter {
                    Some(condition) => condition.comparisons(),
                    None => Multiset::empty(),
                },
                None => Multiset::empty(),
            },
    )
}

/// The scans in the plan of each base relation among `rels` that is in the
/// graph.
pub open spec fn scans_held(bases: Seq<Option<BaseRelation>>, rels: Set<usize>) -> Seq<
    Multiset<LogicalOperator>,
> {
    Seq::new(
        bases.len(),
        |r: int|
            if rels.contains(r as usize) && bases[r].is_some() {
                bases[r].unwrap().operator.scans()
            } else {
                Multiset::empty()
            },
    )
}

/// For each base relation one if it is still in the graph, else zero.
pub open spec fn bases_held(bases: Seq<Option<BaseRelation>>) -> Seq<nat> {
    Seq::new(
        bases.len(),
        |r: int|
            if bases[r].is_some() {
                1nat
            } else {
                0nat
            },
    )
}

/// The sum of `n` ones is `n`.
pub proof fn lemma_total_ones(values: Seq<nat>, n: nat)
    requires
        n <= values.len(),
        forall|i: int| 0 <= i < values.len() ==> values[i] == 1,
    ensures
        total(values, n) == n,
    decreases n,
{
    if n > 0 {
        lemma_total_ones(values, (n - 1) as nat);
    }
}

/// The scans in the plans of the base relations `rels`.
pub open spec fn scans_of_relations(bases: Seq<Option<BaseRelation>>, rels: Set<usize>) -> Multiset<
    LogicalOperator,
> {
    gathered(scans_held(bases, rels), bases.len())
}

/// What is gathered from two sequences of values, value by value, is what
/// is gathered from each.
pub proof fn lemma_gathered_sum<T>(
    a: Seq<Multiset<T>>,
    b: Seq<Multiset<T>>,
    both: Seq<Multiset<T>>,
    n: nat,
)
    requires
        n <= a.len(),
        n <= b.len(),
        n <= both.len(),
        forall|i: int| 0 <= i < n ==> both[i] == a[i].add(b[i]),
    ensures
        gathered(both, n) == gathered(a, n).add(gathered(b, n)),
    decreases n,
{
    if n == 0 {
        assert(Multiset::<T>::empty().add(Multiset::<T>::empty()) =~= Multiset::<T>::empty());
    } else {
        lemma_gathered_sum(a, b, both, (n - 1) as nat);
        let ga = gathered(a, (n - 1) as nat);
        let gb = gathered(b, (n - 1) as nat);
        assert(ga.add(gb).add(a[n - 1].add(b[n - 1])) =~= ga.add(a[n - 1]).add(gb.add(b[n - 1])));
    }
}

/// What is gathered from values of which only one is not empty is that one.
pub proof fn lemma_gathered_single<T>(values: Seq<Multiset<T>>, i: int, n: nat)
    requires
        n <= values.len(),
        0 <= i < values.len(),
        forall|k: int| 0 <= k < n && k != i ==> values[k] == Multiset::<T>::empty(),
    ensures
        gathered(values, n) == (if i < n {
            values[i]
        } else {
            Multiset::empty()
        }),
    decreases n,
{
    if n > 0 {
        lemma_gathered_single(values, i, (n - 1) as nat);
        if i == n - 1 {
            assert(Multiset::<T>::empty().add(values[i]) =~= values[i]);
        } else if i < n - 1 {
            assert(values[i].add(Multiset::<T>::empty()) =~= values[i]);
        } else {
            assert(Multiset::<T>::empty().add(Multiset::<T>::empty()) =~= Multiset::<T>::empty());
        }
    }
}

/// The scans of the single relation `r` are those of its plan.
pub proof fn lemma_scans_single(bases: Seq<Option<BaseRelation>>, r: usize)
    requires
        r < bases.len(),
        bases[r as int].is_some(),
        bases.len() <= usize::MAX,
    ensures
        scans_of_relations(bases, set![r]) == bases[r as int].unwrap().operator.scans(),
{
    lemma_gathered_single(scans_held(bases, set![r]), r as int, bases.len());
}

/// The scans of two sets of relations without a relation in common are
/// those of the one and those of the other.
pub proof fn lemma_scans_disjoint(bases: Seq<Option<BaseRelation>>, a: Set<usize>, b: Set<usize>)
    requires
        a.disjoint(b),
    ensures
        scans_of_relations(bases, a.union(b)) == scans_of_relations(bases, a).add(
            scans_of_relations(bases, b),
        ),
{
    let both = scans_held(bases, a.union(b));
    let sa = scans_held(bases, a);
    let sb = scans_held(bases, b);
    assert forall|i: int| 0 <= i < bases.len() implies both[i] == sa[i].add(sb[i]) by {
        let e = Multiset::<LogicalOperator>::empty();
        assert(e.add(e) =~= e);
        assert(sa[i].add(e) =~= sa[i]);
        assert(e.add(sb[i]) =~= sb[i]);
    }
    lemma_gathered_sum(sa, sb, both, bases.len());
}

/// The scans of relations are the same where those relations are the same.
pub proof fn lemma_scans_same(
    bases: Seq<Option<BaseRelation>>,
    later: Seq<Option<BaseRelation>>,
    rels: Set<usize>,
)
    requires
        later.len() == bases.len(),
        bases.len() <= usize::MAX,
        forall|r: usize|
            rels.contains(r) && r < bases.len() ==> #[trigger] later[r as int] == bases[r as int],
    ensures
        scans_of_relations(later, rels) == scans_of_relations(bases, rels),
{
    assert forall|i: int| 0 <= i < bases.len() implies scans_held(later, rels)[i] == scans_held(
        bases,
        rels,
    )[i] by {
        if rels.contains(i as usize) {
            assert(later[(i as usize) as int] == bases[(i as usize) as int]);
        }
    }
    lemma_gathered_prefix(scans_held(later, rels), scans_held(bases, rels), bases.len());
}

} // verus!
