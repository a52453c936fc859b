use glaredb_core::arrays::datatype::DataType;
use glaredb_core::expr::{
    ColumnExpr, ColumnReference, ComparisonOperator, ConjunctionOperator, Expression,
};
use glaredb_core::logical::binder::BindContext;
use glaredb_core::logical::logical_join::{ComparisonCondition, JoinType};
use glaredb_core::logical::logical_scan::LogicalScan;
use glaredb_core::logical::operator::{LocationRequirement, LogicalOperator, Node};
use glaredb_core::optimizer::join_reorder::condition::{ExtractedFilter, ReorderableCondition};
use glaredb_core::optimizer::join_reorder::error::JoinOrderError;
use glaredb_core::optimizer::join_reorder::graph::Graph;
use glaredb_core::optimizer::join_reorder::node::{JoinNode, UsedFilters};
use glaredb_core::optimizer::join_reorder::relation_set::RelationSet;
use glaredb_core::optimizer::join_reorder::subgraph::Subgraph;
use glaredb_core::statistics::value::StatisticsValue;

fn scan(table_ref: usize, rows: usize) -> LogicalOperator {
    LogicalOperator::Scan(Node {
        node: LogicalScan { table_ref },
        location: LocationRequirement::Any,
        children: vec![],
        estimated_cardinality: StatisticsValue::Exact(rows),
    })
}

fn column(table: usize, column: usize) -> Expression {
    Expression::Column(ColumnExpr {
        reference: ColumnReference {
            table_scope: table,
            column,
        },
        datatype: DataType::Int64,
    })
}

fn comparison(left: usize, right: usize) -> ComparisonCondition {
    ComparisonCondition {
        left: column(left, 0),
        right: column(right, 0),
        op: ComparisonOperator::Eq,
    }
}

fn inner(left: usize, right: usize) -> ReorderableCondition {
    ReorderableCondition::Inner {
        condition: comparison(left, right),
    }
}

/// A filter `table.column < value`.
fn filter_on(table: usize, value: i64) -> ExtractedFilter {
    ExtractedFilter::from_expr(Expression::Comparison(
        glaredb_core::expr::ComparisonExpr {
            left: Box::new(column(table, 1)),
            right: Box::new(Expression::Literal(value)),
            op: ComparisonOperator::Lt,
        },
    ))
}

fn children(plan: &LogicalOperator) -> &Vec<LogicalOperator> {
    match plan {
        LogicalOperator::NoRows(n) => &n.children,
        LogicalOperator::MaterializationScan(n) => &n.children,
        LogicalOperator::MagicMaterializationScan(n) => &n.children,
        LogicalOperator::Scan(n) => &n.children,
        LogicalOperator::Filter(n) => &n.children,
        LogicalOperator::CrossJoin(n) => &n.children,
        LogicalOperator::ComparisonJoin(n) => &n.children,
        LogicalOperator::ArbitraryJoin(n) => &n.children,
    }
}

fn count(plan: &LogicalOperator, wanted: &dyn Fn(&LogicalOperator) -> bool) -> usize {
    let own = if wanted(plan) { 1 } else { 0 };
    own + children(plan)
        .iter()
        .map(|child| count(plan_ref(child), wanted))
        .sum::<usize>()
}

fn plan_ref(plan: &LogicalOperator) -> &LogicalOperator {
    plan
}

fn is_join(plan: &LogicalOperator) -> bool {
    matches!(
        plan,
        LogicalOperator::CrossJoin(_)
            | LogicalOperator::ComparisonJoin(_)
            | LogicalOperator::ArbitraryJoin(_)
    )
}

fn is_cross_join(plan: &LogicalOperator) -> bool {
    matches!(plan, LogicalOperator::CrossJoin(_))
}

fn is_leaf(plan: &LogicalOperator) -> bool {
    children(plan).is_empty()
}

fn conjuncts(expr: &Expression, out: &mut Vec<String>) {
    match expr {
        Expression::Conjunction(conj) if conj.op == ConjunctionOperator::And => {
            for part in &conj.expressions {
                conjuncts(part, out);
            }
        }
        other => out.push(format!("{other:?}")),
    }
}

/// The filter predicates in the plan, as text, one for each conjunct.
fn filters_in(plan: &LogicalOperator, out: &mut Vec<String>) {
    match plan {
        LogicalOperator::Filter(n) => conjuncts(&n.node.filter, out),
        LogicalOperator::ArbitraryJoin(n) => conjuncts(&n.node.condition, out),
        _ => {}
    }
    for child in children(plan) {
        filters_in(child, out);
    }
}

/// The join conditions in the plan, as text. A condition and the same
/// condition with sides changed give the same text.
fn conditions_in(plan: &LogicalOperator, out: &mut Vec<String>) {
    if let LogicalOperator::ComparisonJoin(n) = plan {
        for condition in &n.node.conditions {
            let mut sides = vec![
                format!("{:?}", condition.left),
                format!("{:?}", condition.right),
            ];
            sides.sort();
            out.push(sides.join(" ~ "));
        }
    }
    for child in children(plan) {
        conditions_in(child, out);
    }
}

fn unoriented(condition: &ComparisonCondition) -> String {
    let mut sides = vec![
        format!("{:?}", condition.left),
        format!("{:?}", condition.right),
    ];
    sides.sort();
    sides.join(" ~ ")
}

fn occurrences(all: &[String], wanted: &str) -> usize {
    all.iter().filter(|text| text.as_str() == wanted).count()
}

#[test]
fn completeness_chain_of_four() {
    let context = BindContext::new_for_root();
    let graph = Graph::try_new(
        vec![scan(0, 10), scan(1, 200), scan(2, 3000), scan(3, 40)],
        vec![inner(0, 1), inner(1, 2), inner(2, 3)],
        vec![],
        &context,
    )
    .unwrap();
    let plan = graph.try_build().unwrap();
    assert_eq!(count(&plan, &is_leaf), 4);
    assert_eq!(count(&plan, &is_join), 3);
    assert_eq!(count(&plan, &is_cross_join), 0);
}

#[test]
fn completeness_for_every_size() {
    let context = BindContext::new_for_root();
    for n in 1..=6usize {
        let base_ops: Vec<_> = (0..n).map(|r| scan(r, 100 * (r + 1))).collect();
        // A star around relation 0.
        let conditions: Vec<_> = (1..n).map(|r| inner(0, r)).collect();
        let graph = Graph::try_new(base_ops, conditions, vec![], &context).unwrap();
        let plan = graph.try_build().unwrap();
        assert_eq!(count(&plan, &is_leaf), n);
        assert_eq!(count(&plan, &is_join), n - 1);
        let mut seen = Vec::new();
        conditions_in(&plan, &mut seen);
        assert_eq!(seen.len(), n - 1);
    }
}

#[test]
fn single_relation_is_returned_as_is() {
    let context = BindContext::new_for_root();
    let graph = Graph::try_new(vec![scan(0, 10)], vec![], vec![], &context).unwrap();
    let plan = graph.try_build().unwrap();
    assert_eq!(plan, scan(0, 10));
}

#[test]
fn no_relations_is_an_error() {
    let context = BindContext::new_for_root();
    let graph = Graph::try_new(vec![], vec![], vec![], &context).unwrap();
    assert_eq!(
        graph.try_build().unwrap_err(),
        JoinOrderError::MissingLongestPlan
    );
}

#[test]
fn single_use_of_filters_and_conditions() {
    let context = BindContext::new_for_root();
    let conditions = || vec![inner(0, 1), inner(1, 2), inner(0, 2), inner(2, 3)];
    let filters = || {
        vec![
            filter_on(0, 5),
            filter_on(2, 7),
            filter_on(2, 9),
            ExtractedFilter::from_expr(Expression::Literal(1)),
        ]
    };
    let graph = Graph::try_new(
        vec![scan(0, 10), scan(1, 200), scan(2, 3000), scan(3, 40)],
        conditions(),
        filters(),
        &context,
    )
    .unwrap();
    let plan = graph.try_build().unwrap();

    let mut seen_filters = Vec::new();
    filters_in(&plan, &mut seen_filters);
    assert_eq!(seen_filters.len(), 4);
    for filter in filters() {
        let text = format!("{:?}", filter.filter);
        assert_eq!(occurrences(&seen_filters, &text), 1);
    }

    let mut seen_conditions = Vec::new();
    conditions_in(&plan, &mut seen_conditions);
    assert_eq!(seen_conditions.len(), 4);
    for condition in conditions() {
        if let ReorderableCondition::Inner { condition } = condition {
            assert_eq!(occurrences(&seen_conditions, &unoriented(&condition)), 1);
        }
    }
}

#[test]
fn memo_entry_is_replaced_only_by_a_cheaper_one() {
    let context = BindContext::new_for_root();
    let mut graph = Graph::try_new(
        vec![scan(0, 1000), scan(1, 10), scan(2, 10)],
        vec![inner(0, 1), inner(1, 2), inner(0, 2)],
        vec![],
        &context,
    )
    .unwrap();
    let a = RelationSet::base(0);
    let b = RelationSet::base(1);
    let c = RelationSet::base(2);
    let ab = RelationSet::new(vec![0, 1]);
    let bc = RelationSet::new(vec![1, 2]);
    let abc = RelationSet::new(vec![0, 1, 2]);

    // {0, 1}: 1000 * 10 / 10 = 1000. {1, 2}: 10 * 10 / 10 = 10.
    let edges = graph.hyper_edges.find_edges(&a, &b);
    graph.emit_pair(&a, &b, edges).unwrap();
    let edges = graph.hyper_edges.find_edges(&b, &c);
    graph.emit_pair(&b, &c, edges).unwrap();
    assert_eq!(graph.best_plans.get(&ab).unwrap().cost, 1000);
    assert_eq!(graph.best_plans.get(&bc).unwrap().cost, 10);

    // All three by way of {1, 2}: 1000 * 10 * 10 / (10 * 10) = 1000, plus 10.
    let edges = graph.hyper_edges.find_edges(&a, &bc);
    graph.emit_pair(&a, &bc, edges).unwrap();
    let first = graph.best_plans.get(&abc).unwrap().clone();
    assert_eq!(first.cost, 1010);
    assert_eq!(first.right, bc);

    // By way of {0, 1} the same rows, but 1000 paid before: not cheaper.
    let edges = graph.hyper_edges.find_edges(&ab, &c);
    graph.emit_pair(&ab, &c, edges).unwrap();
    assert_eq!(graph.best_plans.get(&abc).unwrap(), &first);

    // The same pair once more costs the same: the plan stays.
    let edges = graph.hyper_edges.find_edges(&a, &bc);
    graph.emit_pair(&a, &bc, edges).unwrap();
    assert_eq!(graph.best_plans.get(&abc).unwrap(), &first);
    assert_eq!(graph.pairs_considered, 5);
}

#[test]
fn cheaper_plan_replaces_memo_entry() {
    let context = BindContext::new_for_root();
    let mut graph = Graph::try_new(
        vec![scan(0, 1000), scan(1, 10), scan(2, 10)],
        vec![inner(0, 1), inner(1, 2), inner(0, 2)],
        vec![],
        &context,
    )
    .unwrap();
    let a = RelationSet::base(0);
    let b = RelationSet::base(1);
    let c = RelationSet::base(2);
    let ab = RelationSet::new(vec![0, 1]);
    let bc = RelationSet::new(vec![1, 2]);
    let abc = RelationSet::new(vec![0, 1, 2]);
    let edges = graph.hyper_edges.find_edges(&a, &b);
    graph.emit_pair(&a, &b, edges).unwrap();
    let edges = graph.hyper_edges.find_edges(&b, &c);
    graph.emit_pair(&b, &c, edges).unwrap();
    let edges = graph.hyper_edges.find_edges(&ab, &c);
    graph.emit_pair(&ab, &c, edges).unwrap();
    assert_eq!(graph.best_plans.get(&abc).unwrap().cost, 2000);
    let edges = graph.hyper_edges.find_edges(&a, &bc);
    graph.emit_pair(&a, &bc, edges).unwrap();
    assert_eq!(graph.best_plans.get(&abc).unwrap().cost, 1010);
    assert_eq!(graph.best_plans.get(&abc).unwrap().left, a);
}

#[test]
fn disconnected_graph_falls_back_to_cross_joins() {
    let context = BindContext::new_for_root();
    let graph = Graph::try_new(
        vec![scan(0, 10), scan(1, 20), scan(2, 30)],
        vec![],
        vec![],
        &context,
    )
    .unwrap();
    let plan = graph.try_build().unwrap();
    assert_eq!(count(&plan, &is_cross_join), 2);
    assert_eq!(count(&plan, &is_join), 2);
    assert_eq!(count(&plan, &is_leaf), 3);
}

#[test]
fn partly_connected_graph_keeps_its_condition() {
    let context = BindContext::new_for_root();
    let graph = Graph::try_new(
        vec![scan(0, 10), scan(1, 20), scan(2, 30)],
        vec![inner(0, 1)],
        vec![],
        &context,
    )
    .unwrap();
    let plan = graph.try_build().unwrap();
    assert_eq!(count(&plan, &is_join), 2);
    assert_eq!(count(&plan, &is_cross_join), 1);
    let mut seen = Vec::new();
    conditions_in(&plan, &mut seen);
    assert_eq!(seen, vec![unoriented(&comparison(0, 1))]);
}

fn semi_join_plan(rows_a: usize, rows_b: usize, a_first: bool) -> LogicalOperator {
    let context = BindContext::new_for_root();
    // Table 10 is A, table 20 is B. Rows of A that have a match in B.
    let condition = ReorderableCondition::Semi {
        conditions: vec![comparison(10, 20)],
    };
    let base_ops = if a_first {
        vec![scan(10, rows_a), scan(20, rows_b)]
    } else {
        vec![scan(20, rows_b), scan(10, rows_a)]
    };
    Graph::try_new(base_ops, vec![condition], vec![], &context)
        .unwrap()
        .try_build()
        .unwrap()
}

#[test]
fn semi_join_keeps_its_sides() {
    for (rows_a, rows_b) in [(10, 1000), (1000, 10), (50, 50)] {
        for a_first in [true, false] {
            let plan = semi_join_plan(rows_a, rows_b, a_first);
            match &plan {
                LogicalOperator::ComparisonJoin(join) => {
                    assert_eq!(join.node.join_type, JoinType::LeftSemi);
                    assert_eq!(join.children[0], scan(10, rows_a));
                    assert_eq!(join.children[1], scan(20, rows_b));
                    // The condition still has A on its left.
                    assert_eq!(join.node.conditions, vec![comparison(10, 20)]);
                }
                other => panic!("not a comparison join: {other:?}"),
            }
        }
    }
}

#[test]
fn inner_join_puts_smaller_input_left() {
    let context = BindContext::new_for_root();
    let plan = Graph::try_new(
        vec![scan(0, 1000), scan(1, 10)],
        vec![inner(0, 1)],
        vec![],
        &context,
    )
    .unwrap()
    .try_build()
    .unwrap();
    match &plan {
        LogicalOperator::ComparisonJoin(join) => {
            assert_eq!(join.node.join_type, JoinType::Inner);
            assert_eq!(join.children[0], scan(1, 10));
            assert_eq!(join.children[1], scan(0, 1000));
            // The condition has changed sides with the inputs.
            assert_eq!(join.node.conditions, vec![comparison(1, 0)]);
            // 1000 * 10 / min(1000, 10)
            assert_eq!(join.estimated_cardinality, StatisticsValue::Estimated(1000));
        }
        other => panic!("not a comparison join: {other:?}"),
    }
}

#[test]
fn concrete_scenario() {
    let context = BindContext::new_for_root();
    let mut graph = Graph::try_new(
        vec![scan(0, 1000), scan(1, 2000), scan(2, 500)],
        vec![inner(0, 1), inner(1, 2)],
        vec![],
        &context,
    )
    .unwrap();
    // The edges start with the smallest cardinality of their relations.
    assert_eq!(graph.hyper_edges.get_edge(0).unwrap().min_ndv, 1000);
    assert_eq!(graph.hyper_edges.get_edge(1).unwrap().min_ndv, 500);
    assert!(graph.hyper_edges.set_min_ndv(0, 100));
    assert!(graph.hyper_edges.set_min_ndv(1, 50));
    assert!(!graph.hyper_edges.set_min_ndv(2, 50));

    graph.solve().unwrap();
    let ab = graph.best_plans.get(&RelationSet::new(vec![0, 1])).unwrap();
    assert_eq!(ab.subgraph.estimated_cardinality(), 20000);
    assert_eq!(ab.cost, 20000);
    let bc = graph.best_plans.get(&RelationSet::new(vec![1, 2])).unwrap();
    assert_eq!(bc.subgraph.estimated_cardinality(), 20000);
    // No edge between A and C: no plan for the two alone.
    assert!(graph
        .best_plans
        .get(&RelationSet::new(vec![0, 2]))
        .is_none());
    let abc = graph
        .best_plans
        .get(&RelationSet::new(vec![0, 1, 2]))
        .unwrap();
    assert_eq!(
        abc.subgraph,
        Subgraph {
            numerator: 1000 * 2000 * 500,
            filter_scale: 1,
            selectivity_denom: 100 * 50
        }
    );
    assert_eq!(abc.subgraph.estimated_cardinality(), 200000);
    assert_eq!(abc.cost, 220000);

    let plan = graph.try_build().unwrap();
    assert_eq!(count(&plan, &is_join), 2);
    assert_eq!(count(&plan, &is_cross_join), 0);
    match &plan {
        LogicalOperator::ComparisonJoin(join) => {
            assert_eq!(
                join.estimated_cardinality,
                StatisticsValue::Estimated(200000)
            );
        }
        other => panic!("not a comparison join: {other:?}"),
    }
}

#[test]
fn filter_is_attached_above_its_relation() {
    let context = BindContext::new_for_root();
    let graph = Graph::try_new(
        vec![scan(0, 1000), scan(1, 2000), scan(2, 500)],
        vec![inner(0, 1), inner(1, 2)],
        vec![filter_on(0, 5)],
        &context,
    )
    .unwrap();
    let plan = graph.try_build().unwrap();
    let mut seen = Vec::new();
    filters_in(&plan, &mut seen);
    assert_eq!(seen, vec![format!("{:?}", filter_on(0, 5).filter)]);

    // The filter sits directly above the scan of table 0.
    fn find_filter(plan: &LogicalOperator) -> Option<&LogicalOperator> {
        if let LogicalOperator::Filter(_) = plan {
            return Some(plan);
        }
        children(plan).iter().find_map(find_filter)
    }
    let filter = find_filter(&plan).unwrap();
    assert_eq!(children(filter), &vec![scan(0, 1000)]);
}

#[test]
fn filter_lowers_estimate_by_default_selectivity() {
    let context = BindContext::new_for_root();
    let mut graph = Graph::try_new(
        vec![scan(0, 1000), scan(1, 2000)],
        vec![inner(0, 1)],
        vec![filter_on(0, 5), filter_on(1, 6), filter_on(1, 7)],
        &context,
    )
    .unwrap();
    assert_eq!(graph.filter_owner, vec![Some(0), Some(1), Some(1)]);
    graph.solve().unwrap();
    let ab = graph.best_plans.get(&RelationSet::new(vec![0, 1])).unwrap();
    assert_eq!(ab.left_filters, vec![0]);
    assert_eq!(ab.right_filters, vec![1, 2]);
    assert_eq!(ab.used, UsedFilters { filters: vec![0, 1, 2] });
    // 1000 * 2000 over 1000 distinct values, three filters at one in ten.
    assert_eq!(
        ab.subgraph,
        Subgraph {
            numerator: 2_000_000,
            filter_scale: 1000,
            selectivity_denom: 1000
        }
    );
    assert_eq!(ab.subgraph.estimated_cardinality(), 2);
}

#[test]
fn constant_filter_goes_on_top() {
    let context = BindContext::new_for_root();
    let constant = || ExtractedFilter::from_expr(Expression::Literal(0));
    assert!(constant().table_refs.is_empty());
    let graph = Graph::try_new(
        vec![scan(0, 10), scan(1, 20)],
        vec![inner(0, 1)],
        vec![constant()],
        &context,
    )
    .unwrap();
    assert_eq!(graph.filter_owner, vec![None]);
    let plan = graph.try_build().unwrap();
    match &plan {
        LogicalOperator::Filter(filter) => {
            assert_eq!(filter.children.len(), 1);
            assert!(matches!(
                filter.children[0],
                LogicalOperator::ComparisonJoin(_)
            ));
        }
        other => panic!("not a filter: {other:?}"),
    }
}

#[test]
fn unknown_cardinality_uses_default() {
    let context = BindContext::new_for_root();
    let unknown = LogicalOperator::Scan(Node {
        node: LogicalScan { table_ref: 0 },
        location: LocationRequirement::Any,
        children: vec![],
        estimated_cardinality: StatisticsValue::Unknown,
    });
    let empty = scan(1, 0);
    let graph = Graph::try_new(vec![unknown, empty], vec![], vec![], &context).unwrap();
    assert_eq!(
        graph.base_relations[0].as_ref().unwrap().cardinality,
        20_000
    );
    // No rows count as one row.
    assert_eq!(graph.base_relations[1].as_ref().unwrap().cardinality, 1);
    assert_eq!(graph.pairs_considered, 0);
}

#[test]
fn condition_on_one_relation_is_rejected() {
    let context = BindContext::new_for_root();
    let err = Graph::try_new(
        vec![scan(0, 10), scan(1, 20)],
        vec![inner(0, 1), inner(1, 1)],
        vec![],
        &context,
    )
    .unwrap_err();
    assert_eq!(err, JoinOrderError::InvalidCondition { index: 1 });
    assert_eq!(err.message(), "Join condition does not join two relations");

    // A table that no relation outputs.
    let err = Graph::try_new(
        vec![scan(0, 10), scan(1, 20)],
        vec![inner(0, 5)],
        vec![],
        &context,
    )
    .unwrap_err();
    assert_eq!(err, JoinOrderError::InvalidCondition { index: 0 });
}

/// A filter `left.column < right.column` over two tables.
fn filter_between(left: usize, right: usize) -> ExtractedFilter {
    ExtractedFilter::from_expr(Expression::Comparison(
        glaredb_core::expr::ComparisonExpr {
            left: Box::new(column(left, 1)),
            right: Box::new(column(right, 1)),
            op: ComparisonOperator::Lt,
        },
    ))
}

#[test]
fn filter_on_two_relations_goes_on_top_of_their_join() {
    let context = BindContext::new_for_root();
    let graph = Graph::try_new(
        vec![scan(0, 10), scan(1, 20)],
        vec![inner(0, 1)],
        vec![filter_on(0, 1), filter_between(0, 1)],
        &context,
    )
    .unwrap();
    // The first filter is on relation 0, the second on no single relation.
    assert_eq!(graph.filter_owner, vec![Some(0), None]);
    assert_eq!(graph.unplaced, vec![1]);
    assert_eq!(graph.filters.len(), 2);
    assert!(graph.filters.iter().all(|filter| filter.is_some()));
    let wanted = format!("{:?}", filter_between(0, 1).filter);
    let plan = graph.try_build().unwrap();
    // The two relations are everything, so the filter is on top of the plan.
    match &plan {
        LogicalOperator::Filter(top) => {
            let mut on_top = Vec::new();
            conjuncts(&top.node.filter, &mut on_top);
            assert_eq!(on_top, vec![wanted.clone()]);
            assert!(is_join(&top.children[0]));
        }
        other => panic!("not a filter: {other:?}"),
    }
    let mut filters = Vec::new();
    filters_in(&plan, &mut filters);
    assert_eq!(filters.len(), 2);
    assert_eq!(occurrences(&filters, &wanted), 1);
}

#[test]
fn filter_on_two_relations_is_in_the_plan_once() {
    let context = BindContext::new_for_root();
    for rows in [[1000, 2000, 500], [10, 20, 30000], [7, 7, 7]] {
        let graph = Graph::try_new(
            vec![scan(0, rows[0]), scan(1, rows[1]), scan(2, rows[2])],
            vec![inner(0, 1), inner(1, 2)],
            vec![filter_between(0, 1), filter_on(2, 4), filter_between(1, 2)],
            &context,
        )
        .unwrap();
        assert_eq!(graph.unplaced, vec![0, 2]);
        let plan = graph.try_build().unwrap();
        assert_eq!(count(&plan, &is_leaf), 3);
        assert_eq!(count(&plan, &is_join), 2);
        let mut filters = Vec::new();
        filters_in(&plan, &mut filters);
        assert_eq!(filters.len(), 3);
        for filter in [filter_between(0, 1), filter_on(2, 4), filter_between(1, 2)] {
            assert_eq!(occurrences(&filters, &format!("{:?}", filter.filter)), 1);
        }
    }
}

#[test]
fn filter_on_two_relations_is_found_for_a_plan_with_both() {
    let context = BindContext::new_for_root();
    let mut graph = Graph::try_new(
        vec![scan(0, 1000), scan(1, 2000), scan(2, 500)],
        vec![inner(0, 1), inner(1, 2)],
        vec![filter_between(0, 1)],
        &context,
    )
    .unwrap();
    let a = RelationSet::base(0);
    let b = RelationSet::base(1);
    let c = RelationSet::base(2);
    let ab = RelationSet::new(vec![0, 1]);
    for single in [&a, &b, &c] {
        let plan = graph.best_plans.get(single).unwrap();
        assert_eq!(graph.find_filters(plan), Vec::<usize>::new());
    }
    let edges = graph.hyper_edges.find_edges(&a, &b);
    graph.emit_pair(&a, &b, edges).unwrap();
    // Neither input has both tables, the join has.
    let plan = graph.best_plans.get(&ab).unwrap();
    assert_eq!(plan.left_filters, Vec::<usize>::new());
    assert_eq!(plan.right_filters, Vec::<usize>::new());
    assert_eq!(plan.used, UsedFilters::none());
    assert_eq!(graph.find_filters(plan), vec![0]);
    // As an input, the join has the filter applied to it.
    let edges = graph.hyper_edges.find_edges(&ab, &c);
    graph.emit_pair(&ab, &c, edges).unwrap();
    let abc = graph.best_plans.get(&RelationSet::new(vec![0, 1, 2])).unwrap();
    assert_eq!(abc.left_filters, vec![0]);
    assert_eq!(abc.right_filters, Vec::<usize>::new());
    assert_eq!(abc.used, UsedFilters { filters: vec![0] });
    assert_eq!(graph.find_filters(abc), Vec::<usize>::new());
    // The filter is still in the graph while the search goes on.
    assert!(graph.filters[0].is_some());
}

#[test]
fn filter_on_a_table_of_two_relations_fits_both() {
    let context = BindContext::new_for_root();
    // Both relations scan table 5.
    let mut graph = Graph::try_new(
        vec![scan(5, 10), scan(5, 20), scan(6, 30)],
        vec![],
        vec![filter_on(5, 1), filter_on(6, 2)],
        &context,
    )
    .unwrap();
    assert_eq!(graph.filter_owner, vec![None, Some(2)]);
    assert_eq!(graph.unplaced, vec![0]);
    for r in [0, 1] {
        let plan = graph.best_plans.get(&RelationSet::base(r)).unwrap();
        assert_eq!(graph.find_filters(plan), vec![0]);
    }
    let c = graph.best_plans.get(&RelationSet::base(2)).unwrap();
    assert_eq!(graph.find_filters(c), vec![1]);
    graph.connect_all();
    let b = RelationSet::base(1);
    let c = RelationSet::base(2);
    let edges = graph.hyper_edges.find_edges(&b, &c);
    graph.emit_pair(&b, &c, edges).unwrap();
    let bc = graph.best_plans.get(&RelationSet::new(vec![1, 2])).unwrap();
    assert_eq!(bc.left_filters, vec![0]);
    assert_eq!(bc.right_filters, vec![1]);
    assert_eq!(bc.used, UsedFilters { filters: vec![0, 1] });
}

#[test]
fn filter_applied_on_both_sides_is_reported() {
    let context = BindContext::new_for_root();
    // Both relations scan table 5, so the filter fits each input of their
    // join and the join applies it to both.
    let graph = Graph::try_new(
        vec![scan(5, 10), scan(5, 20)],
        vec![],
        vec![filter_on(5, 1)],
        &context,
    )
    .unwrap();
    assert_eq!(
        graph.try_build().unwrap_err(),
        JoinOrderError::FilterPreviouslyUsed { filter_id: 0 }
    );
}

#[test]
fn emit_pair_needs_plans_for_both_sides() {
    let context = BindContext::new_for_root();
    let mut graph = Graph::try_new(
        vec![scan(0, 10), scan(1, 20), scan(2, 30)],
        vec![inner(0, 1), inner(1, 2)],
        vec![],
        &context,
    )
    .unwrap();
    let a = RelationSet::base(0);
    let bc = RelationSet::new(vec![1, 2]);
    let edges = graph.hyper_edges.find_edges(&bc, &a);
    assert_eq!(edges.len(), 1);
    assert_eq!(
        graph.emit_pair(&bc, &a, edges).unwrap_err(),
        JoinOrderError::MissingBestPlanLeft
    );
    let edges = graph.hyper_edges.find_edges(&a, &bc);
    assert_eq!(edges.len(), 1);
    assert_eq!(
        graph.emit_pair(&a, &bc, edges).unwrap_err(),
        JoinOrderError::MissingBestPlanRight
    );
    assert_eq!(graph.pairs_considered, 2);
}

#[test]
fn filter_cannot_be_applied_twice() {
    let context = BindContext::new_for_root();
    let mut graph = Graph::try_new(
        vec![scan(0, 10), scan(1, 20)],
        vec![inner(0, 1)],
        vec![filter_on(0, 1)],
        &context,
    )
    .unwrap();
    let plan = graph.apply_filters(scan(0, 10), &vec![0]).unwrap();
    assert!(matches!(plan, LogicalOperator::Filter(_)));
    assert_eq!(
        graph.apply_filters(plan, &vec![0]).unwrap_err(),
        JoinOrderError::FilterPreviouslyUsed { filter_id: 0 }
    );
}

fn broken_node(
    set: Vec<usize>,
    left: Vec<usize>,
    right: Vec<usize>,
    edges: Vec<usize>,
) -> JoinNode {
    JoinNode {
        set: RelationSet::new(set),
        cost: 0,
        left: RelationSet::new(left),
        right: RelationSet::new(right),
        subgraph: Subgraph {
            numerator: 1,
            filter_scale: 1,
            selectivity_denom: 1,
        },
        output_refs: vec![],
        edges,
        left_filters: vec![],
        right_filters: vec![],
        used: UsedFilters::none(),
    }
}

#[test]
fn inconsistent_nodes_are_reported() {
    let context = BindContext::new_for_root();
    let fresh = || {
        Graph::try_new(
            vec![scan(0, 10), scan(1, 20)],
            vec![inner(0, 1)],
            vec![],
            &context,
        )
        .unwrap()
    };

    let mut graph = fresh();
    assert_eq!(
        graph
            .build_from_generated(broken_node(vec![7], vec![], vec![], vec![]))
            .unwrap_err(),
        JoinOrderError::MissingBaseRelation
    );

    let mut graph = fresh();
    assert_eq!(
        graph
            .build_from_generated(broken_node(vec![0, 1], vec![5], vec![1], vec![]))
            .unwrap_err(),
        JoinOrderError::MissingLeftInput
    );

    let mut graph = fresh();
    assert_eq!(
        graph
            .build_from_generated(broken_node(vec![0, 1], vec![0], vec![5], vec![]))
            .unwrap_err(),
        JoinOrderError::MissingRightInput
    );

    let mut graph = fresh();
    assert_eq!(
        graph
            .build_from_generated(broken_node(vec![0, 1], vec![0], vec![1], vec![3]))
            .unwrap_err(),
        JoinOrderError::MissingEdge { edge_id: 3 }
    );

    let mut graph = fresh();
    assert_eq!(
        graph
            .build_from_generated(broken_node(vec![0, 1], vec![0], vec![1], vec![0, 0]))
            .unwrap_err(),
        JoinOrderError::EdgeAlreadyUsed { edge_id: 0 }
    );
}

#[test]
fn filters_squash_into_the_plan_root() {
    let context = BindContext::new_for_root();
    let fresh = || {
        Graph::try_new(
            vec![scan(0, 10), scan(1, 20)],
            vec![inner(0, 1)],
            vec![filter_on(0, 1), filter_on(1, 2)],
            &context,
        )
        .unwrap()
    };
    let expected = |rest: Vec<Expression>| {
        let mut expressions = vec![filter_on(0, 1).filter, filter_on(1, 2).filter];
        expressions.extend(rest);
        Expression::Conjunction(glaredb_core::expr::ConjunctionExpr {
            op: ConjunctionOperator::And,
            expressions,
        })
    };

    // Nothing to apply: the plan comes back as it is.
    let mut graph = fresh();
    assert_eq!(
        graph.apply_filters(scan(0, 10), &vec![]).unwrap(),
        scan(0, 10)
    );

    // A cross join becomes an inner join on the filters.
    let cross = LogicalOperator::CrossJoin(Node {
        node: glaredb_core::logical::logical_join::LogicalCrossJoin,
        location: LocationRequirement::Any,
        children: vec![scan(0, 10), scan(1, 20)],
        estimated_cardinality: StatisticsValue::Unknown,
    });
    let mut graph = fresh();
    match graph.apply_filters(cross, &vec![0, 1]).unwrap() {
        LogicalOperator::ArbitraryJoin(join) => {
            assert_eq!(join.node.join_type, JoinType::Inner);
            assert_eq!(join.node.condition, expected(vec![]));
            assert_eq!(join.children, vec![scan(0, 10), scan(1, 20)]);
        }
        other => panic!("not an arbitrary join: {other:?}"),
    }
    assert!(graph.filters.iter().all(|filter| filter.is_none()));

    // A filter takes the filters into its predicate.
    let filter = LogicalOperator::Filter(Node {
        node: glaredb_core::logical::logical_filter::LogicalFilter {
            filter: Expression::Literal(1),
        },
        location: LocationRequirement::Any,
        children: vec![scan(0, 10)],
        estimated_cardinality: StatisticsValue::Unknown,
    });
    let mut graph = fresh();
    match graph.apply_filters(filter, &vec![0, 1]).unwrap() {
        LogicalOperator::Filter(filter) => {
            assert_eq!(filter.node.filter, expected(vec![Expression::Literal(1)]));
            assert_eq!(filter.children, vec![scan(0, 10)]);
        }
        other => panic!("not a filter: {other:?}"),
    }

    // Anything else is wrapped.
    let mut graph = fresh();
    match graph.apply_filters(scan(0, 10), &vec![0, 1]).unwrap() {
        LogicalOperator::Filter(filter) => {
            assert_eq!(filter.node.filter, expected(vec![]));
            assert_eq!(filter.children, vec![scan(0, 10)]);
        }
        other => panic!("not a filter: {other:?}"),
    }
}

#[test]
fn find_filters_goes_by_the_tables_of_the_plan() {
    let context = BindContext::new_for_root();
    let constant = ExtractedFilter::from_expr(Expression::Literal(1));
    let mut graph = Graph::try_new(
        vec![scan(0, 10), scan(1, 20), scan(2, 30)],
        vec![inner(0, 1), inner(1, 2)],
        vec![filter_on(1, 5), constant, filter_on(0, 6), filter_on(1, 7)],
        &context,
    )
    .unwrap();
    let b = graph.best_plans.get(&RelationSet::base(1)).unwrap();
    assert_eq!(graph.find_filters(b), vec![0, 3]);
    let a = graph.best_plans.get(&RelationSet::base(0)).unwrap();
    assert_eq!(graph.find_filters(a), vec![2]);
    let c = graph.best_plans.get(&RelationSet::base(2)).unwrap();
    assert_eq!(graph.find_filters(c), Vec::<usize>::new());
    // Every filter found depends only on tables in the plan's output.
    for found in graph.find_filters(b) {
        let filter = graph.filters[found].as_ref().unwrap();
        assert!(!filter.table_refs.is_empty());
        assert!(filter.table_refs.iter().all(|t| b.output_refs.contains(t)));
    }
    // A join has used the filters on its relations.
    graph.solve().unwrap();
    let ab = graph.best_plans.get(&RelationSet::new(vec![0, 1])).unwrap();
    assert_eq!(graph.find_filters(ab), Vec::<usize>::new());
}

#[test]
fn join_of_a_set_with_itself_is_reported() {
    let context = BindContext::new_for_root();
    let mut graph = Graph::try_new(
        vec![scan(0, 10), scan(1, 20)],
        vec![inner(0, 1)],
        vec![],
        &context,
    )
    .unwrap();
    assert_eq!(
        graph
            .build_from_generated(broken_node(vec![0, 1], vec![0], vec![0], vec![0]))
            .unwrap_err(),
        JoinOrderError::MissingRightInput
    );
}

#[test]
fn single_relation_node_gives_the_relations_plan() {
    let context = BindContext::new_for_root();
    let mut graph = Graph::try_new(
        vec![scan(0, 10), scan(1, 20)],
        vec![inner(0, 1)],
        vec![],
        &context,
    )
    .unwrap();
    let plan = graph
        .build_from_generated(broken_node(vec![1], vec![], vec![], vec![]))
        .unwrap();
    assert_eq!(plan, scan(1, 20));
    assert!(graph.base_relations[1].is_none());
    assert!(graph.base_relations[0].is_some());
    // The relation is gone: taking it again is reported.
    assert_eq!(
        graph
            .build_from_generated(broken_node(vec![1], vec![], vec![], vec![]))
            .unwrap_err(),
        JoinOrderError::MissingBaseRelation
    );
}

#[test]
fn search_reaches_what_grows_out_of_a_neighbor() {
    let context = BindContext::new_for_root();
    // A chain: the plan for all relations pairs the first relation with what
    // has grown out of its neighbor.
    let mut graph = Graph::try_new(
        vec![scan(0, 10), scan(1, 20), scan(2, 30), scan(3, 40)],
        vec![inner(0, 1), inner(1, 2), inner(2, 3)],
        vec![],
        &context,
    )
    .unwrap();
    graph.solve().unwrap();
    for set in [
        vec![0, 1],
        vec![1, 2],
        vec![2, 3],
        vec![1, 2, 3],
        vec![0, 1, 2, 3],
    ] {
        assert!(graph.best_plans.contains_key(&RelationSet::new(set)));
    }
    // No plan joins what no edge joins.
    for set in [vec![0, 2], vec![0, 3], vec![1, 3]] {
        assert!(!graph.best_plans.contains_key(&RelationSet::new(set)));
    }
    // No edge was added, so no join of the plan is a cross join.
    assert_eq!(graph.hyper_edges.edges.len(), 3);
    let plan = graph.try_build().unwrap();
    assert_eq!(count(&plan, &is_cross_join), 0);
    assert_eq!(count(&plan, &is_join), 3);
}

#[test]
fn emit_pair_leaves_other_plans_alone() {
    let context = BindContext::new_for_root();
    let mut graph = Graph::try_new(
        vec![scan(0, 1000), scan(1, 2000), scan(2, 500)],
        vec![inner(0, 1), inner(1, 2)],
        vec![],
        &context,
    )
    .unwrap();
    let a = RelationSet::base(0);
    let b = RelationSet::base(1);
    let c = RelationSet::base(2);
    let edges = graph.hyper_edges.find_edges(&b, &c);
    graph.emit_pair(&b, &c, edges).unwrap();
    let before: Vec<JoinNode> = graph.best_plans.nodes.clone();
    let edges = graph.hyper_edges.find_edges(&a, &b);
    graph.emit_pair(&a, &b, edges).unwrap();
    let ab = RelationSet::new(vec![0, 1]);
    for node in &before {
        assert_eq!(graph.best_plans.get(&node.set), Some(node));
    }
    assert_eq!(graph.best_plans.nodes.len(), before.len() + 1);
    // 1000 * 2000 over min(1000, 2000) distinct values.
    assert_eq!(graph.best_plans.get(&ab).unwrap().cost, 2000);
}

#[test]
fn every_failure_has_its_words() {
    for (error, text) in [
        (JoinOrderError::MissingLongestPlan, "Missing longest best plan"),
        (JoinOrderError::UnusedBaseRelation, "Base relation left unused"),
        (JoinOrderError::UnusedCondition, "Join condition left unused"),
        (
            JoinOrderError::FilterPreviouslyUsed { filter_id: 3 },
            "Filter previously used",
        ),
    ] {
        assert_eq!(error.message(), text);
    }
}
