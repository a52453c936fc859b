use glaredb_core::arrays::datatype::DataType;
use glaredb_core::expr::{ColumnExpr, ColumnReference, ComparisonOperator, Expression};
use glaredb_core::logical::logical_join::{flip_all, ComparisonCondition};
use glaredb_core::logical::logical_scan::LogicalScan;
use glaredb_core::logical::operator::{LocationRequirement, LogicalOperator, Node};
use glaredb_core::optimizer::join_reorder::condition::ReorderableCondition;
use glaredb_core::optimizer::join_reorder::edge::{EdgeType, HyperEdges, NeighborEdge};
use glaredb_core::optimizer::join_reorder::error::JoinOrderError;
use glaredb_core::optimizer::join_reorder::node::BaseRelation;
use glaredb_core::optimizer::join_reorder::relation_set::RelationSet;
use glaredb_core::statistics::value::StatisticsValue;

fn base(rel_id: usize, table: usize, cardinality: u128) -> BaseRelation {
    BaseRelation {
        rel_id,
        operator: LogicalOperator::Scan(Node {
            node: LogicalScan { table_ref: table },
            location: LocationRequirement::Any,
            children: vec![],
            estimated_cardinality: StatisticsValue::Unknown,
        }),
        output_refs: vec![table],
        cardinality,
    }
}

fn column(table: usize) -> Expression {
    Expression::Column(ColumnExpr {
        reference: ColumnReference {
            table_scope: table,
            column: 0,
        },
        datatype: DataType::Int64,
    })
}

fn comparison(left: Expression, right: Expression) -> ComparisonCondition {
    ComparisonCondition {
        left,
        right,
        op: ComparisonOperator::Lt,
    }
}

fn set(ids: &[usize]) -> RelationSet {
    RelationSet::new(ids.to_vec())
}

/// Relations 0, 1, 2, 3 output tables 10, 11, 12, 13.
fn bases() -> Vec<BaseRelation> {
    vec![
        base(0, 10, 400),
        base(1, 11, 30),
        base(2, 12, 2000),
        base(3, 13, 50),
    ]
}

/// Edge 0 between 0 and 1, edge 1 between 1 and 2, edge 2 a semi join from
/// {2} to {0, 3}.
fn graph() -> HyperEdges {
    let sum = Expression::Comparison(glaredb_core::expr::ComparisonExpr {
        left: Box::new(column(10)),
        right: Box::new(column(13)),
        op: ComparisonOperator::Eq,
    });
    HyperEdges::new(
        vec![
            ReorderableCondition::Inner {
                condition: comparison(column(10), column(11)),
            },
            ReorderableCondition::Inner {
                condition: comparison(column(12), column(11)),
            },
            ReorderableCondition::Semi {
                conditions: vec![comparison(column(12), sum)],
            },
        ],
        &bases(),
    )
    .unwrap()
}

#[test]
fn edges_from_conditions() {
    let graph = graph();
    assert_eq!(graph.edges.len(), 3);
    let first = graph.get_edge(0).unwrap();
    assert_eq!(first.id, 0);
    assert_eq!(first.left_rels, vec![0]);
    assert_eq!(first.right_rels, vec![1]);
    assert_eq!(first.left_refs, vec![10]);
    assert_eq!(first.right_refs, vec![11]);
    assert_eq!(first.min_ndv, 30);
    assert_eq!(first.op(), EdgeType::Inner);
    let second = graph.get_edge(1).unwrap();
    assert_eq!(second.left_rels, vec![2]);
    assert_eq!(second.right_rels, vec![1]);
    assert_eq!(second.min_ndv, 30);
    let third = graph.get_edge(2).unwrap();
    assert_eq!(third.left_rels, vec![2]);
    assert_eq!(third.right_rels, vec![0, 3]);
    assert_eq!(third.min_ndv, 50);
    assert_eq!(third.op(), EdgeType::Semi);
    assert!(graph.get_edge(3).is_none());
}

#[test]
fn neighbors() {
    let graph = graph();
    assert_eq!(graph.find_neighbors(&set(&[0]), &vec![]), vec![1, 2, 3]);
    assert_eq!(graph.find_neighbors(&set(&[0]), &vec![2, 0]), vec![1, 3]);
    assert_eq!(graph.find_neighbors(&set(&[1]), &vec![]), vec![0, 2]);
    assert_eq!(graph.find_neighbors(&set(&[3]), &vec![]), vec![0, 2]);
    // Members of the set are no neighbors of it.
    assert_eq!(graph.find_neighbors(&set(&[0, 1]), &vec![]), vec![2, 3]);
    assert_eq!(
        graph.find_neighbors(&set(&[0, 1, 2, 3]), &vec![]),
        Vec::<usize>::new()
    );
}

#[test]
fn edges_between_sets() {
    let graph = graph();
    assert_eq!(
        graph.find_edges(&set(&[0]), &set(&[1])),
        vec![NeighborEdge {
            edge_id: 0,
            edge_op: EdgeType::Inner,
            min_ndv: 30
        }]
    );
    // The same from the other side.
    assert_eq!(graph.find_edges(&set(&[1]), &set(&[0])).len(), 1);
    assert!(graph.find_edges(&set(&[0]), &set(&[2])).is_empty());
    // The semi join's edge needs all of its three relations.
    assert!(graph.find_edges(&set(&[2]), &set(&[3])).is_empty());
    assert_eq!(
        graph.find_edges(&set(&[2, 0]), &set(&[3])),
        vec![NeighborEdge {
            edge_id: 2,
            edge_op: EdgeType::Semi,
            min_ndv: 50
        }]
    );
    let all = graph.find_edges(&set(&[0, 2, 3]), &set(&[1]));
    assert_eq!(
        all.iter().map(|edge| edge.edge_id).collect::<Vec<_>>(),
        vec![0, 1]
    );
}

#[test]
fn cross_products_and_removal() {
    let mut graph = graph();
    let relations = bases();
    graph.insert_cross_product(&relations[0], &relations[2]);
    let cross = graph.get_edge(3).unwrap();
    assert_eq!(cross.left_rels, vec![0]);
    assert_eq!(cross.right_rels, vec![2]);
    assert_eq!(cross.left_refs, vec![10]);
    assert_eq!(cross.right_refs, vec![12]);
    assert_eq!(cross.min_ndv, 1);
    assert!(cross.filter.is_none());
    assert_eq!(cross.op(), EdgeType::Cross);
    assert_eq!(
        graph.find_edges(&set(&[0]), &set(&[2])),
        vec![NeighborEdge {
            edge_id: 3,
            edge_op: EdgeType::Cross,
            min_ndv: 1
        }]
    );

    assert!(!graph.all_non_empty_edges_removed());
    assert!(graph.remove_edge(0).is_some());
    assert!(graph.remove_edge(0).is_none());
    assert!(graph.get_edge(0).is_none());
    assert!(graph.remove_edge(1).is_some());
    assert!(!graph.all_non_empty_edges_removed());
    assert!(graph.remove_edge(2).is_some());
    // Only the edge without a condition is left.
    assert!(graph.all_non_empty_edges_removed());
    assert!(graph.find_edges(&set(&[0]), &set(&[1])).is_empty());
}

#[test]
fn invalid_conditions() {
    // Both sides over the same relation.
    let err = HyperEdges::new(
        vec![ReorderableCondition::Inner {
            condition: comparison(column(10), column(10)),
        }],
        &bases(),
    )
    .unwrap_err();
    assert_eq!(err, JoinOrderError::InvalidCondition { index: 0 });
    // Nothing on one side.
    let err = HyperEdges::new(
        vec![
            ReorderableCondition::Inner {
                condition: comparison(column(10), column(11)),
            },
            ReorderableCondition::Inner {
                condition: comparison(column(10), Expression::Literal(3)),
            },
        ],
        &bases(),
    )
    .unwrap_err();
    assert_eq!(err, JoinOrderError::InvalidCondition { index: 1 });
    // A semi join without conditions.
    let err = HyperEdges::new(
        vec![ReorderableCondition::Semi { conditions: vec![] }],
        &bases(),
    )
    .unwrap_err();
    assert_eq!(err, JoinOrderError::InvalidCondition { index: 0 });
}

#[test]
fn condition_sides() {
    let mut condition = ComparisonCondition {
        left: column(1),
        right: column(2),
        op: ComparisonOperator::LtEq,
    };
    condition.flip_sides();
    assert_eq!(
        condition,
        ComparisonCondition {
            left: column(2),
            right: column(1),
            op: ComparisonOperator::GtEq,
        }
    );
    assert_eq!(ComparisonOperator::Eq.flip(), ComparisonOperator::Eq);
    assert_eq!(ComparisonOperator::NotEq.flip(), ComparisonOperator::NotEq);
    assert_eq!(ComparisonOperator::Lt.flip(), ComparisonOperator::Gt);
    assert_eq!(ComparisonOperator::Gt.flip(), ComparisonOperator::Lt);
    assert_eq!(ComparisonOperator::GtEq.flip(), ComparisonOperator::LtEq);

    let semi = ReorderableCondition::Semi {
        conditions: vec![
            comparison(column(4), column(2)),
            comparison(column(1), column(2)),
        ],
    };
    assert!(semi.is_semi());
    assert_eq!(semi.get_left_right_table_refs(), (vec![1, 4], vec![2]));

    let flipped = semi.flip_sides();
    assert!(flipped.is_semi());
    assert_eq!(flipped.get_left_right_table_refs(), (vec![2], vec![1, 4]));
    assert_eq!(
        flipped.into_comparisons(),
        vec![
            ComparisonCondition {
                left: column(2),
                right: column(4),
                op: ComparisonOperator::Gt,
            },
            ComparisonCondition {
                left: column(2),
                right: column(1),
                op: ComparisonOperator::Gt,
            },
        ]
    );

    let inner = ReorderableCondition::Inner {
        condition: comparison(column(7), column(8)),
    };
    assert!(!inner.is_semi());
    assert_eq!(
        inner.flip_sides(),
        ReorderableCondition::Inner {
            condition: ComparisonCondition {
                left: column(8),
                right: column(7),
                op: ComparisonOperator::Gt,
            }
        }
    );
    assert_eq!(
        flip_all(vec![comparison(column(1), column(2))]),
        vec![ComparisonCondition {
            left: column(2),
            right: column(1),
            op: ComparisonOperator::Gt,
        }]
    );
}
