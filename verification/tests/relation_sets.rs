use glaredb_core::optimizer::join_reorder::edge::{EdgeType, HyperEdges, NeighborEdge};
use glaredb_core::optimizer::join_reorder::node::UsedFilters;
use glaredb_core::optimizer::join_reorder::relation_set::RelationSet;
use glaredb_core::optimizer::join_reorder::sorted_ids::{
    contains_id, insert_id, intersects_ids, is_subset_ids, ordered_from, remove_id, union_ids,
};
use glaredb_core::optimizer::join_reorder::subgraph::Subgraph;

fn set(ids: &[usize]) -> RelationSet {
    RelationSet::new(ids.to_vec())
}

#[test]
fn union_is_canonical() {
    let a = set(&[3, 1]);
    let b = set(&[2, 3, 5]);
    assert_eq!(RelationSet::union(&a, &b), RelationSet::union(&b, &a));
    assert_eq!(
        RelationSet::union(&a, &b).relation_indices,
        vec![1, 2, 3, 5]
    );
    assert_eq!(RelationSet::union(&a, &RelationSet::empty()), a);
}

#[test]
fn membership_is_order_independent() {
    assert_eq!(set(&[2, 0, 1]), set(&[1, 2, 0]));
    assert_eq!(set(&[2, 0, 1, 0, 2]).relation_indices, vec![0, 1, 2]);
    assert!(set(&[4, 9]).contains(9));
    assert!(!set(&[4, 9]).contains(5));
    assert!(set(&[4, 9]).same(&set(&[9, 4])));
    assert_eq!(set(&[4, 9]).duplicate(), set(&[9, 4]));
}

#[test]
fn base_and_empty() {
    assert_eq!(RelationSet::base(4).relation_indices, vec![4]);
    assert!(RelationSet::base(4).is_base());
    assert!(!RelationSet::empty().is_base());
    assert!(!set(&[1, 2]).is_base());
    assert!(RelationSet::empty().relation_indices.is_empty());
}

#[test]
fn all_neighbor_sets() {
    let sets = RelationSet::get_all_neighbor_sets(vec![5, 2, 9]);
    let as_vecs: Vec<Vec<usize>> = sets.into_iter().map(|s| s.relation_indices).collect();
    assert_eq!(
        as_vecs,
        vec![
            vec![2],
            vec![5],
            vec![9],
            vec![2, 5],
            vec![2, 9],
            vec![5, 9],
            vec![2, 5, 9],
        ]
    );
    assert!(RelationSet::get_all_neighbor_sets(vec![]).is_empty());
    assert_eq!(RelationSet::get_all_neighbor_sets(vec![1, 1]).len(), 1);
    // 2^5 - 1 nonempty subsets, none twice.
    let sets = RelationSet::get_all_neighbor_sets(vec![1, 2, 3, 4, 5]);
    assert_eq!(sets.len(), 31);
    for i in 0..sets.len() {
        for j in 0..i {
            assert_ne!(sets[i], sets[j]);
        }
    }
}

#[test]
fn ordered_id_vectors() {
    assert_eq!(ordered_from(&vec![3, 1, 3, 2]), vec![1, 2, 3]);
    assert_eq!(union_ids(&vec![5, 1], &vec![1, 0]), vec![0, 1, 5]);
    let mut ids = vec![1, 4];
    insert_id(&mut ids, 3);
    insert_id(&mut ids, 4);
    insert_id(&mut ids, 0);
    insert_id(&mut ids, 9);
    assert_eq!(ids, vec![0, 1, 3, 4, 9]);
    remove_id(&mut ids, 3);
    remove_id(&mut ids, 7);
    assert_eq!(ids, vec![0, 1, 4, 9]);
    assert!(contains_id(&ids, 4));
    assert!(!contains_id(&ids, 3));
    assert!(is_subset_ids(&vec![9, 0], &ids));
    assert!(!is_subset_ids(&vec![9, 2], &ids));
    assert!(is_subset_ids(&vec![], &ids));
    assert!(intersects_ids(&vec![2, 4], &ids));
    assert!(!intersects_ids(&vec![2, 3], &ids));
}

#[test]
fn used_filters() {
    let left = UsedFilters {
        filters: vec![1, 4],
    };
    let right = UsedFilters {
        filters: vec![0, 4],
    };
    let mut used = UsedFilters::unioned(&left, &right);
    assert_eq!(used.filters, vec![0, 1, 4]);
    used.mark_filters_used(&vec![2, 1]);
    assert_eq!(used.filters, vec![0, 1, 2, 4]);
    assert!(UsedFilters::none().filters.is_empty());
}

#[test]
fn subgraph_estimates() {
    let mut subgraph = Subgraph::for_rows(1000);
    let other = Subgraph::for_rows(2000);
    subgraph.update_numerator(&other);
    assert_eq!(subgraph.numerator, 2_000_000);
    let edge = NeighborEdge {
        edge_id: 0,
        edge_op: EdgeType::Inner,
        min_ndv: 100,
    };
    subgraph.update_denom(&other, &edge);
    assert_eq!(subgraph.selectivity_denom, 100);
    assert_eq!(subgraph.estimated_cardinality(), 20000);
    subgraph.apply_filter();
    assert_eq!(
        subgraph,
        Subgraph {
            numerator: 2_000_000,
            filter_scale: 10,
            selectivity_denom: 100
        }
    );
    assert_eq!(subgraph.estimated_cardinality(), 2000);
}

#[test]
fn filter_scale_goes_with_the_numerator() {
    // The right side has had two filters applied.
    let mut right = Subgraph::for_rows(500);
    right.apply_filter();
    right.apply_filter();
    assert_eq!(right.estimated_cardinality(), 5);
    let edge = NeighborEdge {
        edge_id: 0,
        edge_op: EdgeType::Semi,
        min_ndv: 10,
    };
    // A semi join leaves out the right side's numerator and with it the
    // right side's filters.
    let mut semi = Subgraph::for_rows(1000);
    semi.update_denom(&right, &edge);
    assert_eq!(
        semi,
        Subgraph {
            numerator: 1000,
            filter_scale: 1,
            selectivity_denom: 10
        }
    );
    assert_eq!(semi.estimated_cardinality(), 100);
    // An inner join takes in both.
    let mut inner = Subgraph::for_rows(1000);
    inner.update_numerator(&right);
    inner.update_denom(&right, &edge);
    assert_eq!(
        inner,
        Subgraph {
            numerator: 500_000,
            filter_scale: 100,
            selectivity_denom: 10
        }
    );
    assert_eq!(inner.estimated_cardinality(), 500);
}

#[test]
fn subgraph_saturates() {
    let mut subgraph = Subgraph {
        numerator: u128::MAX / 2,
        filter_scale: 1,
        selectivity_denom: 7,
    };
    let other = Subgraph {
        numerator: 3,
        filter_scale: 1,
        selectivity_denom: 0,
    };
    subgraph.update_numerator(&other);
    assert_eq!(subgraph.numerator, u128::MAX);
    let edge = NeighborEdge {
        edge_id: 0,
        edge_op: EdgeType::Cross,
        min_ndv: 5,
    };
    subgraph.update_denom(&other, &edge);
    assert_eq!(subgraph.selectivity_denom, 0);
    // Nothing to divide by: as many rows as can be counted.
    assert_eq!(subgraph.estimated_cardinality(), u128::MAX);
}

#[test]
fn empty_hypergraph() {
    let mut edges = HyperEdges::empty();
    assert!(edges.all_non_empty_edges_removed());
    assert!(edges.get_edge(0).is_none());
    assert!(edges.remove_edge(0).is_none());
    assert!(edges.find_neighbors(&set(&[0]), &vec![]).is_empty());
    assert!(edges.find_edges(&set(&[0]), &set(&[1])).is_empty());
}
