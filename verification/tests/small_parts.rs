use std::cmp::Ordering;

use glaredb_core::catalog::database::{AccessMode, Database};
use glaredb_core::execution::create_schema::{CreateSchemaPartitionState, PhysicalCreateSchema};
use glaredb_core::logical::binder::{BindContext, MaterializationRef, PlanMaterialization};
use glaredb_core::logical::logical_materialization::{
    LogicalMagicMaterializationScan, LogicalMaterializationScan,
};
use glaredb_core::logical::logical_no_rows::LogicalNoRows;
use glaredb_core::logical::operator::{LocationRequirement, LogicalOperator, Node};
use glaredb_core::statistics::value::{ColumnStatistics, StatisticsValue};

#[test]
fn access_mode_names() {
    assert_eq!(AccessMode::ReadWrite.as_str(), "ReadWrite");
    assert_eq!(AccessMode::ReadOnly.as_str(), "ReadOnly");
}

#[test]
fn read_only_database_is_not_writable() {
    let writable = Database {
        name: "main".to_string(),
        mode: AccessMode::ReadWrite,
        attach_info: None,
    };
    assert!(writable.check_can_write().is_ok());

    let read_only = Database {
        name: "archive".to_string(),
        mode: AccessMode::ReadOnly,
        attach_info: None,
    };
    let err = read_only.check_can_write().unwrap_err();
    assert_eq!(err.database, "archive");
    assert_eq!(err.message(), "Database 'archive' is not writable");
}

#[test]
fn statistics_value() {
    assert_eq!(StatisticsValue::Exact(4).value(), Some(&4));
    assert_eq!(StatisticsValue::Estimated(5).value(), Some(&5));
    assert_eq!(StatisticsValue::<usize>::Unknown.value(), None);
    assert_eq!(StatisticsValue::<usize>::default(), StatisticsValue::Unknown);
    let stats = ColumnStatistics {
        num_distinct: StatisticsValue::Estimated(3),
    };
    assert_eq!(stats.num_distinct.value(), Some(&3));
}

#[test]
fn first_partition_creates_schema() {
    let op = PhysicalCreateSchema {
        name: "s".to_string(),
    };
    assert_eq!(
        op.create_partition_pull_states(1),
        vec![CreateSchemaPartitionState::Create]
    );
    assert_eq!(
        op.create_partition_pull_states(3),
        vec![
            CreateSchemaPartitionState::Create,
            CreateSchemaPartitionState::Skip,
            CreateSchemaPartitionState::Skip
        ]
    );
}

#[test]
fn scan_output_refs() {
    let mut context = BindContext::new_for_root();
    context.materializations.push(PlanMaterialization {
        table_refs: vec![7, 8],
    });
    let no_rows = LogicalOperator::NoRows(Node {
        node: LogicalNoRows {
            table_refs: vec![3, 1],
        },
        location: LocationRequirement::Any,
        children: vec![],
        estimated_cardinality: StatisticsValue::Exact(0),
    });
    assert_eq!(no_rows.get_output_table_refs(&context), vec![3, 1]);

    let known = LogicalOperator::MaterializationScan(Node {
        node: LogicalMaterializationScan {
            mat: MaterializationRef {
                materialization_idx: 0,
            },
        },
        location: LocationRequirement::Any,
        children: vec![],
        estimated_cardinality: StatisticsValue::Unknown,
    });
    assert_eq!(known.get_output_table_refs(&context), vec![7, 8]);

    let unknown = LogicalOperator::MaterializationScan(Node {
        node: LogicalMaterializationScan {
            mat: MaterializationRef {
                materialization_idx: 4,
            },
        },
        location: LocationRequirement::Any,
        children: vec![],
        estimated_cardinality: StatisticsValue::Unknown,
    });
    assert_eq!(unknown.get_output_table_refs(&context), Vec::<usize>::new());

    let magic = LogicalOperator::MagicMaterializationScan(Node {
        node: LogicalMagicMaterializationScan {
            mat: MaterializationRef {
                materialization_idx: 0,
            },
            projections: vec![],
            table_ref: 9,
        },
        location: LocationRequirement::Any,
        children: vec![],
        estimated_cardinality: StatisticsValue::Unknown,
    });
    assert_eq!(magic.get_output_table_refs(&context), vec![9]);
}

#[test]
fn statistics_value_order() {
    let exact = StatisticsValue::Exact(4usize);
    let estimated = StatisticsValue::Estimated(4usize);
    let more = StatisticsValue::Estimated(9usize);
    let unknown = StatisticsValue::<usize>::Unknown;
    assert_eq!(exact.partial_cmp(&estimated), Some(Ordering::Equal));
    assert_eq!(exact.partial_cmp(&more), Some(Ordering::Less));
    assert_eq!(more.partial_cmp(&exact), Some(Ordering::Greater));
    assert_eq!(exact.partial_cmp(&unknown), Some(Ordering::Greater));
    assert_eq!(unknown.partial_cmp(&exact), Some(Ordering::Less));
    assert_eq!(unknown.partial_cmp(&unknown), Some(Ordering::Equal));
    assert!(unknown < exact);
    assert!(exact < more);
}

#[test]
fn statistics_value_text() {
    assert_eq!(StatisticsValue::Exact(42usize).to_string(), "42");
    assert_eq!(
        StatisticsValue::Estimated(0usize).to_string(),
        "0 [estimated]"
    );
    assert_eq!(StatisticsValue::<usize>::Unknown.to_string(), "[unknown]");
}
