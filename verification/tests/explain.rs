use glaredb_core::arrays::datatype::DataType;
use glaredb_core::ast::{ExplainNode, ExplainOutput};
use glaredb_core::expr::Expression;
use glaredb_core::logical::binder::bind_explain::{BoundExplain, ExplainBinder, ExplainFormat};
use glaredb_core::logical::binder::bind_query::select_list::{
    BoundDistinctModifier, OutputProjectionTable,
};
use glaredb_core::logical::binder::{BindContext, BindError, BindScopeRef};

#[test]
fn explain_brings_its_output_table_into_scope() {
    let mut context = BindContext::new_for_root();
    let root = context.root_scope_ref();
    let first = context
        .push_table(root, None, vec![DataType::int64()], vec!["a".to_string()])
        .unwrap();
    let binder = ExplainBinder::new(root);
    assert_eq!(binder.current, root);
    let bound = binder
        .bind_explain(
            &mut context,
            ExplainNode {
                analyze: true,
                verbose: false,
                output: Some(ExplainOutput::Json),
            },
        )
        .unwrap();
    assert_eq!(
        bound,
        BoundExplain {
            format: ExplainFormat::Json,
            verbose: false,
            analyze: true,
            table_ref: first + 1,
        }
    );
    let table = context.get_table(bound.table_ref).unwrap();
    assert!(table.alias.is_none());
    assert_eq!(table.column_types, vec![DataType::utf8(), DataType::utf8()]);
    let names: Vec<String> = table
        .column_names
        .iter()
        .map(|name| name.value.clone())
        .collect();
    assert_eq!(names, vec!["plan_type".to_string(), "plan".to_string()]);
    assert_eq!(
        context.get_scope(root).unwrap().tables,
        vec![first, bound.table_ref]
    );
}

#[test]
fn explain_is_text_unless_asked_otherwise() {
    for (output, format) in [
        (None, ExplainFormat::Text),
        (Some(ExplainOutput::Text), ExplainFormat::Text),
        (Some(ExplainOutput::Json), ExplainFormat::Json),
    ] {
        let mut context = BindContext::new_for_root();
        let root = context.root_scope_ref();
        let bound = ExplainBinder::new(root)
            .bind_explain(
                &mut context,
                ExplainNode {
                    analyze: false,
                    verbose: true,
                    output,
                },
            )
            .unwrap();
        assert_eq!(bound.format, format);
        assert!(bound.verbose);
        assert!(!bound.analyze);
        assert_eq!(bound.table_ref, 0);
    }
}

#[test]
fn explain_fails_without_its_scope() {
    let mut context = BindContext::new_for_root();
    let before = context.tables.len();
    let missing = BindScopeRef { context_idx: 7 };
    let err = ExplainBinder::new(missing)
        .bind_explain(
            &mut context,
            ExplainNode {
                analyze: false,
                verbose: false,
                output: None,
            },
        )
        .unwrap_err();
    assert_eq!(err, BindError::MissingScope { context_idx: 7 });
    assert_eq!(context.tables.len(), before);
}

#[test]
fn select_list_data_compares_by_value() {
    assert_ne!(BoundDistinctModifier::Distinct, BoundDistinctModifier::All);
    let output = OutputProjectionTable {
        table: 3,
        expressions: vec![Expression::Literal(1), Expression::Literal(2)],
    };
    let same = OutputProjectionTable {
        table: 3,
        expressions: vec![Expression::Literal(1), Expression::Literal(2)],
    };
    let other = OutputProjectionTable {
        table: 4,
        expressions: vec![Expression::Literal(1), Expression::Literal(2)],
    };
    assert_eq!(output, same);
    assert_ne!(output, other);
    assert_eq!(output.expressions.len(), 2);
}
