use glaredb_core::arrays::datatype::DataType;
use glaredb_core::ast;
use glaredb_core::ast::ObjectReference;
use glaredb_core::expr::{ColumnExpr, ColumnReference};
use glaredb_core::logical::binder::ident::BinderIdent;
use glaredb_core::logical::binder::select_expr_expander::{
    ExpandError, ExpandedSelectExpr, SelectExprExpander,
};
use glaredb_core::logical::binder::table_list::{TableAlias, UsingColumn};
use glaredb_core::logical::binder::{BindContext, BindError, BindScopeRef};

#[test]
fn expand_none() {
    let bind_context = BindContext::new_for_root();
    let expander = SelectExprExpander::new(bind_context.root_scope_ref(), &bind_context);

    let exprs = vec![
        ast::SelectExpr::Expr(ast::Expr::Literal(ast::Literal::Number("1".to_string()))),
        ast::SelectExpr::Expr(ast::Expr::Literal(ast::Literal::Number("2".to_string()))),
    ];

    let expected = vec![
        ExpandedSelectExpr::Expr {
            expr: ast::Expr::Literal(ast::Literal::Number("1".to_string())),
            alias: None,
        },
        ExpandedSelectExpr::Expr {
            expr: ast::Expr::Literal(ast::Literal::Number("2".to_string())),
            alias: None,
        },
    ];
    let expanded = expander.expand_all_select_exprs(exprs).unwrap();

    assert_eq!(expected, expanded);
}

#[test]
fn expand_unqualified() {
    let mut bind_context = BindContext::new_for_root();
    let table_ref = bind_context
        .push_table(
            bind_context.root_scope_ref(),
            Some(TableAlias {
                database: Some(BinderIdent::from("d1")),
                schema: Some(BinderIdent::from("s1")),
                table: BinderIdent::from("t1"),
            }),
            vec![DataType::utf8(), DataType::utf8()],
            vec!["c1".to_string(), "c2".to_string()],
        )
        .unwrap();

    let expander = SelectExprExpander::new(bind_context.root_scope_ref(), &bind_context);

    let exprs = vec![ast::SelectExpr::Wildcard(ast::WildcardModifier {
        exclude_cols: Vec::new(),
        replace_cols: Vec::new(),
    })];

    let expected = vec![
        ExpandedSelectExpr::Column {
            expr: ColumnExpr {
                reference: ColumnReference {
                    table_scope: table_ref,
                    column: 0,
                },
                datatype: DataType::utf8(),
            },
            name: "c1".into(),
        },
        ExpandedSelectExpr::Column {
            expr: ColumnExpr {
                reference: ColumnReference {
                    table_scope: table_ref,
                    column: 1,
                },
                datatype: DataType::utf8(),
            },
            name: "c2".into(),
        },
    ];
    let expanded = expander.expand_all_select_exprs(exprs).unwrap();

    assert_eq!(expected, expanded);
}

#[test]
fn expand_qualified() {
    let mut bind_context = BindContext::new_for_root();
    // Add 't1'
    let t1_table_ref = bind_context
        .push_table(
            bind_context.root_scope_ref(),
            Some(TableAlias {
                database: Some(BinderIdent::from("d1")),
                schema: Some(BinderIdent::from("s1")),
                table: BinderIdent::from("t1"),
            }),
            vec![DataType::utf8(), DataType::utf8()],
            vec!["c1".to_string(), "c2".to_string()],
        )
        .unwrap();
    // Add 't2'
    bind_context
        .push_table(
            bind_context.root_scope_ref(),
            Some(TableAlias {
                database: Some(BinderIdent::from("d1")),
                schema: Some(BinderIdent::from("s1")),
                table: BinderIdent::from("t2"),
            }),
            vec![DataType::utf8(), DataType::utf8()],
            vec!["c3".to_string(), "c4".to_string()],
        )
        .unwrap();

    let expander = SelectExprExpander::new(bind_context.root_scope_ref(), &bind_context);

    // Expand just 't1'
    let exprs = vec![ast::SelectExpr::QualifiedWildcard(
        ObjectReference(vec![ast::Ident::new_unquoted("t1")]),
        ast::WildcardModifier {
            exclude_cols: Vec::new(),
            replace_cols: Vec::new(),
        },
    )];

    let expected = vec![
        ExpandedSelectExpr::Column {
            expr: ColumnExpr {
                reference: ColumnReference {
                    table_scope: t1_table_ref,
                    column: 0,
                },
                datatype: DataType::utf8(),
            },
            name: "c1".into(),
        },
        ExpandedSelectExpr::Column {
            expr: ColumnExpr {
                reference: ColumnReference {
                    table_scope: t1_table_ref,
                    column: 1,
                },
                datatype: DataType::utf8(),
            },
            name: "c2".into(),
        },
    ];
    let expanded = expander.expand_all_select_exprs(exprs).unwrap();

    assert_eq!(expected, expanded);
}

fn alias(table: &str) -> Option<TableAlias> {
    Some(TableAlias {
        database: None,
        schema: None,
        table: BinderIdent::from(table),
    })
}

/// Table `t1` with `id` (a number), `name`, `note`; table `t2` with `id`
/// (a number) and `size` (a number).
fn two_tables() -> BindContext {
    let mut context = BindContext::new_for_root();
    let root = context.root_scope_ref();
    context
        .push_table(
            root,
            alias("t1"),
            vec![DataType::int64(), DataType::utf8(), DataType::utf8()],
            vec!["id".to_string(), "name".to_string(), "note".to_string()],
        )
        .unwrap();
    context
        .push_table(
            root,
            alias("t2"),
            vec![DataType::int64(), DataType::int64()],
            vec!["id".to_string(), "size".to_string()],
        )
        .unwrap();
    context
}

fn column(table: usize, column: usize, datatype: DataType, name: &str) -> ExpandedSelectExpr {
    ExpandedSelectExpr::Column {
        expr: ColumnExpr {
            reference: ColumnReference {
                table_scope: table,
                column,
            },
            datatype,
        },
        name: name.into(),
    }
}

fn no_modifier() -> ast::WildcardModifier {
    ast::WildcardModifier {
        exclude_cols: Vec::new(),
        replace_cols: Vec::new(),
    }
}

fn number(text: &str) -> ast::Expr {
    ast::Expr::Literal(ast::Literal::Number(text.to_string()))
}

fn columns(pattern: &str) -> ast::SelectExpr {
    ast::SelectExpr::Expr(ast::Expr::Columns(ast::ColumnsExpr::Pattern(
        pattern.to_string(),
    )))
}

#[test]
fn wildcard_lists_tables_in_order() {
    let context = two_tables();
    let expander = SelectExprExpander::new(context.root_scope_ref(), &context);
    let expanded = expander
        .expand_select_expr(ast::SelectExpr::Wildcard(no_modifier()))
        .unwrap();
    assert_eq!(
        expanded,
        vec![
            column(0, 0, DataType::Int64, "id"),
            column(0, 1, DataType::Utf8, "name"),
            column(0, 2, DataType::Utf8, "note"),
            column(1, 0, DataType::Int64, "id"),
            column(1, 1, DataType::Int64, "size"),
        ]
    );
}

#[test]
fn using_columns_come_first_and_once() {
    let mut context = two_tables();
    let root = context.root_scope_ref();
    context
        .append_using_column(
            root,
            UsingColumn {
                column: "id".into(),
                table_ref: 1,
                col_idx: 0,
            },
        )
        .unwrap();
    let expander = SelectExprExpander::new(root, &context);
    let expanded = expander
        .expand_select_expr(ast::SelectExpr::Wildcard(no_modifier()))
        .unwrap();
    assert_eq!(
        expanded,
        vec![
            column(1, 0, DataType::Int64, "id"),
            column(0, 1, DataType::Utf8, "name"),
            column(0, 2, DataType::Utf8, "note"),
            column(1, 1, DataType::Int64, "size"),
        ]
    );
}

#[test]
fn tables_outside_the_star_are_skipped() {
    let mut context = two_tables();
    context.tables[0].star_expandable = false;
    let expander = SelectExprExpander::new(context.root_scope_ref(), &context);
    let expanded = expander
        .expand_select_expr(ast::SelectExpr::Wildcard(no_modifier()))
        .unwrap();
    assert_eq!(
        expanded,
        vec![
            column(1, 0, DataType::Int64, "id"),
            column(1, 1, DataType::Int64, "size"),
        ]
    );
    // A qualified wildcard still finds the table.
    let expanded = expander
        .expand_select_expr(ast::SelectExpr::QualifiedWildcard(
            ObjectReference(vec![ast::Ident::new_unquoted("t1")]),
            no_modifier(),
        ))
        .unwrap();
    assert_eq!(expanded.len(), 3);
}

#[test]
fn exclude_and_replace() {
    let context = two_tables();
    let expander = SelectExprExpander::new(context.root_scope_ref(), &context);
    let modifier = ast::WildcardModifier {
        exclude_cols: vec![ast::Ident::new_unquoted("note")],
        replace_cols: vec![
            ast::ReplaceColumn {
                col: ast::Ident::new_unquoted("name"),
                expr: number("1"),
            },
            ast::ReplaceColumn {
                col: ast::Ident::new_unquoted("name"),
                expr: number("2"),
            },
        ],
    };
    let expanded = expander
        .expand_select_expr(ast::SelectExpr::QualifiedWildcard(
            ObjectReference(vec![ast::Ident::new_unquoted("t1")]),
            modifier,
        ))
        .unwrap();
    assert_eq!(
        expanded,
        vec![
            column(0, 0, DataType::Int64, "id"),
            // The last replacement for a column counts.
            ExpandedSelectExpr::Expr {
                expr: number("2"),
                alias: Some("name".into()),
            },
        ]
    );
    assert_eq!(expanded[0].get_alias(), None);
    assert_eq!(expanded[1].get_alias(), Some(&BinderIdent::from("name")));
}

#[test]
fn exclude_removes_every_column_of_that_name() {
    let context = two_tables();
    let expander = SelectExprExpander::new(context.root_scope_ref(), &context);
    let modifier = ast::WildcardModifier {
        exclude_cols: vec![ast::Ident::new_unquoted("id")],
        replace_cols: Vec::new(),
    };
    let expanded = expander
        .expand_select_expr(ast::SelectExpr::Wildcard(modifier))
        .unwrap();
    assert_eq!(
        expanded,
        vec![
            column(0, 1, DataType::Utf8, "name"),
            column(0, 2, DataType::Utf8, "note"),
            column(1, 1, DataType::Int64, "size"),
        ]
    );
}

#[test]
fn modifier_must_name_returned_columns() {
    let context = two_tables();
    let expander = SelectExprExpander::new(context.root_scope_ref(), &context);
    let qualified = |modifier| {
        ast::SelectExpr::QualifiedWildcard(
            ObjectReference(vec![ast::Ident::new_unquoted("t1")]),
            modifier,
        )
    };

    // `size` is a column of the other table.
    let err = expander
        .expand_select_expr(qualified(ast::WildcardModifier {
            exclude_cols: vec![
                ast::Ident::new_unquoted("id"),
                ast::Ident::new_unquoted("size"),
            ],
            replace_cols: Vec::new(),
        }))
        .unwrap_err();
    assert_eq!(err, ExpandError::ExcludedColumnNotReturned { index: 1 });

    let err = expander
        .expand_select_expr(qualified(ast::WildcardModifier {
            exclude_cols: Vec::new(),
            replace_cols: vec![ast::ReplaceColumn {
                col: ast::Ident::new_unquoted("size"),
                expr: number("1"),
            }],
        }))
        .unwrap_err();
    assert_eq!(err, ExpandError::ReplacedColumnNotReturned { index: 0 });

    // A column that is excluded cannot be replaced.
    let err = expander
        .expand_select_expr(qualified(ast::WildcardModifier {
            exclude_cols: vec![ast::Ident::new_unquoted("name")],
            replace_cols: vec![ast::ReplaceColumn {
                col: ast::Ident::new_unquoted("name"),
                expr: number("1"),
            }],
        }))
        .unwrap_err();
    assert_eq!(err, ExpandError::ReplacedColumnNotReturned { index: 0 });
}

#[test]
fn qualified_wildcard_errors() {
    let context = two_tables();
    let expander = SelectExprExpander::new(context.root_scope_ref(), &context);
    let err = expander
        .expand_select_expr(ast::SelectExpr::QualifiedWildcard(
            ObjectReference(vec![
                ast::Ident::new_unquoted("s"),
                ast::Ident::new_unquoted("t1"),
            ]),
            no_modifier(),
        ))
        .unwrap_err();
    assert_eq!(err, ExpandError::QualifiedWildcardTooLong);

    let err = expander
        .expand_select_expr(ast::SelectExpr::QualifiedWildcard(
            ObjectReference(vec![]),
            no_modifier(),
        ))
        .unwrap_err();
    assert_eq!(err, ExpandError::EmptyReference);

    let err = expander
        .expand_select_expr(ast::SelectExpr::QualifiedWildcard(
            ObjectReference(vec![ast::Ident::new_unquoted("t9")]),
            no_modifier(),
        ))
        .unwrap_err();
    assert_eq!(err, ExpandError::MissingTable);
}

#[test]
fn missing_scope() {
    let context = two_tables();
    let expander = SelectExprExpander::new(BindScopeRef { context_idx: 3 }, &context);
    let missing = ExpandError::Bind(BindError::MissingScope { context_idx: 3 });
    assert_eq!(
        expander
            .expand_select_expr(ast::SelectExpr::Wildcard(no_modifier()))
            .unwrap_err(),
        missing
    );
    assert_eq!(
        expander.expand_select_expr(columns("i")).unwrap_err(),
        missing
    );
    // Expressions need no scope.
    assert!(expander
        .expand_select_expr(ast::SelectExpr::Expr(number("1")))
        .is_ok());
}

#[test]
fn aliased_expression() {
    let context = two_tables();
    let expander = SelectExprExpander::new(context.root_scope_ref(), &context);
    let expanded = expander
        .expand_select_expr(ast::SelectExpr::AliasedExpr(
            number("7"),
            ast::Ident::new_unquoted("seven"),
        ))
        .unwrap();
    assert_eq!(
        expanded,
        vec![ExpandedSelectExpr::Expr {
            expr: number("7"),
            alias: Some("seven".into()),
        }]
    );
}

#[test]
fn columns_by_pattern() {
    let context = two_tables();
    let expander = SelectExprExpander::new(context.root_scope_ref(), &context);
    // Names that start with `n`.
    assert_eq!(
        expander.expand_select_expr(columns("^n")).unwrap(),
        vec![
            column(0, 1, DataType::Utf8, "name"),
            column(0, 2, DataType::Utf8, "note"),
        ]
    );
    // A match anywhere in the name counts.
    assert_eq!(
        expander.expand_select_expr(columns("i")).unwrap(),
        vec![
            column(0, 0, DataType::Int64, "id"),
            column(1, 0, DataType::Int64, "id"),
            column(1, 1, DataType::Int64, "size"),
        ]
    );
    assert_eq!(
        expander.expand_select_expr(columns("^(id|size)$")).unwrap(),
        vec![
            column(0, 0, DataType::Int64, "id"),
            column(1, 0, DataType::Int64, "id"),
            column(1, 1, DataType::Int64, "size"),
        ]
    );
    assert_eq!(
        expander.expand_select_expr(columns("^x")).unwrap(),
        Vec::<ExpandedSelectExpr>::new()
    );
}

#[test]
fn invalid_pattern() {
    let context = two_tables();
    let expander = SelectExprExpander::new(context.root_scope_ref(), &context);
    assert_eq!(
        expander.expand_select_expr(columns("na(me")).unwrap_err(),
        ExpandError::InvalidPattern
    );
    // Also where there are no columns to match.
    let empty = BindContext::new_for_root();
    let expander = SelectExprExpander::new(empty.root_scope_ref(), &empty);
    assert_eq!(
        expander.expand_select_expr(columns("na(me")).unwrap_err(),
        ExpandError::InvalidPattern
    );
    assert!(expander.expand_select_expr(columns("name")).unwrap().is_empty());
}

#[test]
fn expansion_stops_at_first_failure() {
    let context = two_tables();
    let expander = SelectExprExpander::new(context.root_scope_ref(), &context);
    let err = expander
        .expand_all_select_exprs(vec![
            ast::SelectExpr::Expr(number("1")),
            columns("(("),
            ast::SelectExpr::QualifiedWildcard(ObjectReference(vec![]), no_modifier()),
        ])
        .unwrap_err();
    assert_eq!(err, ExpandError::InvalidPattern);

    let expanded = expander
        .expand_all_select_exprs(vec![
            ast::SelectExpr::Expr(number("1")),
            columns("^size$"),
            ast::SelectExpr::Expr(number("2")),
        ])
        .unwrap();
    assert_eq!(
        expanded,
        vec![
            ExpandedSelectExpr::Expr {
                expr: number("1"),
                alias: None,
            },
            column(1, 1, DataType::Int64, "size"),
            ExpandedSelectExpr::Expr {
                expr: number("2"),
                alias: None,
            },
        ]
    );
}

#[test]
fn table_aliases() {
    let full = TableAlias {
        database: Some("d".into()),
        schema: Some("s".into()),
        table: "t".into(),
    };
    let by_table = TableAlias {
        database: None,
        schema: None,
        table: "t".into(),
    };
    let by_schema = TableAlias {
        database: None,
        schema: Some("s".into()),
        table: "t".into(),
    };
    let other_schema = TableAlias {
        database: None,
        schema: Some("x".into()),
        table: "t".into(),
    };
    assert!(full.matches(&by_table));
    assert!(full.matches(&by_schema));
    assert!(full.matches(&full));
    assert!(!full.matches(&other_schema));
    // A reference with a qualifier does not match an alias without one.
    assert!(!by_table.matches(&by_schema));
    assert!(!by_table.matches(&TableAlias {
        database: None,
        schema: None,
        table: "u".into(),
    }));
}

#[test]
fn bind_context_tables() {
    let mut context = BindContext::new_for_root();
    let root = context.root_scope_ref();
    assert_eq!(
        context
            .push_table(root, None, vec![DataType::utf8()], vec![])
            .unwrap_err(),
        BindError::ColumnCountMismatch { types: 1, names: 0 }
    );
    assert_eq!(
        context
            .push_table(BindScopeRef { context_idx: 1 }, None, vec![], vec![])
            .unwrap_err(),
        BindError::MissingScope { context_idx: 1 }
    );
    let table = context
        .push_table(root, None, vec![DataType::utf8()], vec!["a".to_string()])
        .unwrap();
    assert_eq!(table, 0);
    assert_eq!(
        context.get_column_type(ColumnReference {
            table_scope: 0,
            column: 0
        }),
        Ok(DataType::Utf8)
    );
    assert_eq!(
        context.get_column_type(ColumnReference {
            table_scope: 0,
            column: 1
        }),
        Err(BindError::MissingColumn {
            table_ref: 0,
            column: 1
        })
    );
    assert_eq!(
        context.get_column_type(ColumnReference {
            table_scope: 4,
            column: 0
        }),
        Err(BindError::MissingTable { table_ref: 4 })
    );
    assert_eq!(
        context
            .append_using_column(
                root,
                UsingColumn {
                    column: "a".into(),
                    table_ref: 0,
                    col_idx: 3,
                }
            )
            .unwrap_err(),
        BindError::MissingColumn {
            table_ref: 0,
            column: 3
        }
    );
    assert!(context.get_table(0).is_ok());
    assert!(context.get_table(1).is_err());
    assert!(context.get_scope(root).is_ok());
}
