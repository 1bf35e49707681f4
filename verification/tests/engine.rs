use sql_engine::ast::{Expr, Literal, SelectItem, Statement};
use sql_engine::catalog::{Catalog, ColumnDefinition, StorageError};
use sql_engine::datum::be_value_of;
use sql_engine::engine::run_statement;
use sql_engine::events::{QueryError, QueryEvent, Sink};
use sql_engine::names::ObjectName;
use sql_engine::types::SqlType;

fn object(parts: &[&str]) -> ObjectName {
    ObjectName::new(parts.iter().map(|p| String::from(*p)).collect())
}

fn create_schema(name: &str) -> Statement {
    Statement::CreateSchema { name: object(&[name]) }
}

fn create_table(schema: &str, table: &str, cols: &[(&str, SqlType)]) -> Statement {
    Statement::CreateTable {
        name: object(&[schema, table]),
        columns: cols
            .iter()
            .map(|(n, t)| ColumnDefinition::new(String::from(*n), *t))
            .collect(),
    }
}

fn insert_numbers(schema: &str, table: &str, rows: &[&[&str]]) -> Statement {
    Statement::Insert {
        name: object(&[schema, table]),
        columns: Vec::new(),
        source: rows
            .iter()
            .map(|row| {
                row.iter()
                    .map(|v| Expr::Literal(Literal::Number(String::from(*v))))
                    .collect()
            })
            .collect(),
    }
}

fn insert_texts(schema: &str, table: &str, row: &[&str]) -> Statement {
    Statement::Insert {
        name: object(&[schema, table]),
        columns: Vec::new(),
        source: vec![row
            .iter()
            .map(|v| Expr::Literal(Literal::Text(String::from(*v))))
            .collect()],
    }
}

fn select_all(schema: &str, table: &str) -> Statement {
    Statement::Select {
        name: object(&[schema, table]),
        projection: vec![SelectItem::Wildcard],
    }
}

fn select_columns(schema: &str, table: &str, cols: &[&str]) -> Statement {
    Statement::Select {
        name: object(&[schema, table]),
        projection: cols
            .iter()
            .map(|c| SelectItem::Column(String::from(*c)))
            .collect(),
    }
}

fn delete_from(schema: &str, table: &str) -> Statement {
    Statement::Delete { name: object(&[schema, table]) }
}

fn run(catalog: &mut Catalog, sink: &mut Sink, stmt: Statement) {
    run_statement(&stmt, catalog, sink).expect("no storage failure expected");
}

#[test]
fn scenario_schema_then_undefined_table_delete() {
    let mut catalog = Catalog::new();
    let mut sink: Sink = Vec::new();
    run(&mut catalog, &mut sink, create_schema("s"));
    run(&mut catalog, &mut sink, delete_from("s", "t"));
    assert_eq!(
        sink,
        vec![
            Ok(QueryEvent::SchemaCreated),
            Ok(QueryEvent::QueryComplete),
            Err(QueryError::TableDoesNotExist(String::from("s.t"))),
            Ok(QueryEvent::QueryComplete),
        ]
    );
}

#[test]
fn scenario_insert_select_delete_select() {
    let mut catalog = Catalog::new();
    let mut sink: Sink = Vec::new();
    run(&mut catalog, &mut sink, create_schema("s"));
    run(
        &mut catalog,
        &mut sink,
        create_table("s", "t", &[("c", SqlType::SmallInt)]),
    );
    run(&mut catalog, &mut sink, insert_numbers("s", "t", &[&["123"]]));
    run(&mut catalog, &mut sink, insert_numbers("s", "t", &[&["456"]]));
    run(&mut catalog, &mut sink, select_all("s", "t"));
    run(&mut catalog, &mut sink, delete_from("s", "t"));
    run(&mut catalog, &mut sink, select_all("s", "t"));
    let header = vec![(String::from("c"), SqlType::SmallInt)];
    assert_eq!(
        sink,
        vec![
            Ok(QueryEvent::SchemaCreated),
            Ok(QueryEvent::QueryComplete),
            Ok(QueryEvent::TableCreated),
            Ok(QueryEvent::QueryComplete),
            Ok(QueryEvent::RecordsInserted(1)),
            Ok(QueryEvent::QueryComplete),
            Ok(QueryEvent::RecordsInserted(1)),
            Ok(QueryEvent::QueryComplete),
            Ok(QueryEvent::RecordsSelected(
                header.clone(),
                vec![vec![String::from("123")], vec![String::from("456")]],
            )),
            Ok(QueryEvent::QueryComplete),
            Ok(QueryEvent::RecordsDeleted(2)),
            Ok(QueryEvent::QueryComplete),
            Ok(QueryEvent::RecordsSelected(header, Vec::new())),
            Ok(QueryEvent::QueryComplete),
        ]
    );
}

#[test]
fn scenario_too_long_character_values() {
    let mut catalog = Catalog::new();
    let mut sink: Sink = Vec::new();
    run(&mut catalog, &mut sink, create_schema("s"));
    run(
        &mut catalog,
        &mut sink,
        create_table(
            "s",
            "t",
            &[("fixed", SqlType::Char(10)), ("vary", SqlType::VarChar(20))],
        ),
    );
    sink.clear();
    run(
        &mut catalog,
        &mut sink,
        insert_texts("s", "t", &["only ten chars fit here", "ok"]),
    );
    assert_eq!(
        sink,
        vec![
            Err(QueryError::ValueTooLong {
                sql_type: SqlType::Char(10),
                length: 10,
                column: String::from("fixed"),
                ordinal: 1,
            }),
            Ok(QueryEvent::QueryComplete),
        ]
    );
    sink.clear();
    run(
        &mut catalog,
        &mut sink,
        insert_texts("s", "t", &["short", "this text is far too long for twenty"]),
    );
    assert_eq!(
        sink,
        vec![
            Err(QueryError::ValueTooLong {
                sql_type: SqlType::VarChar(20),
                length: 20,
                column: String::from("vary"),
                ordinal: 2,
            }),
            Ok(QueryEvent::QueryComplete),
        ]
    );
}

#[test]
fn repeated_select_returns_identical_results() {
    let mut catalog = Catalog::new();
    let mut sink: Sink = Vec::new();
    run(&mut catalog, &mut sink, create_schema("s"));
    run(
        &mut catalog,
        &mut sink,
        create_table("s", "t", &[("a", SqlType::Integer), ("b", SqlType::Integer)]),
    );
    run(
        &mut catalog,
        &mut sink,
        insert_numbers("s", "t", &[&["1", "2"], &["3", "4"]]),
    );
    sink.clear();
    run(&mut catalog, &mut sink, select_columns("s", "t", &["b", "a"]));
    let first = sink.clone();
    sink.clear();
    run(&mut catalog, &mut sink, select_columns("s", "t", &["b", "a"]));
    assert_eq!(first, sink);
}

#[test]
fn projection_preserves_order_and_duplicates() {
    let mut catalog = Catalog::new();
    let mut sink: Sink = Vec::new();
    run(&mut catalog, &mut sink, create_schema("s"));
    run(
        &mut catalog,
        &mut sink,
        create_table(
            "s",
            "t",
            &[
                ("first", SqlType::Integer),
                ("middle", SqlType::Integer),
                ("last", SqlType::Integer),
            ],
        ),
    );
    run(
        &mut catalog,
        &mut sink,
        insert_numbers("s", "t", &[&["1", "2", "3"], &["4", "5", "6"], &["7", "8", "9"]]),
    );
    sink.clear();
    run(
        &mut catalog,
        &mut sink,
        select_columns("s", "t", &["last", "middle", "first", "last", "middle"]),
    );
    assert_eq!(
        sink,
        vec![
            Ok(QueryEvent::RecordsSelected(
                vec![
                    (String::from("last"), SqlType::Integer),
                    (String::from("middle"), SqlType::Integer),
                    (String::from("first"), SqlType::Integer),
                    (String::from("last"), SqlType::Integer),
                    (String::from("middle"), SqlType::Integer),
                ],
                vec![
                    vec!["3", "2", "1", "3", "2"].into_iter().map(String::from).collect(),
                    vec!["6", "5", "4", "6", "5"].into_iter().map(String::from).collect(),
                    vec!["9", "8", "7", "9", "8"].into_iter().map(String::from).collect(),
                ],
            )),
            Ok(QueryEvent::QueryComplete),
        ]
    );
}

#[test]
fn keys_strictly_increase_across_statements() {
    let mut catalog = Catalog::new();
    let mut sink: Sink = Vec::new();
    run(&mut catalog, &mut sink, create_schema("s"));
    run(
        &mut catalog,
        &mut sink,
        create_table("s", "t", &[("a", SqlType::Integer)]),
    );
    run(
        &mut catalog,
        &mut sink,
        insert_numbers("s", "t", &[&["1"], &["2"], &["3"]]),
    );
    run(&mut catalog, &mut sink, insert_numbers("s", "t", &[&["4"]]));
    run(&mut catalog, &mut sink, insert_numbers("s", "t", &[&["5"]]));
    let name = sql_engine::names::FullTableName::try_from_object(&object(&["s", "t"])).unwrap();
    let tid = match catalog.table_exists(&name) {
        sql_engine::catalog::TableLookup::Found(tid) => tid,
        _ => panic!("table must exist"),
    };
    let rows = catalog.read_all(&tid).expect("rows must be readable");
    assert_eq!(rows.len(), 5);
    let mut keys: Vec<u64> = Vec::new();
    for (key, _) in rows.iter() {
        keys.push(be_value_of(key.bytes()));
    }
    for w in keys.windows(2) {
        assert!(w[0] < w[1], "keys must strictly increase: {:?}", keys);
    }
}

#[test]
fn multi_row_insert_is_all_or_nothing() {
    let mut catalog = Catalog::new();
    let mut sink: Sink = Vec::new();
    run(&mut catalog, &mut sink, create_schema("s"));
    run(
        &mut catalog,
        &mut sink,
        create_table("s", "t", &[("a", SqlType::SmallInt)]),
    );
    run(
        &mut catalog,
        &mut sink,
        insert_numbers("s", "t", &[&["1"], &["99999"], &["3"]]),
    );
    sink.clear();
    run(&mut catalog, &mut sink, select_all("s", "t"));
    assert_eq!(
        sink,
        vec![
            Ok(QueryEvent::RecordsSelected(
                vec![(String::from("a"), SqlType::SmallInt)],
                Vec::new(),
            )),
            Ok(QueryEvent::QueryComplete),
        ]
    );
}

#[test]
fn out_of_range_and_type_mismatch_are_both_reported() {
    let mut catalog = Catalog::new();
    let mut sink: Sink = Vec::new();
    run(&mut catalog, &mut sink, create_schema("s"));
    run(
        &mut catalog,
        &mut sink,
        create_table("s", "t", &[("a", SqlType::SmallInt), ("b", SqlType::SmallInt)]),
    );
    sink.clear();
    run(
        &mut catalog,
        &mut sink,
        insert_numbers("s", "t", &[&["99999", "oops"]]),
    );
    assert_eq!(
        sink,
        vec![
            Err(QueryError::OutOfRange {
                sql_type: SqlType::SmallInt,
                column: String::from("a"),
                ordinal: 1,
            }),
            Err(QueryError::TypeMismatch {
                value: String::from("oops"),
                sql_type: SqlType::SmallInt,
                column: String::from("b"),
                ordinal: 2,
            }),
            Ok(QueryEvent::QueryComplete),
        ]
    );
}

#[test]
fn unknown_insert_column_is_reported() {
    let mut catalog = Catalog::new();
    let mut sink: Sink = Vec::new();
    run(&mut catalog, &mut sink, create_schema("s"));
    run(
        &mut catalog,
        &mut sink,
        create_table("s", "t", &[("a", SqlType::Integer)]),
    );
    sink.clear();
    let stmt = Statement::Insert {
        name: object(&["s", "t"]),
        columns: vec![String::from("missing")],
        source: vec![vec![Expr::Literal(Literal::Number(String::from("1")))]],
    };
    run(&mut catalog, &mut sink, stmt);
    assert_eq!(
        sink,
        vec![
            Err(QueryError::ColumnDoesNotExist(String::from("missing"))),
            Ok(QueryEvent::QueryComplete),
        ]
    );
}

#[test]
fn explicit_column_list_fills_the_rest_with_null() {
    let mut catalog = Catalog::new();
    let mut sink: Sink = Vec::new();
    run(&mut catalog, &mut sink, create_schema("s"));
    run(
        &mut catalog,
        &mut sink,
        create_table("s", "t", &[("a", SqlType::Integer), ("b", SqlType::Integer)]),
    );
    let stmt = Statement::Insert {
        name: object(&["s", "t"]),
        columns: vec![String::from("b")],
        source: vec![vec![Expr::Literal(Literal::Number(String::from("9")))]],
    };
    run(&mut catalog, &mut sink, stmt);
    sink.clear();
    run(&mut catalog, &mut sink, select_all("s", "t"));
    assert_eq!(
        sink,
        vec![
            Ok(QueryEvent::RecordsSelected(
                vec![
                    (String::from("a"), SqlType::Integer),
                    (String::from("b"), SqlType::Integer),
                ],
                vec![vec![String::from("NULL"), String::from("9")]],
            )),
            Ok(QueryEvent::QueryComplete),
        ]
    );
}

#[test]
fn too_many_insert_expressions_abort() {
    let mut catalog = Catalog::new();
    let mut sink: Sink = Vec::new();
    run(&mut catalog, &mut sink, create_schema("s"));
    run(
        &mut catalog,
        &mut sink,
        create_table("s", "t", &[("a", SqlType::Integer)]),
    );
    sink.clear();
    run(&mut catalog, &mut sink, insert_numbers("s", "t", &[&["1", "2"]]));
    assert_eq!(
        sink,
        vec![
            Err(QueryError::TooManyInsertExpressions),
            Ok(QueryEvent::QueryComplete),
        ]
    );
}

#[test]
fn non_literal_insert_expression_is_unsupported() {
    let mut catalog = Catalog::new();
    let mut sink: Sink = Vec::new();
    run(&mut catalog, &mut sink, create_schema("s"));
    run(
        &mut catalog,
        &mut sink,
        create_table("s", "t", &[("a", SqlType::Integer)]),
    );
    sink.clear();
    let stmt = Statement::Insert {
        name: object(&["s", "t"]),
        columns: Vec::new(),
        source: vec![vec![Expr::Column(String::from("a"))]],
    };
    run(&mut catalog, &mut sink, stmt);
    assert_eq!(
        sink,
        vec![
            Err(QueryError::FeatureNotSupported(String::from(
                "Only expressions resulting in a literal are supported"
            ))),
            Ok(QueryEvent::QueryComplete),
        ]
    );
}

#[test]
fn unknown_schema_and_table_and_syntax_errors() {
    let mut catalog = Catalog::new();
    let mut sink: Sink = Vec::new();
    run(&mut catalog, &mut sink, select_all("ghost", "t"));
    assert_eq!(
        sink,
        vec![
            Err(QueryError::SchemaDoesNotExist(String::from("ghost"))),
            Ok(QueryEvent::QueryComplete),
        ]
    );
    sink.clear();
    run(
        &mut catalog,
        &mut sink,
        Statement::CreateSchema { name: object(&["a", "b"]) },
    );
    assert_eq!(
        sink,
        vec![
            Err(QueryError::SyntaxError(String::from(
                "only unqualified schema names are supported, 'a.b'"
            ))),
            Ok(QueryEvent::QueryComplete),
        ]
    );
    sink.clear();
    run(
        &mut catalog,
        &mut sink,
        Statement::Delete { name: object(&["only"]) },
    );
    assert_eq!(
        sink,
        vec![
            Err(QueryError::SyntaxError(String::from(
                "unsupported table name 'only'. All table names must be qualified"
            ))),
            Ok(QueryEvent::QueryComplete),
        ]
    );
}

#[test]
fn drop_schema_cascades_and_goes_silent_when_stale() {
    let mut catalog = Catalog::new();
    let mut sink: Sink = Vec::new();
    run(&mut catalog, &mut sink, create_schema("s"));
    run(
        &mut catalog,
        &mut sink,
        create_table("s", "t", &[("a", SqlType::Integer)]),
    );
    sink.clear();
    run(
        &mut catalog,
        &mut sink,
        Statement::DropSchemas { names: vec![object(&["s"])], cascade: true },
    );
    assert_eq!(
        sink,
        vec![Ok(QueryEvent::SchemaDropped), Ok(QueryEvent::QueryComplete)]
    );
    sink.clear();
    run(&mut catalog, &mut sink, select_all("s", "t"));
    assert_eq!(
        sink,
        vec![
            Err(QueryError::SchemaDoesNotExist(String::from("s"))),
            Ok(QueryEvent::QueryComplete),
        ]
    );
}

#[test]
fn char_values_are_right_padded() {
    let mut catalog = Catalog::new();
    let mut sink: Sink = Vec::new();
    run(&mut catalog, &mut sink, create_schema("s"));
    run(
        &mut catalog,
        &mut sink,
        create_table("s", "t", &[("c", SqlType::Char(5))]),
    );
    run(&mut catalog, &mut sink, insert_texts("s", "t", &["ab"]));
    sink.clear();
    run(&mut catalog, &mut sink, select_all("s", "t"));
    assert_eq!(
        sink,
        vec![
            Ok(QueryEvent::RecordsSelected(
                vec![(String::from("c"), SqlType::Char(5))],
                vec![vec![String::from("ab   ")]],
            )),
            Ok(QueryEvent::QueryComplete),
        ]
    );
}

#[test]
fn duplicate_creations_are_storage_refusals() {
    let mut catalog = Catalog::new();
    let mut sink: Sink = Vec::new();
    run(&mut catalog, &mut sink, create_schema("s"));
    let before = sink.clone();
    // A second CREATE SCHEMA of the same name is refused by the catalog
    // itself: the statement fails without closing.
    let r = run_statement(&create_schema("s"), &mut catalog, &mut sink);
    assert_eq!(r, Err(StorageError::SchemaAlreadyExists));
    assert_eq!(sink, before);
    run(
        &mut catalog,
        &mut sink,
        create_table("s", "t", &[("a", SqlType::Integer)]),
    );
    let before = sink.clone();
    let r = run_statement(
        &create_table("s", "t", &[("a", SqlType::Integer)]),
        &mut catalog,
        &mut sink,
    );
    assert_eq!(r, Err(StorageError::TableAlreadyExists));
    assert_eq!(sink, before);
}

#[test]
fn create_table_in_missing_schema_is_rejected() {
    let mut catalog = Catalog::new();
    let mut sink: Sink = Vec::new();
    run(
        &mut catalog,
        &mut sink,
        create_table("ghost", "t", &[("a", SqlType::Integer)]),
    );
    assert_eq!(
        sink,
        vec![
            Err(QueryError::SchemaDoesNotExist(String::from("ghost"))),
            Ok(QueryEvent::QueryComplete),
        ]
    );
}

#[test]
fn restricted_drop_keeps_a_populated_schema() {
    let mut catalog = Catalog::new();
    let mut sink: Sink = Vec::new();
    run(&mut catalog, &mut sink, create_schema("s"));
    run(
        &mut catalog,
        &mut sink,
        create_table("s", "t", &[("a", SqlType::Integer)]),
    );
    sink.clear();
    // RESTRICT on a schema that still holds tables: the drop is refused
    // with a named error, and the table survives.
    run(
        &mut catalog,
        &mut sink,
        Statement::DropSchemas { names: vec![object(&["s"])], cascade: false },
    );
    assert_eq!(
        sink,
        vec![
            Err(QueryError::SchemaHasDependentObjects(String::from("s"))),
            Ok(QueryEvent::QueryComplete),
        ]
    );
    sink.clear();
    run(&mut catalog, &mut sink, select_all("s", "t"));
    assert_eq!(
        sink,
        vec![
            Ok(QueryEvent::RecordsSelected(
                vec![(String::from("a"), SqlType::Integer)],
                Vec::new(),
            )),
            Ok(QueryEvent::QueryComplete),
        ]
    );
}


#[test]
fn dropping_one_schema_twice_reports_the_stale_id() {
    let mut catalog = Catalog::new();
    let mut sink: Sink = Vec::new();
    run(&mut catalog, &mut sink, create_schema("s"));
    sink.clear();
    // Both names resolve to the same schema at planning time; the first
    // drop removes it, so the second finds its id stale and says so.
    run(
        &mut catalog,
        &mut sink,
        Statement::DropSchemas { names: vec![object(&["s"]), object(&["s"])], cascade: true },
    );
    assert_eq!(
        sink,
        vec![
            Ok(QueryEvent::SchemaDropped),
            Err(QueryError::SchemaDoesNotExist(String::from("s"))),
            Ok(QueryEvent::QueryComplete),
        ]
    );
}
