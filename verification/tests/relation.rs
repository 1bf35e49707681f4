use sql_engine::ast::{Expr, Literal, Statement};
use sql_engine::catalog::{Catalog, ColumnDefinition, TableLookup};
use sql_engine::datum::Datum;
use sql_engine::engine::run_statement;
use sql_engine::events::{QueryError, Sink};
use sql_engine::names::{FullTableName, ObjectName};
use sql_engine::relation::{eval_header, eval_relation, RelationOp, ScalarOp};
use sql_engine::types::SqlType;

fn object(parts: &[&str]) -> ObjectName {
    ObjectName::new(parts.iter().map(|p| String::from(*p)).collect())
}

fn seeded_catalog() -> Catalog {
    let mut catalog = Catalog::new();
    let mut sink: Sink = Vec::new();
    let stmts = vec![
        Statement::CreateSchema { name: object(&["s"]) },
        Statement::CreateTable {
            name: object(&["s", "t"]),
            columns: vec![
                ColumnDefinition::new(String::from("a"), SqlType::Integer),
                ColumnDefinition::new(String::from("b"), SqlType::Integer),
            ],
        },
        Statement::Insert {
            name: object(&["s", "t"]),
            columns: Vec::new(),
            source: vec![
                vec![
                    Expr::Literal(Literal::Number(String::from("1"))),
                    Expr::Literal(Literal::Number(String::from("2"))),
                ],
                vec![
                    Expr::Literal(Literal::Number(String::from("3"))),
                    Expr::Literal(Literal::Number(String::from("4"))),
                ],
            ],
        },
    ];
    for stmt in &stmts {
        run_statement(stmt, &mut catalog, &mut sink).expect("seeding must not fail");
    }
    catalog
}

fn scan(schema: &str, table: &str) -> RelationOp {
    RelationOp::Scan {
        full_table_name: FullTableName::try_from_object(&object(&[schema, table])).unwrap(),
    }
}

#[test]
fn scan_materializes_all_rows() {
    let catalog = seeded_catalog();
    let rows = eval_relation(&scan("s", "t"), &catalog).expect("scan must succeed");
    assert_eq!(
        rows,
        vec![
            vec![Datum::Int(1), Datum::Int(2)],
            vec![Datum::Int(3), Datum::Int(4)],
        ]
    );
    let header = eval_header(&scan("s", "t"), &catalog).expect("header must resolve");
    assert_eq!(
        header,
        vec![
            (String::from("a"), SqlType::Integer),
            (String::from("b"), SqlType::Integer),
        ]
    );
}

#[test]
fn constants_yield_their_fixed_rows() {
    let catalog = Catalog::new();
    let op = RelationOp::Constants(vec![vec![Datum::Int(7), Datum::Null]]);
    let rows = eval_relation(&op, &catalog).expect("constants must succeed");
    assert_eq!(rows, vec![vec![Datum::Int(7), Datum::Null]]);
}

#[test]
fn predicate_filters_by_equality() {
    let catalog = seeded_catalog();
    let op = RelationOp::Predicate {
        input: Box::new(scan("s", "t")),
        expr: Box::new(ScalarOp::Eq(
            Box::new(ScalarOp::Column(0)),
            Box::new(ScalarOp::Value(Literal::Number(String::from("3")))),
        )),
    };
    let rows = eval_relation(&op, &catalog).expect("predicate must succeed");
    assert_eq!(rows, vec![vec![Datum::Int(3), Datum::Int(4)]]);
}

#[test]
fn subquery_passes_its_output_through() {
    let catalog = seeded_catalog();
    let op = RelationOp::SubQuery { output: Box::new(scan("s", "t")) };
    let direct = eval_relation(&scan("s", "t"), &catalog).unwrap();
    assert_eq!(eval_relation(&op, &catalog).unwrap(), direct);
}

#[test]
fn join_and_aggregate_are_refused() {
    let catalog = seeded_catalog();
    for op in [RelationOp::Join {}, RelationOp::Aggregate {}] {
        match eval_relation(&op, &catalog) {
            Err(QueryError::FeatureNotSupported(msg)) => assert_eq!(msg, "not supported"),
            other => panic!("expected a refusal, got {other:?}"),
        }
    }
}

#[test]
fn projection_over_scan_reorders() {
    let catalog = seeded_catalog();
    let op = RelationOp::Projection {
        input: vec![scan("s", "t")],
        outputs: vec![1, 0, 1],
    };
    let rows = eval_relation(&op, &catalog).expect("projection must succeed");
    assert_eq!(
        rows,
        vec![
            vec![Datum::Int(2), Datum::Int(1), Datum::Int(2)],
            vec![Datum::Int(4), Datum::Int(3), Datum::Int(4)],
        ]
    );
}

#[test]
fn next_key_id_is_monotonic_and_shared_with_writes() {
    let mut catalog = seeded_catalog();
    let name = FullTableName::try_from_object(&object(&["s", "t"])).unwrap();
    let tid = match catalog.table_exists(&name) {
        TableLookup::Found(tid) => tid,
        _ => panic!("table must exist"),
    };
    let k1 = catalog.next_key_id(&tid).expect("keys must be available");
    let k2 = catalog.next_key_id(&tid).expect("keys must be available");
    assert!(k1 < k2);
    // Two rows were inserted before, so the counter is past them.
    assert!(k1 >= 2);
}
