//! One planner per statement kind: pure functions from a parsed
//! fragment and the catalog to a bound plan.
//!
//! A malformed identifier is a syntax error; a reference to a missing
//! schema, table or column is a semantic error. Either is delivered to
//! the result sink and the planner aborts: the caller must not
//! execute. Planners never validate literal values and never mutate
//! storage.

use vstd::prelude::*;

use crate::ast::{Expr, SelectItem};
use crate::catalog::find_column;
use crate::catalog::{
    catalog_wf, find_schema, find_table, first_col, lemma_found_table_pos, table_pos, Catalog,
    ColumnDefinition, SchemaId, TableId, TableLookup,
};
use crate::events::{send, sink_view, QueryError, QueryErrorV, Sink};
use crate::names::{
    spec_full_name, spec_joined, spec_not_processed_message, spec_schema_naming_message,
    spec_unqualified_message, FullTableName, ObjectName, SchemaName,
};
use crate::plan::{Plan, SchemaCreationInfo, TableCreationInfo, TableInserts};
use crate::relation::RelationOp;

verus! {

/// The ghost image of a column-definition list.
pub open spec fn cols_view(cols: Seq<ColumnDefinition>) -> Seq<(Seq<char>, SqlType)> {
    cols.map_values(|c: ColumnDefinition| c@)
}

use crate::types::SqlType;

/// The ghost image of an expression row.
pub open spec fn exprs_view(row: Seq<Expr>) -> Seq<crate::ast::ExprV> {
    row.map_values(|e: Expr| e@)
}

/// The ghost image of an expression matrix.
pub open spec fn matrix_view(input: Seq<Vec<Expr>>) -> Seq<Seq<crate::ast::ExprV>> {
    input.map_values(|r: Vec<Expr>| exprs_view(r@))
}

/// The ghost image of a name list.
pub open spec fn names_view(names: Seq<String>) -> Seq<Seq<char>> {
    names.map_values(|s: String| s@)
}

fn clone_columns(cols: &Vec<ColumnDefinition>) -> (r: Vec<ColumnDefinition>)
    ensures
        cols_view(r@) == cols_view(cols@),
{
    let mut out: Vec<ColumnDefinition> = Vec::new();
    let mut i: usize = 0;
    while i < cols.len()
        invariant
            0 <= i <= cols@.len(),
            cols_view(out@) == cols_view(cols@).take(i as int),
        decreases cols@.len() - i,
    {
        let ghost before = cols_view(out@);
        out.push(cols[i].clone());
        proof {
            assert(cols_view(out@) =~= before.push(cols@[i as int]@));
            assert(cols_view(out@) =~= cols_view(cols@).take(i + 1));
        }
        i = i + 1;
    }
    proof {
        assert(cols_view(cols@).take(cols@.len() as int) =~= cols_view(cols@));
    }
    out
}

fn clone_names(names: &Vec<String>) -> (r: Vec<String>)
    ensures
        names_view(r@) == names_view(names@),
{
    let mut out: Vec<String> = Vec::new();
    let mut i: usize = 0;
    while i < names.len()
        invariant
            0 <= i <= names@.len(),
            names_view(out@) == names_view(names@).take(i as int),
        decreases names@.len() - i,
    {
        let ghost before = names_view(out@);
        out.push(names[i].clone());
        proof {
            assert(names_view(out@) =~= before.push(names@[i as int]@));
            assert(names_view(out@) =~= names_view(names@).take(i + 1));
        }
        i = i + 1;
    }
    proof {
        assert(names_view(names@).take(names@.len() as int) =~= names_view(names@));
    }
    out
}

fn clone_expr_row(row: &Vec<Expr>) -> (r: Vec<Expr>)
    ensures
        exprs_view(r@) == exprs_view(row@),
{
    let mut out: Vec<Expr> = Vec::new();
    let mut i: usize = 0;
    while i < row.len()
        invariant
            0 <= i <= row@.len(),
            exprs_view(out@) == exprs_view(row@).take(i as int),
        decreases row@.len() - i,
    {
        let ghost before = exprs_view(out@);
        out.push(row[i].clone());
        proof {
            assert(exprs_view(out@) =~= before.push(row@[i as int]@));
            assert(exprs_view(out@) =~= exprs_view(row@).take(i + 1));
        }
        i = i + 1;
    }
    proof {
        assert(exprs_view(row@).take(row@.len() as int) =~= exprs_view(row@));
    }
    out
}

fn clone_matrix(input: &Vec<Vec<Expr>>) -> (r: Vec<Vec<Expr>>)
    ensures
        matrix_view(r@) == matrix_view(input@),
{
    let mut out: Vec<Vec<Expr>> = Vec::new();
    let mut i: usize = 0;
    while i < input.len()
        invariant
            0 <= i <= input@.len(),
            matrix_view(out@) == matrix_view(input@).take(i as int),
        decreases input@.len() - i,
    {
        let ghost before = matrix_view(out@);
        out.push(clone_expr_row(&input[i]));
        proof {
            assert(matrix_view(out@) =~= before.push(exprs_view(input@[i as int]@)));
            assert(matrix_view(out@) =~= matrix_view(input@).take(i + 1));
        }
        i = i + 1;
    }
    proof {
        assert(matrix_view(input@).take(input@.len() as int) =~= matrix_view(input@));
    }
    out
}

/// Plans CREATE SCHEMA: the name must be unqualified.
pub fn plan_create_schema(name: &ObjectName, sink: &mut Sink) -> (r: Result<Plan, ()>)
    ensures
        r is Ok <==> name@.len() == 1,
        r matches Ok(p) ==> (p matches Plan::CreateSchema(info) && info.schema_name@
            == spec_joined(name@)) && final (sink)@ == old(sink)@,
        r is Err ==> sink_view(final (sink)@) == sink_view(old(sink)@).push(
            Err(QueryErrorV::SyntaxError(spec_schema_naming_message(spec_joined(name@)))),
        ),
{
    match SchemaName::try_from_object(name) {
        Ok(schema_name) => Ok(
            Plan::CreateSchema(
                SchemaCreationInfo { schema_name: String::from_str(schema_name.as_str()) },
            ),
        ),
        Err(error) => {
            send(sink, Err(QueryError::SyntaxError(error.message())));
            Err(())
        },
    }
}

/// The error a failed table-name resolution reports.
pub open spec fn resolve_error(name: Seq<Seq<char>>, c: crate::catalog::CatalogV) -> QueryErrorV {
    if name.len() == 1 {
        QueryErrorV::SyntaxError(spec_unqualified_message(spec_joined(name)))
    } else if name.len() != 2 {
        QueryErrorV::SyntaxError(spec_not_processed_message(spec_joined(name)))
    } else if find_schema(c.schemas, name[0]) is None {
        QueryErrorV::SchemaDoesNotExist(name[0])
    } else {
        QueryErrorV::TableDoesNotExist(spec_full_name(name[0], name[1]))
    }
}

/// Whether a qualified table name resolves against the catalog.
pub open spec fn resolves(name: Seq<Seq<char>>, c: crate::catalog::CatalogV) -> bool {
    &&& name.len() == 2
    &&& find_schema(c.schemas, name[0]) is Some
    &&& find_table(c.tables, find_schema(c.schemas, name[0])->Some_0, name[1]) is Some
}

/// The table id a resolving name denotes.
pub open spec fn resolved_id(name: Seq<Seq<char>>, c: crate::catalog::CatalogV) -> (u64, u64) {
    let sid = find_schema(c.schemas, name[0])->Some_0;
    (sid, find_table(c.tables, sid, name[1])->Some_0)
}

/// Resolves a qualified table name, reporting the failure otherwise.
fn resolve_table(name: &ObjectName, catalog: &Catalog, sink: &mut Sink) -> (r: Result<
    (FullTableName, TableId),
    (),
>)
    ensures
        r is Ok <==> resolves(name@, catalog@),
        r matches Ok(p) ==> p.0@ == (name@[0], name@[1]) && p.1@ == resolved_id(name@, catalog@)
            && final (sink)@ == old(sink)@,
        r is Err ==> sink_view(final (sink)@) == sink_view(old(sink)@).push(
            Err(resolve_error(name@, catalog@)),
        ),
{
    let ftn = match FullTableName::try_from_object(name) {
        Err(e) => {
            send(sink, Err(QueryError::SyntaxError(e.message())));
            return Err(());
        },
        Ok(ftn) => ftn,
    };
    match catalog.table_exists(&ftn) {
        TableLookup::SchemaMissing => {
            send(
                sink,
                Err(
                    QueryError::SchemaDoesNotExist(
                        String::from_str(ftn.schema_name().as_str()),
                    ),
                ),
            );
            Err(())
        },
        TableLookup::TableMissing(_) => {
            send(sink, Err(QueryError::TableDoesNotExist(ftn.full_name())));
            Err(())
        },
        TableLookup::Found(tid) => Ok((ftn, tid)),
    }
}

/// Plans CREATE TABLE: a qualified table name over an existing schema.
pub fn plan_create_table(
    name: &ObjectName,
    columns: &Vec<ColumnDefinition>,
    catalog: &Catalog,
    sink: &mut Sink,
) -> (r: Result<Plan, ()>)
    ensures
        r is Ok <==> name@.len() == 2 && find_schema(catalog@.schemas, name@[0]) is Some,
        r matches Ok(p) ==> (p matches Plan::CreateTable(info) && info.schema_id@ == find_schema(
            catalog@.schemas,
            name@[0],
        )->Some_0 && info.table_name@ == name@[1] && cols_view(info.columns@) == cols_view(
            columns@,
        )) && final (sink)@ == old(sink)@,
        r is Err ==> sink_view(final (sink)@) == sink_view(old(sink)@).push(
            Err(
                if name@.len() == 1 {
                    QueryErrorV::SyntaxError(spec_unqualified_message(spec_joined(name@)))
                } else if name@.len() != 2 {
                    QueryErrorV::SyntaxError(spec_not_processed_message(spec_joined(name@)))
                } else {
                    QueryErrorV::SchemaDoesNotExist(name@[0])
                },
            ),
        ),
{
    let ftn = match FullTableName::try_from_object(name) {
        Err(e) => {
            send(sink, Err(QueryError::SyntaxError(e.message())));
            return Err(());
        },
        Ok(ftn) => ftn,
    };
    match catalog.schema_exists(ftn.schema_name()) {
        None => {
            send(
                sink,
                Err(
                    QueryError::SchemaDoesNotExist(
                        String::from_str(ftn.schema_name().as_str()),
                    ),
                ),
            );
            Err(())
        },
        Some(schema_id) => Ok(
            Plan::CreateTable(
                TableCreationInfo {
                    schema_id,
                    table_name: String::from_str(ftn.table_name()),
                    columns: clone_columns(columns),
                },
            ),
        ),
    }
}

/// Whether every dropped name is unqualified and names a live schema.
pub open spec fn drop_names_ok(names: Seq<ObjectName>, c: crate::catalog::CatalogV) -> bool {
    forall|i: int|
        0 <= i < names.len() ==> (#[trigger] names[i])@.len() == 1 && find_schema(
            c.schemas,
            spec_joined(names[i]@),
        ) is Some
}

/// Plans DROP SCHEMA over a list of names, aborting at the first name
/// that is qualified or unknown.
#[verifier::rlimit(60)]
pub fn plan_drop_schemas(
    names: &Vec<ObjectName>,
    cascade: bool,
    catalog: &Catalog,
    sink: &mut Sink,
) -> (r: Result<Plan, ()>)
    ensures
        r is Ok <==> drop_names_ok(names@, catalog@),
        r matches Ok(p) ==> (p matches Plan::DropSchemas(list) && list@.len() == names@.len()
            && forall|i: int|
            0 <= i < list@.len() ==> (#[trigger] list@[i]).0@ == find_schema(
                catalog@.schemas,
                spec_joined(names@[i]@),
            )->Some_0 && list@[i].1@ == spec_joined(names@[i]@) && list@[i].2 == cascade)
            && final (sink)@ == old(sink)@,
        r is Err ==> exists|k: int|
            0 <= k < names@.len() && (forall|i: int|
                0 <= i < k ==> (#[trigger] names@[i])@.len() == 1 && find_schema(
                    catalog@.schemas,
                    spec_joined(names@[i]@),
                ) is Some) && (names@[k]@.len() != 1 || find_schema(
                catalog@.schemas,
                spec_joined(names@[k]@),
            ) is None) && sink_view(final (sink)@) == sink_view(old(sink)@).push(
                Err(
                    if (#[trigger] names@[k])@.len() != 1 {
                        QueryErrorV::SyntaxError(
                            spec_schema_naming_message(spec_joined(names@[k]@)),
                        )
                    } else {
                        QueryErrorV::SchemaDoesNotExist(spec_joined(names@[k]@))
                    },
                ),
            ),
{
    let mut schemas: Vec<(SchemaId, SchemaName, bool)> = Vec::new();
    let mut i: usize = 0;
    while i < names.len()
        invariant
            0 <= i <= names@.len(),
            sink@ == old(sink)@,
            forall|k: int|
                0 <= k < i ==> (#[trigger] names@[k])@.len() == 1 && find_schema(
                    catalog@.schemas,
                    spec_joined(names@[k]@),
                ) is Some,
            schemas@.len() == i,
            forall|k: int|
                0 <= k < i ==> (#[trigger] schemas@[k]).0@ == find_schema(
                    catalog@.schemas,
                    spec_joined(names@[k]@),
                )->Some_0 && schemas@[k].1@ == spec_joined(names@[k]@) && schemas@[k].2
                    == cascade,
        decreases names@.len() - i,
    {
        let name = &names[i];
        match SchemaName::try_from_object(name) {
            Ok(schema_name) => match catalog.schema_exists(&schema_name) {
                None => {
                    send(
                        sink,
                        Err(
                            QueryError::SchemaDoesNotExist(
                                String::from_str(schema_name.as_str()),
                            ),
                        ),
                    );
                    return Err(());
                },
                Some(schema_id) => {
                    schemas.push((schema_id, schema_name, cascade));
                },
            },
            Err(error) => {
                send(sink, Err(QueryError::SyntaxError(error.message())));
                return Err(());
            },
        }
        i = i + 1;
    }
    Ok(Plan::DropSchemas(schemas))
}

/// Plans INSERT: the target table resolved, expressions carried over
/// untouched for execution to evaluate and validate.
pub fn plan_insert(
    name: &ObjectName,
    columns: &Vec<String>,
    source: &Vec<Vec<Expr>>,
    catalog: &Catalog,
    sink: &mut Sink,
) -> (r: Result<Plan, ()>)
    ensures
        r is Ok <==> resolves(name@, catalog@),
        r matches Ok(p) ==> (p matches Plan::Insert(ins) && ins.table_id@ == resolved_id(
            name@,
            catalog@,
        ) && names_view(ins.column_indices@) == names_view(columns@) && matrix_view(ins.input@)
            == matrix_view(source@)) && final (sink)@ == old(sink)@,
        r is Err ==> sink_view(final (sink)@) == sink_view(old(sink)@).push(
            Err(resolve_error(name@, catalog@)),
        ),
{
    match resolve_table(name, catalog, sink) {
        Err(()) => Err(()),
        Ok((_, table_id)) => Ok(
            Plan::Insert(
                TableInserts {
                    table_id,
                    column_indices: clone_names(columns),
                    input: clone_matrix(source),
                },
            ),
        ),
    }
}

/// Plans DELETE: the whole resolved table's rows.
pub fn plan_delete(name: &ObjectName, catalog: &Catalog, sink: &mut Sink) -> (r: Result<Plan, ()>)
    ensures
        r is Ok <==> resolves(name@, catalog@),
        r matches Ok(p) ==> (p matches Plan::Delete(tid) && tid@ == resolved_id(name@, catalog@))
            && final (sink)@ == old(sink)@,
        r is Err ==> sink_view(final (sink)@) == sink_view(old(sink)@).push(
            Err(resolve_error(name@, catalog@)),
        ),
{
    match resolve_table(name, catalog, sink) {
        Err(()) => Err(()),
        Ok((_, table_id)) => Ok(Plan::Delete(table_id)),
    }
}

/// Whether a selection list is satisfiable over a column list: a lone
/// wildcard, or column names that all resolve.
pub open spec fn sel_ok(cols: Seq<(Seq<char>, SqlType)>, items: Seq<SelectItem>) -> bool {
    if items.len() == 1 && items[0] is Wildcard {
        true
    } else {
        forall|j: int|
            0 <= j < items.len() ==> ((#[trigger] items[j]) matches SelectItem::Column(n)
                && first_col(cols, n@) >= 0)
    }
}

/// Whether output indices realize a selection list over a column list.
pub open spec fn sel_outputs(
    cols: Seq<(Seq<char>, SqlType)>,
    items: Seq<SelectItem>,
    outputs: Seq<usize>,
) -> bool {
    if items.len() == 1 && items[0] is Wildcard {
        outputs.len() == cols.len() && forall|j: int|
            0 <= j < outputs.len() ==> (#[trigger] outputs[j]) as int == j
    } else {
        outputs.len() == items.len() && forall|j: int|
            0 <= j < outputs.len() ==> (#[trigger] outputs[j]) as int == first_col(
                cols,
                (items[j]->Column_0)@,
            )
    }
}

/// Plans SELECT: a scan of the resolved table under a name-based
/// projection that may reorder and duplicate columns.
pub fn plan_select(
    name: &ObjectName,
    projection: &Vec<SelectItem>,
    catalog: &Catalog,
    sink: &mut Sink,
) -> (r: Result<Plan, ()>)
    requires
        catalog_wf(catalog@),
    ensures
        ({
            let cols = catalog@.tables[table_pos(
                catalog@.tables,
                resolved_id(name@, catalog@).0,
                resolved_id(name@, catalog@).1,
            )].columns;
            &&& (r is Ok <==> resolves(name@, catalog@) && sel_ok(cols, projection@))
            &&& (r matches Ok(p) ==> (p matches Plan::Select(op) && op matches
                RelationOp::Projection { input, outputs } && input@.len() == 1 && (input@[0]
                matches RelationOp::Scan { full_table_name } && full_table_name@ == (
            name@[0],
            name@[1],
            )) && sel_outputs(cols, projection@, outputs@)) && final (sink)@ == old(sink)@)
            &&& (r is Err && !resolves(name@, catalog@) ==> sink_view(final (sink)@) == sink_view(
                old(sink)@,
            ).push(Err(resolve_error(name@, catalog@))))
            &&& (r is Err && resolves(name@, catalog@) ==> !(projection@.len() == 1
                && projection@[0] is Wildcard) && exists|k: int|
                0 <= k < projection@.len() && (forall|i: int|
                    0 <= i < k ==> ((#[trigger] projection@[i]) matches SelectItem::Column(n)
                        && first_col(cols, n@) >= 0)) && !((#[trigger] projection@[k]) matches
                SelectItem::Column(n) && first_col(cols, n@) >= 0) && sink_view(final (sink)@)
                == sink_view(old(sink)@).push(
                Err(
                    match projection@[k] {
                        SelectItem::Wildcard => QueryErrorV::FeatureNotSupported(
                            "not supported"@,
                        ),
                        SelectItem::Column(n) => QueryErrorV::ColumnDoesNotExist(n@),
                    },
                ),
            ))
        }),
{
    let (ftn, tid) = match resolve_table(name, catalog, sink) {
        Err(()) => {
            return Err(());
        },
        Ok(p) => p,
    };
    proof {
        lemma_found_table_pos(catalog@.tables, tid@.0, name@[1]);
    }
    let cols = match catalog.table_columns(&tid) {
        Err(_) => {
            proof {
                assert(false);
            }
            return Err(());
        },
        Ok(cols) => cols,
    };
    let ghost cv = catalog@.tables[table_pos(catalog@.tables, tid@.0, tid@.1)].columns;
    let mut outputs: Vec<usize> = Vec::new();
    let wildcard_only = projection.len() == 1 && matches!(projection[0], SelectItem::Wildcard);
    if wildcard_only {
        let n = cols.len();
        let mut i: usize = 0;
        while i < n
            invariant
                0 <= i <= n,
                outputs@.len() == i,
                forall|j: int| 0 <= j < i ==> (#[trigger] outputs@[j]) as int == j,
            decreases n - i,
        {
            outputs.push(i);
            i = i + 1;
        }
    } else {
        let mut j: usize = 0;
        while j < projection.len()
            invariant
                0 <= j <= projection@.len(),
                !(projection@.len() == 1 && projection@[0] is Wildcard),
                sink@ == old(sink)@,
                resolves(name@, catalog@),
                catalog_wf(catalog@),
                cv == catalog@.tables[table_pos(
                    catalog@.tables,
                    resolved_id(name@, catalog@).0,
                    resolved_id(name@, catalog@).1,
                )].columns,
                cols@.map_values(|c: ColumnDefinition| c@) == cv,
                outputs@.len() == j,
                forall|k: int|
                    0 <= k < j ==> ((#[trigger] projection@[k]) matches SelectItem::Column(n)
                        && first_col(cv, n@) >= 0),
                forall|k: int|
                    0 <= k < j ==> (#[trigger] outputs@[k]) as int == first_col(
                        cv,
                        (projection@[k]->Column_0)@,
                    ),
            decreases projection@.len() - j,
        {
            match &projection[j] {
                SelectItem::Wildcard => {
                    send(
                        sink,
                        Err(QueryError::FeatureNotSupported(String::from_str("not supported"))),
                    );
                    return Err(());
                },
                SelectItem::Column(n) => {
                    match crate::catalog::find_column(cols, n.as_str()) {
                        None => {
                            send(sink, Err(QueryError::ColumnDoesNotExist(n.clone())));
                            return Err(());
                        },
                        Some(k) => {
                            outputs.push(k);
                        },
                    }
                },
            }
            j = j + 1;
        }
        proof {
            if projection@.len() == 1 && projection@[0] is Wildcard {
                assert(projection@[0] matches SelectItem::Column(_));
                assert(false);
            }
        }
    }
    let mut input: Vec<RelationOp> = Vec::new();
    input.push(RelationOp::Scan { full_table_name: ftn });
    Ok(Plan::Select(RelationOp::Projection { input, outputs }))
}

} // verus!
