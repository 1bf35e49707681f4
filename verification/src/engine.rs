//! Command executors: one per plan kind, each validating, touching
//! storage, and reporting its outcome through the result sink.
//!
//! A statement is planned, then executed; a rejected or failed
//! statement reports its errors and ends, like a completed one, with
//! `QueryComplete`. Inserts are all-or-nothing: no row is written
//! unless every row of the statement passed validation.

use vstd::prelude::*;

use crate::ast::{SelectItem, Statement};
use crate::catalog::{
    catalog_wf, find_schema, has_schema_id, schema_has_tables, schema_pos, table_pos, Catalog,
    CatalogV, DropStrategy, SchemaId, SchemaV, StorageError, TableId, TableV,
};
use crate::ast::ExprV;
use crate::catalog::{col_types, find_column, find_table, first_col, ColumnDefinition};
use crate::datum::{row_view, spec_datum_text, spec_encode_row, Binary, Datum, DatumV};
use crate::eval::{eval, literal_text, spec_datum_for, spec_eval, BoundValue};
use crate::types::{spec_validate, ConstraintError, SqlType};
use crate::events::{send, sink_view, QueryError, QueryErrorV, QueryEvent, QueryEventV, Sink};
use crate::names::{
    spec_joined, spec_not_processed_message, spec_schema_naming_message,
    spec_unqualified_message, SchemaName,
};
use crate::plan::{Plan, SchemaCreationInfo, TableCreationInfo, TableInserts};
use crate::planner::{
    plan_create_schema, plan_create_table, plan_delete, plan_drop_schemas, plan_insert,
    plan_select,
};
use crate::relation::{eval_header, eval_relation, rel_header, rel_rows, rows_view, RelationOp};

verus! {

/// Creates the planned schema and reports `SchemaCreated`; a catalog
/// refusal propagates unmodified.
pub fn execute_create_schema(
    info: &SchemaCreationInfo,
    catalog: &mut Catalog,
    sink: &mut Sink,
) -> (r: Result<(), StorageError>)
    requires
        catalog_wf(old(catalog)@),
    ensures
        catalog_wf(final (catalog)@),
        match r {
            Ok(()) => {
                &&& find_schema(old(catalog)@.schemas, info.schema_name@) is None
                &&& old(catalog)@.next_schema < u64::MAX
                &&& final (catalog)@.schemas == old(catalog)@.schemas.push(
                    (SchemaV {
                        id: old(catalog)@.next_schema,
                        name: info.schema_name@,
                        next_table: 0,
                    }),
                )
                &&& final (catalog)@.next_schema == old(catalog)@.next_schema + 1
                &&& final (catalog)@.tables == old(catalog)@.tables
                &&& sink_view(final (sink)@) == sink_view(old(sink)@).push(
                    Ok(QueryEventV::SchemaCreated),
                )
            },
            Err(e) => {
                &&& final (catalog)@ == old(catalog)@
                &&& final (sink)@ == old(sink)@
                &&& (e == StorageError::SchemaAlreadyExists <==> find_schema(
                    old(catalog)@.schemas,
                    info.schema_name@,
                ) is Some)
                &&& (e == StorageError::IdsExhausted ==> old(catalog)@.next_schema == u64::MAX)
                &&& (e == StorageError::SchemaAlreadyExists || e == StorageError::IdsExhausted)
            },
        },
{
    let name = SchemaName::from_string(info.schema_name.clone());
    match catalog.create_schema(&name) {
        Err(e) => Err(e),
        Ok(_) => {
            send(sink, Ok(QueryEvent::SchemaCreated));
            Ok(())
        },
    }
}

/// Creates the planned table and reports `TableCreated`; a catalog
/// refusal propagates unmodified.
pub fn execute_create_table(
    info: &TableCreationInfo,
    catalog: &mut Catalog,
    sink: &mut Sink,
) -> (r: Result<(), StorageError>)
    requires
        catalog_wf(old(catalog)@),
    ensures
        catalog_wf(final (catalog)@),
        match r {
            Ok(()) => {
                let sp = schema_pos(old(catalog)@.schemas, info.schema_id@);
                &&& sp >= 0
                &&& final (catalog)@.tables == old(catalog)@.tables.push(
                    (TableV {
                        schema_id: info.schema_id@,
                        table_id: old(catalog)@.schemas[sp].next_table,
                        name: info.table_name@,
                        columns: crate::planner::cols_view(info.columns@),
                        next_key: 0,
                        rows: Seq::empty(),
                    }),
                )
                &&& final (catalog)@.schemas == old(catalog)@.schemas.update(
                    sp,
                    (SchemaV {
                        next_table: (old(catalog)@.schemas[sp].next_table + 1) as u64,
                        ..old(catalog)@.schemas[sp]
                    }),
                )
                &&& find_table(old(catalog)@.tables, info.schema_id@, info.table_name@) is None
                &&& old(catalog)@.schemas[sp].next_table < u64::MAX
                &&& final (catalog)@.next_schema == old(catalog)@.next_schema
                &&& sink_view(final (sink)@) == sink_view(old(sink)@).push(
                    Ok(QueryEventV::TableCreated),
                )
            },
            Err(e) => {
                &&& final (catalog)@ == old(catalog)@
                &&& final (sink)@ == old(sink)@
                &&& ((e == StorageError::SchemaDoesNotExist && !crate::catalog::has_schema_id(
                    old(catalog)@.schemas,
                    info.schema_id@,
                )) || (e == StorageError::TableAlreadyExists && find_table(
                    old(catalog)@.tables,
                    info.schema_id@,
                    info.table_name@,
                ) is Some) || (e == StorageError::IdsExhausted && {
                    let sp = schema_pos(old(catalog)@.schemas, info.schema_id@);
                    sp >= 0 && find_table(old(catalog)@.tables, info.schema_id@, info.table_name@)
                        is None && old(catalog)@.schemas[sp].next_table == u64::MAX
                }))
            },
        },
{
    match catalog.create_table(&info.schema_id, info.table_name.as_str(), &info.columns) {
        Err(e) => Err(e),
        Ok(_) => {
            send(sink, Ok(QueryEvent::TableCreated));
            Ok(())
        },
    }
}

/// What one schema drop leaves of the catalog: nothing changes when
/// the id is stale or the restricted schema still holds tables.
pub open spec fn spec_drop_one(c: CatalogV, id: u64, cascade: bool) -> CatalogV {
    if !has_schema_id(c.schemas, id) {
        c
    } else if !cascade && schema_has_tables(c.tables, id) {
        c
    } else {
        CatalogV {
            next_schema: c.next_schema,
            schemas: c.schemas.remove(schema_pos(c.schemas, id)),
            tables: c.tables.filter(|t: TableV| t.schema_id != id),
        }
    }
}

/// Whether one schema drop succeeds and reports `SchemaDropped`.
pub open spec fn spec_drop_emits(c: CatalogV, id: u64, cascade: bool) -> bool {
    has_schema_id(c.schemas, id) && (cascade || !schema_has_tables(c.tables, id))
}

/// The one event a planned drop reports: `SchemaDropped` on success, a
/// named error when the id is stale or a restricted schema still holds
/// tables.
pub open spec fn spec_drop_event(c: CatalogV, id: u64, name: Seq<char>, cascade: bool) -> Result<
    QueryEventV,
    QueryErrorV,
> {
    if !has_schema_id(c.schemas, id) {
        Err(QueryErrorV::SchemaDoesNotExist(name))
    } else if !cascade && schema_has_tables(c.tables, id) {
        Err(QueryErrorV::SchemaHasDependentObjects(name))
    } else {
        Ok(QueryEventV::SchemaDropped)
    }
}

/// The catalog after a list of drops, applied left to right.
pub open spec fn spec_drop_fold(c: CatalogV, list: Seq<(u64, Seq<char>, bool)>) -> CatalogV
    decreases list.len(),
{
    if list.len() == 0 {
        c
    } else {
        spec_drop_fold(spec_drop_one(c, list[0].0, list[0].2), list.drop_first())
    }
}

/// The events the drops report, one per planned schema, in order.
pub open spec fn spec_drop_events(c: CatalogV, list: Seq<(u64, Seq<char>, bool)>) -> Seq<
    Result<QueryEventV, QueryErrorV>,
>
    decreases list.len(),
{
    if list.len() == 0 {
        Seq::empty()
    } else {
        seq![spec_drop_event(c, list[0].0, list[0].1, list[0].2)] + spec_drop_events(
            spec_drop_one(c, list[0].0, list[0].2),
            list.drop_first(),
        )
    }
}

proof fn lemma_drop_fold_step(c: CatalogV, list: Seq<(u64, Seq<char>, bool)>, i: int)
    requires
        0 <= i < list.len(),
    ensures
        spec_drop_fold(c, list.take(i + 1)) == spec_drop_one(
            spec_drop_fold(c, list.take(i)),
            list[i].0,
            list[i].2,
        ),
        spec_drop_events(c, list.take(i + 1)) == spec_drop_events(c, list.take(i)).push(
            spec_drop_event(spec_drop_fold(c, list.take(i)), list[i].0, list[i].1, list[i].2),
        ),
    decreases i,
{
    if i == 0 {
        reveal_with_fuel(spec_drop_fold, 3);
        reveal_with_fuel(spec_drop_events, 3);
        assert(list.take(1)[0] == list[0]);
        assert(list.take(1).drop_first() =~= Seq::<(u64, Seq<char>, bool)>::empty());
        assert(list.take(0) =~= Seq::<(u64, Seq<char>, bool)>::empty());
        assert(spec_drop_events(c, list.take(1)) =~= spec_drop_events(c, list.take(0)).push(
            spec_drop_event(spec_drop_fold(c, list.take(0)), list[0].0, list[0].1, list[0].2),
        ));
    } else {
        let c1 = spec_drop_one(c, list[0].0, list[0].2);
        let dl = list.drop_first();
        lemma_drop_fold_step(c1, dl, i - 1);
        assert(list.take(i + 1)[0] == list[0]);
        assert(list.take(i)[0] == list[0]);
        assert(list.take(i + 1).drop_first() =~= dl.take(i));
        assert(list.take(i).drop_first() =~= dl.take(i - 1));
        assert(dl[i - 1] == list[i]);
        assert(spec_drop_fold(c, list.take(i + 1)) == spec_drop_fold(c1, dl.take(i)));
        assert(spec_drop_fold(c, list.take(i)) == spec_drop_fold(c1, dl.take(i - 1)));
        assert(spec_drop_events(c, list.take(i + 1)) == seq![
            spec_drop_event(c, list[0].0, list[0].1, list[0].2),
        ] + spec_drop_events(c1, dl.take(i)));
        assert(spec_drop_events(c, list.take(i)) == seq![
            spec_drop_event(c, list[0].0, list[0].1, list[0].2),
        ] + spec_drop_events(c1, dl.take(i - 1)));
        assert(seq![spec_drop_event(c, list[0].0, list[0].1, list[0].2)] + spec_drop_events(
            c1,
            dl.take(i - 1),
        ).push(spec_drop_event(spec_drop_fold(c1, dl.take(i - 1)), dl[i - 1].0, dl[i - 1].1, dl[
        i - 1].2)) =~= (seq![spec_drop_event(c, list[0].0, list[0].1, list[0].2)]
            + spec_drop_events(c1, dl.take(i - 1))).push(
            spec_drop_event(spec_drop_fold(c, list.take(i)), list[i].0, list[i].1, list[i].2),
        ));
    }
}

/// The ghost image of a planned drop list.
pub open spec fn drops_view(s: Seq<(SchemaId, SchemaName, bool)>) -> Seq<(u64, Seq<char>, bool)> {
    s.map_values(|p: (SchemaId, SchemaName, bool)| (p.0@, p.1@, p.2))
}

/// Drops each planned schema in order, mapping the cascade flag to the
/// drop strategy. Each successful drop reports `SchemaDropped`; a
/// stale id reports that the schema does not exist, and a restricted
/// schema that still holds tables reports its dependent objects.
pub fn execute_drop_schemas(
    schemas: &Vec<(SchemaId, SchemaName, bool)>,
    catalog: &mut Catalog,
    sink: &mut Sink,
) -> (r: Result<(), StorageError>)
    requires
        catalog_wf(old(catalog)@),
    ensures
        catalog_wf(final (catalog)@),
        r is Ok,
        final (catalog)@ == spec_drop_fold(old(catalog)@, drops_view(schemas@)),
        sink_view(final (sink)@) == sink_view(old(sink)@) + spec_drop_events(
            old(catalog)@,
            drops_view(schemas@),
        ),
{
    let ghost dv = drops_view(schemas@);
    let ghost c0 = catalog@;
    proof {
        assert(dv.take(0) =~= Seq::<(u64, Seq<char>, bool)>::empty());
        assert(sink_view(sink@) =~= sink_view(old(sink)@) + spec_drop_events(c0, dv.take(0)));
    }
    let mut i: usize = 0;
    while i < schemas.len()
        invariant
            0 <= i <= schemas@.len(),
            dv == drops_view(schemas@),
            c0 == old(catalog)@,
            catalog_wf(catalog@),
            catalog@ == spec_drop_fold(c0, dv.take(i as int)),
            sink_view(sink@) == sink_view(old(sink)@) + spec_drop_events(c0, dv.take(i as int)),
        decreases schemas@.len() - i,
    {
        let ghost before = catalog@;
        let strategy = if schemas[i].2 {
            DropStrategy::Cascade
        } else {
            DropStrategy::Restrict
        };
        proof {
            assert(dv[i as int] == (schemas@[i as int].0@, schemas@[i as int].1@, schemas@[
            i as int].2));
        }
        let outcome = match catalog.drop_schema(&schemas[i].0, strategy) {
            Err(_) => {
                proof {
                    assert(false);
                }
                return Ok(());
            },
            Ok(outcome) => outcome,
        };
        proof {
            lemma_drop_fold_step(c0, dv, i as int);
        }
        let ghost ev = spec_drop_event(before, dv[i as int].0, dv[i as int].1, dv[i as int].2);
        match outcome {
            Ok(()) => {
                send(sink, Ok(QueryEvent::SchemaDropped));
                proof {
                    assert(catalog@ == spec_drop_one(before, dv[i as int].0, dv[i as int].2));
                    assert(ev == Ok::<QueryEventV, QueryErrorV>(QueryEventV::SchemaDropped));
                    assert(sink_view(sink@) =~= sink_view(old(sink)@) + spec_drop_events(
                        c0,
                        dv.take(i + 1),
                    ));
                }
            },
            Err(crate::catalog::DropSchemaError::DoesNotExist) => {
                send(
                    sink,
                    Err(
                        QueryError::SchemaDoesNotExist(
                            String::from_str(schemas[i].1.as_str()),
                        ),
                    ),
                );
                proof {
                    assert(catalog@ == before);
                    assert(catalog@ == spec_drop_one(before, dv[i as int].0, dv[i as int].2));
                    assert(ev == Err::<QueryEventV, QueryErrorV>(
                        QueryErrorV::SchemaDoesNotExist(dv[i as int].1),
                    ));
                    assert(sink_view(sink@) =~= sink_view(old(sink)@) + spec_drop_events(
                        c0,
                        dv.take(i + 1),
                    ));
                }
            },
            Err(crate::catalog::DropSchemaError::HasDependentObjects) => {
                send(
                    sink,
                    Err(
                        QueryError::SchemaHasDependentObjects(
                            String::from_str(schemas[i].1.as_str()),
                        ),
                    ),
                );
                proof {
                    assert(catalog@ == before);
                    assert(catalog@ == spec_drop_one(before, dv[i as int].0, dv[i as int].2));
                    assert(ev == Err::<QueryEventV, QueryErrorV>(
                        QueryErrorV::SchemaHasDependentObjects(dv[i as int].1),
                    ));
                    assert(sink_view(sink@) =~= sink_view(old(sink)@) + spec_drop_events(
                        c0,
                        dv.take(i + 1),
                    ));
                }
            },
            Err(crate::catalog::DropSchemaError::CatalogDoesNotExist) => {
                proof {
                    assert(false);
                }
            },
        }
        i = i + 1;
    }
    proof {
        assert(dv.take(schemas@.len() as int) =~= dv);
    }
    Ok(())
}

/// Removes every stored row of the planned table, reporting how many
/// went.
pub fn execute_delete(table_id: &TableId, catalog: &mut Catalog, sink: &mut Sink) -> (r: Result<
    (),
    StorageError,
>)
    requires
        catalog_wf(old(catalog)@),
    ensures
        catalog_wf(final (catalog)@),
        match r {
            Ok(()) => {
                let p = table_pos(old(catalog)@.tables, table_id@.0, table_id@.1);
                &&& p >= 0
                &&& final (catalog)@.tables == old(catalog)@.tables.update(
                    p,
                    (TableV { rows: Seq::empty(), ..old(catalog)@.tables[p] }),
                )
                &&& final (catalog)@.schemas == old(catalog)@.schemas
                &&& final (catalog)@.next_schema == old(catalog)@.next_schema
                &&& sink_view(final (sink)@) == sink_view(old(sink)@).push(
                    Ok(QueryEventV::RecordsDeleted(old(catalog)@.tables[p].rows.len() as int)),
                )
            },
            Err(e) => e == StorageError::TableDoesNotExist && table_pos(
                old(catalog)@.tables,
                table_id@.0,
                table_id@.1,
            ) < 0 && final (catalog)@ == old(catalog)@ && final (sink)@ == old(sink)@,
        },
{
    match catalog.delete_all(table_id) {
        Err(e) => Err(e),
        Ok(n) => {
            send(sink, Ok(QueryEvent::RecordsDeleted(n)));
            Ok(())
        },
    }
}

/// The texts the selected rows print as.
pub open spec fn rows_text(rows: Seq<Seq<DatumV>>) -> Seq<Seq<Seq<char>>> {
    rows.map_values(|r: Seq<DatumV>| r.map_values(|d: DatumV| spec_datum_text(d)))
}

fn row_to_text(row: &Vec<Datum>) -> (r: Vec<String>)
    ensures
        r@.map_values(|s: String| s@) == crate::datum::row_view(row@).map_values(
            |d: DatumV| spec_datum_text(d),
        ),
{
    let mut out: Vec<String> = Vec::new();
    let mut i: usize = 0;
    while i < row.len()
        invariant
            0 <= i <= row@.len(),
            out@.map_values(|s: String| s@) == crate::datum::row_view(row@).map_values(
                |d: DatumV| spec_datum_text(d),
            ).take(i as int),
        decreases row@.len() - i,
    {
        let ghost before = out@.map_values(|s: String| s@);
        out.push(row[i].to_text());
        proof {
            assert(crate::datum::row_view(row@)[i as int] == row@[i as int]@);
            assert(out@.map_values(|s: String| s@) =~= before.push(
                spec_datum_text(row@[i as int]@),
            ));
            assert(out@.map_values(|s: String| s@) =~= crate::datum::row_view(row@).map_values(
                |d: DatumV| spec_datum_text(d),
            ).take(i + 1));
        }
        i = i + 1;
    }
    proof {
        assert(crate::datum::row_view(row@).map_values(|d: DatumV| spec_datum_text(d)).take(
            row@.len() as int,
        ) =~= crate::datum::row_view(row@).map_values(|d: DatumV| spec_datum_text(d)));
    }
    out
}

fn rows_to_text(rows: &Vec<Vec<Datum>>) -> (r: Vec<Vec<String>>)
    ensures
        r@.map_values(|v: Vec<String>| v@.map_values(|s: String| s@)) == rows_text(
            rows_view(rows@),
        ),
{
    let mut out: Vec<Vec<String>> = Vec::new();
    let mut i: usize = 0;
    while i < rows.len()
        invariant
            0 <= i <= rows@.len(),
            out@.map_values(|v: Vec<String>| v@.map_values(|s: String| s@)) == rows_text(
                rows_view(rows@),
            ).take(i as int),
        decreases rows@.len() - i,
    {
        let ghost before = out@.map_values(|v: Vec<String>| v@.map_values(|s: String| s@));
        out.push(row_to_text(&rows[i]));
        proof {
            assert(rows_view(rows@)[i as int] == crate::datum::row_view(rows@[i as int]@));
            assert(rows_text(rows_view(rows@))[i as int] == crate::datum::row_view(
                rows@[i as int]@,
            ).map_values(|d: DatumV| spec_datum_text(d)));
            assert(out@.map_values(|v: Vec<String>| v@.map_values(|s: String| s@)) =~= before.push(
                rows_text(rows_view(rows@))[i as int],
            ));
            assert(out@.map_values(|v: Vec<String>| v@.map_values(|s: String| s@)) =~= rows_text(
                rows_view(rows@),
            ).take(i + 1));
        }
        i = i + 1;
    }
    proof {
        assert(rows_text(rows_view(rows@)).take(rows@.len() as int) =~= rows_text(
            rows_view(rows@),
        ));
    }
    out
}

/// Evaluates the planned read tree and reports the selected header and
/// rows; an unresolved or unsupported tree reports its error instead.
pub fn execute_select(op: &RelationOp, catalog: &Catalog, sink: &mut Sink)
    requires
        catalog_wf(catalog@),
    ensures
        match (rel_header(*op, catalog@), rel_rows(*op, catalog@)) {
            (Some(h), Some(rows)) => sink_view(final (sink)@) == sink_view(old(sink)@).push(
                Ok(QueryEventV::RecordsSelected(h, rows_text(rows))),
            ),
            _ => sink_view(final (sink)@) == sink_view(old(sink)@).push(
                Err(
                    if rel_rows(*op, catalog@) is None {
                        crate::relation::rel_rows_error(*op, catalog@)
                    } else {
                        crate::relation::rel_header_error(*op, catalog@)
                    },
                ),
            ),
        },
{
    let rows = match eval_relation(op, catalog) {
        Err(e) => {
            send(sink, Err(e));
            return ;
        },
        Ok(rows) => rows,
    };
    let header = match eval_header(op, catalog) {
        Err(e) => {
            send(sink, Err(e));
            return ;
        },
        Ok(h) => h,
    };
    let texts = rows_to_text(&rows);
    send(sink, Ok(QueryEvent::RecordsSelected(header, texts)));
}

/// Law: evaluating the same read tree twice over one catalog state,
/// with no intervening writes, yields the same header and rows.
pub proof fn lemma_select_idempotent(op: RelationOp, c1: CatalogV, c2: CatalogV)
    requires
        c1 == c2,
    ensures
        rel_rows(op, c1) == rel_rows(op, c2),
        rel_header(op, c1) == rel_header(op, c2),
{
}

/// Law: a projection's output keeps the order and the duplicates of
/// its output indices: output row `k` holds, at place `j`, exactly the
/// input row's column `outputs[j]`, and the header is permuted the
/// same way.
pub proof fn lemma_projection_shape(op: RelationOp, c: CatalogV, k: int, j: int)
    requires
        op matches RelationOp::Projection { input, outputs } && input@.len() == 1,
        rel_rows(op, c) is Some,
        0 <= k < rel_rows(op, c)->Some_0.len(),
        0 <= j < (op->Projection_outputs)@.len(),
    ensures
        rel_rows(op, c) matches Some(out) ==> {
            let inner = rel_rows((op->Projection_input)@[0], c)->Some_0;
            &&& out.len() == inner.len()
            &&& out[k].len() == (op->Projection_outputs)@.len()
            &&& out[k][j] == inner[k][(op->Projection_outputs)@[j] as int]
        },
{
}

/// The target column positions of an insert: without an explicit list
/// every column positionally, otherwise each listed name's first match.
pub open spec fn insert_targets(cols: Seq<(Seq<char>, SqlType)>, names: Seq<Seq<char>>) -> Seq<
    int,
> {
    if names.len() == 0 {
        Seq::new(cols.len(), |i: int| i)
    } else {
        names.map_values(|n: Seq<char>| first_col(cols, n))
    }
}

/// Whether every explicitly listed column name resolves.
pub open spec fn targets_resolve(cols: Seq<(Seq<char>, SqlType)>, names: Seq<Seq<char>>) -> bool {
    forall|j: int| 0 <= j < names.len() ==> first_col(cols, #[trigger] names[j]) >= 0
}

/// Whether no candidate row is wider than the table.
pub open spec fn rows_fit_width(input: Seq<Seq<ExprV>>, ncols: int) -> bool {
    forall|r: int| 0 <= r < input.len() ==> (#[trigger] input[r]).len() <= ncols
}

/// How many cells of a row are consumed: the shorter of the row and
/// the target list.
pub open spec fn cell_count(row_len: int, tlen: int) -> int {
    if row_len <= tlen {
        row_len
    } else {
        tlen
    }
}

/// Whether one cell binds to a literal that its target column admits.
pub open spec fn cell_clean(
    cols: Seq<(Seq<char>, SqlType)>,
    targets: Seq<int>,
    row: Seq<ExprV>,
    j: int,
) -> bool {
    &&& spec_eval(row[j]) is Some
    &&& spec_validate(cols[targets[j]].1, literal_text(spec_eval(row[j])->Some_0)) is None
}

/// Whether every consumed cell of the matrix is clean.
pub open spec fn cells_clean(
    cols: Seq<(Seq<char>, SqlType)>,
    targets: Seq<int>,
    input: Seq<Seq<ExprV>>,
) -> bool {
    forall|r: int, j: int|
        0 <= r < input.len() && 0 <= j < cell_count(input[r].len() as int, targets.len() as int)
            ==> #[trigger] cell_clean(cols, targets, input[r], j)
}

/// Whether the whole insert passes every check and owes a write.
pub open spec fn insert_clean(
    cols: Seq<(Seq<char>, SqlType)>,
    names: Seq<Seq<char>>,
    input: Seq<Seq<ExprV>>,
) -> bool {
    &&& targets_resolve(cols, names)
    &&& rows_fit_width(input, cols.len() as int)
    &&& cells_clean(cols, insert_targets(cols, names), input)
}

/// The last consumed cell that targets column `k`, or -1.
pub open spec fn last_hit(targets: Seq<int>, m: int, k: int) -> int
    decreases m,
{
    if m <= 0 {
        -1
    } else if targets[m - 1] == k {
        m - 1
    } else {
        last_hit(targets, m - 1, k)
    }
}

/// The stored record of one insert row: each column takes the datum of
/// the last cell that targets it, and NULL where none does.
pub open spec fn spec_record(
    cols: Seq<(Seq<char>, SqlType)>,
    targets: Seq<int>,
    row: Seq<ExprV>,
) -> Seq<DatumV> {
    Seq::new(
        cols.len(),
        |k: int|
            {
                let j = last_hit(targets, cell_count(row.len() as int, targets.len() as int), k);
                if j < 0 {
                    DatumV::Null
                } else {
                    spec_datum_for(spec_eval(row[j])->Some_0, cols[k].1)
                }
            },
    )
}

/// Wraps an error list as sink entries.
pub open spec fn errs(es: Seq<QueryErrorV>) -> Seq<Result<QueryEventV, QueryErrorV>> {
    es.map_values(|e: QueryErrorV| Err::<QueryEventV, QueryErrorV>(e))
}

/// The error one literal cell reports against its target column, if
/// any: out of range, a type mismatch carrying the text, or too-long
/// text carrying the declared length — each with the column name and
/// the 1-based ordinal.
pub open spec fn cell_error(
    cols: Seq<(Seq<char>, SqlType)>,
    targets: Seq<int>,
    row: Seq<ExprV>,
    j: int,
) -> Option<QueryErrorV> {
    let ty = cols[targets[j]].1;
    let column = cols[targets[j]].0;
    match spec_validate(ty, literal_text(spec_eval(row[j])->Some_0)) {
        None => None,
        Some(crate::types::ConstraintErrorV::OutOfRange) => Some(
            (QueryErrorV::OutOfRange { sql_type: ty, column, ordinal: j + 1 }),
        ),
        Some(crate::types::ConstraintErrorV::TypeMismatch(v)) => Some(
            (QueryErrorV::TypeMismatch { value: v, sql_type: ty, column, ordinal: j + 1 }),
        ),
        Some(crate::types::ConstraintErrorV::ValueTooLong(l)) => Some(
            (QueryErrorV::ValueTooLong { sql_type: ty, length: l, column, ordinal: j + 1 }),
        ),
    }
}

/// The constraint errors the evaluation reports from cell (r, j) on,
/// in row-major order; a non-literal cell reports the unsupported
/// feature and stops the scan there.
pub open spec fn scan_errors(
    cols: Seq<(Seq<char>, SqlType)>,
    targets: Seq<int>,
    input: Seq<Seq<ExprV>>,
    r: int,
    j: int,
) -> Seq<QueryErrorV>
    decreases input.len() - r, cell_count(input[r].len() as int, targets.len() as int) - j,
{
    if r < 0 || r >= input.len() {
        Seq::empty()
    } else if j < 0 || j >= cell_count(input[r].len() as int, targets.len() as int) {
        scan_errors(cols, targets, input, r + 1, 0)
    } else if spec_eval(input[r][j]) is None {
        seq![
            QueryErrorV::FeatureNotSupported(
                "Only expressions resulting in a literal are supported"@,
            ),
        ]
    } else {
        match cell_error(cols, targets, input[r], j) {
            None => scan_errors(cols, targets, input, r, j + 1),
            Some(e) => seq![e] + scan_errors(cols, targets, input, r, j + 1),
        }
    }
}

/// The unresolved-column errors of an explicit target list, from the
/// given name on, one per miss, in list order.
pub open spec fn miss_errors(
    cols: Seq<(Seq<char>, SqlType)>,
    names: Seq<Seq<char>>,
    j: int,
) -> Seq<QueryErrorV>
    decreases names.len() - j,
{
    if j < 0 || j >= names.len() {
        Seq::empty()
    } else if first_col(cols, names[j]) < 0 {
        seq![QueryErrorV::ColumnDoesNotExist(names[j])] + miss_errors(cols, names, j + 1)
    } else {
        miss_errors(cols, names, j + 1)
    }
}

/// Everything an invalid insert reports, in order: first any
/// unresolved target columns, else the over-wide-row refusal, else the
/// row-major cell errors.
pub open spec fn insert_errors(
    cols: Seq<(Seq<char>, SqlType)>,
    names: Seq<Seq<char>>,
    input: Seq<Seq<ExprV>>,
) -> Seq<QueryErrorV> {
    if !targets_resolve(cols, names) {
        miss_errors(cols, names, 0)
    } else if !rows_fit_width(input, cols.len() as int) {
        seq![QueryErrorV::TooManyInsertExpressions]
    } else {
        scan_errors(cols, insert_targets(cols, names), input, 0, 0)
    }
}

/// Evaluates and validates every cell of the planned insert; a clean
/// statement writes every row in one storage call and reports the
/// count, any violation reports exactly the errors of `insert_errors`
/// and leaves the table untouched.
#[verifier::rlimit(100)]
pub fn execute_insert(inserts: &TableInserts, catalog: &mut Catalog, sink: &mut Sink) -> (r:
    Result<(), StorageError>)
    requires
        catalog_wf(old(catalog)@),
    ensures
        catalog_wf(final (catalog)@),
        ({
            let p = table_pos(old(catalog)@.tables, inserts.table_id@.0, inserts.table_id@.1);
            let names = crate::planner::names_view(inserts.column_indices@);
            let input = crate::planner::matrix_view(inserts.input@);
            if p < 0 {
                r == Err::<(), StorageError>(StorageError::TableDoesNotExist) && final (
                catalog)@ == old(catalog)@ && final (sink)@ == old(sink)@
            } else {
                let t = old(catalog)@.tables[p];
                let cols = t.columns;
                let targets = insert_targets(cols, names);
                if insert_clean(cols, names, input) {
                    match r {
                        Ok(()) => {
                            &&& t.next_key + input.len() <= u64::MAX
                            &&& final (catalog)@.tables == old(catalog)@.tables.update(
                                p,
                                (TableV {
                                    next_key: (t.next_key + input.len()) as u64,
                                    rows: t.rows + Seq::new(
                                        input.len(),
                                        |i: int|
                                            (
                                                crate::datum::be_bytes(t.next_key + i, 8),
                                                spec_encode_row(
                                                    spec_record(cols, targets, input[i]),
                                                    col_types(cols),
                                                ),
                                            ),
                                    ),
                                    ..t
                                }),
                            )
                            &&& final (catalog)@.schemas == old(catalog)@.schemas
                            &&& final (catalog)@.next_schema == old(catalog)@.next_schema
                            &&& sink_view(final (sink)@) == sink_view(old(sink)@).push(
                                Ok(QueryEventV::RecordsInserted(input.len() as int)),
                            )
                        },
                        Err(e) => e == StorageError::IdsExhausted && final (catalog)@ == old(
                            catalog,
                        )@ && sink_view(final (sink)@) == sink_view(old(sink)@) && t.next_key
                            + input.len() > u64::MAX,
                    }
                } else {
                    &&& r is Ok
                    &&& final (catalog)@ == old(catalog)@
                    &&& sink_view(final (sink)@) == sink_view(old(sink)@) + errs(
                        insert_errors(cols, names, input),
                    )
                }
            }
        }),
{
    let ghost c0 = catalog@;
    let ghost p = table_pos(c0.tables, inserts.table_id@.0, inserts.table_id@.1);
    let cols = match catalog.table_columns(&inserts.table_id) {
        Err(e) => {
            return Err(e);
        },
        Ok(c) => crate::catalog::clone_columns(c),
    };
    proof {
        crate::catalog::lemma_table_pos_bound(
            c0.tables,
            inserts.table_id@.0,
            inserts.table_id@.1,
        );
    }
    let ghost t = c0.tables[p];
    let ghost cv = t.columns;
    let ghost names = crate::planner::names_view(inserts.column_indices@);
    let ghost input = crate::planner::matrix_view(inserts.input@);
    let ghost tg = insert_targets(cv, names);
    let ncols = cols.len();
    let mut targets: Vec<usize> = Vec::new();
    if inserts.column_indices.len() == 0 {
        let mut i: usize = 0;
        while i < ncols
            invariant
                0 <= i <= ncols,
                ncols == cv.len(),
                names.len() == 0,
                tg == insert_targets(cv, names),
                targets@.len() == i,
                forall|k: int| 0 <= k < i ==> (#[trigger] targets@[k]) as int == tg[k],
            decreases ncols - i,
        {
            targets.push(i);
            i = i + 1;
        }
        proof {
            assert(targets_resolve(cv, names));
        }
    } else {
        let mut missing = false;
        let ghost mut acc: Seq<QueryErrorV> = Seq::empty();
        proof {
            assert(sink_view(sink@) =~= sink_view(old(sink)@) + errs(acc));
        }
        let mut j: usize = 0;
        while j < inserts.column_indices.len()
            invariant
                0 <= j <= names.len(),
                names == crate::planner::names_view(inserts.column_indices@),
                names.len() == inserts.column_indices@.len(),
                cv == cols@.map_values(|c: ColumnDefinition| c@),
                tg == insert_targets(cv, names),
                catalog@ == c0,
                catalog_wf(catalog@),
                c0 == old(catalog)@,
                p == table_pos(c0.tables, inserts.table_id@.0, inserts.table_id@.1),
                0 <= p < c0.tables.len(),
                t == c0.tables[p],
                cv == t.columns,
                miss_errors(cv, names, 0) == acc + miss_errors(cv, names, j as int),
                sink_view(sink@) == sink_view(old(sink)@) + errs(acc),
                missing <==> acc.len() > 0,
                missing ==> !targets_resolve(cv, names),
                !missing ==> targets@.len() == j && forall|k: int|
                    0 <= k < j ==> first_col(cv, #[trigger] names[k]) >= 0 && (targets@[k]) as int
                        == tg[k],
            decreases names.len() - j,
        {
            proof {
                assert(names[j as int] == inserts.column_indices@[j as int]@);
            }
            match find_column(&cols, inserts.column_indices[j].as_str()) {
                None => {
                    send(
                        sink,
                        Err(QueryError::ColumnDoesNotExist(inserts.column_indices[j].clone())),
                    );
                    proof {
                        let e = QueryErrorV::ColumnDoesNotExist(names[j as int]);
                        assert(miss_errors(cv, names, j as int) == seq![e] + miss_errors(
                            cv,
                            names,
                            j + 1,
                        ));
                        assert(acc + (seq![e] + miss_errors(cv, names, j + 1)) =~= (acc + seq![e])
                            + miss_errors(cv, names, j + 1));
                        assert(errs(acc.push(e)) =~= errs(acc).push(
                            Err::<QueryEventV, QueryErrorV>(e),
                        ));
                        assert(sink_view(sink@) =~= sink_view(old(sink)@) + errs(acc.push(e)));
                        assert(acc + seq![e] =~= acc.push(e));
                        acc = acc.push(e);
                    }
                    missing = true;
                },
                Some(k) => {
                    if !missing {
                        targets.push(k);
                        proof {
                            assert(tg[j as int] == first_col(cv, names[j as int]));
                        }
                    }
                },
            }
            j = j + 1;
        }
        if missing {
            proof {
                assert(miss_errors(cv, names, names.len() as int) =~= Seq::<QueryErrorV>::empty());
                assert(acc =~= miss_errors(cv, names, 0));
            }
            return Ok(());
        }
        proof {
            assert(targets_resolve(cv, names));
            assert forall|k: int| 0 <= k < tg.len() implies 0 <= #[trigger] tg[k] < cv.len() by {
                crate::catalog::lemma_first_col(cv, names[k]);
            }
        }
    }
    proof {
        assert(tg.len() == targets@.len());
        assert forall|k: int| 0 <= k < tg.len() implies 0 <= #[trigger] tg[k] < cv.len() by {
            if names.len() != 0 {
                crate::catalog::lemma_first_col(cv, names[k]);
            }
        }
    }
    let mut r: usize = 0;
    while r < inserts.input.len()
        invariant
            0 <= r <= input.len(),
            input == crate::planner::matrix_view(inserts.input@),
            input.len() == inserts.input@.len(),
            ncols == cv.len(),
            catalog@ == c0,
            catalog_wf(catalog@),
            c0 == old(catalog)@,
            p == table_pos(c0.tables, inserts.table_id@.0, inserts.table_id@.1),
            0 <= p < c0.tables.len(),
            t == c0.tables[p],
            cv == t.columns,
            names == crate::planner::names_view(inserts.column_indices@),
            targets_resolve(cv, names),
            sink_view(sink@) == sink_view(old(sink)@),
            forall|k: int| 0 <= k < r ==> (#[trigger] input[k]).len() <= ncols,
        decreases input.len() - r,
    {
        proof {
            assert(input[r as int] == crate::planner::exprs_view(inserts.input@[r as int]@));
        }
        if inserts.input[r].len() > ncols {
            send(sink, Err(QueryError::TooManyInsertExpressions));
            proof {
                assert(!rows_fit_width(input, cv.len() as int));
                assert(sink_view(sink@) =~= sink_view(old(sink)@) + errs(
                    seq![QueryErrorV::TooManyInsertExpressions],
                ));
            }
            return Ok(());
        }
        r = r + 1;
    }
    let mut has_error = false;
    let ghost mut wr: int = 0;
    let ghost mut wj: int = 0;
    let ghost mut acc2: Seq<QueryErrorV> = Seq::empty();
    proof {
        assert(sink_view(sink@) =~= sink_view(old(sink)@) + errs(acc2));
        assert(acc2 + scan_errors(cv, tg, input, 0, 0) =~= scan_errors(cv, tg, input, 0, 0));
    }
    let mut r2: usize = 0;
    while r2 < inserts.input.len()
        invariant
            0 <= r2 <= input.len(),
            input == crate::planner::matrix_view(inserts.input@),
            input.len() == inserts.input@.len(),
            ncols == cv.len(),
            cv == cols@.map_values(|c: ColumnDefinition| c@),
            tg == insert_targets(cv, names),
            tg.len() == targets@.len(),
            forall|k: int| 0 <= k < tg.len() ==> (#[trigger] targets@[k]) as int == tg[k],
            forall|k: int| 0 <= k < tg.len() ==> 0 <= #[trigger] tg[k] < cv.len(),
            catalog@ == c0,
            catalog_wf(catalog@),
            c0 == old(catalog)@,
            p == table_pos(c0.tables, inserts.table_id@.0, inserts.table_id@.1),
            0 <= p < c0.tables.len(),
            t == c0.tables[p],
            cv == t.columns,
            rows_fit_width(input, cv.len() as int),
            names == crate::planner::names_view(inserts.column_indices@),
            targets_resolve(cv, names),
            sink_view(sink@) == sink_view(old(sink)@) + errs(acc2),
            scan_errors(cv, tg, input, 0, 0) == acc2 + scan_errors(cv, tg, input, r2 as int, 0),
            has_error <==> acc2.len() > 0,
            !has_error ==> forall|rr: int, jj: int|
                0 <= rr < r2 && 0 <= jj < cell_count(input[rr].len() as int, tg.len() as int)
                    ==> #[trigger] cell_clean(cv, tg, input[rr], jj),
            has_error ==> 0 <= wr < input.len() && 0 <= wj < cell_count(
                input[wr].len() as int,
                tg.len() as int,
            ) && !cell_clean(cv, tg, input[wr], wj),
        decreases input.len() - r2,
    {
        let row_len = inserts.input[r2].len();
        let m = if row_len <= targets.len() {
            row_len
        } else {
            targets.len()
        };
        proof {
            assert(input[r2 as int] == crate::planner::exprs_view(inserts.input@[r2 as int]@));
            assert(m as int == cell_count(input[r2 as int].len() as int, tg.len() as int));
        }
        let mut j: usize = 0;
        while j < m
            invariant
                0 <= j <= m,
                r2 < input.len(),
                input == crate::planner::matrix_view(inserts.input@),
                input.len() == inserts.input@.len(),
                m as int == cell_count(input[r2 as int].len() as int, tg.len() as int),
                m <= targets@.len(),
                m <= inserts.input@[r2 as int]@.len(),
                input[r2 as int] == crate::planner::exprs_view(inserts.input@[r2 as int]@),
                ncols == cv.len(),
                cv == cols@.map_values(|c: ColumnDefinition| c@),
                tg.len() == targets@.len(),
                forall|k: int| 0 <= k < tg.len() ==> (#[trigger] targets@[k]) as int == tg[k],
                forall|k: int| 0 <= k < tg.len() ==> 0 <= #[trigger] tg[k] < cv.len(),
                tg == insert_targets(cv, names),
                names == crate::planner::names_view(inserts.column_indices@),
                targets_resolve(cv, names),
                rows_fit_width(input, cv.len() as int),
                catalog@ == c0,
                catalog_wf(catalog@),
                c0 == old(catalog)@,
                p == table_pos(c0.tables, inserts.table_id@.0, inserts.table_id@.1),
                0 <= p < c0.tables.len(),
                t == c0.tables[p],
                cv == t.columns,
                sink_view(sink@) == sink_view(old(sink)@) + errs(acc2),
                scan_errors(cv, tg, input, 0, 0) == acc2 + scan_errors(
                    cv,
                    tg,
                    input,
                    r2 as int,
                    j as int,
                ),
                has_error <==> acc2.len() > 0,
                !has_error ==> forall|jj: int|
                    0 <= jj < j ==> #[trigger] cell_clean(cv, tg, input[r2 as int], jj),
                !has_error ==> forall|rr: int, jj: int|
                    0 <= rr < r2 && 0 <= jj < cell_count(input[rr].len() as int, tg.len() as int)
                        ==> #[trigger] cell_clean(cv, tg, input[rr], jj),
                has_error ==> 0 <= wr < input.len() && 0 <= wj < cell_count(
                    input[wr].len() as int,
                    tg.len() as int,
                ) && !cell_clean(cv, tg, input[wr], wj),
            decreases m - j,
        {
            proof {
                assert(input[r2 as int][j as int] == inserts.input@[r2 as int]@[j as int]@);
            }
            match eval(&inserts.input[r2][j]) {
                BoundValue::NonLiteral => {
                    send(
                        sink,
                        Err(
                            QueryError::FeatureNotSupported(
                                String::from_str(
                                    "Only expressions resulting in a literal are supported",
                                ),
                            ),
                        ),
                    );
                    proof {
                        let e = QueryErrorV::FeatureNotSupported(
                            "Only expressions resulting in a literal are supported"@,
                        );
                        assert(!cell_clean(cv, tg, input[r2 as int], j as int));
                        assert(!cells_clean(cv, tg, input));
                        assert(scan_errors(cv, tg, input, r2 as int, j as int) =~= seq![e]);
                        assert(acc2 + seq![e] =~= acc2.push(e));
                        assert(errs(acc2.push(e)) =~= errs(acc2).push(
                            Err::<QueryEventV, QueryErrorV>(e),
                        ));
                        assert(sink_view(sink@) =~= sink_view(old(sink)@) + errs(
                            scan_errors(cv, tg, input, 0, 0),
                        ));
                    }
                    return Ok(());
                },
                BoundValue::Literal(v) => {
                    let text = crate::eval::literal_to_text(&v);
                    let tcol = targets[j];
                    let ty = cols[tcol].sql_type;
                    proof {
                        assert(cv[tg[j as int]] == cols@[tg[j as int]]@);
                    }
                    match ty.validate(text.as_str()) {
                        Ok(()) => {
                            proof {
                                assert(cell_clean(cv, tg, input[r2 as int], j as int));
                                assert(cell_error(cv, tg, input[r2 as int], j as int) is None);
                                assert(scan_errors(cv, tg, input, r2 as int, j as int)
                                    == scan_errors(cv, tg, input, r2 as int, j + 1));
                            }
                        },
                        Err(ce) => {
                            let column = cols[tcol].name.clone();
                            let sent: QueryError = match ce {
                                ConstraintError::OutOfRange => (
                                QueryError::OutOfRange { sql_type: ty, column, ordinal: j + 1 }),
                                ConstraintError::TypeMismatch(value) => (
                                QueryError::TypeMismatch {
                                    value,
                                    sql_type: ty,
                                    column,
                                    ordinal: j + 1,
                                }),
                                ConstraintError::ValueTooLong(length) => (
                                QueryError::ValueTooLong {
                                    sql_type: ty,
                                    length,
                                    column,
                                    ordinal: j + 1,
                                }),
                            };
                            proof {
                                assert(!cell_clean(cv, tg, input[r2 as int], j as int));
                                assert(cell_error(cv, tg, input[r2 as int], j as int) == Some(
                                    sent@,
                                ));
                                assert(scan_errors(cv, tg, input, r2 as int, j as int) == seq![
                                    sent@,
                                ] + scan_errors(cv, tg, input, r2 as int, j + 1));
                                wr = r2 as int;
                                wj = j as int;
                            }
                            send(sink, Err(sent));
                            proof {
                                assert(acc2 + (seq![sent@] + scan_errors(
                                    cv,
                                    tg,
                                    input,
                                    r2 as int,
                                    j + 1,
                                )) =~= (acc2 + seq![sent@]) + scan_errors(
                                    cv,
                                    tg,
                                    input,
                                    r2 as int,
                                    j + 1,
                                ));
                                assert(acc2 + seq![sent@] =~= acc2.push(sent@));
                                assert(errs(acc2.push(sent@)) =~= errs(acc2).push(
                                    Err::<QueryEventV, QueryErrorV>(sent@),
                                ));
                                acc2 = acc2.push(sent@);
                            }
                            has_error = true;
                        },
                    }
                },
            }
            j = j + 1;
        }
        proof {
            assert(scan_errors(cv, tg, input, r2 as int, m as int) == scan_errors(
                cv,
                tg,
                input,
                r2 + 1,
                0,
            ));
            if !has_error {
                assert forall|rr: int, jj: int|
                    0 <= rr < r2 + 1 && 0 <= jj < cell_count(
                        input[rr].len() as int,
                        tg.len() as int,
                    ) implies #[trigger] cell_clean(cv, tg, input[rr], jj) by {
                    if rr == r2 as int {
                        assert(cell_clean(cv, tg, input[r2 as int], jj));
                    }
                }
            }
        }
        r2 = r2 + 1;
    }
    proof {
        assert(scan_errors(cv, tg, input, input.len() as int, 0) =~= Seq::<QueryErrorV>::empty());
        assert(acc2 =~= scan_errors(cv, tg, input, 0, 0));
    }
    if has_error {
        proof {
            assert(!cells_clean(cv, tg, input));
        }
        return Ok(());
    }
    proof {
        assert(cells_clean(cv, tg, input));
        assert(insert_clean(cv, names, input));
    }
    let mut types: Vec<SqlType> = Vec::new();
    let mut ci: usize = 0;
    while ci < cols.len()
        invariant
            0 <= ci <= cols@.len(),
            cv == cols@.map_values(|c: ColumnDefinition| c@),
            types@ == col_types(cv).take(ci as int),
        decreases cols@.len() - ci,
    {
        types.push(cols[ci].sql_type);
        proof {
            assert(types@ =~= col_types(cv).take(ci + 1));
        }
        ci = ci + 1;
    }
    proof {
        assert(col_types(cv).take(cv.len() as int) =~= col_types(cv));
    }
    let mut values: Vec<Binary> = Vec::new();
    let mut r3: usize = 0;
    while r3 < inserts.input.len()
        invariant
            0 <= r3 <= input.len(),
            input == crate::planner::matrix_view(inserts.input@),
            input.len() == inserts.input@.len(),
            ncols == cv.len(),
            ncols == cols@.len(),
            cv == cols@.map_values(|c: ColumnDefinition| c@),
            types@ == col_types(cv),
            tg == insert_targets(cv, names),
            tg.len() == targets@.len(),
            forall|k: int| 0 <= k < tg.len() ==> (#[trigger] targets@[k]) as int == tg[k],
            forall|k: int| 0 <= k < tg.len() ==> 0 <= #[trigger] tg[k] < cv.len(),
            catalog@ == c0,
            c0 == old(catalog)@,
            sink_view(sink@) == sink_view(old(sink)@),
            rows_fit_width(input, cv.len() as int),
            cells_clean(cv, tg, input),
            values@.len() == r3,
            forall|k: int|
                0 <= k < r3 ==> (#[trigger] values@[k])@ == spec_encode_row(
                    spec_record(cv, tg, input[k]),
                    col_types(cv),
                ) && crate::datum::row_fits(spec_record(cv, tg, input[k]), col_types(cv)),
        decreases input.len() - r3,
    {
        proof {
            assert(input[r3 as int] == crate::planner::exprs_view(inserts.input@[r3 as int]@));
        }
        let mut record: Vec<Datum> = Vec::new();
        let mut z: usize = 0;
        while z < ncols
            invariant
                0 <= z <= ncols,
                row_view(record@) == Seq::new(z as nat, |k: int| DatumV::Null),
            decreases ncols - z,
        {
            let ghost before = row_view(record@);
            record.push(Datum::Null);
            proof {
                assert(row_view(record@) =~= before.push(DatumV::Null));
                assert(row_view(record@) =~= Seq::new((z + 1) as nat, |k: int| DatumV::Null));
            }
            z = z + 1;
        }
        let row_len = inserts.input[r3].len();
        let m = if row_len <= targets.len() {
            row_len
        } else {
            targets.len()
        };
        proof {
            assert(m as int == cell_count(input[r3 as int].len() as int, tg.len() as int));
            assert forall|k: int| 0 <= k < cv.len() implies row_view(record@)[k] == {
                let jj = last_hit(tg, 0, k);
                if jj < 0 {
                    DatumV::Null
                } else {
                    spec_datum_for(spec_eval(input[r3 as int][jj])->Some_0, cv[k].1)
                }
            } by {
                assert(last_hit(tg, 0, k) == -1);
            }
        }
        let mut j: usize = 0;
        while j < m
            invariant
                0 <= j <= m,
                r3 < input.len(),
                input == crate::planner::matrix_view(inserts.input@),
                input.len() == inserts.input@.len(),
                input[r3 as int] == crate::planner::exprs_view(inserts.input@[r3 as int]@),
                m as int == cell_count(input[r3 as int].len() as int, tg.len() as int),
                m <= targets@.len(),
                m <= inserts.input@[r3 as int]@.len(),
                ncols == cv.len(),
                cv == cols@.map_values(|c: ColumnDefinition| c@),
                tg.len() == targets@.len(),
                forall|k: int| 0 <= k < tg.len() ==> (#[trigger] targets@[k]) as int == tg[k],
                forall|k: int| 0 <= k < tg.len() ==> 0 <= #[trigger] tg[k] < cv.len(),
                cells_clean(cv, tg, input),
                record@.len() == ncols,
                forall|k: int|
                    0 <= k < cv.len() ==> row_view(record@)[k] == {
                        let jj = last_hit(tg, j as int, k);
                        if jj < 0 {
                            DatumV::Null
                        } else {
                            spec_datum_for(spec_eval(input[r3 as int][jj])->Some_0, cv[k].1)
                        }
                    },
            decreases m - j,
        {
            proof {
                assert(input[r3 as int][j as int] == inserts.input@[r3 as int]@[j as int]@);
                assert(cell_clean(cv, tg, input[r3 as int], j as int));
            }
            match eval(&inserts.input[r3][j]) {
                BoundValue::NonLiteral => {
                    proof {
                        assert(false);
                    }
                },
                BoundValue::Literal(v) => {
                    let tcol = targets[j];
                    proof {
                        assert(cv[tg[j as int]] == cols@[tg[j as int]]@);
                    }
                    let d = crate::eval::datum_for(&v, &cols[tcol].sql_type);
                    let ghost before = row_view(record@);
                    record.set(tcol, d);
                    proof {
                        assert(row_view(record@) =~= before.update(tg[j as int], d@));
                        assert forall|k: int| 0 <= k < cv.len() implies row_view(record@)[k] == {
                            let jj = last_hit(tg, j + 1, k);
                            if jj < 0 {
                                DatumV::Null
                            } else {
                                spec_datum_for(spec_eval(input[r3 as int][jj])->Some_0, cv[k].1)
                            }
                        } by {
                            if k == tg[j as int] {
                                assert(last_hit(tg, j + 1, k) == j as int);
                            } else {
                                assert(last_hit(tg, j + 1, k) == last_hit(tg, j as int, k));
                            }
                        }
                    }
                },
            }
            j = j + 1;
        }
        proof {
            assert(row_view(record@) =~= spec_record(cv, tg, input[r3 as int]));
            assert forall|k: int| 0 <= k < cv.len() implies crate::datum::datum_fits(
                #[trigger] spec_record(cv, tg, input[r3 as int])[k],
                col_types(cv)[k],
            ) by {
                let jj = last_hit(
                    tg,
                    cell_count(input[r3 as int].len() as int, tg.len() as int),
                    k,
                );
                if jj >= 0 {
                    lemma_last_hit(
                        tg,
                        cell_count(input[r3 as int].len() as int, tg.len() as int),
                        k,
                    );
                    assert(cell_clean(cv, tg, input[r3 as int], jj));
                    crate::eval::lemma_datum_for_fits(
                        spec_eval(input[r3 as int][jj])->Some_0,
                        cv[k].1,
                    );
                }
            }
            assert(crate::datum::row_fits(spec_record(cv, tg, input[r3 as int]), col_types(cv)));
        }
        let ghost vprev = values@;
        values.push(Binary::pack(&record, &types));
        proof {
            assert(values@[r3 as int]@ == spec_encode_row(
                spec_record(cv, tg, input[r3 as int]),
                col_types(cv),
            ));
            assert(forall|k: int| 0 <= k < r3 ==> values@[k] == vprev[k]);
        }
        r3 = r3 + 1;
    }
    proof {
        assert forall|i: int| 0 <= i < values@.len() implies crate::datum::spec_decode_row(
            (#[trigger] values@[i])@,
            col_types(c0.tables[p].columns),
        ) is Some by {
            crate::datum::lemma_decode_encode(spec_record(cv, tg, input[i]), col_types(cv));
        }
    }
    let n_input = values.len();
    match catalog.write_into(&inserts.table_id, values) {
        Err(StorageError::TableDoesNotExist) => {
            proof {
                assert(false);
            }
            Err(StorageError::TableDoesNotExist)
        },
        Err(e) => {
            proof {
                assert(e == StorageError::IdsExhausted);
            }
            Err(e)
        },
        Ok(n) => {
            send(sink, Ok(QueryEvent::RecordsInserted(n)));
            proof {
                let newt_got = TableV {
                    next_key: (t.next_key + n_input as int) as u64,
                    rows: t.rows + Seq::new(
                        n_input as nat,
                        |i: int|
                            (
                                crate::datum::be_bytes(t.next_key + i, 8),
                                spec_encode_row(spec_record(cv, tg, input[i]), col_types(cv)),
                            ),
                    ),
                    ..t
                };
                assert(catalog@.tables[p].rows =~= newt_got.rows);
                assert(catalog@.tables[p] == newt_got);
                assert(catalog@.tables =~= c0.tables.update(p, newt_got));
            }
            Ok(())
        },
    }
}

/// Every target column's last hit is a consumed cell that targets it.
proof fn lemma_last_hit(targets: Seq<int>, m: int, k: int)
    requires
        m <= targets.len(),
    ensures
        last_hit(targets, m, k) >= 0 ==> 0 <= last_hit(targets, m, k) < m && targets[last_hit(
            targets,
            m,
            k,
        )] == k,
    decreases m,
{
    if m > 0 {
        lemma_last_hit(targets, m - 1, k);
    }
}


/// The output column indices a selection list denotes over a column
/// list: every column for a lone wildcard, else each name's first
/// match.
pub open spec fn sel_idx(cols: Seq<(Seq<char>, SqlType)>, items: Seq<SelectItem>) -> Seq<int> {
    if items.len() == 1 && items[0] is Wildcard {
        Seq::new(cols.len(), |i: int| i)
    } else {
        Seq::new(items.len(), |j: int| first_col(cols, (items[j]->Column_0)@))
    }
}

/// The header a selection shows: the chosen columns, in list order,
/// duplicates kept.
pub open spec fn spec_select_header(
    cols: Seq<(Seq<char>, SqlType)>,
    items: Seq<SelectItem>,
) -> Seq<(Seq<char>, SqlType)> {
    Seq::new(sel_idx(cols, items).len(), |j: int| cols[sel_idx(cols, items)[j]])
}

/// The row texts a selection shows: each stored row decoded, permuted
/// by the chosen indices, and rendered.
pub open spec fn spec_select_rows(t: TableV, items: Seq<SelectItem>) -> Seq<Seq<Seq<char>>> {
    rows_text(
        crate::relation::table_rows_decoded(t).map_values(
            |r: Seq<DatumV>|
                Seq::new(
                    sel_idx(t.columns, items).len(),
                    |j: int| r[sel_idx(t.columns, items)[j]],
                ),
        ),
    )
}

/// Runs one statement through its whole state machine: planning, then
/// execution, then the closing `QueryComplete`. A rejected or failed
/// statement reports its errors before closing; a storage refusal
/// propagates without closing and leaves the catalog as it was.
#[verifier::rlimit(100)]
pub fn run_statement(stmt: &Statement, catalog: &mut Catalog, sink: &mut Sink) -> (r: Result<
    (),
    StorageError,
>)
    requires
        catalog_wf(old(catalog)@),
    ensures
        catalog_wf(final (catalog)@),
        r is Ok ==> sink_view(final (sink)@).len() > sink_view(old(sink)@).len() && sink_view(
            old(sink)@,
        ) == sink_view(final (sink)@).take(sink_view(old(sink)@).len() as int) && sink_view(
            final (sink)@,
        ).last() == Ok::<QueryEventV, QueryErrorV>(QueryEventV::QueryComplete),
        r is Err ==> final (catalog)@ == old(catalog)@,
        ({
            let c = old(catalog)@;
            let s0 = sink_view(old(sink)@);
            let sf = sink_view(final (sink)@);
            let cf = final (catalog)@;
            let qc = Ok::<QueryEventV, QueryErrorV>(QueryEventV::QueryComplete);
            match *stmt {
                Statement::CreateSchema { name } => {
                    let nm = spec_joined(name@);
                    if name@.len() != 1 {
                        r is Ok && cf == c && sf == s0 + seq![
                            Err(QueryErrorV::SyntaxError(spec_schema_naming_message(nm))),
                            qc,
                        ]
                    } else if find_schema(c.schemas, nm) is None && c.next_schema < u64::MAX {
                        &&& r is Ok
                        &&& cf.schemas == c.schemas.push(
                            (SchemaV { id: c.next_schema, name: nm, next_table: 0 }),
                        )
                        &&& cf.tables == c.tables
                        &&& cf.next_schema == c.next_schema + 1
                        &&& sf == s0 + seq![Ok(QueryEventV::SchemaCreated), qc]
                    } else {
                        &&& r matches Err(e) && (e == StorageError::SchemaAlreadyExists
                            <==> find_schema(c.schemas, nm) is Some) && (e
                            == StorageError::IdsExhausted ==> c.next_schema == u64::MAX)
                        &&& cf == c
                        &&& sf == s0
                    }
                },
                Statement::CreateTable { name, columns } => {
                    if name@.len() != 2 {
                        r is Ok && cf == c && sf == s0 + seq![
                            Err(
                                QueryErrorV::SyntaxError(
                                    if name@.len() == 1 {
                                        spec_unqualified_message(spec_joined(name@))
                                    } else {
                                        spec_not_processed_message(spec_joined(name@))
                                    },
                                ),
                            ),
                            qc,
                        ]
                    } else if find_schema(c.schemas, name@[0]) is None {
                        r is Ok && cf == c && sf == s0 + seq![
                            Err(QueryErrorV::SchemaDoesNotExist(name@[0])),
                            qc,
                        ]
                    } else {
                        let sid = find_schema(c.schemas, name@[0])->Some_0;
                        let sp = schema_pos(c.schemas, sid);
                        if find_table(c.tables, sid, name@[1]) is None && c.schemas[sp].next_table
                            < u64::MAX {
                            &&& r is Ok
                            &&& cf.tables == c.tables.push(
                                (TableV {
                                    schema_id: sid,
                                    table_id: c.schemas[sp].next_table,
                                    name: name@[1],
                                    columns: crate::planner::cols_view(columns@),
                                    next_key: 0,
                                    rows: Seq::empty(),
                                }),
                            )
                            &&& cf.schemas == c.schemas.update(
                                sp,
                                (SchemaV {
                                    next_table: (c.schemas[sp].next_table + 1) as u64,
                                    ..c.schemas[sp]
                                }),
                            )
                            &&& cf.next_schema == c.next_schema
                            &&& sf == s0 + seq![Ok(QueryEventV::TableCreated), qc]
                        } else {
                            r is Err && cf == c && sf == s0
                        }
                    }
                },
                Statement::DropSchemas { names, cascade } => {
                    &&& r is Ok
                    &&& if crate::planner::drop_names_ok(names@, c) {
                        let ids = Seq::new(
                            names@.len(),
                            |i: int|
                                (
                                    find_schema(c.schemas, spec_joined(names@[i]@))->Some_0,
                                    spec_joined(names@[i]@),
                                    cascade,
                                ),
                        );
                        cf == spec_drop_fold(c, ids) && sf == s0 + spec_drop_events(c, ids)
                            + seq![qc]
                    } else {
                        cf == c && exists|k: int|
                            0 <= k < names@.len() && (forall|i: int|
                                0 <= i < k ==> (#[trigger] names@[i])@.len() == 1 && find_schema(
                                    c.schemas,
                                    spec_joined(names@[i]@),
                                ) is Some) && sf == s0 + seq![
                                Err(
                                    if (#[trigger] names@[k])@.len() != 1 {
                                        QueryErrorV::SyntaxError(
                                            spec_schema_naming_message(spec_joined(names@[k]@)),
                                        )
                                    } else {
                                        QueryErrorV::SchemaDoesNotExist(spec_joined(names@[k]@))
                                    },
                                ),
                                qc,
                            ]
                    }
                },
                Statement::Insert { name, columns, source } => {
                    if !crate::planner::resolves(name@, c) {
                        r is Ok && cf == c && sf == s0 + seq![
                            Err(crate::planner::resolve_error(name@, c)),
                            qc,
                        ]
                    } else {
                        let tid = crate::planner::resolved_id(name@, c);
                        let p = table_pos(c.tables, tid.0, tid.1);
                        let t = c.tables[p];
                        let cols = t.columns;
                        let nv = crate::planner::names_view(columns@);
                        let iv = crate::planner::matrix_view(source@);
                        let targets = insert_targets(cols, nv);
                        if insert_clean(cols, nv, iv) {
                            if t.next_key + iv.len() <= u64::MAX {
                                &&& r is Ok
                                &&& cf.tables == c.tables.update(
                                    p,
                                    (TableV {
                                        next_key: (t.next_key + iv.len()) as u64,
                                        rows: t.rows + Seq::new(
                                            iv.len(),
                                            |i: int|
                                                (
                                                    crate::datum::be_bytes(t.next_key + i, 8),
                                                    spec_encode_row(
                                                        spec_record(cols, targets, iv[i]),
                                                        col_types(cols),
                                                    ),
                                                ),
                                        ),
                                        ..t
                                    }),
                                )
                                &&& cf.schemas == c.schemas
                                &&& cf.next_schema == c.next_schema
                                &&& sf == s0 + seq![
                                    Ok(QueryEventV::RecordsInserted(iv.len() as int)),
                                    qc,
                                ]
                            } else {
                                r == Err::<(), StorageError>(StorageError::IdsExhausted) && cf
                                    == c && sf == s0
                            }
                        } else {
                            r is Ok && cf == c && sf == s0 + errs(insert_errors(cols, nv, iv))
                                + seq![qc]
                        }
                    }
                },
                Statement::Delete { name } => {
                    &&& r is Ok
                    &&& if !crate::planner::resolves(name@, c) {
                        cf == c && sf == s0 + seq![
                            Err(crate::planner::resolve_error(name@, c)),
                            qc,
                        ]
                    } else {
                        let tid = crate::planner::resolved_id(name@, c);
                        let p = table_pos(c.tables, tid.0, tid.1);
                        &&& cf.tables == c.tables.update(
                            p,
                            (TableV { rows: Seq::empty(), ..c.tables[p] }),
                        )
                        &&& cf.schemas == c.schemas
                        &&& cf.next_schema == c.next_schema
                        &&& sf == s0 + seq![
                            Ok(QueryEventV::RecordsDeleted(c.tables[p].rows.len() as int)),
                            qc,
                        ]
                    }
                },
                Statement::Select { name, projection } => {
                    &&& r is Ok
                    &&& cf == c
                    &&& if !crate::planner::resolves(name@, c) {
                        sf == s0 + seq![Err(crate::planner::resolve_error(name@, c)), qc]
                    } else {
                        let tid = crate::planner::resolved_id(name@, c);
                        let t = c.tables[table_pos(c.tables, tid.0, tid.1)];
                        if crate::planner::sel_ok(t.columns, projection@) {
                            sf == s0 + seq![
                                Ok(
                                    QueryEventV::RecordsSelected(
                                        spec_select_header(t.columns, projection@),
                                        spec_select_rows(t, projection@),
                                    ),
                                ),
                                qc,
                            ]
                        } else {
                            exists|k: int|
                                0 <= k < projection@.len() && (forall|i: int|
                                    0 <= i < k ==> ((#[trigger] projection@[i]) matches
                                    SelectItem::Column(n) && first_col(t.columns, n@) >= 0)) && !((
                                #[trigger] projection@[k]) matches SelectItem::Column(n)
                                    && first_col(t.columns, n@) >= 0) && sf == s0 + seq![
                                    Err(
                                        match projection@[k] {
                                            SelectItem::Wildcard => (
                                            QueryErrorV::FeatureNotSupported("not supported"@)),
                                            SelectItem::Column(n) => (
                                            QueryErrorV::ColumnDoesNotExist(n@)),
                                        },
                                    ),
                                    qc,
                                ]
                        }
                    }
                },
            }
        }),
{
    let ghost c = catalog@;
    let ghost s0 = sink_view(sink@);
    let planned = match stmt {
        Statement::CreateSchema { name } => plan_create_schema(name, sink),
        Statement::CreateTable { name, columns } => plan_create_table(
            name,
            columns,
            catalog,
            sink,
        ),
        Statement::DropSchemas { names, cascade } => plan_drop_schemas(
            names,
            *cascade,
            catalog,
            sink,
        ),
        Statement::Insert { name, columns, source } => plan_insert(
            name,
            columns,
            source,
            catalog,
            sink,
        ),
        Statement::Delete { name } => plan_delete(name, catalog, sink),
        Statement::Select { name, projection } => plan_select(name, projection, catalog, sink),
    };
    let plan = match planned {
        Err(()) => {
            send(sink, Ok(QueryEvent::QueryComplete));
            proof {
                assert(sink_view(sink@).take(s0.len() as int) =~= s0);
                assert(sink_view(sink@) =~= s0 + seq![
                    sink_view(sink@)[s0.len() as int],
                    Ok::<QueryEventV, QueryErrorV>(QueryEventV::QueryComplete),
                ]);
            }
            return Ok(());
        },
        Ok(plan) => plan,
    };
    proof {
        match *stmt {
            Statement::Select { name: ref name, projection: ref projection } => {
                if crate::planner::resolves(name@, c) {
                    crate::catalog::lemma_found_table_pos(
                        c.tables,
                        crate::planner::resolved_id(name@, c).0,
                        name@[1],
                    );
                }
            },
            Statement::Insert { name: ref name, .. } => {
                if crate::planner::resolves(name@, c) {
                    crate::catalog::lemma_found_table_pos(
                        c.tables,
                        crate::planner::resolved_id(name@, c).0,
                        name@[1],
                    );
                }
            },
            Statement::Delete { name: ref name } => {
                if crate::planner::resolves(name@, c) {
                    crate::catalog::lemma_found_table_pos(
                        c.tables,
                        crate::planner::resolved_id(name@, c).0,
                        name@[1],
                    );
                }
            },
            Statement::CreateTable { name: ref name, .. } => {
                if name@.len() == 2 && find_schema(c.schemas, name@[0]) is Some {
                    crate::catalog::lemma_find_schema_has_id(c.schemas, name@[0]);
                }
            },
            _ => {},
        }
    }
    let outcome = match &plan {
        Plan::CreateSchema(info) => execute_create_schema(info, catalog, sink),
        Plan::CreateTable(info) => execute_create_table(info, catalog, sink),
        Plan::DropSchemas(schemas) => {
            let ghost names = stmt->DropSchemas_names;
            let ghost cascade = stmt->DropSchemas_cascade;
            proof {
                assert(drops_view(schemas@) =~= Seq::new(
                    names@.len(),
                    |i: int|
                        (
                            find_schema(c.schemas, spec_joined(names@[i]@))->Some_0,
                            spec_joined(names@[i]@),
                            cascade,
                        ),
                ));
            }
            execute_drop_schemas(schemas, catalog, sink)
        },
        Plan::Insert(inserts) => execute_insert(inserts, catalog, sink),
        Plan::Delete(tid) => execute_delete(tid, catalog, sink),
        Plan::Select(op) => {
            proof {
                let name = stmt->Select_name;
                let items = stmt->Select_projection;
                let tid = crate::planner::resolved_id(name@, c);
                let t = c.tables[table_pos(c.tables, tid.0, tid.1)];
                let outputs = op->Projection_outputs;
                assert forall|j: int| 0 <= j < outputs@.len() implies ((
                #[trigger] outputs@[j]) as int) < t.columns.len() by {
                    if !(items@.len() == 1 && items@[0] is Wildcard) {
                        crate::catalog::lemma_first_col(
                            t.columns,
                            (items@[j]->Column_0)@,
                        );
                    }
                }
                crate::relation::lemma_projection_scan_eval(*op, c);
                let h = Seq::new(outputs@.len(), |j: int| t.columns[outputs@[j] as int]);
                assert forall|j: int| 0 <= j < outputs@.len() implies (outputs@[j]) as int
                    == sel_idx(t.columns, items@)[j] by {}
                assert(h =~= spec_select_header(t.columns, items@));
                let rows = crate::relation::table_rows_decoded(t);
                let projected = rows.map_values(
                    |r: Seq<DatumV>| crate::relation::spec_project_row(r, outputs@),
                );
                let direct = rows.map_values(
                    |r: Seq<DatumV>|
                        Seq::new(
                            sel_idx(t.columns, items@).len(),
                            |j: int| r[sel_idx(t.columns, items@)[j]],
                        ),
                );
                assert forall|i: int| 0 <= i < rows.len() implies #[trigger] projected[i]
                    == direct[i] by {
                    assert(projected[i] =~= direct[i]);
                }
                assert(projected =~= direct);
                assert(rel_header(*op, c) == Some(spec_select_header(t.columns, items@)));
                assert(rows_text(projected) == spec_select_rows(t, items@));
            }
            execute_select(op, catalog, sink);
            Ok(())
        },
    };
    match outcome {
        Err(e) => Err(e),
        Ok(()) => {
            send(sink, Ok(QueryEvent::QueryComplete));
            proof {
                assert(sink_view(sink@).take(s0.len() as int) =~= s0);
                assert(sink_view(sink@) =~= s0 + sink_view(sink@).skip(s0.len() as int));
                let tail = sink_view(sink@).skip(s0.len() as int);
                match stmt {
                    Statement::DropSchemas { .. } => {
                        let names = stmt->DropSchemas_names;
                        let cascade = stmt->DropSchemas_cascade;
                        let ids = Seq::new(
                            names@.len(),
                            |i: int|
                                (
                                    find_schema(c.schemas, spec_joined(names@[i]@))->Some_0,
                                    spec_joined(names@[i]@),
                                    cascade,
                                ),
                        );
                        assert(sink_view(sink@) =~= s0 + spec_drop_events(c, ids) + seq![
                            Ok::<QueryEventV, QueryErrorV>(QueryEventV::QueryComplete),
                        ]);
                    },
                    Statement::Insert { .. } => {
                        let name = stmt->Insert_name;
                        let columns = stmt->Insert_columns;
                        let source = stmt->Insert_source;
                        if crate::planner::resolves(name@, c) {
                            let tid = crate::planner::resolved_id(name@, c);
                            let p = table_pos(c.tables, tid.0, tid.1);
                            let t = c.tables[p];
                            let nv = crate::planner::names_view(columns@);
                            let iv = crate::planner::matrix_view(source@);
                            if !insert_clean(t.columns, nv, iv) {
                                assert(sink_view(sink@) =~= s0 + errs(
                                    insert_errors(t.columns, nv, iv),
                                ) + seq![
                                    Ok::<QueryEventV, QueryErrorV>(QueryEventV::QueryComplete),
                                ]);
                            } else {
                                assert(tail =~= seq![
                                    tail[0],
                                    Ok::<QueryEventV, QueryErrorV>(QueryEventV::QueryComplete),
                                ]);
                            }
                        } else {
                            assert(tail =~= seq![
                                tail[0],
                                Ok::<QueryEventV, QueryErrorV>(QueryEventV::QueryComplete),
                            ]);
                        }
                    },
                    _ => {
                        assert(tail =~= seq![
                            tail[0],
                            Ok::<QueryEventV, QueryErrorV>(QueryEventV::QueryComplete),
                        ]);
                    },
                }
            }
            Ok(())
        },
    }
}

} // verus!
