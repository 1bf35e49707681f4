//! The relational-algebra representation of read queries, and its
//! bottom-up evaluation.
//!
//! `Scan` materializes all rows of a resolved table; `Predicate`
//! filters them through the scalar evaluator; `Projection` selects
//! output column indices, preserving duplicates and order; `Constants`
//! yields a fixed literal row set. `Join` and `Aggregate` are present
//! structurally and refused uniformly as unsupported.

use vstd::prelude::*;

use crate::ast::{Literal, LiteralV};
use crate::catalog::{
    catalog_wf, col_types, find_schema, find_table, table_pos, table_wf, Catalog, CatalogV,
    TableLookup, TableV,
};
use crate::datum::{row_view, spec_decode_row, Datum, DatumV};
use crate::eval::literal_text;
use crate::events::{QueryError, QueryErrorV};
use crate::names::FullTableName;
use crate::types::SqlType;

verus! {

/// A bound scalar operand of a predicate: a literal, a column of the
/// input row by position, or a comparison.
#[derive(Debug)]
pub enum ScalarOp {
    Value(Literal),
    Column(usize),
    Eq(Box<ScalarOp>, Box<ScalarOp>),
}

/// The datum a scalar operand denotes over a row, if any.
pub open spec fn spec_operand(op: ScalarOp, row: Seq<DatumV>) -> Option<DatumV> {
    match op {
        ScalarOp::Value(v) => Some(
            match v@ {
                LiteralV::Null => DatumV::Null,
                lv => DatumV::Str(literal_text(lv)),
            },
        ),
        ScalarOp::Column(i) => if (i as int) < row.len() {
            Some(row[i as int])
        } else {
            None
        },
        ScalarOp::Eq(_, _) => None,
    }
}

/// Whether a predicate expression keeps a row: a comparison keeps the
/// row when both operands denote values that print the same; anything
/// else states no condition and keeps it.
pub open spec fn spec_pred(op: ScalarOp, row: Seq<DatumV>) -> bool {
    match op {
        ScalarOp::Eq(a, b) => spec_operand(*a, row) is Some && spec_operand(*b, row) is Some
            && crate::datum::spec_datum_text(spec_operand(*a, row)->Some_0)
            == crate::datum::spec_datum_text(spec_operand(*b, row)->Some_0),
        _ => true,
    }
}

/// The operator tree of a read query.
#[derive(Debug)]
pub enum RelationOp {
    /// A fixed literal row set.
    Constants(Vec<Vec<Datum>>),
    /// Selects output column indices of its input; duplicates are
    /// permitted and preserved, in both header and row order.
    Projection { input: Vec<RelationOp>, outputs: Vec<usize> },
    /// Keeps the input rows that satisfy the expression.
    Predicate { input: Box<RelationOp>, expr: Box<ScalarOp> },
    /// Materializes all rows of the named table.
    Scan { full_table_name: FullTableName },
    /// Structurally present; evaluation refuses it as unsupported.
    Join {},
    /// Structurally present; evaluation refuses it as unsupported.
    Aggregate {},
    /// Evaluates to its nested tree's output.
    SubQuery { output: Box<RelationOp> },
}

/// The decoded rows of one stored table.
pub open spec fn table_rows_decoded(t: TableV) -> Seq<Seq<DatumV>> {
    t.rows.map_values(
        |r: (Seq<u8>, Seq<u8>)| spec_decode_row(r.1, col_types(t.columns))->Some_0,
    )
}

/// The rows a scan of the named table yields, when it resolves.
pub open spec fn spec_scan(name: (Seq<char>, Seq<char>), c: CatalogV) -> Option<
    Seq<Seq<DatumV>>,
> {
    match find_schema(c.schemas, name.0) {
        None => None,
        Some(sid) => match find_table(c.tables, sid, name.1) {
            None => None,
            Some(tid) => if table_pos(c.tables, sid, tid) >= 0 {
                Some(table_rows_decoded(c.tables[table_pos(c.tables, sid, tid)]))
            } else {
                None
            },
        },
    }
}

/// Whether every output index falls inside a width.
pub open spec fn outputs_ok(width: int, outputs: Seq<usize>) -> bool {
    forall|j: int| 0 <= j < outputs.len() ==> (#[trigger] outputs[j]) < width
}

/// One row permuted and duplicated by the output indices, in order.
pub open spec fn spec_project_row(row: Seq<DatumV>, outputs: Seq<usize>) -> Seq<DatumV> {
    Seq::new(outputs.len(), |j: int| row[outputs[j] as int])
}

/// The rows an operator tree evaluates to over a catalog state, or
/// `None` where evaluation is refused.
pub open spec fn rel_rows(op: RelationOp, c: CatalogV) -> Option<Seq<Seq<DatumV>>>
    decreases op,
{
    match op {
        RelationOp::Constants(rows) => Some(rows@.map_values(|r: Vec<Datum>| row_view(r@))),
        RelationOp::Projection { input, outputs } => if input.len() == 1 {
            match rel_rows(input[0], c) {
                None => None,
                Some(rows) => if forall|i: int|
                    0 <= i < rows.len() ==> outputs_ok((#[trigger] rows[i]).len() as int, outputs@) {
                    Some(rows.map_values(|r: Seq<DatumV>| spec_project_row(r, outputs@)))
                } else {
                    None
                },
            }
        } else {
            None
        },
        RelationOp::Predicate { input, expr } => match rel_rows(*input, c) {
            None => None,
            Some(rows) => Some(rows.filter(|r: Seq<DatumV>| spec_pred(*expr, r))),
        },
        RelationOp::Scan { full_table_name } => spec_scan(full_table_name@, c),
        RelationOp::Join {  } => None,
        RelationOp::Aggregate {  } => None,
        RelationOp::SubQuery { output } => rel_rows(*output, c),
    }
}

/// The column name/type header an operator tree yields, when defined.
pub open spec fn rel_header(op: RelationOp, c: CatalogV) -> Option<Seq<(Seq<char>, SqlType)>>
    decreases op,
{
    match op {
        RelationOp::Constants(_) => None,
        RelationOp::Projection { input, outputs } => if input.len() == 1 {
            match rel_header(input[0], c) {
                None => None,
                Some(h) => if outputs_ok(h.len() as int, outputs@) {
                    Some(Seq::new(outputs@.len(), |j: int| h[outputs@[j] as int]))
                } else {
                    None
                },
            }
        } else {
            None
        },
        RelationOp::Predicate { input, expr: _ } => rel_header(*input, c),
        RelationOp::Scan { full_table_name } => match find_schema(
            c.schemas,
            full_table_name@.0,
        ) {
            None => None,
            Some(sid) => match find_table(c.tables, sid, full_table_name@.1) {
                None => None,
                Some(tid) => if table_pos(c.tables, sid, tid) >= 0 {
                    Some(c.tables[table_pos(c.tables, sid, tid)].columns)
                } else {
                    None
                },
            },
        },
        RelationOp::Join {  } => None,
        RelationOp::Aggregate {  } => None,
        RelationOp::SubQuery { output } => rel_header(*output, c),
    }
}

/// The error a failing scan reports: the missing schema by name, or
/// the missing table by its dotted name.
pub open spec fn scan_error(name: (Seq<char>, Seq<char>), c: CatalogV) -> QueryErrorV {
    if find_schema(c.schemas, name.0) is None {
        QueryErrorV::SchemaDoesNotExist(name.0)
    } else {
        QueryErrorV::TableDoesNotExist(crate::names::spec_full_name(name.0, name.1))
    }
}

/// The error a refused row evaluation reports: the first failure the
/// bottom-up evaluation meets, or the unsupported-feature refusal.
pub open spec fn rel_rows_error(op: RelationOp, c: CatalogV) -> QueryErrorV
    decreases op,
{
    match op {
        RelationOp::Constants(_) => QueryErrorV::FeatureNotSupported("not supported"@),
        RelationOp::Projection { input, outputs: _ } => if input.len() == 1 && rel_rows(
            input[0],
            c,
        ) is None {
            rel_rows_error(input[0], c)
        } else {
            QueryErrorV::FeatureNotSupported("not supported"@)
        },
        RelationOp::Predicate { input, expr: _ } => rel_rows_error(*input, c),
        RelationOp::Scan { full_table_name } => scan_error(full_table_name@, c),
        RelationOp::Join {  } => QueryErrorV::FeatureNotSupported("not supported"@),
        RelationOp::Aggregate {  } => QueryErrorV::FeatureNotSupported("not supported"@),
        RelationOp::SubQuery { output } => rel_rows_error(*output, c),
    }
}

/// The error a refused header evaluation reports.
pub open spec fn rel_header_error(op: RelationOp, c: CatalogV) -> QueryErrorV
    decreases op,
{
    match op {
        RelationOp::Constants(_) => QueryErrorV::FeatureNotSupported("not supported"@),
        RelationOp::Projection { input, outputs: _ } => if input.len() == 1 && rel_header(
            input[0],
            c,
        ) is None {
            rel_header_error(input[0], c)
        } else {
            QueryErrorV::FeatureNotSupported("not supported"@)
        },
        RelationOp::Predicate { input, expr: _ } => rel_header_error(*input, c),
        RelationOp::Scan { full_table_name } => scan_error(full_table_name@, c),
        RelationOp::Join {  } => QueryErrorV::FeatureNotSupported("not supported"@),
        RelationOp::Aggregate {  } => QueryErrorV::FeatureNotSupported("not supported"@),
        RelationOp::SubQuery { output } => rel_header_error(*output, c),
    }
}

/// The ghost image of a list of evaluated rows.
pub open spec fn rows_view(s: Seq<Vec<Datum>>) -> Seq<Seq<DatumV>> {
    s.map_values(|r: Vec<Datum>| row_view(r@))
}

fn clone_row(row: &Vec<Datum>) -> (r: Vec<Datum>)
    ensures
        row_view(r@) == row_view(row@),
{
    let mut out: Vec<Datum> = Vec::new();
    let mut i: usize = 0;
    while i < row.len()
        invariant
            0 <= i <= row@.len(),
            row_view(out@) == row_view(row@).take(i as int),
        decreases row@.len() - i,
    {
        let ghost before = row_view(out@);
        out.push(row[i].clone());
        proof {
            assert(row_view(out@) =~= before.push(row@[i as int]@));
            assert(row_view(out@) =~= row_view(row@).take(i + 1));
        }
        i = i + 1;
    }
    proof {
        assert(row_view(row@).take(row@.len() as int) =~= row_view(row@));
    }
    out
}

/// The datum a scalar operand denotes over a row, if any.
fn eval_operand(op: &ScalarOp, row: &Vec<Datum>) -> (r: Option<Datum>)
    ensures
        match r {
            Some(d) => spec_operand(*op, row_view(row@)) == Some(d@),
            None => spec_operand(*op, row_view(row@)) is None,
        },
{
    match op {
        ScalarOp::Value(v) => match v {
            Literal::Null => Some(Datum::Null),
            _ => Some(Datum::Str(crate::eval::literal_to_text(v))),
        },
        ScalarOp::Column(i) => if *i < row.len() {
            proof {
                assert(row_view(row@)[*i as int] == row@[*i as int]@);
            }
            Some(row[*i].clone())
        } else {
            None
        },
        ScalarOp::Eq(_, _) => None,
    }
}

/// Whether a predicate keeps the row.
fn eval_pred(op: &ScalarOp, row: &Vec<Datum>) -> (r: bool)
    ensures
        r == spec_pred(*op, row_view(row@)),
{
    match op {
        ScalarOp::Eq(a, b) => {
            let left = eval_operand(a, row);
            let right = eval_operand(b, row);
            match (left, right) {
                (Some(x), Some(y)) => crate::names::str_eq(
                    x.to_text().as_str(),
                    y.to_text().as_str(),
                ),
                _ => false,
            }
        },
        _ => true,
    }
}

/// Evaluates an operator tree bottom-up over the catalog.
pub fn eval_relation(op: &RelationOp, catalog: &Catalog) -> (r: Result<Vec<Vec<Datum>>, QueryError>)
    requires
        catalog_wf(catalog@),
    ensures
        match r {
            Ok(rows) => rel_rows(*op, catalog@) == Some(rows_view(rows@)),
            Err(e) => rel_rows(*op, catalog@) is None && e@ == rel_rows_error(*op, catalog@),
        },
    decreases *op,
{
    match op {
        RelationOp::Constants(rows) => {
            let mut out: Vec<Vec<Datum>> = Vec::new();
            let mut i: usize = 0;
            while i < rows.len()
                invariant
                    0 <= i <= rows@.len(),
                    rows_view(out@) == rows@.map_values(|r: Vec<Datum>| row_view(r@)).take(
                        i as int,
                    ),
                decreases rows@.len() - i,
            {
                let ghost before = rows_view(out@);
                out.push(clone_row(&rows[i]));
                proof {
                    assert(rows_view(out@) =~= before.push(row_view(rows@[i as int]@)));
                    assert(rows_view(out@) =~= rows@.map_values(
                        |r: Vec<Datum>| row_view(r@),
                    ).take(i + 1));
                }
                i = i + 1;
            }
            proof {
                assert(rows@.map_values(|r: Vec<Datum>| row_view(r@)).take(rows@.len() as int)
                    =~= rows@.map_values(|r: Vec<Datum>| row_view(r@)));
            }
            Ok(out)
        },
        RelationOp::Projection { input, outputs } => {
            if input.len() != 1 {
                return Err(QueryError::FeatureNotSupported(String::from_str("not supported")));
            }
            let rows = match eval_relation(&input[0], catalog) {
                Err(e) => {
                    return Err(e);
                },
                Ok(rows) => rows,
            };
            let mut all_ok = true;
            let mut i: usize = 0;
            while i < rows.len()
                invariant
                    0 <= i <= rows@.len(),
                    all_ok == forall|k: int|
                        0 <= k < i ==> outputs_ok(
                            (#[trigger] rows_view(rows@)[k]).len() as int,
                            outputs@,
                        ),
                decreases rows@.len() - i,
            {
                let mut row_ok = true;
                let mut j: usize = 0;
                while j < outputs.len()
                    invariant
                        0 <= j <= outputs@.len(),
                        i < rows@.len(),
                        row_ok == forall|m: int|
                            0 <= m < j ==> (#[trigger] outputs@[m]) < rows@[i as int]@.len(),
                    decreases outputs@.len() - j,
                {
                    if outputs[j] >= rows[i].len() {
                        row_ok = false;
                    }
                    j = j + 1;
                }
                proof {
                    assert(rows_view(rows@)[i as int] == row_view(rows@[i as int]@));
                    assert(row_view(rows@[i as int]@).len() == rows@[i as int]@.len());
                    if row_ok {
                        assert(outputs_ok(rows_view(rows@)[i as int].len() as int, outputs@));
                    } else {
                        assert(!outputs_ok(rows_view(rows@)[i as int].len() as int, outputs@));
                    }
                }
                all_ok = all_ok && row_ok;
                i = i + 1;
            }
            if !all_ok {
                return Err(QueryError::FeatureNotSupported(String::from_str("not supported")));
            }
            let mut out: Vec<Vec<Datum>> = Vec::new();
            let mut i2: usize = 0;
            proof {
                assert(forall|k: int|
                    0 <= k < rows@.len() ==> outputs_ok(
                        (#[trigger] rows_view(rows@)[k]).len() as int,
                        outputs@,
                    ));
            }
            while i2 < rows.len()
                invariant
                    0 <= i2 <= rows@.len(),
                    forall|k: int|
                        0 <= k < rows@.len() ==> outputs_ok(
                            (#[trigger] rows_view(rows@)[k]).len() as int,
                            outputs@,
                        ),
                    rows_view(out@) == rows_view(rows@).map_values(
                        |r: Seq<DatumV>| spec_project_row(r, outputs@),
                    ).take(i2 as int),
                decreases rows@.len() - i2,
            {
                let mut projected: Vec<Datum> = Vec::new();
                let mut j: usize = 0;
                proof {
                    assert(rows_view(rows@)[i2 as int] == row_view(rows@[i2 as int]@));
                }
                while j < outputs.len()
                    invariant
                        0 <= j <= outputs@.len(),
                        i2 < rows@.len(),
                        outputs_ok(row_view(rows@[i2 as int]@).len() as int, outputs@),
                        row_view(projected@) == spec_project_row(
                            row_view(rows@[i2 as int]@),
                            outputs@,
                        ).take(j as int),
                    decreases outputs@.len() - j,
                {
                    let ghost before = row_view(projected@);
                    proof {
                        assert(row_view(rows@[i2 as int]@)[outputs@[j as int] as int] == rows@[
                        i2 as int]@[outputs@[j as int] as int]@);
                    }
                    projected.push(rows[i2][outputs[j]].clone());
                    proof {
                        assert(row_view(projected@) =~= before.push(
                            spec_project_row(row_view(rows@[i2 as int]@), outputs@)[j as int],
                        ));
                        assert(row_view(projected@) =~= spec_project_row(
                            row_view(rows@[i2 as int]@),
                            outputs@,
                        ).take(j + 1));
                    }
                    j = j + 1;
                }
                let ghost outbefore = rows_view(out@);
                proof {
                    assert(row_view(projected@) =~= spec_project_row(
                        row_view(rows@[i2 as int]@),
                        outputs@,
                    ));
                }
                out.push(projected);
                proof {
                    assert(rows_view(out@) =~= outbefore.push(
                        spec_project_row(row_view(rows@[i2 as int]@), outputs@),
                    ));
                    assert(rows_view(out@) =~= rows_view(rows@).map_values(
                        |r: Seq<DatumV>| spec_project_row(r, outputs@),
                    ).take(i2 + 1));
                }
                i2 = i2 + 1;
            }
            proof {
                assert(rows_view(rows@).map_values(
                    |r: Seq<DatumV>| spec_project_row(r, outputs@),
                ).take(rows@.len() as int) =~= rows_view(rows@).map_values(
                    |r: Seq<DatumV>| spec_project_row(r, outputs@),
                ));
            }
            Ok(out)
        },
        RelationOp::Predicate { input, expr } => {
            let rows = match eval_relation(input, catalog) {
                Err(e) => {
                    return Err(e);
                },
                Ok(rows) => rows,
            };
            let mut out: Vec<Vec<Datum>> = Vec::new();
            let mut i: usize = 0;
            proof {
                reveal(Seq::filter);
                assert(rows_view(out@) =~= rows_view(rows@).take(0).filter(
                    |r: Seq<DatumV>| spec_pred(**expr, r),
                ));
            }
            while i < rows.len()
                invariant
                    0 <= i <= rows@.len(),
                    rows_view(out@) == rows_view(rows@).take(i as int).filter(
                        |r: Seq<DatumV>| spec_pred(**expr, r),
                    ),
                decreases rows@.len() - i,
            {
                let ghost before = rows_view(out@);
                let keep = eval_pred(expr, &rows[i]);
                proof {
                    reveal(Seq::filter);
                    assert(rows_view(rows@).take(i + 1).drop_last() =~= rows_view(rows@).take(
                        i as int,
                    ));
                    assert(rows_view(rows@).take(i + 1).last() == row_view(rows@[i as int]@));
                }
                if keep {
                    out.push(clone_row(&rows[i]));
                    proof {
                        assert(rows_view(out@) =~= before.push(row_view(rows@[i as int]@)));
                    }
                }
                i = i + 1;
            }
            proof {
                assert(rows_view(rows@).take(rows@.len() as int) =~= rows_view(rows@));
            }
            Ok(out)
        },
        RelationOp::Scan { full_table_name } => {
            let tid = match catalog.table_exists(full_table_name) {
                TableLookup::SchemaMissing => {
                    return Err(
                        QueryError::SchemaDoesNotExist(
                            String::from_str(full_table_name.schema_name().as_str()),
                        ),
                    );
                },
                TableLookup::TableMissing(_) => {
                    return Err(QueryError::TableDoesNotExist(full_table_name.full_name()));
                },
                TableLookup::Found(tid) => tid,
            };
            proof {
                crate::catalog::lemma_found_table_pos(
                    catalog@.tables,
                    tid@.0,
                    full_table_name@.1,
                );
            }
            let cols = match catalog.table_columns(&tid) {
                Err(_) => {
                    proof {
                        assert(false);
                    }
                    return Err(QueryError::TableDoesNotExist(full_table_name.full_name()));
                },
                Ok(cols) => cols,
            };
            let mut types: Vec<SqlType> = Vec::new();
            let mut ci: usize = 0;
            let ghost t = catalog@.tables[table_pos(catalog@.tables, tid@.0, tid@.1)];
            while ci < cols.len()
                invariant
                    0 <= ci <= cols@.len(),
                    cols@.map_values(|c: crate::catalog::ColumnDefinition| c@) == t.columns,
                    types@ == col_types(t.columns).take(ci as int),
                decreases cols@.len() - ci,
            {
                types.push(cols[ci].sql_type);
                proof {
                    assert(types@ =~= col_types(t.columns).take(ci + 1));
                }
                ci = ci + 1;
            }
            proof {
                assert(col_types(t.columns).take(t.columns.len() as int) =~= col_types(
                    t.columns,
                ));
            }
            let stored = match catalog.read_all(&tid) {
                Err(_) => {
                    proof {
                        assert(false);
                    }
                    return Err(QueryError::TableDoesNotExist(full_table_name.full_name()));
                },
                Ok(rows) => rows,
            };
            let mut out: Vec<Vec<Datum>> = Vec::new();
            let mut i: usize = 0;
            while i < stored.len()
                invariant
                    0 <= i <= stored@.len(),
                    catalog_wf(catalog@),
                    types@ == col_types(t.columns),
                    t == catalog@.tables[table_pos(catalog@.tables, tid@.0, tid@.1)],
                    0 <= table_pos(catalog@.tables, tid@.0, tid@.1) < catalog@.tables.len(),
                    table_wf(t),
                    stored@.map_values(|p: (crate::datum::Binary, crate::datum::Binary)| (p.0@, p.1@))
                        == t.rows,
                    rows_view(out@) == table_rows_decoded(t).take(i as int),
                decreases stored@.len() - i,
            {
                let ghost before = rows_view(out@);
                proof {
                    assert(t.rows[i as int] == (stored@[i as int].0@, stored@[i as int].1@));
                    assert(spec_decode_row(stored@[i as int].1@, col_types(t.columns)) is Some);
                }
                let decoded = match stored[i].1.unpack(&types) {
                    None => {
                        proof {
                            assert(false);
                        }
                        return Err(QueryError::TableDoesNotExist(full_table_name.full_name()));
                    },
                    Some(d) => d,
                };
                out.push(decoded);
                proof {
                    assert(rows_view(out@) =~= before.push(
                        spec_decode_row(t.rows[i as int].1, col_types(t.columns))->Some_0,
                    ));
                    assert(rows_view(out@) =~= table_rows_decoded(t).take(i + 1));
                }
                i = i + 1;
            }
            proof {
                assert(table_rows_decoded(t).take(t.rows.len() as int) =~= table_rows_decoded(t));
            }
            Ok(out)
        },
        RelationOp::Join {  } => Err(
            QueryError::FeatureNotSupported(String::from_str("not supported")),
        ),
        RelationOp::Aggregate {  } => Err(
            QueryError::FeatureNotSupported(String::from_str("not supported")),
        ),
        RelationOp::SubQuery { output } => eval_relation(output, catalog),
    }
}

/// The ghost image of an evaluated header.
pub open spec fn header_view(h: Seq<(String, SqlType)>) -> Seq<(Seq<char>, SqlType)> {
    h.map_values(|c: (String, SqlType)| (c.0@, c.1))
}

/// Evaluates the column name/type header of an operator tree.
pub fn eval_header(op: &RelationOp, catalog: &Catalog) -> (r: Result<
    Vec<(String, SqlType)>,
    QueryError,
>)
    requires
        catalog_wf(catalog@),
    ensures
        match r {
            Ok(h) => rel_header(*op, catalog@) == Some(header_view(h@)),
            Err(e) => rel_header(*op, catalog@) is None && e@ == rel_header_error(*op, catalog@),
        },
    decreases *op,
{
    match op {
        RelationOp::Constants(_) => Err(
            QueryError::FeatureNotSupported(String::from_str("not supported")),
        ),
        RelationOp::Projection { input, outputs } => {
            if input.len() != 1 {
                return Err(QueryError::FeatureNotSupported(String::from_str("not supported")));
            }
            let h = match eval_header(&input[0], catalog) {
                Err(e) => {
                    return Err(e);
                },
                Ok(h) => h,
            };
            let mut ok = true;
            let mut j: usize = 0;
            while j < outputs.len()
                invariant
                    0 <= j <= outputs@.len(),
                    ok == forall|m: int| 0 <= m < j ==> (#[trigger] outputs@[m]) < h@.len(),
                decreases outputs@.len() - j,
            {
                if outputs[j] >= h.len() {
                    ok = false;
                }
                j = j + 1;
            }
            if !ok {
                proof {
                    assert(header_view(h@).len() == h@.len());
                }
                return Err(QueryError::FeatureNotSupported(String::from_str("not supported")));
            }
            let mut out: Vec<(String, SqlType)> = Vec::new();
            let mut i: usize = 0;
            proof {
                assert(header_view(h@).len() == h@.len());
            }
            while i < outputs.len()
                invariant
                    0 <= i <= outputs@.len(),
                    forall|m: int| 0 <= m < outputs@.len() ==> (#[trigger] outputs@[m]) < h@.len(),
                    header_view(out@) == Seq::new(
                        i as nat,
                        |j: int| header_view(h@)[outputs@[j] as int],
                    ),
                decreases outputs@.len() - i,
            {
                let ghost before = header_view(out@);
                let k = outputs[i];
                proof {
                    assert(header_view(h@)[k as int] == (h@[k as int].0@, h@[k as int].1));
                }
                out.push((h[k].0.clone(), h[k].1));
                proof {
                    assert(header_view(out@) =~= before.push(header_view(h@)[k as int]));
                    assert(header_view(out@) =~= Seq::new(
                        (i + 1) as nat,
                        |j: int| header_view(h@)[outputs@[j] as int],
                    ));
                }
                i = i + 1;
            }
            proof {
                assert(header_view(out@) =~= Seq::new(
                    outputs@.len(),
                    |j: int| header_view(h@)[outputs@[j] as int],
                ));
            }
            Ok(out)
        },
        RelationOp::Predicate { input, expr: _ } => eval_header(input, catalog),
        RelationOp::Scan { full_table_name } => {
            let tid = match catalog.table_exists(full_table_name) {
                TableLookup::SchemaMissing => {
                    return Err(
                        QueryError::SchemaDoesNotExist(
                            String::from_str(full_table_name.schema_name().as_str()),
                        ),
                    );
                },
                TableLookup::TableMissing(_) => {
                    return Err(QueryError::TableDoesNotExist(full_table_name.full_name()));
                },
                TableLookup::Found(tid) => tid,
            };
            proof {
                crate::catalog::lemma_found_table_pos(
                    catalog@.tables,
                    tid@.0,
                    full_table_name@.1,
                );
            }
            let cols = match catalog.table_columns(&tid) {
                Err(_) => {
                    proof {
                        assert(false);
                    }
                    return Err(QueryError::TableDoesNotExist(full_table_name.full_name()));
                },
                Ok(cols) => cols,
            };
            let ghost t = catalog@.tables[table_pos(catalog@.tables, tid@.0, tid@.1)];
            let mut out: Vec<(String, SqlType)> = Vec::new();
            let mut i: usize = 0;
            while i < cols.len()
                invariant
                    0 <= i <= cols@.len(),
                    cols@.map_values(|c: crate::catalog::ColumnDefinition| c@) == t.columns,
                    header_view(out@) == t.columns.take(i as int),
                decreases cols@.len() - i,
            {
                let ghost before = header_view(out@);
                proof {
                    assert(t.columns[i as int] == cols@[i as int]@);
                }
                out.push((cols[i].name.clone(), cols[i].sql_type));
                proof {
                    assert(header_view(out@) =~= before.push(t.columns[i as int]));
                    assert(header_view(out@) =~= t.columns.take(i + 1));
                }
                i = i + 1;
            }
            proof {
                assert(t.columns.take(t.columns.len() as int) =~= t.columns);
            }
            Ok(out)
        },
        RelationOp::Join {  } => Err(
            QueryError::FeatureNotSupported(String::from_str("not supported")),
        ),
        RelationOp::Aggregate {  } => Err(
            QueryError::FeatureNotSupported(String::from_str("not supported")),
        ),
        RelationOp::SubQuery { output } => eval_header(output, catalog),
    }
}


/// A projection over one resolved scan evaluates to the table's
/// columns and decoded rows, permuted by its in-range output indices.
pub proof fn lemma_projection_scan_eval(op: RelationOp, c: CatalogV)
    requires
        catalog_wf(c),
        op matches RelationOp::Projection { input, outputs } && input@.len() == 1 && (input@[0]
            matches RelationOp::Scan { full_table_name } && {
            let nm = full_table_name@;
            &&& find_schema(c.schemas, nm.0) is Some
            &&& find_table(c.tables, find_schema(c.schemas, nm.0)->Some_0, nm.1) is Some
            &&& forall|j: int|
                0 <= j < outputs@.len() ==> ((#[trigger] outputs@[j]) as int) < c.tables[table_pos(
                    c.tables,
                    find_schema(c.schemas, nm.0)->Some_0,
                    find_table(c.tables, find_schema(c.schemas, nm.0)->Some_0, nm.1)->Some_0,
                )].columns.len()
        }),
    ensures
        ({
            let outputs = op->Projection_outputs;
            let nm = (op->Projection_input)@[0]->Scan_full_table_name@;
            let sid = find_schema(c.schemas, nm.0)->Some_0;
            let tid = find_table(c.tables, sid, nm.1)->Some_0;
            let t = c.tables[table_pos(c.tables, sid, tid)];
            &&& rel_header(op, c) == Some(
                Seq::new(outputs@.len(), |j: int| t.columns[outputs@[j] as int]),
            )
            &&& rel_rows(op, c) == Some(
                table_rows_decoded(t).map_values(
                    |r: Seq<DatumV>| spec_project_row(r, outputs@),
                ),
            )
        }),
{
    let outputs = op->Projection_outputs;
    let scan = (op->Projection_input)@[0];
    let nm = scan->Scan_full_table_name@;
    let sid = find_schema(c.schemas, nm.0)->Some_0;
    let tid = find_table(c.tables, sid, nm.1)->Some_0;
    crate::catalog::lemma_found_table_pos(c.tables, sid, nm.1);
    let pos = table_pos(c.tables, sid, tid);
    let t = c.tables[pos];
    assert(table_wf(t));
    assert(rel_header(scan, c) == Some(t.columns));
    assert(rel_rows(scan, c) == Some(table_rows_decoded(t)));
    assert(outputs_ok(t.columns.len() as int, outputs@));
    assert(rel_header(op, c) == Some(
        Seq::new(outputs@.len(), |j: int| t.columns[outputs@[j] as int]),
    ));
    let rows = table_rows_decoded(t);
    assert forall|i: int| 0 <= i < rows.len() implies (#[trigger] rows[i]).len()
        == t.columns.len() by {
        assert(spec_decode_row(t.rows[i].1, col_types(t.columns)) is Some);
        crate::datum::lemma_encode_decode(t.rows[i].1, col_types(t.columns));
        assert(crate::datum::row_fits(rows[i], col_types(t.columns)));
    }
    assert forall|i: int| 0 <= i < rows.len() implies outputs_ok(
        (#[trigger] rows[i]).len() as int,
        outputs@,
    ) by {
        assert(rows[i].len() == t.columns.len());
    }
    assert(rel_rows(op, c) == Some(rows.map_values(|r: Seq<DatumV>| spec_project_row(r, outputs@))));
}

} // verus!
