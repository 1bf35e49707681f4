//! Query events and errors, delivered to the result sink.
//!
//! Every statement ends in `QueryComplete`; before it come either the
//! success event of its kind or one or more errors. The sink itself is
//! a plain growing list: delivery cannot fail here.

use vstd::prelude::*;

use crate::types::SqlType;

verus! {

/// The successful outcomes a statement can report.
#[derive(Clone, Debug, PartialEq)]
pub enum QueryEvent {
    SchemaCreated,
    TableCreated,
    SchemaDropped,
    RecordsInserted(usize),
    RecordsDeleted(usize),
    /// Column name/type headers and the selected row texts.
    RecordsSelected(Vec<(String, SqlType)>, Vec<Vec<String>>),
    QueryComplete,
}

/// The ghost image of a [`QueryEvent`].
pub enum QueryEventV {
    SchemaCreated,
    TableCreated,
    SchemaDropped,
    RecordsInserted(int),
    RecordsDeleted(int),
    RecordsSelected(Seq<(Seq<char>, SqlType)>, Seq<Seq<Seq<char>>>),
    QueryComplete,
}

impl View for QueryEvent {
    type V = QueryEventV;

    open spec fn view(&self) -> QueryEventV {
        match self {
            QueryEvent::SchemaCreated => QueryEventV::SchemaCreated,
            QueryEvent::TableCreated => QueryEventV::TableCreated,
            QueryEvent::SchemaDropped => QueryEventV::SchemaDropped,
            QueryEvent::RecordsInserted(n) => QueryEventV::RecordsInserted(*n as int),
            QueryEvent::RecordsDeleted(n) => QueryEventV::RecordsDeleted(*n as int),
            QueryEvent::RecordsSelected(cols, rows) => QueryEventV::RecordsSelected(
                cols@.map_values(|c: (String, SqlType)| (c.0@, c.1)),
                rows@.map_values(|r: Vec<String>| r@.map_values(|s: String| s@)),
            ),
            QueryEvent::QueryComplete => QueryEventV::QueryComplete,
        }
    }
}

/// The failures a statement can report, each with its context.
#[derive(Clone, Debug, PartialEq)]
pub enum QueryError {
    /// No schema of this name; carries the name text.
    SchemaDoesNotExist(String),
    /// No table of this qualified name; carries the dotted text.
    TableDoesNotExist(String),
    /// A malformed identifier; carries the message text.
    SyntaxError(String),
    /// A column name that resolves to nothing; carries the name.
    ColumnDoesNotExist(String),
    /// A schema that still holds tables refused a restricted drop;
    /// carries the schema name.
    SchemaHasDependentObjects(String),
    /// A numeric cell out of the declared type's range.
    OutOfRange { sql_type: SqlType, column: String, ordinal: usize },
    /// A cell that does not parse as the declared type.
    TypeMismatch { value: String, sql_type: SqlType, column: String, ordinal: usize },
    /// A character cell longer than the declared length.
    ValueTooLong { sql_type: SqlType, length: u64, column: String, ordinal: usize },
    /// A row with more expressions than the table has columns.
    TooManyInsertExpressions,
    /// A construct this core refuses; carries the message.
    FeatureNotSupported(String),
}

/// The ghost image of a [`QueryError`].
pub enum QueryErrorV {
    SchemaDoesNotExist(Seq<char>),
    TableDoesNotExist(Seq<char>),
    SyntaxError(Seq<char>),
    ColumnDoesNotExist(Seq<char>),
    SchemaHasDependentObjects(Seq<char>),
    OutOfRange { sql_type: SqlType, column: Seq<char>, ordinal: int },
    TypeMismatch { value: Seq<char>, sql_type: SqlType, column: Seq<char>, ordinal: int },
    ValueTooLong { sql_type: SqlType, length: int, column: Seq<char>, ordinal: int },
    TooManyInsertExpressions,
    FeatureNotSupported(Seq<char>),
}

impl View for QueryError {
    type V = QueryErrorV;

    open spec fn view(&self) -> QueryErrorV {
        match self {
            QueryError::SchemaDoesNotExist(s) => QueryErrorV::SchemaDoesNotExist(s@),
            QueryError::TableDoesNotExist(s) => QueryErrorV::TableDoesNotExist(s@),
            QueryError::SyntaxError(s) => QueryErrorV::SyntaxError(s@),
            QueryError::ColumnDoesNotExist(s) => QueryErrorV::ColumnDoesNotExist(s@),
            QueryError::SchemaHasDependentObjects(s) => QueryErrorV::SchemaHasDependentObjects(
                s@,
            ),
            QueryError::OutOfRange { sql_type, column, ordinal } => QueryErrorV::OutOfRange {
                sql_type: *sql_type,
                column: column@,
                ordinal: *ordinal as int,
            },
            QueryError::TypeMismatch { value, sql_type, column, ordinal } => (
            QueryErrorV::TypeMismatch {
                value: value@,
                sql_type: *sql_type,
                column: column@,
                ordinal: *ordinal as int,
            }),
            QueryError::ValueTooLong { sql_type, length, column, ordinal } => (
            QueryErrorV::ValueTooLong {
                sql_type: *sql_type,
                length: *length as int,
                column: column@,
                ordinal: *ordinal as int,
            }),
            QueryError::TooManyInsertExpressions => QueryErrorV::TooManyInsertExpressions,
            QueryError::FeatureNotSupported(s) => QueryErrorV::FeatureNotSupported(s@),
        }
    }
}

/// The result sink: the ordered list of everything reported so far.
pub type Sink = Vec<Result<QueryEvent, QueryError>>;

/// The ghost image of the sink's contents.
pub open spec fn sink_view(s: Seq<Result<QueryEvent, QueryError>>) -> Seq<
    Result<QueryEventV, QueryErrorV>,
> {
    s.map_values(
        |r: Result<QueryEvent, QueryError>|
            match r {
                Ok(e) => Ok::<QueryEventV, QueryErrorV>(e@),
                Err(e) => Err::<QueryEventV, QueryErrorV>(e@),
            },
    )
}

/// Appends one report to the sink. Delivery always succeeds here: the
/// sink is an in-memory list.
pub fn send(sink: &mut Sink, item: Result<QueryEvent, QueryError>)
    ensures
        sink_view(final (sink)@) == sink_view(old(sink)@).push(
            match item {
                Ok(e) => Ok::<QueryEventV, QueryErrorV>(e@),
                Err(e) => Err::<QueryEventV, QueryErrorV>(e@),
            },
        ),
{
    let ghost it = match item {
        Ok(ref e) => Ok::<QueryEventV, QueryErrorV>(e@),
        Err(ref e) => Err::<QueryEventV, QueryErrorV>(e@),
    };
    sink.push(item);
    proof {
        assert(sink_view(sink@) =~= sink_view(old(sink)@).push(it));
    }
}

} // verus!
