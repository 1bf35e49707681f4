//! Catalog-bound plans: the intermediate form between planning and
//! execution. A plan never holds an unresolved name.

use vstd::prelude::*;

use crate::ast::Expr;
use crate::catalog::{ColumnDefinition, SchemaId, TableId};
use crate::names::SchemaName;
use crate::relation::RelationOp;

verus! {

/// What a CREATE SCHEMA statement resolved to.
#[derive(Debug)]
pub struct SchemaCreationInfo {
    pub schema_name: String,
}

/// What a CREATE TABLE statement resolved to.
#[derive(Debug)]
pub struct TableCreationInfo {
    pub schema_id: SchemaId,
    pub table_name: String,
    pub columns: Vec<ColumnDefinition>,
}

/// What an INSERT statement resolved to: the target table, the
/// optional explicit target-column names, and the value-expression
/// matrix.
#[derive(Debug)]
pub struct TableInserts {
    pub table_id: TableId,
    pub column_indices: Vec<String>,
    pub input: Vec<Vec<Expr>>,
}

/// A statement bound to catalog identifiers, ready for execution.
#[derive(Debug)]
pub enum Plan {
    CreateSchema(SchemaCreationInfo),
    CreateTable(TableCreationInfo),
    /// Schemas to drop, each with its name (for error reports) and its
    /// cascade flag.
    DropSchemas(Vec<(SchemaId, SchemaName, bool)>),
    Insert(TableInserts),
    Delete(TableId),
    Select(RelationOp),
}

} // verus!
