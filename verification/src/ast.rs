//! Parsed statement fragments as the planner consumes them.
//!
//! An external parser turns SQL text into these shapes; the core never
//! tokenizes text itself. Identifiers arrive as dot-separated parts,
//! literals as their written text.

use vstd::prelude::*;

use crate::catalog::ColumnDefinition;
use crate::names::ObjectName;

verus! {

/// A literal as the parser hands it over: the written text of a number
/// or a quoted string, or the NULL keyword.
#[derive(Debug)]
pub enum Literal {
    Number(String),
    Text(String),
    Null,
}

/// The ghost image of a [`Literal`].
pub enum LiteralV {
    Number(Seq<char>),
    Text(Seq<char>),
    Null,
}

impl View for Literal {
    type V = LiteralV;

    open spec fn view(&self) -> LiteralV {
        match self {
            Literal::Number(s) => LiteralV::Number(s@),
            Literal::Text(s) => LiteralV::Text(s@),
            Literal::Null => LiteralV::Null,
        }
    }
}

impl Clone for Literal {
    fn clone(&self) -> (r: Self)
        ensures
            r@ == self@,
    {
        match self {
            Literal::Number(s) => Literal::Number(s.clone()),
            Literal::Text(s) => Literal::Text(s.clone()),
            Literal::Null => Literal::Null,
        }
    }
}

/// A scalar expression in a statement. Everything beyond a literal or
/// a column reference arrives as `Unsupported`: the core refuses it
/// rather than degrade silently.
#[derive(Debug)]
pub enum Expr {
    Literal(Literal),
    Column(String),
    Unsupported,
}

/// The ghost image of an [`Expr`].
pub enum ExprV {
    Literal(LiteralV),
    Column(Seq<char>),
    Unsupported,
}

impl View for Expr {
    type V = ExprV;

    open spec fn view(&self) -> ExprV {
        match self {
            Expr::Literal(v) => ExprV::Literal(v@),
            Expr::Column(s) => ExprV::Column(s@),
            Expr::Unsupported => ExprV::Unsupported,
        }
    }
}

impl Clone for Expr {
    fn clone(&self) -> (r: Self)
        ensures
            r@ == self@,
    {
        match self {
            Expr::Literal(v) => Expr::Literal(v.clone()),
            Expr::Column(s) => Expr::Column(s.clone()),
            Expr::Unsupported => Expr::Unsupported,
        }
    }
}

/// One item of a SELECT list.
#[derive(Debug)]
pub enum SelectItem {
    /// `*`: every column, in table order.
    Wildcard,
    /// A column picked by name.
    Column(String),
}

/// One parsed statement fragment.
#[derive(Debug)]
pub enum Statement {
    CreateSchema { name: ObjectName },
    CreateTable { name: ObjectName, columns: Vec<ColumnDefinition> },
    DropSchemas { names: Vec<ObjectName>, cascade: bool },
    Insert { name: ObjectName, columns: Vec<String>, source: Vec<Vec<Expr>> },
    Delete { name: ObjectName },
    Select { name: ObjectName, projection: Vec<SelectItem> },
}

} // verus!
