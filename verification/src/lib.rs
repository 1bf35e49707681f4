//! Planning and execution core of a small relational database.
//!
//! The library turns parsed SQL statement fragments into catalog-bound
//! plans, validates values against declared column types, encodes rows
//! into a binary format, and executes the plans against an in-memory
//! key-value catalog, reporting outcomes as query events.

pub mod names;
pub mod plan;
pub mod planner;
pub mod relation;
pub mod types;
pub mod datum;
pub mod ast;
pub mod catalog;
pub mod engine;
pub mod eval;
pub mod events;
