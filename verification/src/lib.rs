//! A miniature file-backed relational engine: typed schemas, dynamically
//! typed rows keyed by a primary-key value, point-in-time secondary indexes
//! with a total order across integer and decimal numeric keys, a small
//! SQL-like token grammar, a clause evaluator with an index-assisted cost
//! heuristic, and schema evolution with type coercion and default backfill.
//!
//! Persistence and the command-line surface live outside this crate; every
//! operation here takes an in-memory table snapshot and returns the new
//! snapshot (or an error), leaving the caller to store it.

pub mod num;
pub mod text;
pub mod value;
pub mod models;
pub mod select;
pub mod create;
pub mod insert;
pub mod delete;
pub mod update;
pub mod alter;
pub mod query;
pub mod laws;
