//! An in-memory, read-optimized columnar query engine for time-series data.
//!
//! Data enters as immutable chunks, each holding one table per measurement.
//! A store maps database names to databases; a database routes selection,
//! aggregation and schema queries to the chunks whose time range overlaps
//! the query's half-open interval `[from, to)`, and merges the per-chunk
//! partial results.

use vstd::prelude::*;

pub mod agg;
pub mod chunk;
pub mod column;
pub mod database;
pub mod error;
pub mod order;
pub mod row_group;
pub mod scan;
pub mod schema;
pub mod store;
pub mod table;

use column::{Operator, Value};
use row_group::{is_time_gte, is_time_lt, Predicate};

verus! {

/// Generates the canonical predicate pair for the half-open time range
/// `[from, to)`: `time >= from` and `time < to`. Every time-scoped query
/// evaluates these like any other predicates: time is just another
/// column.
pub fn time_range_predicate(from: i64, to: i64) -> (r: Vec<Predicate>)
    ensures
        r@.len() == 2,
        is_time_gte(r@[0], from),
        is_time_lt(r@[1], to),
{
    let mut v: Vec<Predicate> = Vec::new();
    v.push(Predicate { column: "time".to_owned(), op: Operator::GTE, value: Value::I64(from) });
    v.push(Predicate { column: "time".to_owned(), op: Operator::LT, value: Value::I64(to) });
    v
}

} // verus!
