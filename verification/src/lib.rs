//! A pull-based, volcano-style query pipeline: a chain of executors (table
//! scan at the bottom, optional selection, aggregation, top-n and limit
//! stacked above) that reads encoded rows from a key-value snapshot, decodes
//! them, applies filters, aggregations and ordering, and emits a stream of
//! binary-encoded result rows.

use vstd::prelude::*;

pub mod codec;
pub mod datum;
pub mod executor;
pub mod expr;
pub mod schema;
pub mod spdk;
pub mod storage;
pub mod table;

verus! {

/// The error taxonomy of the pipeline.  Each variant names the layer that
/// failed; all of them are fatal to the query except `Eval` warnings, which
/// accumulate in the evaluation context instead of being raised.
#[derive(Debug, PartialEq, Eq, Structural, Clone, Copy)]
pub enum Error {
    /// The underlying snapshot failed.
    Storage,
    /// Malformed key or value bytes.
    Codec,
    /// A column offset referenced by an expression is out of range.
    OffsetOutOfRange,
    /// A `NOT_NULL` column has no stored value and no default.
    MissingColumn { column_id: i64, handle: i64 },
    /// The expression evaluator failed (overflow, type mismatch).
    Eval,
}

} // verus!
