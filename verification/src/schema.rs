//! Column metadata, key ranges and the evaluation context.

use vstd::prelude::*;

verus! {

/// Type-flag bit: the column may not hold null.
pub const FLAG_NOT_NULL: u64 = 1;

/// Type-flag bit: the column holds an unsigned integer.
pub const FLAG_UNSIGNED: u64 = 32;

/// Immutable descriptor of one column: identifier, physical type tag,
/// type-flag bitmask, optional default value in wire form, and whether the
/// column is the row's integer handle.
#[derive(Debug)]
pub struct ColumnInfo {
    pub column_id: i64,
    pub tp: u8,
    pub flag: u64,
    pub pk_handle: bool,
    pub default_val: Option<Vec<u8>>,
}

impl ColumnInfo {
    /// Whether the column is declared `NOT_NULL`.
    pub open spec fn spec_not_null(&self) -> bool {
        self.flag & FLAG_NOT_NULL != 0
    }

    /// Whether the column holds an unsigned integer.
    pub open spec fn spec_unsigned(&self) -> bool {
        self.flag & FLAG_UNSIGNED != 0
    }

    pub fn is_not_null(&self) -> (r: bool)
        ensures
            r == self.spec_not_null(),
    {
        self.flag & FLAG_NOT_NULL != 0
    }

    pub fn is_unsigned(&self) -> (r: bool)
        ensures
            r == self.spec_unsigned(),
    {
        self.flag & FLAG_UNSIGNED != 0
    }

    pub fn get_column_id(&self) -> (r: i64)
        ensures
            r == self.column_id,
    {
        self.column_id
    }

    pub fn get_pk_handle(&self) -> (r: bool)
        ensures
            r == self.pk_handle,
    {
        self.pk_handle
    }
}

/// A half-open `[start, end)` interval of keys.
#[derive(Debug)]
pub struct KeyRange {
    pub start: Vec<u8>,
    pub end: Vec<u8>,
}

/// Warnings accumulated while evaluating expressions; they never abort a
/// row, only count against the session.
#[derive(Debug)]
pub struct EvalWarnings {
    pub warning_cnt: usize,
}

/// Session-level evaluation parameters and the warning sink.
#[derive(Debug)]
pub struct EvalContext {
    pub warnings: EvalWarnings,
}

impl EvalContext {
    pub fn new() -> (r: EvalContext)
        ensures
            r.warnings.warning_cnt == 0,
    {
        EvalContext { warnings: EvalWarnings { warning_cnt: 0 } }
    }

    /// Drains the warnings accumulated so far, if any.
    pub fn take_warnings(&mut self) -> (r: Option<EvalWarnings>)
        ensures
            final(self).warnings.warning_cnt == 0,
            match r {
                Some(w) => w.warning_cnt == old(self).warnings.warning_cnt && w.warning_cnt > 0,
                None => old(self).warnings.warning_cnt == 0,
            },
    {
        let cnt = self.warnings.warning_cnt;
        self.warnings.warning_cnt = 0;
        if cnt > 0 {
            Some(EvalWarnings { warning_cnt: cnt })
        } else {
            None
        }
    }
}

/// Counters an executor reports upward: rows scanned from storage and rows
/// produced to the caller.
#[derive(Debug)]
pub struct ExecutorMetrics {
    pub scanned_rows: u64,
    pub produced_rows: u64,
}

impl ExecutorMetrics {
    pub fn new() -> (r: ExecutorMetrics)
        ensures
            r.scanned_rows == 0 && r.produced_rows == 0,
    {
        ExecutorMetrics { scanned_rows: 0, produced_rows: 0 }
    }

    /// Folds `other` into `self`, saturating on overflow.
    pub fn merge(&mut self, other: &ExecutorMetrics)
        ensures
            final(self).scanned_rows == if old(self).scanned_rows + other.scanned_rows
                <= u64::MAX {
                old(self).scanned_rows + other.scanned_rows
            } else {
                u64::MAX as int
            },
            final(self).produced_rows == if old(self).produced_rows + other.produced_rows
                <= u64::MAX {
                old(self).produced_rows + other.produced_rows
            } else {
                u64::MAX as int
            },
    {
        self.scanned_rows = self.scanned_rows.saturating_add(other.scanned_rows);
        self.produced_rows = self.produced_rows.saturating_add(other.produced_rows);
    }
}

} // verus!
