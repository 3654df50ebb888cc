//! The table scan: decodes each raw pair under the table-row key schema
//! and yields scanned rows.

use vstd::prelude::*;

use crate::executor::{copy_bytes, row_shape_ok, Executor, OriginColsV, Row, RowV};
use crate::executor::ScanExecutor;
use crate::schema::{ColumnInfo, EvalWarnings, ExecutorMetrics, KeyRange};
use crate::storage::MemStore;
use crate::table::{
    decode_row, decode_row_key_handle, key_handle, pairs_map, row_dec, wf_row_key,
};
use crate::Error;

use std::sync::Arc;

verus! {

/// The decoded rows of a raw pair stream under schema `cols`: decoding
/// stops at the first pair whose key or value bytes are malformed.
pub open spec fn table_rows(kvs: Seq<(Seq<u8>, Seq<u8>)>, cols: Seq<ColumnInfo>) -> Seq<RowV>
    decreases kvs.len(),
{
    if kvs.len() == 0 {
        Seq::empty()
    } else if wf_row_key(kvs[0].0) && row_dec(kvs[0].1) is Some {
        seq![
            RowV::Origin(
                OriginColsV {
                    handle: key_handle(kvs[0].0),
                    data: pairs_map(row_dec(kvs[0].1).unwrap()),
                    cols,
                },
            ),
        ] + table_rows(kvs.skip(1), cols)
    } else {
        Seq::empty()
    }
}

/// Every decoded row is a scanned row carrying exactly the scan's schema.
pub proof fn lemma_table_rows_shape(kvs: Seq<(Seq<u8>, Seq<u8>)>, cols: Seq<ColumnInfo>)
    ensures
        forall|i: int|
            0 <= i < table_rows(kvs, cols).len() ==> ((#[trigger] table_rows(kvs, cols)[i])
                matches RowV::Origin(o) && o.cols == cols),
    decreases kvs.len(),
{
    if kvs.len() > 0 && wf_row_key(kvs[0].0) && row_dec(kvs[0].1) is Some {
        lemma_table_rows_shape(kvs.skip(1), cols);
        let whole = table_rows(kvs, cols);
        let rest = table_rows(kvs.skip(1), cols);
        assert forall|i: int| 0 <= i < whole.len() implies ((#[trigger] whole[i])
            matches RowV::Origin(o) && o.cols == cols) by {
            if i > 0 {
                assert(whole[i] == rest[i - 1]);
            }
        }
    }
}

/// Scans table rows out of the snapshot: each emitted row carries its
/// handle, its decoded column dictionary, and the shared schema.
pub struct TableScanExecutor {
    pub scan: ScanExecutor,
    pub cols: Arc<Vec<ColumnInfo>>,
    pub metrics: ExecutorMetrics,
}

impl TableScanExecutor {
    /// Builds a table scan over `key_ranges`; a descending scan emits rows
    /// in reverse key order.
    pub fn table_scan(cols: Vec<ColumnInfo>, key_ranges: Vec<KeyRange>, store: MemStore,
        desc: bool) -> (r: TableScanExecutor)
        requires
            store.wf(),
        ensures
            r.wf(),
            (*r.cols)@ == cols@,
            r.pending() =~= table_rows(
                crate::executor::scan::ranges_rows(
                    store.kv_view(),
                    if desc {
                        key_ranges@.reverse()
                    } else {
                        key_ranges@
                    },
                    0,
                    desc,
                    false,
                ),
                cols@,
            ),
    {
        let scan = ScanExecutor::new(store, key_ranges, desc, false);
        TableScanExecutor { scan, cols: Arc::new(cols), metrics: ExecutorMetrics::new() }
    }
}

impl Executor for TableScanExecutor {
    open spec fn wf(&self) -> bool {
        self.scan.wf()
    }

    open spec fn pending(&self) -> Seq<RowV> {
        table_rows(self.scan.kv_pending(), (*self.cols)@)
    }

    open spec fn schema_len(&self) -> nat {
        (*self.cols)@.len()
    }

    proof fn pending_rows_ok(&self) {
        lemma_table_rows_shape(self.scan.kv_pending(), (*self.cols)@);
    }

    fn next(&mut self) -> (r: Result<Option<Row>, Error>)
        ensures
            r is Err ==> r->Err_0 == Error::Codec && old(self).scan.kv_pending().len() > 0 && !(
            wf_row_key(old(self).scan.kv_pending()[0].0) && row_dec(
                old(self).scan.kv_pending()[0].1,
            ) is Some),
    {
        let nxt = self.scan.next_kv();
        match nxt {
            Err(e) => Err(e),
            Ok(None) => Ok(None),
            Ok(Some((key, value))) => {
                let handle = match decode_row_key_handle(key.as_slice()) {
                    Err(e) => {
                        return Err(e);
                    },
                    Ok(h) => h,
                };
                let dict = match decode_row(value.as_slice()) {
                    Err(e) => {
                        return Err(e);
                    },
                    Ok(d) => d,
                };
                if self.metrics.scanned_rows < u64::MAX {
                    self.metrics.scanned_rows = self.metrics.scanned_rows + 1;
                }
                if self.metrics.produced_rows < u64::MAX {
                    self.metrics.produced_rows = self.metrics.produced_rows + 1;
                }
                let row = Row::origin(handle, dict, self.cols.clone());
                proof {
                    let oldkv = old(self).scan.kv_pending();
                    assert(oldkv[0] == (key@, value@));
                    assert(old(self).pending() =~= seq![row@] + table_rows(
                        oldkv.skip(1),
                        (*self.cols)@,
                    ));
                    assert(old(self).pending()[0] == row@);
                    assert(old(self).pending().skip(1) =~= table_rows(
                        oldkv.skip(1),
                        (*self.cols)@,
                    ));
                }
                Ok(Some(row))
            },
        }
    }

    fn collect_output_counts(&mut self, counts: &mut Vec<i64>)
        ensures
            final(counts)@ =~= old(counts)@ + old(self).scan.counts@.push(
                old(self).scan.current_count,
            ),
            final(self).scan.counts@.len() == 0 && final(self).scan.current_count == 0,
    {
        self.scan.collect_counts(counts);
    }

    fn collect_metrics_into(&mut self, metrics: &mut ExecutorMetrics)
        ensures
            final(self).metrics.scanned_rows == 0 && final(self).metrics.produced_rows == 0,
            final(metrics).scanned_rows == if old(metrics).scanned_rows + old(
                self,
            ).metrics.scanned_rows <= u64::MAX {
                old(metrics).scanned_rows + old(self).metrics.scanned_rows
            } else {
                u64::MAX as int
            },
            final(metrics).produced_rows == if old(metrics).produced_rows + old(
                self,
            ).metrics.produced_rows <= u64::MAX {
                old(metrics).produced_rows + old(self).metrics.produced_rows
            } else {
                u64::MAX as int
            },
    {
        metrics.merge(&self.metrics);
        self.metrics.scanned_rows = 0;
        self.metrics.produced_rows = 0;
    }

    fn get_len_of_columns(&self) -> (r: usize) {
        self.cols.len()
    }

    fn start_scan(&mut self)
        ensures
            final(self).scan.started,
    {
        self.scan.start();
    }

    fn take_eval_warnings(&mut self) -> (r: Option<EvalWarnings>)
        ensures
            r is None,
    {
        None
    }

    /// Reports the range consumed so far: from the first configured
    /// range's start to the last key handed out, or an empty interval
    /// when nothing was emitted yet.
    fn stop_scan(&mut self) -> (r: Option<KeyRange>)
        ensures
            r is Some <==> old(self).scan.started,
            match r {
                Some(kr) => kr.start@ == (if old(self).scan.key_ranges@.len() > 0 {
                    old(self).scan.key_ranges@[0].start@
                } else {
                    Seq::<u8>::empty()
                }) && kr.end@ == (if old(self).scan.emitted_any {
                    old(self).scan.last_key@
                } else if old(self).scan.key_ranges@.len() > 0 {
                    old(self).scan.key_ranges@[0].start@
                } else {
                    Seq::<u8>::empty()
                }),
                None => true,
            },
    {
        if !self.scan.started {
            return None;
        }
        let start = if self.scan.key_ranges.len() > 0 {
            copy_bytes(&self.scan.key_ranges[0].start)
        } else {
            Vec::new()
        };
        let end = if self.scan.emitted_any {
            copy_bytes(&self.scan.last_key)
        } else if self.scan.key_ranges.len() > 0 {
            copy_bytes(&self.scan.key_ranges[0].start)
        } else {
            Vec::new()
        };
        Some(KeyRange { start, end })
    }
}

} // verus!
