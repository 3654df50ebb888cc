//! The index scan: decodes each index key into its component datums,
//! reconstructs the handle from the key tail or the value bytes, and
//! yields scanned rows under the index's synthetic column ids.

use vstd::prelude::*;

use crate::codec::{datum_dec, datum_enc, enc_datums, encode_datum, decode_datum};
use crate::datum::{views_of, Datum, DatumV};
use crate::executor::{row_shape_ok, Executor, OriginColsV, Row, RowV};
use crate::executor::ScanExecutor;
use crate::schema::{ColumnInfo, EvalWarnings, ExecutorMetrics, KeyRange};
use crate::storage::MemStore;
use crate::table::{pairs_map, RowColsDict};
use crate::Error;

use std::sync::Arc;

verus! {

/// Second byte of the index separator: `i`.
pub const INDEX_SEP_1: u8 = 105;

/// The key of one index entry: prefix, sign-flipped big-endian table id,
/// index separator, sign-flipped big-endian index id, the indexed datums
/// in wire form, and — for a non-unique index — the handle as a trailing
/// signed-integer datum.
pub open spec fn index_key_prefix(table_id: i64, index_id: i64) -> Seq<u8> {
    seq![crate::table::TABLE_PREFIX] + crate::codec::enc_u64(crate::codec::i64_to_cmp(table_id))
        + seq![crate::table::RECORD_SEP_0, INDEX_SEP_1] + crate::codec::enc_u64(
        crate::codec::i64_to_cmp(index_id),
    )
}

/// Splitting the indexed datums out of a key: from `pos`, one wire-form
/// datum per remaining column, each paired with its column's id; yields
/// the pairs and the position just past them.
pub open spec fn split_cols(key: Seq<u8>, pos: int, cols: Seq<ColumnInfo>, idx: int) -> Option<
    (Seq<(i64, Seq<u8>)>, int),
>
    decreases cols.len() - idx,
{
    if idx < 0 || idx >= cols.len() {
        Some((Seq::empty(), pos))
    } else if !(0 <= pos <= key.len()) {
        None
    } else {
        match datum_dec(key.skip(pos)) {
            Option::None => None,
            Option::Some((_d, n)) => if 1 <= n <= key.len() - pos {
                match split_cols(key, pos + n, cols, idx + 1) {
                    Option::None => None,
                    Option::Some((rest, end)) => Some(
                        (seq![(cols[idx].column_id, key.subrange(pos, pos + n))] + rest, end),
                    ),
                }
            } else {
                None
            },
        }
    }
}

/// What one index entry decodes to: the column dictionary and the handle,
/// read from the key tail for a non-unique index and from the value bytes
/// for a unique one.
pub open spec fn index_entry_dec(
    key: Seq<u8>,
    value: Seq<u8>,
    cols: Seq<ColumnInfo>,
    unique: bool,
) -> Option<(Seq<(i64, Seq<u8>)>, i64)> {
    if key.len() < 19 {
        None
    } else {
        match split_cols(key, 19, cols, 0) {
            Option::None => None,
            Option::Some((ps, end)) => {
                let tail = if unique {
                    value
                } else {
                    key.skip(end)
                };
                match datum_dec(tail) {
                    Option::Some((DatumV::I64(h), _n)) => Some((ps, h)),
                    _ => None,
                }
            },
        }
    }
}

/// The decoded rows of a raw index pair stream: decoding stops at the
/// first malformed entry.
pub open spec fn index_rows(
    kvs: Seq<(Seq<u8>, Seq<u8>)>,
    cols: Seq<ColumnInfo>,
    unique: bool,
) -> Seq<RowV>
    decreases kvs.len(),
{
    if kvs.len() == 0 {
        Seq::empty()
    } else {
        match index_entry_dec(kvs[0].0, kvs[0].1, cols, unique) {
            Option::None => Seq::empty(),
            Option::Some((ps, h)) => seq![
                RowV::Origin(OriginColsV { handle: h, data: pairs_map(ps), cols }),
            ] + index_rows(kvs.skip(1), cols, unique),
        }
    }
}

/// Every decoded index row is a scanned row carrying the index schema.
pub proof fn lemma_index_rows_shape(kvs: Seq<(Seq<u8>, Seq<u8>)>, cols: Seq<ColumnInfo>,
    unique: bool)
    ensures
        forall|i: int|
            0 <= i < index_rows(kvs, cols, unique).len() ==> ((#[trigger] index_rows(
                kvs,
                cols,
                unique,
            )[i]) matches RowV::Origin(o) && o.cols == cols),
    decreases kvs.len(),
{
    if kvs.len() > 0 && index_entry_dec(kvs[0].0, kvs[0].1, cols, unique) is Some {
        lemma_index_rows_shape(kvs.skip(1), cols, unique);
        let whole = index_rows(kvs, cols, unique);
        let rest = index_rows(kvs.skip(1), cols, unique);
        assert forall|i: int| 0 <= i < whole.len() implies ((#[trigger] whole[i])
            matches RowV::Origin(o) && o.cols == cols) by {
            if i > 0 {
                assert(whole[i] == rest[i - 1]);
            }
        }
    }
}

/// Builds the key of one index entry; the handle tail is present exactly
/// for non-unique indexes.
pub fn encode_index_key(table_id: i64, index_id: i64, values: &Vec<Datum>, handle: Option<i64>)
    -> (r: Vec<u8>)
    ensures
        r@ =~= index_key_prefix(table_id, index_id) + enc_datums(views_of(values@)) + (match handle {
            Some(h) => datum_enc(DatumV::I64(h)),
            None => Seq::<u8>::empty(),
        }),
{
    let mut out: Vec<u8> = Vec::new();
    out.push(crate::table::TABLE_PREFIX);
    crate::codec::push_u64_be(&mut out, crate::codec::i64_to_cmp_ex(table_id));
    out.push(crate::table::RECORD_SEP_0);
    out.push(INDEX_SEP_1);
    crate::codec::push_u64_be(&mut out, crate::codec::i64_to_cmp_ex(index_id));
    proof {
        assert(out@ =~= index_key_prefix(table_id, index_id));
    }
    let mut i: usize = 0;
    let ghost pre = out@;
    while i < values.len()
        invariant
            i <= values@.len(),
            pre =~= index_key_prefix(table_id, index_id),
            out@ =~= pre + enc_datums(views_of(values@).take(i as int)),
        decreases values@.len() - i,
    {
        encode_datum(&mut out, &values[i]);
        proof {
            let vs = views_of(values@);
            assert(vs.take(i + 1 as int) =~= vs.take(i as int).push(vs[i as int]));
            crate::codec::lemma_enc_datums_push(vs.take(i as int), vs[i as int]);
            assert(vs[i as int] == values@[i as int]@);
        }
        i = i + 1;
    }
    proof {
        assert(views_of(values@).take(values@.len() as int) =~= views_of(values@));
    }
    match handle {
        Some(h) => {
            encode_datum(&mut out, &Datum::I64(h));
        },
        None => {},
    }
    out
}

/// Scans index entries out of the snapshot: each emitted row carries the
/// reconstructed handle and the indexed columns under the index schema's
/// column ids.
pub struct IndexScanExecutor {
    pub scan: ScanExecutor,
    pub cols: Arc<Vec<ColumnInfo>>,
    pub unique: bool,
    pub metrics: ExecutorMetrics,
}

impl IndexScanExecutor {
    /// Builds an index scan over `key_ranges`; for a non-unique index the
    /// handle sits in the key tail and values are not read.
    pub fn index_scan(cols: Vec<ColumnInfo>, key_ranges: Vec<KeyRange>, store: MemStore,
        desc: bool, unique: bool) -> (r: IndexScanExecutor)
        requires
            store.wf(),
        ensures
            r.wf(),
            (*r.cols)@ == cols@,
            r.unique == unique,
            r.pending() =~= index_rows(
                crate::executor::scan::ranges_rows(
                    store.kv_view(),
                    if desc {
                        key_ranges@.reverse()
                    } else {
                        key_ranges@
                    },
                    0,
                    desc,
                    false,
                ),
                cols@,
                unique,
            ),
    {
        let scan = ScanExecutor::new(store, key_ranges, desc, false);
        IndexScanExecutor { scan, cols: Arc::new(cols), unique, metrics: ExecutorMetrics::new() }
    }

    /// Decodes one raw pair into the dictionary and handle; fails with
    /// `Codec` exactly when the entry is malformed.
    fn decode_entry(&self, key: &Vec<u8>, value: &Vec<u8>) -> (r: Result<(RowColsDict, i64), Error>)
        ensures
            match r {
                Ok(p) => index_entry_dec(key@, value@, (*self.cols)@, self.unique) matches Some(q)
                    && p.0.pairs_view() =~= q.0 && p.1 == q.1,
                Err(e) => e == Error::Codec && index_entry_dec(
                    key@,
                    value@,
                    (*self.cols)@,
                    self.unique,
                ) is None,
            },
    {
        if key.len() < 19 {
            return Err(Error::Codec);
        }
        let mut pairs: Vec<(i64, Vec<u8>)> = Vec::new();
        let mut pos: usize = 19;
        let mut idx: usize = 0;
        let n = self.cols.len();
        let klen = key.len();
        proof {
            assert(key@.len() == klen as int);
        }
        while idx < n
            invariant
                19 <= pos <= key@.len(),
                key@.len() <= usize::MAX,
                idx <= n,
                n == (*self.cols)@.len(),
                match split_cols(key@, pos as int, (*self.cols)@, idx as int) {
                    Option::Some(t) => split_cols(key@, 19, (*self.cols)@, 0) matches Some(w)
                        && w.0 =~= pairs@.map_values(|p: (i64, Vec<u8>)| (p.0, p.1@)) + t.0
                        && w.1 == t.1,
                    Option::None => split_cols(key@, 19, (*self.cols)@, 0) is None,
                },
            decreases n - idx,
        {
            let dr = decode_datum(key.as_slice(), pos);
            match dr {
                Err(_) => {
                    return Err(Error::Codec);
                },
                Ok((_d, pos2)) => {
                    let mut b: Vec<u8> = Vec::new();
                    let mut j: usize = pos;
                    while j < pos2
                        invariant
                            pos <= j <= pos2,
                            pos2 <= key@.len(),
                            key@.len() <= usize::MAX,
                            b@ =~= key@.subrange(pos as int, j as int),
                        decreases pos2 - j,
                    {
                        b.push(key[j]);
                        proof {
                            assert(key@.subrange(pos as int, j + 1 as int) =~= key@.subrange(
                                pos as int,
                                j as int,
                            ).push(key@[j as int]));
                        }
                        j = j + 1;
                    }
                    let cid = self.cols[idx].column_id;
                    let ghost oldpairs = pairs@;
                    pairs.push((cid, b));
                    proof {
                        let f = |p: (i64, Vec<u8>)| (p.0, p.1@);
                        assert(pairs@.map_values(f) =~= oldpairs.map_values(f).push(
                            (cid, key@.subrange(pos as int, pos2 as int)),
                        ));
                        assert(cid == (*self.cols)@[idx as int].column_id);
                        match split_cols(key@, pos2 as int, (*self.cols)@, idx + 1) {
                            Option::Some(t) => {
                                assert(split_cols(key@, pos as int, (*self.cols)@, idx as int)
                                    matches Some(u) && u.0 =~= seq![
                                    (cid, key@.subrange(pos as int, pos2 as int)),
                                ] + t.0 && u.1 == t.1);
                                let w0 = oldpairs.map_values(f);
                                assert(w0 + (seq![(cid, key@.subrange(pos as int, pos2 as int))]
                                    + t.0) =~= w0.push(
                                    (cid, key@.subrange(pos as int, pos2 as int)),
                                ) + t.0);
                            },
                            Option::None => {
                                assert(split_cols(key@, pos as int, (*self.cols)@, idx as int)
                                    is None);
                            },
                        }
                    }
                    pos = pos2;
                    idx = idx + 1;
                },
            }
        }
        proof {
            assert(split_cols(key@, pos as int, (*self.cols)@, idx as int) == Some(
                (Seq::<(i64, Seq<u8>)>::empty(), pos as int),
            ));
            let w0 = pairs@.map_values(|p: (i64, Vec<u8>)| (p.0, p.1@));
            assert(w0 + Seq::<(i64, Seq<u8>)>::empty() =~= w0);
        }
        let hr = if self.unique {
            proof {
                assert(value@.skip(0) =~= value@);
            }
            decode_datum(value.as_slice(), 0)
        } else {
            decode_datum(key.as_slice(), pos)
        };
        proof {
            if !self.unique {
                assert(key@.skip(pos as int) =~= key@.skip(pos as int));
            }
        }
        match hr {
            Ok((Datum::I64(h), _)) => Ok((RowColsDict { pairs }, h)),
            Ok(_) => Err(Error::Codec),
            Err(_) => Err(Error::Codec),
        }
    }
}

impl Executor for IndexScanExecutor {
    open spec fn wf(&self) -> bool {
        self.scan.wf()
    }

    open spec fn pending(&self) -> Seq<RowV> {
        index_rows(self.scan.kv_pending(), (*self.cols)@, self.unique)
    }

    open spec fn schema_len(&self) -> nat {
        (*self.cols)@.len()
    }

    proof fn pending_rows_ok(&self) {
        lemma_index_rows_shape(self.scan.kv_pending(), (*self.cols)@, self.unique);
    }

    fn next(&mut self) -> (r: Result<Option<Row>, Error>)
        ensures
            r is Err ==> r->Err_0 == Error::Codec && old(self).scan.kv_pending().len() > 0
                && index_entry_dec(
                old(self).scan.kv_pending()[0].0,
                old(self).scan.kv_pending()[0].1,
                (*old(self).cols)@,
                old(self).unique,
            ) is None,
    {
        let nxt = self.scan.next_kv();
        match nxt {
            Err(e) => Err(e),
            Ok(None) => Ok(None),
            Ok(Some((key, value))) => {
                let (dict, handle) = match self.decode_entry(&key, &value) {
                    Err(e) => {
                        return Err(e);
                    },
                    Ok(p) => p,
                };
                if self.metrics.scanned_rows < u64::MAX {
                    self.metrics.scanned_rows = self.metrics.scanned_rows + 1;
                }
                if self.metrics.produced_rows < u64::MAX {
                    self.metrics.produced_rows = self.metrics.produced_rows + 1;
                }
                let row = Row::origin(handle, dict, self.cols.clone());
                proof {
                    let oldkv = old(self).scan.kv_pending();
                    assert(oldkv[0] == (key@, value@));
                    assert(old(self).pending() =~= seq![row@] + index_rows(
                        oldkv.skip(1),
                        (*self.cols)@,
                        self.unique,
                    ));
                    assert(old(self).pending()[0] == row@);
                    assert(old(self).pending().skip(1) =~= index_rows(
                        oldkv.skip(1),
                        (*self.cols)@,
                        self.unique,
                    ));
                }
                Ok(Some(row))
            },
        }
    }

    fn collect_output_counts(&mut self, counts: &mut Vec<i64>)
        ensures
            final(counts)@ =~= old(counts)@ + old(self).scan.counts@.push(
                old(self).scan.current_count,
            ),
            final(self).scan.counts@.len() == 0 && final(self).scan.current_count == 0,
    {
        self.scan.collect_counts(counts);
    }

    fn collect_metrics_into(&mut self, metrics: &mut ExecutorMetrics) {
        metrics.merge(&self.metrics);
        self.metrics.scanned_rows = 0;
        self.metrics.produced_rows = 0;
    }

    fn get_len_of_columns(&self) -> (r: usize) {
        self.cols.len()
    }

    fn take_eval_warnings(&mut self) -> (r: Option<EvalWarnings>)
        ensures
            r is None,
    {
        None
    }

    fn start_scan(&mut self)
        ensures
            final(self).scan.started,
    {
        self.scan.start();
    }

    /// Reports the range consumed so far, as the table scan does.
    fn stop_scan(&mut self) -> (r: Option<KeyRange>)
        ensures
            r is Some <==> old(self).scan.started,
    {
        if !self.scan.started {
            return None;
        }
        let start = if self.scan.key_ranges.len() > 0 {
            crate::executor::copy_bytes(&self.scan.key_ranges[0].start)
        } else {
            Vec::new()
        };
        let end = if self.scan.emitted_any {
            crate::executor::copy_bytes(&self.scan.last_key)
        } else {
            crate::executor::copy_bytes(&start)
        };
        Some(KeyRange { start, end })
    }
}

} // verus!
