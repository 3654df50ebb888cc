//! The executor pipeline: the row model shared by all operators, and the
//! pull-based `Executor` contract they implement.

use vstd::prelude::*;

use crate::codec::{datum_dec, datum_enc, enc_datums, encode_datum, encode_values, decode_datum};
use crate::datum::{views_of, Datum, DatumV};
use crate::schema::{ColumnInfo, EvalWarnings, ExecutorMetrics, KeyRange};
use crate::table::{get_pk, pk_datum, RowColsDict};
use crate::Error;

use std::sync::Arc;

pub mod aggregation;
pub mod index_scan;
pub mod limit;
pub mod scan;
pub mod selection;
pub mod table_scan;
pub mod topn;

pub use self::aggregation::AggExpr;
pub use self::aggregation::AggFuncKind;
pub use self::aggregation::AggState;
pub use self::aggregation::HashAggExecutor;
pub use self::aggregation::StreamAggExecutor;
pub use self::index_scan::IndexScanExecutor;
pub use self::limit::LimitExecutor;
pub use self::scan::ScanExecutor;
pub use self::selection::SelectionExecutor;
pub use self::table_scan::TableScanExecutor;
pub use self::topn::TopNExecutor;


verus! {

/// A scanned row: handle, decoded byte body, and the shared column schema.
#[derive(Debug)]
pub struct OriginCols {
    pub handle: i64,
    pub data: RowColsDict,
    pub cols: Arc<Vec<ColumnInfo>>,
}

/// Row generated by aggregation: the finalized aggregate values and a
/// suffix holding the encoded group key.
#[derive(Debug)]
pub struct AggCols {
    pub suffix: Vec<u8>,
    pub value: Vec<Datum>,
}

/// The mathematical model of a scanned row.
pub struct OriginColsV {
    pub handle: i64,
    pub data: Map<i64, Seq<u8>>,
    pub cols: Seq<ColumnInfo>,
}

/// The mathematical model of an aggregated row.
pub struct AggColsV {
    pub value: Seq<DatumV>,
    pub suffix: Seq<u8>,
}

/// The mathematical model of a row.
pub enum RowV {
    Origin(OriginColsV),
    Agg(AggColsV),
}

impl View for OriginCols {
    type V = OriginColsV;

    open spec fn view(&self) -> OriginColsV {
        OriginColsV { handle: self.handle, data: self.data.map_view(), cols: (*self.cols)@ }
    }
}

impl View for AggCols {
    type V = AggColsV;

    open spec fn view(&self) -> AggColsV {
        AggColsV { value: views_of(self.value@), suffix: self.suffix@ }
    }
}

/// A tagged row: either scanned from storage or produced by aggregation.
#[derive(Debug)]
pub enum Row {
    Origin(OriginCols),
    Agg(AggCols),
}

impl View for Row {
    type V = RowV;

    open spec fn view(&self) -> RowV {
        match self {
            Row::Origin(o) => RowV::Origin(o@),
            Row::Agg(a) => RowV::Agg(a@),
        }
    }
}

/// The wire form one column contributes to a full-row encoding, trying the
/// handle first: handle columns encode the handle datum; stored columns copy
/// their bytes; missing columns fall back to the default value, fail if
/// `NOT_NULL`, and encode null otherwise.
pub open spec fn col_binary_pk_first(col: ColumnInfo, handle: i64, data: Map<i64, Seq<u8>>) -> Result<
    Seq<u8>,
    Error,
> {
    if col.pk_handle {
        Ok(datum_enc(pk_datum(col, handle)))
    } else if data.contains_key(col.column_id) {
        Ok(data[col.column_id])
    } else if col.default_val is Some {
        Ok(col.default_val.unwrap()@)
    } else if col.spec_not_null() {
        Err(Error::MissingColumn { column_id: col.column_id, handle })
    } else {
        Ok(datum_enc(DatumV::Null))
    }
}

/// The per-column wire forms of a whole row, in schema order; the first
/// missing `NOT_NULL` column aborts.
pub open spec fn cols_binary(cols: Seq<ColumnInfo>, handle: i64, data: Map<i64, Seq<u8>>) -> Result<
    Seq<Seq<u8>>,
    Error,
>
    decreases cols.len(),
{
    if cols.len() == 0 {
        Ok(Seq::empty())
    } else {
        match col_binary_pk_first(cols[0], handle, data) {
            Err(e) => Err(e),
            Ok(b) => match cols_binary(cols.skip(1), handle, data) {
                Err(e) => Err(e),
                Ok(rest) => Ok(seq![b] + rest),
            },
        }
    }
}

/// The concatenated wire form of the columns listed in `offsets`, in that
/// order, each under the same handle-first rules as the full-row encoding;
/// the first missing `NOT_NULL` column aborts.
pub open spec fn binary_concat(
    cols: Seq<ColumnInfo>,
    offsets: Seq<u32>,
    handle: i64,
    data: Map<i64, Seq<u8>>,
) -> Result<Seq<u8>, Error>
    recommends
        forall|i: int| 0 <= i < offsets.len() ==> (#[trigger] offsets[i]) < cols.len(),
    decreases offsets.len(),
{
    if offsets.len() == 0 {
        Ok(Seq::empty())
    } else {
        match col_binary_pk_first(cols[offsets[0] as int], handle, data) {
            Err(e) => Err(e),
            Ok(b) => match binary_concat(cols, offsets.skip(1), handle, data) {
                Err(e) => Err(e),
                Ok(rest) => Ok(b + rest),
            },
        }
    }
}

/// The datum a column inflates to: the handle datum for handle columns,
/// else the decoded stored bytes, the decoded default, a failure for a
/// missing `NOT_NULL` column, or null.
pub open spec fn col_datum(col: ColumnInfo, handle: i64, data: Map<i64, Seq<u8>>) -> Result<
    DatumV,
    Error,
> {
    if col.pk_handle {
        Ok(pk_datum(col, handle))
    } else if data.contains_key(col.column_id) {
        match datum_dec(data[col.column_id]) {
            Option::Some(p) => Ok(p.0),
            Option::None => Err(Error::Codec),
        }
    } else if col.default_val is Some {
        match datum_dec(col.default_val.unwrap()@) {
            Option::Some(p) => Ok(p.0),
            Option::None => Err(Error::Codec),
        }
    } else if col.spec_not_null() {
        Err(Error::MissingColumn { column_id: col.column_id, handle })
    } else {
        Ok(DatumV::Null)
    }
}

/// The inflated row: a datum vector of schema length, null everywhere but
/// at the listed offsets, which hold their column's datum.
pub open spec fn inflate_spec(
    cols: Seq<ColumnInfo>,
    offsets: Seq<usize>,
    handle: i64,
    data: Map<i64, Seq<u8>>,
) -> Result<Seq<DatumV>, Error>
    recommends
        forall|i: int| 0 <= i < offsets.len() ==> (#[trigger] offsets[i]) < cols.len(),
    decreases offsets.len(),
{
    if offsets.len() == 0 {
        Ok(Seq::new(cols.len(), |i: int| DatumV::Null))
    } else {
        match inflate_spec(cols, offsets.drop_last(), handle, data) {
            Err(e) => Err(e),
            Ok(s) => match col_datum(cols[offsets.last() as int], handle, data) {
                Err(e) => Err(e),
                Ok(d) => Ok(s.update(offsets.last() as int, d)),
            },
        }
    }
}

/// Round trip: decoding the bytes a column contributes to an encoded row
/// yields exactly the datum the column inflates to, with missing nullable
/// columns reading back as null and defaults substituted.
pub proof fn lemma_col_binary_round_trip(col: ColumnInfo, handle: i64, data: Map<i64, Seq<u8>>)
    requires
        col_binary_pk_first(col, handle, data) matches Ok(b) && datum_dec(b) is Some,
    ensures
        col_datum(col, handle, data) == Ok::<DatumV, Error>(
            datum_dec(col_binary_pk_first(col, handle, data)->Ok_0).unwrap().0,
        ),
{
    let b = col_binary_pk_first(col, handle, data)->Ok_0;
    if col.pk_handle {
        crate::codec::lemma_datum_round_trip(pk_datum(col, handle), Seq::empty());
        assert(datum_enc(pk_datum(col, handle)) + Seq::<u8>::empty() =~= b);
    } else if data.contains_key(col.column_id) {
    } else if col.default_val is Some {
    } else {
        crate::codec::lemma_datum_round_trip(DatumV::Null, Seq::empty());
        assert(datum_enc(DatumV::Null) + Seq::<u8>::empty() =~= b);
    }
}

/// A successful full-row encoding has one byte string per column, each
/// governed by the per-column rules.
pub proof fn lemma_cols_binary_index(cols: Seq<ColumnInfo>, handle: i64, data: Map<i64, Seq<u8>>)
    ensures
        cols_binary(cols, handle, data) matches Ok(v) ==> v.len() == cols.len() && forall|i: int|
            0 <= i < cols.len() ==> col_binary_pk_first(#[trigger] cols[i], handle, data) == Ok::<
                Seq<u8>,
                Error,
            >(v[i]),
    decreases cols.len(),
{
    if cols.len() > 0 {
        lemma_cols_binary_index(cols.skip(1), handle, data);
        match cols_binary(cols, handle, data) {
            Ok(v) => {
                let rest = cols_binary(cols.skip(1), handle, data).unwrap();
                assert forall|i: int| 0 <= i < cols.len() implies col_binary_pk_first(
                    #[trigger] cols[i],
                    handle,
                    data,
                ) == Ok::<Seq<u8>, Error>(v[i]) by {
                    if i > 0 {
                        assert(cols.skip(1)[i - 1] == cols[i]);
                        assert(v[i] == rest[i - 1]);
                    }
                }
            },
            Err(_) => {},
        }
    }
}

/// Whole-row round trip: when every per-column byte string of an encoded
/// row starts with a well-formed datum, decoding it reproduces exactly the
/// datum the column inflates to — the handle for handle columns, defaults
/// substituted, missing nullable columns read back as null.
pub proof fn lemma_row_binary_round_trip(cols: Seq<ColumnInfo>, handle: i64, data: Map<i64, Seq<u8>>)
    requires
        cols_binary(cols, handle, data) is Ok,
        forall|i: int|
            0 <= i < cols.len() ==> crate::codec::datum_dec(
                #[trigger] cols_binary(cols, handle, data)->Ok_0[i],
            ) is Some,
    ensures
        forall|i: int|
            0 <= i < cols.len() ==> col_datum(#[trigger] cols[i], handle, data) == Ok::<
                DatumV,
                Error,
            >(datum_dec(cols_binary(cols, handle, data)->Ok_0[i]).unwrap().0),
{
    lemma_cols_binary_index(cols, handle, data);
    assert forall|i: int| 0 <= i < cols.len() implies col_datum(#[trigger] cols[i], handle, data)
        == Ok::<DatumV, Error>(
        datum_dec(cols_binary(cols, handle, data)->Ok_0[i]).unwrap().0,
    ) by {
        lemma_col_binary_round_trip(cols[i], handle, data);
    }
}

/// The wire form of a whole row: its per-variant encoding.
pub open spec fn row_binary(r: RowV, output_offsets: Seq<u32>) -> Result<Seq<u8>, Error> {
    match r {
        RowV::Origin(o) => binary_concat(o.cols, output_offsets, o.handle, o.data),
        RowV::Agg(a) => Ok(enc_datums(a.value) + a.suffix),
    }
}

impl AggCols {
    /// Emits the encoded value vector followed by the suffix bytes.
    pub fn get_binary(&self) -> (r: Result<Vec<u8>, Error>)
        ensures
            r matches Ok(v) && v@ =~= enc_datums(self@.value) + self@.suffix,
    {
        let mut out = encode_values(&self.value);
        let mut i: usize = 0;
        let ghost mid = out@;
        while i < self.suffix.len()
            invariant
                i <= self.suffix@.len(),
                out@ =~= mid + self.suffix@.take(i as int),
            decreases self.suffix@.len() - i,
        {
            out.push(self.suffix[i]);
            proof {
                assert(self.suffix@.take(i + 1 as int) =~= self.suffix@.take(i as int).push(
                    self.suffix@[i as int],
                ));
            }
            i = i + 1;
        }
        proof {
            assert(self.suffix@.take(self.suffix@.len() as int) =~= self.suffix@);
        }
        Ok(out)
    }
}

impl OriginCols {
    pub fn new(handle: i64, data: RowColsDict, cols: Arc<Vec<ColumnInfo>>) -> (r: OriginCols)
        ensures
            r@ == (OriginColsV { handle, data: data.map_view(), cols: (*cols)@ }),
    {
        OriginCols { handle, data, cols }
    }

    /// The wire form of each column in schema order.  Fails with
    /// `MissingColumn` exactly on the first `NOT_NULL` column that has
    /// neither stored bytes nor a default.
    pub fn get_binary_cols(&self) -> (r: Result<Vec<Vec<u8>>, Error>)
        ensures
            match r {
                Ok(v) => cols_binary(self@.cols, self@.handle, self@.data) matches Ok(s) && s
                    =~= v@.map_values(|x: Vec<u8>| x@),
                Err(e) => cols_binary(self@.cols, self@.handle, self@.data) == Err::<
                    Seq<Seq<u8>>,
                    Error,
                >(e),
            },
    {
        let mut res: Vec<Vec<u8>> = Vec::new();
        let mut i: usize = 0;
        while i < self.cols.len()
            invariant
                i <= (*self.cols)@.len(),
                cols_binary((*self.cols)@.take(i as int), self@.handle, self@.data) matches Ok(s)
                    && s =~= res@.map_values(|x: Vec<u8>| x@),
            decreases (*self.cols)@.len() - i,
        {
            let col = &self.cols[i];
            proof {
                assert(*col == (*self.cols)@[i as int]);
            }
            let one = self.col_binary_value(col);
            match one {
                Err(e) => {
                    proof {
                        lemma_cols_binary_split((*self.cols)@, self@.handle, self@.data, i as int);
                    }
                    return Err(e);
                },
                Ok(b) => {
                    let ghost oldres = res@;
                    res.push(b);
                    proof {
                        let f = |x: Vec<u8>| x@;
                        assert(res@.map_values(f) =~= oldres.map_values(f).push(b@));
                        assert((*self.cols)@.take(i + 1 as int) =~= (*self.cols)@.take(
                            i as int,
                        ).push((*self.cols)@[i as int]));
                        lemma_cols_binary_push(
                            (*self.cols)@.take(i as int),
                            (*self.cols)@[i as int],
                            self@.handle,
                            self@.data,
                        );
                    }
                },
            }
            i = i + 1;
        }
        proof {
            assert((*self.cols)@.take((*self.cols)@.len() as int) =~= (*self.cols)@);
        }
        Ok(res)
    }

    /// One column's wire form under the handle-first rules.
    fn col_binary_value(&self, col: &ColumnInfo) -> (r: Result<Vec<u8>, Error>)
        ensures
            match r {
                Ok(v) => col_binary_pk_first(*col, self@.handle, self@.data) == Ok::<
                    Seq<u8>,
                    Error,
                >(v@),
                Err(e) => col_binary_pk_first(*col, self@.handle, self@.data) == Err::<
                    Seq<u8>,
                    Error,
                >(e),
            },
    {
        if col.get_pk_handle() {
            let v = get_pk(col, self.handle);
            let mut out: Vec<u8> = Vec::new();
            encode_datum(&mut out, &v);
            return Ok(out);
        }
        let col_id = col.get_column_id();
        match self.data.get(col_id) {
            Some(bs) => Ok(copy_bytes(bs)),
            None => {
                match &col.default_val {
                    Some(dv) => Ok(copy_bytes(dv)),
                    None => {
                        if col.is_not_null() {
                            Err(Error::MissingColumn { column_id: col_id, handle: self.handle })
                        } else {
                            let mut out: Vec<u8> = Vec::new();
                            encode_datum(&mut out, &Datum::Null);
                            Ok(out)
                        }
                    },
                }
            },
        }
    }

    /// The concatenated wire forms of the requested offsets, in order.
    pub fn get_binary(&self, output_offsets: &[u32]) -> (r: Result<Vec<u8>, Error>)
        requires
            forall|i: int|
                0 <= i < output_offsets@.len() ==> (#[trigger] output_offsets@[i])
                    < (*self.cols)@.len(),
        ensures
            match r {
                Ok(v) => binary_concat(self@.cols, output_offsets@, self@.handle, self@.data)
                    matches Ok(s) && s =~= v@,
                Err(e) => binary_concat(self@.cols, output_offsets@, self@.handle, self@.data)
                    == Err::<Seq<u8>, Error>(e),
            },
    {
        let mut values: Vec<u8> = Vec::new();
        let mut i: usize = 0;
        while i < output_offsets.len()
            invariant
                i <= output_offsets@.len(),
                forall|k: int|
                    0 <= k < output_offsets@.len() ==> (#[trigger] output_offsets@[k])
                        < (*self.cols)@.len(),
                binary_concat(self@.cols, output_offsets@.take(i as int), self@.handle, self@.data)
                    matches Ok(s) && s =~= values@,
            decreases output_offsets@.len() - i,
        {
            let off = output_offsets[i] as usize;
            let col = &self.cols[off];
            proof {
                assert(*col == (*self.cols)@[off as int]);
            }
            let one = self.col_binary_value(col);
            match one {
                Err(e) => {
                    proof {
                        lemma_binary_concat_split(
                            self@.cols,
                            output_offsets@,
                            self@.handle,
                            self@.data,
                            i as int,
                        );
                    }
                    return Err(e);
                },
                Ok(b) => {
                    let ghost oldvals = values@;
                    let mut k: usize = 0;
                    while k < b.len()
                        invariant
                            k <= b@.len(),
                            values@ =~= oldvals + b@.take(k as int),
                        decreases b@.len() - k,
                    {
                        values.push(b[k]);
                        proof {
                            assert(b@.take(k + 1 as int) =~= b@.take(k as int).push(
                                b@[k as int],
                            ));
                        }
                        k = k + 1;
                    }
                    proof {
                        assert(b@.take(b@.len() as int) =~= b@);
                        assert(output_offsets@.take(i + 1 as int) =~= output_offsets@.take(
                            i as int,
                        ).push(output_offsets@[i as int]));
                        lemma_binary_concat_push(
                            self@.cols,
                            output_offsets@.take(i as int),
                            output_offsets@[i as int],
                            self@.handle,
                            self@.data,
                        );
                    }
                },
            }
            i = i + 1;
        }
        proof {
            assert(output_offsets@.take(output_offsets@.len() as int) =~= output_offsets@);
        }
        Ok(values)
    }

    /// Inflates the listed columns to datums, leaving every other position
    /// null, so expressions can index the row by offset.
    pub fn inflate_cols_with_offsets(&self, offsets: &Vec<usize>) -> (r: Result<Vec<Datum>, Error>)
        requires
            forall|i: int|
                0 <= i < offsets@.len() ==> (#[trigger] offsets@[i]) < (*self.cols)@.len(),
        ensures
            match r {
                Ok(v) => inflate_spec(self@.cols, offsets@, self@.handle, self@.data) matches Ok(s)
                    && s =~= views_of(v@),
                Err(e) => inflate_spec(self@.cols, offsets@, self@.handle, self@.data) == Err::<
                    Seq<DatumV>,
                    Error,
                >(e),
            },
    {
        let mut res: Vec<Datum> = Vec::new();
        let mut k: usize = 0;
        let n = self.cols.len();
        while k < n
            invariant
                k <= n,
                n == (*self.cols)@.len(),
                views_of(res@) =~= Seq::new(k as nat, |i: int| DatumV::Null),
            decreases n - k,
        {
            let ghost oldres = res@;
            res.push(Datum::Null);
            proof {
                assert(views_of(res@) =~= views_of(oldres).push(DatumV::Null));
                assert(views_of(res@) =~= Seq::new((k + 1) as nat, |i: int| DatumV::Null));
            }
            k = k + 1;
        }
        let mut i: usize = 0;
        while i < offsets.len()
            invariant
                i <= offsets@.len(),
                forall|j: int|
                    0 <= j < offsets@.len() ==> (#[trigger] offsets@[j]) < (*self.cols)@.len(),
                res@.len() == (*self.cols)@.len(),
                inflate_spec(self@.cols, offsets@.take(i as int), self@.handle, self@.data)
                    matches Ok(s) && s =~= views_of(res@),
            decreases offsets@.len() - i,
        {
            let off = offsets[i];
            let col = &self.cols[off];
            let one = self.col_datum_value(col);
            proof {
                assert(offsets@.take(i + 1 as int).drop_last() =~= offsets@.take(i as int));
                assert(offsets@.take(i + 1 as int).last() == offsets@[i as int]);
            }
            match one {
                Err(e) => {
                    proof {
                        lemma_inflate_extend(
                            self@.cols,
                            offsets@,
                            self@.handle,
                            self@.data,
                            i as int,
                        );
                    }
                    return Err(e);
                },
                Ok(d) => {
                    let ghost oldres = res@;
                    res.set(off, d);
                    proof {
                        assert(views_of(res@) =~= views_of(oldres).update(off as int, d@));
                    }
                },
            }
            i = i + 1;
        }
        proof {
            assert(offsets@.take(offsets@.len() as int) =~= offsets@);
        }
        Ok(res)
    }

    /// One column's inflated datum.
    fn col_datum_value(&self, col: &ColumnInfo) -> (r: Result<Datum, Error>)
        ensures
            match r {
                Ok(d) => col_datum(*col, self@.handle, self@.data) == Ok::<DatumV, Error>(d@),
                Err(e) => col_datum(*col, self@.handle, self@.data) == Err::<DatumV, Error>(e),
            },
    {
        if col.get_pk_handle() {
            return Ok(get_pk(col, self.handle));
        }
        let col_id = col.get_column_id();
        match self.data.get(col_id) {
            Some(bs) => {
                proof {
                    assert(bs@.skip(0) =~= bs@);
                }
                match decode_datum(bs.as_slice(), 0) {
                    Ok(p) => Ok(p.0),
                    Err(e) => Err(e),
                }
            },
            None => {
                match &col.default_val {
                    Some(dv) => {
                        proof {
                            assert(dv@.skip(0) =~= dv@);
                        }
                        match decode_datum(dv.as_slice(), 0) {
                            Ok(p) => Ok(p.0),
                            Err(e) => Err(e),
                        }
                    },
                    None => {
                        if col.is_not_null() {
                            Err(Error::MissingColumn { column_id: col_id, handle: self.handle })
                        } else {
                            Ok(Datum::Null)
                        }
                    },
                }
            },
        }
    }
}

impl Row {
    pub fn origin(handle: i64, data: RowColsDict, cols: Arc<Vec<ColumnInfo>>) -> (r: Row)
        ensures
            r@ == RowV::Origin(OriginColsV { handle, data: data.map_view(), cols: (*cols)@ }),
    {
        Row::Origin(OriginCols::new(handle, data, cols))
    }

    pub fn agg(value: Vec<Datum>, suffix: Vec<u8>) -> (r: Row)
        ensures
            r@ == RowV::Agg(AggColsV { value: views_of(value@), suffix: suffix@ }),
    {
        Row::Agg(AggCols { suffix, value })
    }

    /// The scanned row inside; callers only ask below operators that never
    /// see aggregated rows.
    pub fn take_origin(self) -> (r: OriginCols)
        requires
            self@ is Origin,
        ensures
            self@ == RowV::Origin(r@),
    {
        match self {
            Row::Origin(row) => row,
            Row::Agg(_) => unreached(),
        }
    }

    /// The wire form of the row: offset-driven for scanned rows, the
    /// internal order for aggregated ones.
    pub fn get_binary(&self, output_offsets: &[u32]) -> (r: Result<Vec<u8>, Error>)
        requires
            self@ matches RowV::Origin(o) ==> forall|i: int|
                0 <= i < output_offsets@.len() ==> (#[trigger] output_offsets@[i]) < o.cols.len(),
        ensures
            match r {
                Ok(v) => row_binary(self@, output_offsets@) matches Ok(s) && s =~= v@,
                Err(e) => row_binary(self@, output_offsets@) matches Err(e2) && e == e2,
            },
    {
        match self {
            Row::Origin(row) => row.get_binary(output_offsets),
            Row::Agg(row) => row.get_binary(),
        }
    }
}

/// Copies a byte vector.
pub fn copy_bytes(b: &Vec<u8>) -> (r: Vec<u8>)
    ensures
        r@ =~= b@,
{
    let mut v: Vec<u8> = Vec::new();
    let mut i: usize = 0;
    while i < b.len()
        invariant
            i <= b@.len(),
            v@ =~= b@.take(i as int),
        decreases b@.len() - i,
    {
        v.push(b[i]);
        proof {
            assert(b@.take(i + 1 as int) =~= b@.take(i as int).push(b@[i as int]));
        }
        i = i + 1;
    }
    proof {
        assert(b@.take(b@.len() as int) =~= b@);
    }
    v
}

pub proof fn lemma_cols_binary_push(
    cols: Seq<ColumnInfo>,
    c: ColumnInfo,
    handle: i64,
    data: Map<i64, Seq<u8>>,
)
    ensures
        cols_binary(cols.push(c), handle, data) == (match cols_binary(cols, handle, data) {
            Err(e) => Err::<Seq<Seq<u8>>, Error>(e),
            Ok(v) => match col_binary_pk_first(c, handle, data) {
                Err(e) => Err(e),
                Ok(b) => Ok(v.push(b)),
            },
        }),
    decreases cols.len(),
{
    if cols.len() == 0 {
        assert(cols.push(c)[0] == c);
        assert(cols.push(c).skip(1) =~= Seq::<ColumnInfo>::empty());
        assert(cols_binary(Seq::<ColumnInfo>::empty(), handle, data) == Ok::<Seq<Seq<u8>>, Error>(
            Seq::empty(),
        ));
        match col_binary_pk_first(c, handle, data) {
            Err(e) => {},
            Ok(b) => {
                assert(seq![b] + Seq::<Seq<u8>>::empty() =~= Seq::<Seq<u8>>::empty().push(b));
            },
        }
    } else {
        assert(cols.push(c)[0] == cols[0]);
        assert(cols.push(c).skip(1) =~= cols.skip(1).push(c));
        lemma_cols_binary_push(cols.skip(1), c, handle, data);
        match col_binary_pk_first(cols[0], handle, data) {
            Err(e) => {},
            Ok(b0) => {
                match cols_binary(cols.skip(1), handle, data) {
                    Err(e) => {},
                    Ok(rest) => {
                        match col_binary_pk_first(c, handle, data) {
                            Err(e) => {},
                            Ok(b) => {
                                assert(seq![b0] + rest.push(b) =~= (seq![b0] + rest).push(b));
                            },
                        }
                    },
                }
            },
        }
    }
}

/// A failure in `cols_binary` at index `i` of an otherwise clean prefix is
/// the whole result.
pub proof fn lemma_cols_binary_split(
    cols: Seq<ColumnInfo>,
    handle: i64,
    data: Map<i64, Seq<u8>>,
    i: int,
)
    requires
        0 <= i < cols.len(),
        cols_binary(cols.take(i), handle, data) is Ok,
        col_binary_pk_first(cols[i], handle, data) is Err,
    ensures
        cols_binary(cols, handle, data) == Err::<Seq<Seq<u8>>, Error>(
            col_binary_pk_first(cols[i], handle, data)->Err_0,
        ),
    decreases i,
{
    if i == 0 {
    } else {
        assert(cols.take(i)[0] == cols[0]);
        assert(cols.take(i).skip(1) =~= cols.skip(1).take(i - 1));
        assert(cols.skip(1)[i - 1] == cols[i]);
        lemma_cols_binary_split(cols.skip(1), handle, data, i - 1);
    }
}

pub proof fn lemma_binary_concat_push(
    cols: Seq<ColumnInfo>,
    offsets: Seq<u32>,
    off: u32,
    handle: i64,
    data: Map<i64, Seq<u8>>,
)
    ensures
        binary_concat(cols, offsets.push(off), handle, data) == (match binary_concat(
            cols,
            offsets,
            handle,
            data,
        ) {
            Err(e) => Err::<Seq<u8>, Error>(e),
            Ok(v) => match col_binary_pk_first(cols[off as int], handle, data) {
                Err(e) => Err(e),
                Ok(b) => Ok(v + b),
            },
        }),
    decreases offsets.len(),
{
    if offsets.len() == 0 {
        assert(offsets.push(off)[0] == off);
        assert(offsets.push(off).skip(1) =~= Seq::<u32>::empty());
        assert(binary_concat(cols, Seq::<u32>::empty(), handle, data) == Ok::<Seq<u8>, Error>(
            Seq::empty(),
        ));
        match col_binary_pk_first(cols[off as int], handle, data) {
            Err(e) => {},
            Ok(b) => {
                assert(b + Seq::<u8>::empty() =~= Seq::<u8>::empty() + b);
            },
        }
    } else {
        assert(offsets.push(off)[0] == offsets[0]);
        assert(offsets.push(off).skip(1) =~= offsets.skip(1).push(off));
        lemma_binary_concat_push(cols, offsets.skip(1), off, handle, data);
        match col_binary_pk_first(cols[offsets[0] as int], handle, data) {
            Err(e) => {},
            Ok(b0) => {
                match binary_concat(cols, offsets.skip(1), handle, data) {
                    Err(e) => {},
                    Ok(rest) => {
                        match col_binary_pk_first(cols[off as int], handle, data) {
                            Err(e) => {},
                            Ok(b) => {
                                assert(b0 + (rest + b) =~= (b0 + rest) + b);
                            },
                        }
                    },
                }
            },
        }
    }
}

/// A failure at offset index `i` of an otherwise clean prefix is the whole
/// result of `binary_concat`.
pub proof fn lemma_binary_concat_split(
    cols: Seq<ColumnInfo>,
    offsets: Seq<u32>,
    handle: i64,
    data: Map<i64, Seq<u8>>,
    i: int,
)
    requires
        0 <= i < offsets.len(),
        binary_concat(cols, offsets.take(i), handle, data) is Ok,
        col_binary_pk_first(cols[offsets[i] as int], handle, data) is Err,
    ensures
        binary_concat(cols, offsets, handle, data) == Err::<Seq<u8>, Error>(
            col_binary_pk_first(cols[offsets[i] as int], handle, data)->Err_0,
        ),
    decreases i,
{
    if i == 0 {
    } else {
        assert(offsets.take(i)[0] == offsets[0]);
        assert(offsets.take(i).skip(1) =~= offsets.skip(1).take(i - 1));
        assert(offsets.skip(1)[i - 1] == offsets[i]);
        lemma_binary_concat_split(cols, offsets.skip(1), handle, data, i - 1);
    }
}

/// A failure at offset index `i` of an otherwise clean prefix is the whole
/// result of `inflate_spec`.
pub proof fn lemma_inflate_extend(
    cols: Seq<ColumnInfo>,
    offsets: Seq<usize>,
    handle: i64,
    data: Map<i64, Seq<u8>>,
    i: int,
)
    requires
        0 <= i < offsets.len(),
        inflate_spec(cols, offsets.take(i), handle, data) is Ok,
        col_datum(cols[offsets[i] as int], handle, data) is Err,
    ensures
        inflate_spec(cols, offsets, handle, data) == Err::<Seq<DatumV>, Error>(
            col_datum(cols[offsets[i] as int], handle, data)->Err_0,
        ),
    decreases offsets.len() - i,
{
    if i == offsets.len() - 1 {
        assert(offsets.take(offsets.len() as int) =~= offsets);
        assert(offsets.drop_last() =~= offsets.take(i));
        assert(offsets.last() == offsets[i]);
    } else {
        assert(offsets.drop_last().take(i) =~= offsets.take(i));
        assert(offsets.drop_last()[i] == offsets[i]);
        lemma_inflate_extend(cols, offsets.drop_last(), handle, data, i);
    }
}

/// Whether a row has the shape an operator with schema width `k` expects:
/// scanned rows carry a schema of exactly that width.
pub open spec fn row_shape_ok(r: RowV, k: nat) -> bool {
    match r {
        RowV::Origin(o) => o.cols.len() == k,
        RowV::Agg(_) => true,
    }
}

/// The common contract of every operator: a pull that yields the next row
/// of `pending()` until the stream is exhausted, with side channels for
/// counters, metrics and warnings.
pub trait Executor: Sized {
    /// The operator is in a state where `next` may be called.
    spec fn wf(&self) -> bool;

    /// The rows this operator will emit from now on, in order, if no
    /// error occurs.
    spec fn pending(&self) -> Seq<RowV>;

    /// The schema width this operator emits.
    spec fn schema_len(&self) -> nat;

    /// Every row still pending fits the operator's schema width.
    proof fn pending_rows_ok(&self)
        requires
            self.wf(),
        ensures
            forall|i: int|
                0 <= i < self.pending().len() ==> row_shape_ok(
                    #[trigger] self.pending()[i],
                    self.schema_len(),
                ),
    ;

    /// Pulls the next row; `None` is end-of-stream.  A fatal error leaves
    /// the operator unusable.
    fn next(&mut self) -> (r: Result<Option<Row>, Error>)
        requires
            old(self).wf(),
        ensures
            match r {
                Ok(Some(row)) => final(self).wf() && old(self).pending().len() > 0
                    && row@ == old(self).pending()[0]
                    && final(self).pending() =~= old(self).pending().skip(1)
                    && final(self).schema_len() == old(self).schema_len(),
                Ok(None) => final(self).wf() && old(self).pending().len() == 0
                    && final(self).pending() =~= old(self).pending()
                    && final(self).schema_len() == old(self).schema_len(),
                Err(_) => true,
            },
    ;

    /// Appends the per-range row counts produced so far, then resets them.
    /// The row stream itself is untouched.
    fn collect_output_counts(&mut self, counts: &mut Vec<i64>)
        ensures
            old(self).wf() ==> final(self).wf(),
            final(self).pending() == old(self).pending(),
            final(self).schema_len() == old(self).schema_len(),
    ;

    /// Folds the scan statistics gathered so far into `metrics`, then
    /// resets them.  The row stream itself is untouched.
    fn collect_metrics_into(&mut self, metrics: &mut ExecutorMetrics)
        ensures
            old(self).wf() ==> final(self).wf(),
            final(self).pending() == old(self).pending(),
            final(self).schema_len() == old(self).schema_len(),
    ;

    /// The schema width this operator emits, as a run-time value.
    fn get_len_of_columns(&self) -> (r: usize)
        ensures
            r as nat == self.schema_len(),
    ;

    /// Drains warnings gathered while evaluating expressions; operators
    /// without an evaluator have none.  The row stream itself is
    /// untouched.
    fn take_eval_warnings(&mut self) -> (r: Option<EvalWarnings>)
        ensures
            old(self).wf() ==> final(self).wf(),
            final(self).pending() == old(self).pending(),
            final(self).schema_len() == old(self).schema_len(),
    {
        None
    }

    /// Only scan operators start a storage scan; for every operator the
    /// row stream is untouched.
    fn start_scan(&mut self)
        ensures
            old(self).wf() ==> final(self).wf(),
            final(self).pending() == old(self).pending(),
            final(self).schema_len() == old(self).schema_len(),
    {
    }

    /// Only scan operators report the key range consumed; for every
    /// operator the row stream is untouched.
    fn stop_scan(&mut self) -> (r: Option<KeyRange>)
        ensures
            old(self).wf() ==> final(self).wf(),
            final(self).pending() == old(self).pending(),
            final(self).schema_len() == old(self).schema_len(),
    {
        None
    }
}

} // verus!
