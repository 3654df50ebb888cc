//! The table codec: row keys, the decoded row body, and the dictionary
//! mapping column ids to the wire form of their values.

use vstd::prelude::*;

use crate::codec::{
    cmp_to_i64, cmp_to_i64_ex, datum_dec, datum_enc, dec_u64, enc_u64, i64_to_cmp, i64_to_cmp_ex,
    decode_datum, encode_datum, lemma_datum_round_trip, push_u64_be, read_u64_be,
};
use crate::datum::{Datum, DatumV};
use crate::schema::ColumnInfo;
use crate::Error;

verus! {

/// Prefix byte of every table key: `t`.
pub const TABLE_PREFIX: u8 = 116;

/// First byte of the record separator: `_`.
pub const RECORD_SEP_0: u8 = 95;

/// Second byte of the record separator: `r`.
pub const RECORD_SEP_1: u8 = 114;

/// The key of a table row: prefix, sign-flipped big-endian table id,
/// record separator, sign-flipped big-endian handle.  Bytewise order of two
/// keys of one table equals the numeric order of their handles.
pub open spec fn row_key(table_id: i64, handle: i64) -> Seq<u8> {
    seq![TABLE_PREFIX] + enc_u64(i64_to_cmp(table_id)) + seq![RECORD_SEP_0, RECORD_SEP_1]
        + enc_u64(i64_to_cmp(handle))
}

/// Whether `k` has the shape of a table-row key.
pub open spec fn wf_row_key(k: Seq<u8>) -> bool {
    k.len() == 19 && k[0] == TABLE_PREFIX && k[9] == RECORD_SEP_0 && k[10] == RECORD_SEP_1
}

/// The handle stored in the tail of a table-row key.
pub open spec fn key_handle(k: Seq<u8>) -> i64 {
    cmp_to_i64(dec_u64(k.subrange(11, 19)))
}

pub proof fn lemma_row_key_wf(table_id: i64, handle: i64)
    ensures
        wf_row_key(row_key(table_id, handle)),
        key_handle(row_key(table_id, handle)) == handle,
{
    let k = row_key(table_id, handle);
    assert(k.subrange(11, 19) =~= enc_u64(i64_to_cmp(handle)));
    crate::codec::lemma_u64_round_trip(i64_to_cmp(handle));
    crate::codec::lemma_i64_round_trip(handle);
}

/// Scan-order corollary: within one table, bytewise order of row keys
/// equals the numeric order of their handles, so an ascending scan hands
/// rows out in ascending handle order.
pub proof fn lemma_row_key_handle_order(table_id: i64, h1: i64, h2: i64)
    requires
        h1 < h2,
    ensures
        crate::datum::lex_lt(row_key(table_id, h1), row_key(table_id, h2)),
{
    let k1 = row_key(table_id, h1);
    let k2 = row_key(table_id, h2);
    crate::codec::lemma_i64_to_cmp_order(h1, h2);
    crate::codec::lemma_enc_u64_order(i64_to_cmp(h1), i64_to_cmp(h2));
    assert(k1.take(11) =~= k2.take(11));
    crate::datum::lemma_lex_shift(k1, k2, 11);
    assert(k1.skip(11) =~= enc_u64(i64_to_cmp(h1)));
    assert(k2.skip(11) =~= enc_u64(i64_to_cmp(h2)));
}

/// Builds the key of one table row.
pub fn encode_row_key(table_id: i64, handle: i64) -> (r: Vec<u8>)
    ensures
        r@ =~= row_key(table_id, handle),
{
    let mut out: Vec<u8> = Vec::new();
    out.push(TABLE_PREFIX);
    push_u64_be(&mut out, i64_to_cmp_ex(table_id));
    out.push(RECORD_SEP_0);
    out.push(RECORD_SEP_1);
    push_u64_be(&mut out, i64_to_cmp_ex(handle));
    out
}

/// Reads the handle out of a table-row key; fails with `Codec` exactly
/// when the key does not have the row-key shape.
pub fn decode_row_key_handle(key: &[u8]) -> (r: Result<i64, Error>)
    ensures
        match r {
            Ok(h) => wf_row_key(key@) && h == key_handle(key@),
            Err(e) => e == Error::Codec && !wf_row_key(key@),
        },
{
    if key.len() != 19 {
        return Err(Error::Codec);
    }
    if key[0] != TABLE_PREFIX || key[9] != RECORD_SEP_0 || key[10] != RECORD_SEP_1 {
        return Err(Error::Codec);
    }
    let u = read_u64_be(key, 11);
    Ok(cmp_to_i64_ex(u))
}

/// The mapping a pair list denotes: the first pair with a given id wins.
pub open spec fn pairs_map(ps: Seq<(i64, Seq<u8>)>) -> Map<i64, Seq<u8>>
    decreases ps.len(),
{
    if ps.len() == 0 {
        Map::empty()
    } else {
        pairs_map(ps.skip(1)).insert(ps[0].0, ps[0].1)
    }
}

pub proof fn lemma_pairs_map_first(ps: Seq<(i64, Seq<u8>)>, id: i64, k: int)
    requires
        0 <= k < ps.len(),
        ps[k].0 == id,
        forall|j: int| 0 <= j < k ==> (#[trigger] ps[j]).0 != id,
    ensures
        pairs_map(ps).contains_key(id),
        pairs_map(ps)[id] == ps[k].1,
    decreases ps.len(),
{
    if k > 0 {
        assert(ps.skip(1)[k - 1] == ps[k]);
        assert forall|j: int| 0 <= j < k - 1 implies (#[trigger] ps.skip(1)[j]).0 != id by {
            assert(ps.skip(1)[j] == ps[j + 1]);
        }
        lemma_pairs_map_first(ps.skip(1), id, k - 1);
    }
}

pub proof fn lemma_pairs_map_absent(ps: Seq<(i64, Seq<u8>)>, id: i64)
    requires
        forall|j: int| 0 <= j < ps.len() ==> (#[trigger] ps[j]).0 != id,
    ensures
        !pairs_map(ps).contains_key(id),
    decreases ps.len(),
{
    if ps.len() > 0 {
        assert forall|j: int| 0 <= j < ps.len() - 1 implies (#[trigger] ps.skip(1)[j]).0 != id by {
            assert(ps.skip(1)[j] == ps[j + 1]);
        }
        lemma_pairs_map_absent(ps.skip(1), id);
    }
}

/// The decoded byte body of a stored row: column id to the wire form of
/// the column's value.
#[derive(Debug)]
pub struct RowColsDict {
    pub pairs: Vec<(i64, Vec<u8>)>,
}

impl RowColsDict {
    /// The pair list with byte vectors abstracted to byte strings.
    pub open spec fn pairs_view(&self) -> Seq<(i64, Seq<u8>)> {
        self.pairs@.map_values(|p: (i64, Vec<u8>)| (p.0, p.1@))
    }

    /// The mapping from column id to value bytes.
    pub open spec fn map_view(&self) -> Map<i64, Seq<u8>> {
        pairs_map(self.pairs_view())
    }

    pub fn new() -> (r: RowColsDict)
        ensures
            r.pairs_view() =~= Seq::<(i64, Seq<u8>)>::empty(),
    {
        RowColsDict { pairs: Vec::new() }
    }

    /// Looks up the value bytes stored under `col_id`.
    pub fn get(&self, col_id: i64) -> (r: Option<&Vec<u8>>)
        ensures
            match r {
                Some(v) => self.map_view().contains_key(col_id) && v@ == self.map_view()[col_id],
                None => !self.map_view().contains_key(col_id),
            },
    {
        let mut i: usize = 0;
        while i < self.pairs.len()
            invariant
                i <= self.pairs.len(),
                forall|j: int| 0 <= j < i ==> (#[trigger] self.pairs_view()[j]).0 != col_id,
            decreases self.pairs.len() - i,
        {
            if self.pairs[i].0 == col_id {
                proof {
                    assert(self.pairs_view()[i as int].0 == col_id);
                    lemma_pairs_map_first(self.pairs_view(), col_id, i as int);
                }
                return Some(&self.pairs[i].1);
            }
            proof {
                assert(self.pairs_view()[i as int].0 != col_id);
            }
            i = i + 1;
        }
        proof {
            lemma_pairs_map_absent(self.pairs_view(), col_id);
        }
        None
    }
}

/// The wire form of a row body: for each column, the id as an encoded
/// signed integer, then the value's own wire form.
pub open spec fn row_body(ids: Seq<i64>, vals: Seq<DatumV>) -> Seq<u8>
    recommends
        ids.len() == vals.len(),
    decreases ids.len(),
{
    if ids.len() == 0 {
        Seq::empty()
    } else {
        datum_enc(DatumV::I64(ids[0])) + datum_enc(vals[0]) + row_body(ids.skip(1), vals.skip(1))
    }
}

pub proof fn lemma_row_body_push(ids: Seq<i64>, vals: Seq<DatumV>, id: i64, d: DatumV)
    requires
        ids.len() == vals.len(),
    ensures
        row_body(ids.push(id), vals.push(d)) =~= row_body(ids, vals) + datum_enc(
            DatumV::I64(id),
        ) + datum_enc(d),
    decreases ids.len(),
{
    if ids.len() == 0 {
        assert(ids.push(id)[0] == id);
        assert(vals.push(d)[0] == d);
        assert(ids.push(id).skip(1) =~= Seq::<i64>::empty());
        assert(vals.push(d).skip(1) =~= Seq::<DatumV>::empty());
        assert(row_body(Seq::<i64>::empty(), Seq::<DatumV>::empty()) == Seq::<u8>::empty());
        assert(row_body(ids.push(id), vals.push(d)) =~= row_body(ids, vals) + datum_enc(
            DatumV::I64(id),
        ) + datum_enc(d));
    } else {
        assert(ids.push(id)[0] == ids[0]);
        assert(vals.push(d)[0] == vals[0]);
        assert(ids.push(id).skip(1) =~= ids.skip(1).push(id));
        assert(vals.push(d).skip(1) =~= vals.skip(1).push(d));
        lemma_row_body_push(ids.skip(1), vals.skip(1), id, d);
        let e0 = datum_enc(DatumV::I64(ids[0]));
        let v0 = datum_enc(vals[0]);
        let ra = row_body(ids.skip(1), vals.skip(1));
        let ei = datum_enc(DatumV::I64(id));
        let ed = datum_enc(d);
        assert(row_body(ids.skip(1).push(id), vals.skip(1).push(d)) =~= ra + ei + ed);
        assert(row_body(ids.push(id), vals.push(d)) == e0 + v0 + row_body(
            ids.skip(1).push(id),
            vals.skip(1).push(d),
        ));
        assert(e0 + v0 + (ra + ei + ed) =~= (e0 + v0 + ra) + ei + ed);
    }
}

/// Encodes a row body from parallel id and value lists; fails with `Codec`
/// exactly when their lengths differ.
pub fn encode_row(values: &Vec<Datum>, ids: &Vec<i64>) -> (r: Result<Vec<u8>, Error>)
    ensures
        match r {
            Ok(v) => ids@.len() == values@.len() && v@ =~= row_body(
                ids@,
                crate::datum::views_of(values@),
            ),
            Err(e) => e == Error::Codec && ids@.len() != values@.len(),
        },
{
    if values.len() != ids.len() {
        return Err(Error::Codec);
    }
    let mut out: Vec<u8> = Vec::new();
    let mut i: usize = 0;
    while i < ids.len()
        invariant
            i <= ids.len(),
            ids@.len() == values@.len(),
            out@ =~= row_body(ids@.take(i as int), crate::datum::views_of(values@).take(i as int)),
        decreases ids.len() - i,
    {
        let ghost vs = crate::datum::views_of(values@);
        encode_datum(&mut out, &Datum::I64(ids[i]));
        encode_datum(&mut out, &values[i]);
        proof {
            assert(ids@.take(i + 1 as int) =~= ids@.take(i as int).push(ids@[i as int]));
            assert(vs.take(i + 1 as int) =~= vs.take(i as int).push(vs[i as int]));
            lemma_row_body_push(ids@.take(i as int), vs.take(i as int), ids@[i as int], vs[i as int]);
            assert(vs[i as int] == values@[i as int]@);
        }
        i = i + 1;
    }
    proof {
        assert(ids@.take(ids@.len() as int) =~= ids@);
        assert(crate::datum::views_of(values@).take(ids@.len() as int) =~= crate::datum::views_of(
            values@,
        ));
    }
    Ok(out)
}

/// What decoding a row body yields: the pair list of column ids and value
/// bytes, or nothing if the bytes are not a well-formed body.
pub open spec fn row_dec(s: Seq<u8>) -> Option<Seq<(i64, Seq<u8>)>>
    decreases s.len(),
{
    if s.len() == 0 {
        Some(Seq::empty())
    } else {
        match datum_dec(s) {
            Option::None => None,
            Option::Some((d, n)) => match d {
                DatumV::I64(id) => if 1 <= n <= s.len() {
                    match datum_dec(s.skip(n)) {
                        Option::None => None,
                        Option::Some((_d2, m)) => if 1 <= m <= s.len() - n {
                            match row_dec(s.skip(n + m)) {
                                Option::None => None,
                                Option::Some(rest) => Some(
                                    seq![(id, s.subrange(n, n + m))] + rest,
                                ),
                            }
                        } else {
                            None
                        },
                    }
                } else {
                    None
                },
                _ => None,
            },
        }
    }
}

/// Decodes a row body into the column dictionary; fails with `Codec`
/// exactly when the bytes are not a well-formed body.
pub fn decode_row(data: &[u8]) -> (r: Result<RowColsDict, Error>)
    ensures
        match r {
            Ok(dict) => row_dec(data@) matches Some(ps) && dict.pairs_view() =~= ps,
            Err(e) => e == Error::Codec && row_dec(data@) is None,
        },
{
    let mut pairs: Vec<(i64, Vec<u8>)> = Vec::new();
    let mut pos: usize = 0;
    let dlen = data.len();
    proof {
        assert(data@.len() == dlen as int);
        assert(data@.skip(0) =~= data@);
    }
    loop
        invariant
            pos <= data@.len(),
            data@.len() <= usize::MAX,
            match row_dec(data@.skip(pos as int)) {
                Option::Some(t) => row_dec(data@) matches Some(w) && w =~= pairs@.map_values(
                    |p: (i64, Vec<u8>)| (p.0, p.1@),
                ) + t,
                Option::None => row_dec(data@) is None,
            },
        decreases data@.len() - pos,
    {
        let ghost s = data@.skip(pos as int);
        if pos >= data.len() {
            proof {
                assert(s.len() == 0);
                assert(row_dec(s) == Some(Seq::<(i64, Seq<u8>)>::empty()));
                let w = pairs@.map_values(|p: (i64, Vec<u8>)| (p.0, p.1@));
                assert(w + Seq::<(i64, Seq<u8>)>::empty() =~= w);
            }
            return Ok(RowColsDict { pairs });
        }
        let idr = decode_datum(data, pos);
        match idr {
            Err(_) => {
                return Err(Error::Codec);
            },
            Ok((id_datum, pos2)) => {
                match id_datum {
                    Datum::I64(id) => {
                        let valr = decode_datum(data, pos2);
                        match valr {
                            Err(_) => {
                                proof {
                                    assert(data@.skip(pos2 as int) =~= s.skip(pos2 - pos));
                                }
                                return Err(Error::Codec);
                            },
                            Ok((_val, pos3)) => {
                                proof {
                                    assert(data@.skip(pos2 as int) =~= s.skip(pos2 - pos));
                                }
                                let mut b: Vec<u8> = Vec::new();
                                let mut j: usize = pos2;
                                while j < pos3
                                    invariant
                                        pos2 <= j <= pos3,
                                        pos3 <= data@.len(),
                                        data@.len() <= usize::MAX,
                                        b@ =~= data@.subrange(pos2 as int, j as int),
                                    decreases pos3 - j,
                                {
                                    b.push(data[j]);
                                    proof {
                                        assert(data@.subrange(pos2 as int, j + 1 as int)
                                            =~= data@.subrange(pos2 as int, j as int).push(
                                            data@[j as int],
                                        ));
                                    }
                                    j = j + 1;
                                }
                                let ghost oldpairs = pairs@;
                                pairs.push((id, b));
                                proof {
                                    let f = |p: (i64, Vec<u8>)| (p.0, p.1@);
                                    assert(pairs@.map_values(f) =~= oldpairs.map_values(f).push(
                                        (id, b@),
                                    ));
                                    assert(s.subrange(pos2 - pos, pos3 - pos) =~= data@.subrange(
                                        pos2 as int,
                                        pos3 as int,
                                    ));
                                    assert(data@.skip(pos3 as int) =~= s.skip(pos3 - pos));
                                    match row_dec(data@.skip(pos3 as int)) {
                                        Option::Some(t) => {
                                            assert(row_dec(s) matches Some(u) && u =~= seq![
                                                (id, b@),
                                            ] + t);
                                            let w0 = oldpairs.map_values(f);
                                            assert(w0 + (seq![(id, b@)] + t) =~= w0.push(
                                                (id, b@),
                                            ) + t);
                                        },
                                        Option::None => {
                                            assert(row_dec(s) is None);
                                        },
                                    }
                                }
                                pos = pos3;
                            },
                        }
                    },
                    _ => {
                        return Err(Error::Codec);
                    },
                }
            },
        }
    }
}

/// The handle as a datum, honouring the column's signedness.
pub open spec fn pk_datum(col: ColumnInfo, handle: i64) -> DatumV {
    if col.spec_unsigned() {
        DatumV::U64(handle as u64)
    } else {
        DatumV::I64(handle)
    }
}

/// Builds the handle datum for a primary-key column.
pub fn get_pk(col: &ColumnInfo, handle: i64) -> (r: Datum)
    ensures
        r@ == pk_datum(*col, handle),
{
    if col.is_unsigned() {
        Datum::U64(#[verifier::truncate] (handle as u64))
    } else {
        Datum::I64(handle)
    }
}

/// Decoding a row body inverts encoding: each column id maps to the wire
/// form of its value, in the order given.
pub proof fn lemma_row_round_trip(ids: Seq<i64>, vals: Seq<DatumV>)
    requires
        ids.len() == vals.len(),
        forall|i: int| 0 <= i < vals.len() ==> ((#[trigger] vals[i]) matches DatumV::Bytes(b)
            ==> b.len() <= u64::MAX),
    ensures
        row_dec(row_body(ids, vals)) matches Some(ps) && ps.len() == ids.len() && forall|i: int|
            0 <= i < ids.len() ==> #[trigger] ps[i] == (ids[i], datum_enc(vals[i])),
    decreases ids.len(),
{
    if ids.len() == 0 {
    } else {
        let s = row_body(ids, vals);
        let head = datum_enc(DatumV::I64(ids[0]));
        let vhead = datum_enc(vals[0]);
        let rest = row_body(ids.skip(1), vals.skip(1));
        assert(s =~= head + (vhead + rest));
        lemma_datum_round_trip(DatumV::I64(ids[0]), vhead + rest);
        assert(datum_dec(s) == Some((DatumV::I64(ids[0]), 9int)));
        assert(s.skip(9) =~= vhead + rest);
        lemma_datum_round_trip(vals[0], rest);
        let m = vhead.len() as int;
        assert(datum_dec(s.skip(9)) == Some((vals[0], m)));
        assert(s.subrange(9, 9 + m) =~= vhead);
        assert(s.skip(9 + m) =~= rest);
        assert forall|i: int| 0 <= i < vals.len() - 1 implies ((#[trigger] vals.skip(1)[i])
            matches DatumV::Bytes(b) ==> b.len() <= u64::MAX) by {
            assert(vals.skip(1)[i] == vals[i + 1]);
        }
        lemma_row_round_trip(ids.skip(1), vals.skip(1));
        let ps_rest = row_dec(rest).unwrap();
        let ps = row_dec(s).unwrap();
        assert(ps =~= seq![(ids[0], vhead)] + ps_rest);
        assert forall|i: int| 0 <= i < ids.len() implies #[trigger] ps[i] == (
            ids[i],
            datum_enc(vals[i]),
        ) by {
            if i > 0 {
                assert(ps[i] == ps_rest[i - 1]);
                assert(ids.skip(1)[i - 1] == ids[i]);
                assert(vals.skip(1)[i - 1] == vals[i]);
            }
        }
    }
}

} // verus!
