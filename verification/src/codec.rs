//! The datum codec: a self-describing wire form for datums.  Every datum is
//! a flag byte followed by a fixed or length-prefixed body; signed integers
//! are stored sign-flipped big-endian so that the byte order of two encoded
//! integers equals their numeric order.

use vstd::prelude::*;

use crate::datum::{Datum, DatumV};
use crate::Error;

verus! {

pub const NIL_FLAG: u8 = 0;

pub const BYTES_FLAG: u8 = 1;

pub const INT_FLAG: u8 = 3;

pub const UINT_FLAG: u8 = 4;

pub const SIGN_MASK: u64 = 0x8000_0000_0000_0000;

/// The eight big-endian bytes of `x`.
pub open spec fn enc_u64(x: u64) -> Seq<u8> {
    seq![
        (x >> 56) as u8,
        (x >> 48) as u8,
        (x >> 40) as u8,
        (x >> 32) as u8,
        (x >> 24) as u8,
        (x >> 16) as u8,
        (x >> 8) as u8,
        x as u8,
    ]
}

/// The value read back from eight big-endian bytes.
pub open spec fn dec_u64(s: Seq<u8>) -> u64
    recommends
        s.len() == 8,
{
    ((s[0] as u64) << 56) | ((s[1] as u64) << 48) | ((s[2] as u64) << 40) | ((s[3] as u64) << 32)
        | ((s[4] as u64) << 24) | ((s[5] as u64) << 16) | ((s[6] as u64) << 8) | (s[7] as u64)
}

/// Bytewise order of two big-endian images equals their numeric order.
pub proof fn lemma_enc_u64_order(x: u64, y: u64)
    requires
        x < y,
    ensures
        crate::datum::lex_lt(enc_u64(x), enc_u64(y)),
{
    let a = enc_u64(x);
    let b = enc_u64(y);
    assert(x < y ==> ((x >> 56) as u8) < ((y >> 56) as u8) || (((x >> 56) as u8) == ((y >> 56)
        as u8) && (((x >> 48) as u8) < ((y >> 48) as u8) || (((x >> 48) as u8) == ((y >> 48)
        as u8) && (((x >> 40) as u8) < ((y >> 40) as u8) || (((x >> 40) as u8) == ((y >> 40)
        as u8) && (((x >> 32) as u8) < ((y >> 32) as u8) || (((x >> 32) as u8) == ((y >> 32)
        as u8) && (((x >> 24) as u8) < ((y >> 24) as u8) || (((x >> 24) as u8) == ((y >> 24)
        as u8) && (((x >> 16) as u8) < ((y >> 16) as u8) || (((x >> 16) as u8) == ((y >> 16)
        as u8) && (((x >> 8) as u8) < ((y >> 8) as u8) || (((x >> 8) as u8) == ((y >> 8) as u8)
        && (x as u8) < (y as u8))))))))))))))) by (bit_vector);
    let k = choose|k: int|
        0 <= k < 8 && a[k] < b[k] && (forall|m: int| 0 <= m < k ==> a[m] == b[m]);
    assert(exists|k: int|
        0 <= k < 8 && a[k] < b[k] && (forall|m: int| 0 <= m < k ==> a[m] == b[m])) by {
        if a[0] < b[0] {
            assert(0 <= 0 < 8 && a[0] < b[0] && (forall|m: int| 0 <= m < 0 ==> a[m] == b[m]));
        } else if a[1] < b[1] {
            assert(0 <= 1 < 8 && a[1] < b[1] && (forall|m: int| 0 <= m < 1 ==> a[m] == b[m]));
        } else if a[2] < b[2] {
            assert(0 <= 2 < 8 && a[2] < b[2] && (forall|m: int| 0 <= m < 2 ==> a[m] == b[m]));
        } else if a[3] < b[3] {
            assert(0 <= 3 < 8 && a[3] < b[3] && (forall|m: int| 0 <= m < 3 ==> a[m] == b[m]));
        } else if a[4] < b[4] {
            assert(0 <= 4 < 8 && a[4] < b[4] && (forall|m: int| 0 <= m < 4 ==> a[m] == b[m]));
        } else if a[5] < b[5] {
            assert(0 <= 5 < 8 && a[5] < b[5] && (forall|m: int| 0 <= m < 5 ==> a[m] == b[m]));
        } else if a[6] < b[6] {
            assert(0 <= 6 < 8 && a[6] < b[6] && (forall|m: int| 0 <= m < 6 ==> a[m] == b[m]));
        } else {
            assert(0 <= 7 < 8 && a[7] < b[7] && (forall|m: int| 0 <= m < 7 ==> a[m] == b[m]));
        }
    }
    assert(a.take(k) =~= b.take(k));
    crate::datum::lemma_lex_shift(a, b, k);
    assert(a.skip(k).len() > 0);
    assert(b.skip(k).len() > 0);
    assert(a.skip(k)[0] == a[k]);
    assert(b.skip(k)[0] == b[k]);
}

/// The sign flip keeps numeric order: signed order becomes unsigned order.
pub proof fn lemma_i64_to_cmp_order(x: i64, y: i64)
    requires
        x < y,
    ensures
        i64_to_cmp(x) < i64_to_cmp(y),
{
    assert(x < y ==> ((x as u64) ^ 0x8000_0000_0000_0000u64) < ((y as u64)
        ^ 0x8000_0000_0000_0000u64)) by (bit_vector);
}

/// The sign-flipped image of a signed integer: flipping the sign bit makes
/// unsigned order equal signed order.
pub open spec fn i64_to_cmp(x: i64) -> u64 {
    (x as u64) ^ SIGN_MASK
}

/// The signed integer whose sign-flipped image is `u`.
pub open spec fn cmp_to_i64(u: u64) -> i64 {
    (u ^ SIGN_MASK) as i64
}

pub proof fn lemma_u64_round_trip(x: u64)
    ensures
        dec_u64(enc_u64(x)) == x,
{
    assert(((((x >> 56) as u8) as u64) << 56) | ((((x >> 48) as u8) as u64) << 48) | ((((x >> 40)
        as u8) as u64) << 40) | ((((x >> 32) as u8) as u64) << 32) | ((((x >> 24) as u8) as u64)
        << 24) | ((((x >> 16) as u8) as u64) << 16) | ((((x >> 8) as u8) as u64) << 8) | ((x
        as u8) as u64) == x) by (bit_vector);
}

pub proof fn lemma_i64_round_trip(x: i64)
    ensures
        cmp_to_i64(i64_to_cmp(x)) == x,
{
    assert((((x as u64) ^ 0x8000_0000_0000_0000u64) ^ 0x8000_0000_0000_0000u64) as i64 == x)
        by (bit_vector);
}

/// Appends the big-endian bytes of `x`.
pub fn push_u64_be(out: &mut Vec<u8>, x: u64)
    ensures
        final(out)@ =~= old(out)@ + enc_u64(x),
{
    out.push(#[verifier::truncate] ((x >> 56) as u8));
    out.push(#[verifier::truncate] ((x >> 48) as u8));
    out.push(#[verifier::truncate] ((x >> 40) as u8));
    out.push(#[verifier::truncate] ((x >> 32) as u8));
    out.push(#[verifier::truncate] ((x >> 24) as u8));
    out.push(#[verifier::truncate] ((x >> 16) as u8));
    out.push(#[verifier::truncate] ((x >> 8) as u8));
    out.push(#[verifier::truncate] (x as u8));
}

/// Reads eight big-endian bytes starting at `pos`.
pub fn read_u64_be(data: &[u8], pos: usize) -> (r: u64)
    requires
        pos + 8 <= data@.len(),
    ensures
        r == dec_u64(data@.subrange(pos as int, pos + 8)),
{
    let r = ((data[pos] as u64) << 56) | ((data[pos + 1] as u64) << 48) | ((data[pos + 2] as u64)
        << 40) | ((data[pos + 3] as u64) << 32) | ((data[pos + 4] as u64) << 24) | ((data[pos + 5]
        as u64) << 16) | ((data[pos + 6] as u64) << 8) | (data[pos + 7] as u64);
    proof {
        let s = data@.subrange(pos as int, pos + 8);
        assert(s[0] == data@[pos as int]);
        assert(s[1] == data@[pos + 1]);
        assert(s[2] == data@[pos + 2]);
        assert(s[3] == data@[pos + 3]);
        assert(s[4] == data@[pos + 4]);
        assert(s[5] == data@[pos + 5]);
        assert(s[6] == data@[pos + 6]);
        assert(s[7] == data@[pos + 7]);
    }
    r
}

/// The sign flip, executable form.
pub fn i64_to_cmp_ex(x: i64) -> (r: u64)
    ensures
        r == i64_to_cmp(x),
{
    (#[verifier::truncate] (x as u64)) ^ SIGN_MASK
}

/// The inverse sign flip, executable form.
pub fn cmp_to_i64_ex(u: u64) -> (r: i64)
    ensures
        r == cmp_to_i64(u),
{
    #[verifier::truncate] ((u ^ SIGN_MASK) as i64)
}

/// The eight little-endian bytes of `x`, the form expression payloads use.
pub open spec fn enc_u64_le(x: u64) -> Seq<u8> {
    seq![
        x as u8,
        (x >> 8) as u8,
        (x >> 16) as u8,
        (x >> 24) as u8,
        (x >> 32) as u8,
        (x >> 40) as u8,
        (x >> 48) as u8,
        (x >> 56) as u8,
    ]
}

/// The value read back from eight little-endian bytes.
pub open spec fn dec_u64_le(s: Seq<u8>) -> u64
    recommends
        s.len() == 8,
{
    (s[0] as u64) | ((s[1] as u64) << 8) | ((s[2] as u64) << 16) | ((s[3] as u64) << 24) | ((s[4]
        as u64) << 32) | ((s[5] as u64) << 40) | ((s[6] as u64) << 48) | ((s[7] as u64) << 56)
}

pub proof fn lemma_u64_le_round_trip(x: u64)
    ensures
        dec_u64_le(enc_u64_le(x)) == x,
{
    assert(((x as u8) as u64) | ((((x >> 8) as u8) as u64) << 8) | ((((x >> 16) as u8) as u64)
        << 16) | ((((x >> 24) as u8) as u64) << 24) | ((((x >> 32) as u8) as u64) << 32) | ((((x
        >> 40) as u8) as u64) << 40) | ((((x >> 48) as u8) as u64) << 48) | ((((x >> 56) as u8)
        as u64) << 56) == x) by (bit_vector);
}

/// Appends the little-endian bytes of `x`.
pub fn push_u64_le(out: &mut Vec<u8>, x: u64)
    ensures
        final(out)@ =~= old(out)@ + enc_u64_le(x),
{
    out.push(#[verifier::truncate] (x as u8));
    out.push(#[verifier::truncate] ((x >> 8) as u8));
    out.push(#[verifier::truncate] ((x >> 16) as u8));
    out.push(#[verifier::truncate] ((x >> 24) as u8));
    out.push(#[verifier::truncate] ((x >> 32) as u8));
    out.push(#[verifier::truncate] ((x >> 40) as u8));
    out.push(#[verifier::truncate] ((x >> 48) as u8));
    out.push(#[verifier::truncate] ((x >> 56) as u8));
}

/// Reads eight little-endian bytes from the front of `data`.
pub fn read_u64_le(data: &[u8]) -> (r: u64)
    requires
        data@.len() == 8,
    ensures
        r == dec_u64_le(data@),
{
    (data[0] as u64) | ((data[1] as u64) << 8) | ((data[2] as u64) << 16) | ((data[3] as u64)
        << 24) | ((data[4] as u64) << 32) | ((data[5] as u64) << 40) | ((data[6] as u64) << 48) | (
    (data[7] as u64) << 56)
}

/// The wire form of one datum.
pub open spec fn datum_enc(d: DatumV) -> Seq<u8> {
    match d {
        DatumV::Null => seq![NIL_FLAG],
        DatumV::I64(x) => seq![INT_FLAG] + enc_u64(i64_to_cmp(x)),
        DatumV::U64(x) => seq![UINT_FLAG] + enc_u64(x),
        DatumV::Bytes(b) => seq![BYTES_FLAG] + enc_u64(b.len() as u64) + b,
    }
}

/// The wire form of a sequence of datums, one after the other.
pub open spec fn enc_datums(ds: Seq<DatumV>) -> Seq<u8>
    decreases ds.len(),
{
    if ds.len() == 0 {
        Seq::empty()
    } else {
        datum_enc(ds[0]) + enc_datums(ds.skip(1))
    }
}

pub proof fn lemma_enc_datums_push(ds: Seq<DatumV>, d: DatumV)
    ensures
        enc_datums(ds.push(d)) =~= enc_datums(ds) + datum_enc(d),
    decreases ds.len(),
{
    if ds.len() == 0 {
        assert(ds.push(d)[0] == d);
        assert(ds.push(d).skip(1) =~= Seq::<DatumV>::empty());
        assert(enc_datums(ds.push(d)) == datum_enc(d) + enc_datums(ds.push(d).skip(1)));
        assert(enc_datums(Seq::<DatumV>::empty()) == Seq::<u8>::empty());
        assert(enc_datums(ds) == Seq::<u8>::empty());
        assert(enc_datums(ds.push(d)) =~= enc_datums(ds) + datum_enc(d));
    } else {
        assert(ds.push(d)[0] == ds[0]);
        assert(ds.push(d).skip(1) =~= ds.skip(1).push(d));
        lemma_enc_datums_push(ds.skip(1), d);
        assert(enc_datums(ds.push(d)) =~= datum_enc(ds[0]) + (enc_datums(ds.skip(1)) + datum_enc(
            d,
        )));
    }
}

/// What decoding one datum from the front of `s` yields: the datum and the
/// number of bytes it occupied, or nothing if `s` does not start with a
/// well-formed encoding.
pub open spec fn datum_dec(s: Seq<u8>) -> Option<(DatumV, int)> {
    if s.len() < 1 {
        None
    } else if s[0] == NIL_FLAG {
        Some((DatumV::Null, 1))
    } else if s[0] == INT_FLAG {
        if s.len() >= 9 {
            Some((DatumV::I64(cmp_to_i64(dec_u64(s.subrange(1, 9)))), 9))
        } else {
            None
        }
    } else if s[0] == UINT_FLAG {
        if s.len() >= 9 {
            Some((DatumV::U64(dec_u64(s.subrange(1, 9))), 9))
        } else {
            None
        }
    } else if s[0] == BYTES_FLAG {
        if s.len() >= 9 {
            let n = dec_u64(s.subrange(1, 9)) as int;
            if s.len() >= 9 + n {
                Some((DatumV::Bytes(s.subrange(9, 9 + n)), 9 + n))
            } else {
                None
            }
        } else {
            None
        }
    } else {
        None
    }
}

/// Decoding inverts encoding, whatever bytes follow the encoded datum.
pub proof fn lemma_datum_round_trip(d: DatumV, rest: Seq<u8>)
    requires
        d matches DatumV::Bytes(b) ==> b.len() <= u64::MAX,
    ensures
        datum_dec(datum_enc(d) + rest) == Some((d, datum_enc(d).len() as int)),
{
    let s = datum_enc(d) + rest;
    match d {
        DatumV::Null => {
            assert(s[0] == NIL_FLAG);
        },
        DatumV::I64(x) => {
            assert(s[0] == INT_FLAG);
            assert(s.len() >= 9);
            assert(s.subrange(1, 9) =~= enc_u64(i64_to_cmp(x)));
            lemma_u64_round_trip(i64_to_cmp(x));
            lemma_i64_round_trip(x);
        },
        DatumV::U64(x) => {
            assert(s[0] == UINT_FLAG);
            assert(s.subrange(1, 9) =~= enc_u64(x));
            lemma_u64_round_trip(x);
        },
        DatumV::Bytes(b) => {
            assert(s[0] == BYTES_FLAG);
            assert(s.subrange(1, 9) =~= enc_u64(b.len() as u64));
            lemma_u64_round_trip(b.len() as u64);
            assert(dec_u64(s.subrange(1, 9)) == b.len() as u64);
            assert(s.len() >= 9 + b.len());
            assert(s.subrange(9, 9 + b.len() as int) =~= b);
        },
    }
}

/// Appends the wire form of `d`.
pub fn encode_datum(out: &mut Vec<u8>, d: &Datum)
    ensures
        final(out)@ =~= old(out)@ + datum_enc(d@),
{
    match d {
        Datum::Null => {
            out.push(NIL_FLAG);
        },
        Datum::I64(x) => {
            out.push(INT_FLAG);
            let u = i64_to_cmp_ex(*x);
            push_u64_be(out, u);
        },
        Datum::U64(x) => {
            out.push(UINT_FLAG);
            push_u64_be(out, *x);
        },
        Datum::Bytes(b) => {
            out.push(BYTES_FLAG);
            push_u64_be(out, b.len() as u64);
            let mut i: usize = 0;
            let ghost mid = out@;
            while i < b.len()
                invariant
                    i <= b.len(),
                    out@ =~= mid + b@.take(i as int),
                decreases b.len() - i,
            {
                out.push(b[i]);
                proof {
                    assert(b@.take(i + 1 as int) =~= b@.take(i as int).push(b@[i as int]));
                }
                i = i + 1;
            }
            proof {
                assert(b@.take(b.len() as int) =~= b@);
            }
        },
    }
}

/// The wire form of a list of datums, as one byte string.
pub fn encode_values(vals: &Vec<Datum>) -> (r: Vec<u8>)
    ensures
        r@ =~= enc_datums(crate::datum::views_of(vals@)),
{
    let mut out: Vec<u8> = Vec::new();
    let mut i: usize = 0;
    while i < vals.len()
        invariant
            i <= vals.len(),
            out@ =~= enc_datums(crate::datum::views_of(vals@).take(i as int)),
        decreases vals.len() - i,
    {
        let ghost pre = crate::datum::views_of(vals@);
        encode_datum(&mut out, &vals[i]);
        proof {
            assert(pre.take(i + 1 as int) =~= pre.take(i as int).push(pre[i as int]));
            lemma_enc_datums_push(pre.take(i as int), pre[i as int]);
            assert(pre[i as int] == vals@[i as int]@);
        }
        i = i + 1;
    }
    proof {
        assert(crate::datum::views_of(vals@).take(vals@.len() as int) =~= crate::datum::views_of(
            vals@,
        ));
    }
    out
}

/// Decodes one datum starting at `pos`, returning it with the position just
/// past it; fails with `Codec` exactly when no well-formed encoding starts
/// there.
pub fn decode_datum(data: &[u8], pos: usize) -> (r: Result<(Datum, usize), Error>)
    requires
        pos <= data@.len(),
    ensures
        match r {
            Ok(p) => datum_dec(data@.skip(pos as int)) matches Some(q) && p.0@ == q.0 && p.1 == pos
                + q.1 && pos < p.1 <= data@.len(),
            Err(e) => e == Error::Codec && datum_dec(data@.skip(pos as int)) is None,
        },
{
    let ghost s = data@.skip(pos as int);
    if pos >= data.len() {
        return Err(Error::Codec);
    }
    let flag = data[pos];
    proof {
        assert(s[0] == data@[pos as int]);
        assert(s.len() == data@.len() - pos);
    }
    if flag == NIL_FLAG {
        Ok((Datum::Null, pos + 1))
    } else if flag == INT_FLAG {
        if data.len() - pos < 9 {
            return Err(Error::Codec);
        }
        let u = read_u64_be(data, pos + 1);
        proof {
            assert(data@.subrange(pos + 1, pos + 9) =~= s.subrange(1, 9));
        }
        Ok((Datum::I64(cmp_to_i64_ex(u)), pos + 9))
    } else if flag == UINT_FLAG {
        if data.len() - pos < 9 {
            return Err(Error::Codec);
        }
        let u = read_u64_be(data, pos + 1);
        proof {
            assert(data@.subrange(pos + 1, pos + 9) =~= s.subrange(1, 9));
        }
        Ok((Datum::U64(u), pos + 9))
    } else if flag == BYTES_FLAG {
        if data.len() - pos < 9 {
            return Err(Error::Codec);
        }
        let n64 = read_u64_be(data, pos + 1);
        proof {
            assert(data@.subrange(pos + 1, pos + 9) =~= s.subrange(1, 9));
        }
        if n64 > (data.len() - pos - 9) as u64 {
            return Err(Error::Codec);
        }
        let n = n64 as usize;
        let base = pos + 9;
        let mut b: Vec<u8> = Vec::new();
        let mut i: usize = 0;
        while i < n
            invariant
                i <= n,
                base == pos + 9,
                base + n <= data@.len(),
                data@.len() <= usize::MAX,
                b@ =~= data@.subrange(base as int, base + i),
            decreases n - i,
        {
            b.push(data[base + i]);
            proof {
                assert(data@.subrange(base as int, base + i + 1) =~= data@.subrange(
                    base as int,
                    base + i,
                ).push(data@[base + i]));
            }
            i = i + 1;
        }
        proof {
            assert(s.subrange(9, 9 + n) =~= data@.subrange(pos + 9, pos + 9 + n));
        }
        Ok((Datum::Bytes(b), pos + 9 + n))
    } else {
        Err(Error::Codec)
    }
}

} // verus!
