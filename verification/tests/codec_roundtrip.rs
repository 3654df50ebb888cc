use cop_dag::codec::{decode_datum, encode_datum, encode_values};
use cop_dag::datum::Datum;
use cop_dag::table::{decode_row, decode_row_key_handle, encode_row, encode_row_key};
use cop_dag::Error;

fn enc(d: &Datum) -> Vec<u8> {
    let mut out: Vec<u8> = Vec::new();
    encode_datum(&mut out, d);
    out
}

#[test]
fn datum_round_trip_null() {
    let bytes = enc(&Datum::Null);
    assert_eq!(bytes, vec![0u8]);
    let (d, used) = decode_datum(&bytes, 0).unwrap();
    assert!(matches!(d, Datum::Null));
    assert_eq!(used, 1);
}

#[test]
fn datum_round_trip_i64() {
    let bytes = enc(&Datum::I64(1));
    assert_eq!(bytes, vec![3u8, 0x80, 0, 0, 0, 0, 0, 0, 1]);
    let (d, used) = decode_datum(&bytes, 0).unwrap();
    assert!(matches!(d, Datum::I64(1)));
    assert_eq!(used, 9);

    let neg = enc(&Datum::I64(-42));
    let (d2, _) = decode_datum(&neg, 0).unwrap();
    assert!(matches!(d2, Datum::I64(-42)));
}

#[test]
fn datum_round_trip_u64_and_bytes() {
    let bytes = enc(&Datum::U64(u64::MAX));
    let (d, _) = decode_datum(&bytes, 0).unwrap();
    assert!(matches!(d, Datum::U64(u64::MAX)));

    let payload = b"hello".to_vec();
    let bytes2 = enc(&Datum::Bytes(payload.clone()));
    let (d2, used) = decode_datum(&bytes2, 0).unwrap();
    match d2 {
        Datum::Bytes(b) => assert_eq!(b, payload),
        _ => panic!("expected bytes"),
    }
    assert_eq!(used, bytes2.len());
}

#[test]
fn datum_decode_rejects_bad_flag() {
    let bytes = vec![99u8, 1, 2, 3];
    assert_eq!(decode_datum(&bytes, 0).unwrap_err(), Error::Codec);
}

#[test]
fn datum_decode_rejects_truncated() {
    let bytes = vec![3u8, 1, 2];
    assert_eq!(decode_datum(&bytes, 0).unwrap_err(), Error::Codec);
}

#[test]
fn row_body_round_trip() {
    let values = vec![Datum::I64(7), Datum::Bytes(b"xy".to_vec())];
    let ids = vec![10i64, 11i64];
    let body = encode_row(&values, &ids).unwrap();
    let dict = decode_row(&body).unwrap();
    let v10 = dict.get(10).unwrap().clone();
    assert_eq!(v10, enc(&Datum::I64(7)));
    let v11 = dict.get(11).unwrap().clone();
    assert_eq!(v11, enc(&Datum::Bytes(b"xy".to_vec())));
    assert!(dict.get(12).is_none());
}

#[test]
fn row_body_rejects_length_mismatch() {
    let values = vec![Datum::I64(7)];
    let ids = vec![10i64, 11i64];
    assert_eq!(encode_row(&values, &ids).unwrap_err(), Error::Codec);
}

#[test]
fn row_key_round_trip_and_order() {
    let k = encode_row_key(5, 77);
    assert_eq!(decode_row_key_handle(&k).unwrap(), 77);
    assert_eq!(decode_row_key_handle(b"short").unwrap_err(), Error::Codec);

    // bytewise order of encoded keys equals numeric order of handles
    let a = encode_row_key(1, -5);
    let b = encode_row_key(1, 3);
    let c = encode_row_key(1, 1000);
    assert!(a < b);
    assert!(b < c);
}

#[test]
fn encode_values_concatenates() {
    let vals = vec![Datum::I64(1), Datum::Null];
    let joined = encode_values(&vals);
    let mut expect = enc(&Datum::I64(1));
    expect.extend_from_slice(&enc(&Datum::Null));
    assert_eq!(joined, expect);
}
