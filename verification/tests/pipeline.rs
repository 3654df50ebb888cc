use cop_dag::codec::{encode_datum, encode_values};
use cop_dag::datum::Datum;
use cop_dag::executor::index_scan::encode_index_key;
use cop_dag::executor::{
    AggExpr, AggFuncKind, Executor, HashAggExecutor, IndexScanExecutor, LimitExecutor, Row,
    SelectionExecutor, StreamAggExecutor, TableScanExecutor, TopNExecutor,
};
use cop_dag::expr::{Expr, ExprColumnRefVisitor, ExprType};
use cop_dag::schema::{ColumnInfo, EvalContext, KeyRange};
use cop_dag::storage::MemStore;
use cop_dag::table::{encode_row, encode_row_key};
use cop_dag::Error;

fn col(id: i64, pk: bool) -> ColumnInfo {
    ColumnInfo { column_id: id, tp: 3, flag: 0, pk_handle: pk, default_val: None }
}

fn enc(d: &Datum) -> Vec<u8> {
    let mut out: Vec<u8> = Vec::new();
    encode_datum(&mut out, d);
    out
}

fn get_range(tid: i64, start: i64, end: i64) -> KeyRange {
    KeyRange { start: encode_row_key(tid, start), end: encode_row_key(tid, end) }
}

/// Schema `[id: i64 pk, name: bytes]` with rows `(1,"a"), (2,"b"), (3,"c")`.
fn name_store(tid: i64) -> MemStore {
    let mut store = MemStore::new();
    let names: Vec<(i64, &[u8])> = vec![(1, b"a"), (2, b"b"), (3, b"c")];
    for (h, name) in names {
        let key = encode_row_key(tid, h);
        let value = encode_row(&vec![Datum::Bytes(name.to_vec())], &vec![2]).unwrap();
        store.put(key, value);
    }
    store
}

fn name_scan(tid: i64, desc: bool) -> TableScanExecutor {
    let cols = vec![col(1, true), col(2, false)];
    let ranges = vec![get_range(tid, 0, i64::MAX)];
    TableScanExecutor::table_scan(cols, ranges, name_store(tid), desc)
}

/// Schema `[g: i64, v: i64]` (no handle column in the output schema).
fn gv_store(tid: i64, rows: &[(i64, i64, i64)]) -> MemStore {
    let mut store = MemStore::new();
    for (h, g, v) in rows {
        let key = encode_row_key(tid, *h);
        let value = encode_row(&vec![Datum::I64(*g), Datum::I64(*v)], &vec![1, 2]).unwrap();
        store.put(key, value);
    }
    store
}

fn gv_scan(tid: i64, rows: &[(i64, i64, i64)]) -> TableScanExecutor {
    let cols = vec![col(1, false), col(2, false)];
    let ranges = vec![get_range(tid, 0, i64::MAX)];
    TableScanExecutor::table_scan(cols, ranges, gv_store(tid, rows), false)
}

fn drain_binaries<E: Executor>(mut e: E, offsets: &[u32]) -> Vec<Vec<u8>> {
    let mut out = Vec::new();
    loop {
        match e.next().unwrap() {
            None => break,
            Some(row) => out.push(row.get_binary(offsets).unwrap()),
        }
    }
    out
}

#[test]
fn s1_table_scan_then_limit() {
    let scan = name_scan(7, false);
    let limit = LimitExecutor::new(2, scan);
    let got = drain_binaries(limit, &[1]);
    assert_eq!(got, vec![enc(&Datum::Bytes(b"a".to_vec())), enc(&Datum::Bytes(b"b".to_vec()))]);
}

#[test]
fn s2_selection_id_greater_than_one() {
    let scan = name_scan(7, false);
    let cond = Expr::binop(ExprType::Gt, Expr::column_ref(0), Expr::int_lit(1));
    let sel = SelectionExecutor::new(vec![cond], EvalContext::new(), scan).unwrap();
    let got = drain_binaries(sel, &[1]);
    assert_eq!(got, vec![enc(&Datum::Bytes(b"b".to_vec())), enc(&Datum::Bytes(b"c".to_vec()))]);
}

#[test]
fn s3_topn_desc_by_id() {
    let scan = name_scan(7, false);
    let order = vec![(Expr::column_ref(0), true)];
    let topn = TopNExecutor::new(order, 2, EvalContext::new(), scan).unwrap();
    let got = drain_binaries(topn, &[0]);
    assert_eq!(got, vec![enc(&Datum::I64(3)), enc(&Datum::I64(2))]);
}

#[test]
fn s4_stream_agg_sum_per_group() {
    let scan = gv_scan(9, &[(1, 1, 10), (2, 1, 20), (3, 2, 5)]);
    let aggs = vec![AggExpr { func: AggFuncKind::Sum, expr: Expr::column_ref(1) }];
    let sagg =
        StreamAggExecutor::new(vec![Expr::column_ref(0)], aggs, EvalContext::new(), scan).unwrap();
    let got = drain_binaries(sagg, &[]);
    let mut first = encode_values(&vec![Datum::I64(30)]);
    first.extend_from_slice(&encode_values(&vec![Datum::I64(1)]));
    let mut second = encode_values(&vec![Datum::I64(5)]);
    second.extend_from_slice(&encode_values(&vec![Datum::I64(2)]));
    assert_eq!(got, vec![first, second]);
}

#[test]
fn s5_hash_agg_first_seen_order() {
    // permuted input: group 2 appears first
    let scan = gv_scan(9, &[(1, 2, 5), (2, 1, 10), (3, 1, 20)]);
    let aggs = vec![AggExpr { func: AggFuncKind::Sum, expr: Expr::column_ref(1) }];
    let hagg =
        HashAggExecutor::new(vec![Expr::column_ref(0)], aggs, EvalContext::new(), scan).unwrap();
    let got = drain_binaries(hagg, &[]);
    let mut g2 = encode_values(&vec![Datum::I64(5)]);
    g2.extend_from_slice(&encode_values(&vec![Datum::I64(2)]));
    let mut g1 = encode_values(&vec![Datum::I64(30)]);
    g1.extend_from_slice(&encode_values(&vec![Datum::I64(1)]));
    assert_eq!(got, vec![g2, g1]);
}

#[test]
fn s6_missing_not_null_column_fails() {
    let mut store = MemStore::new();
    // the row body omits column 2 entirely
    store.put(encode_row_key(4, 1), encode_row(&vec![], &vec![]).unwrap());
    let mut missing = col(2, false);
    missing.flag = cop_dag::schema::FLAG_NOT_NULL;
    let cols = vec![col(1, true), missing];
    let mut scan =
        TableScanExecutor::table_scan(cols, vec![get_range(4, 0, i64::MAX)], store, false);
    let row = scan.next().unwrap().unwrap();
    match row.get_binary(&[0, 1]) {
        Err(Error::MissingColumn { column_id, handle }) => {
            assert_eq!(column_id, 2);
            assert_eq!(handle, 1);
        },
        other => panic!("expected missing column, got {:?}", other),
    }
}

#[test]
fn p1_selection_with_true_condition_equals_child() {
    let plain = drain_binaries(name_scan(7, false), &[0, 1]);
    let scan = name_scan(7, false);
    let sel =
        SelectionExecutor::new(vec![Expr::int_lit(1)], EvalContext::new(), scan).unwrap();
    let filtered = drain_binaries(sel, &[0, 1]);
    assert_eq!(plain, filtered);
}

#[test]
fn p2_limit_emits_min_of_limit_and_child() {
    let five = LimitExecutor::new(5, name_scan(7, false));
    assert_eq!(drain_binaries(five, &[0]).len(), 3);
    let zero = LimitExecutor::new(0, name_scan(7, false));
    assert_eq!(drain_binaries(zero, &[0]).len(), 0);
    let two = LimitExecutor::new(2, name_scan(7, false));
    assert_eq!(drain_binaries(two, &[0]).len(), 2);
}

#[test]
fn p3_topn_ascending_orders_prefix() {
    let scan = gv_scan(3, &[(1, 9, 0), (2, 4, 0), (3, 6, 0), (4, 1, 0)]);
    let order = vec![(Expr::column_ref(0), false)];
    let topn = TopNExecutor::new(order, 3, EvalContext::new(), scan).unwrap();
    let got = drain_binaries(topn, &[0]);
    assert_eq!(got, vec![enc(&Datum::I64(1)), enc(&Datum::I64(4)), enc(&Datum::I64(6))]);
}

#[test]
fn p5_stream_and_hash_agree_on_group_sums() {
    let sorted = [(1i64, 1i64, 10i64), (2, 1, 20), (3, 2, 5)];
    let permuted = [(1i64, 2i64, 5i64), (2, 1, 20), (3, 1, 10)];
    let aggs = || vec![AggExpr { func: AggFuncKind::Sum, expr: Expr::column_ref(1) }];
    let sagg = StreamAggExecutor::new(
        vec![Expr::column_ref(0)],
        aggs(),
        EvalContext::new(),
        gv_scan(9, &sorted),
    )
    .unwrap();
    let hagg = HashAggExecutor::new(
        vec![Expr::column_ref(0)],
        aggs(),
        EvalContext::new(),
        gv_scan(9, &permuted),
    )
    .unwrap();
    let mut a = drain_binaries(sagg, &[]);
    let mut b = drain_binaries(hagg, &[]);
    a.sort();
    b.sort();
    assert_eq!(a, b);
}

#[test]
fn p6_visitor_collects_offsets_and_rejects_overflow() {
    let mut v = ExprColumnRefVisitor::new(3);
    let e = Expr::binop(
        ExprType::Gt,
        Expr::column_ref(2),
        Expr::binop(ExprType::Eq, Expr::column_ref(0), Expr::column_ref(2)),
    );
    v.visit(&e).unwrap();
    let mut offsets = v.column_offsets();
    offsets.sort();
    assert_eq!(offsets, vec![0usize, 2usize]);

    let mut v2 = ExprColumnRefVisitor::new(3);
    assert_eq!(v2.visit(&Expr::column_ref(3)).unwrap_err(), Error::OffsetOutOfRange);
    let mut v3 = ExprColumnRefVisitor::new(3);
    assert_eq!(v3.visit(&Expr::column_ref(-1)).unwrap_err(), Error::OffsetOutOfRange);
    let mut v4 = ExprColumnRefVisitor::new(3);
    let bad = Expr::leaf(ExprType::ColumnRef, vec![1, 2]);
    assert_eq!(v4.visit(&bad).unwrap_err(), Error::Codec);
}

#[test]
fn p7_scan_emits_keys_in_order_across_ranges() {
    let cols = vec![col(1, true), col(2, false)];
    let ranges = vec![get_range(7, 0, 2), get_range(7, 2, 100)];
    let mut scan = TableScanExecutor::table_scan(cols, ranges, name_store(7), false);
    let mut handles = Vec::new();
    while let Some(row) = scan.next().unwrap() {
        match row {
            Row::Origin(o) => handles.push(o.handle),
            _ => panic!("expected scanned row"),
        }
    }
    assert_eq!(handles, vec![1, 2, 3]);

    let cols = vec![col(1, true), col(2, false)];
    let ranges = vec![get_range(7, 0, 2), get_range(7, 2, 100)];
    let mut scan = TableScanExecutor::table_scan(cols, ranges, name_store(7), true);
    let mut handles = Vec::new();
    while let Some(row) = scan.next().unwrap() {
        match row {
            Row::Origin(o) => handles.push(o.handle),
            _ => panic!("expected scanned row"),
        }
    }
    assert_eq!(handles, vec![3, 2, 1]);
}

#[test]
fn aggregates_exact_values() {
    let rows = [(1i64, 1i64, 10i64), (2, 1, -3), (3, 1, 7)];
    let aggs = vec![
        AggExpr { func: AggFuncKind::Count, expr: Expr::column_ref(1) },
        AggExpr { func: AggFuncKind::Sum, expr: Expr::column_ref(1) },
        AggExpr { func: AggFuncKind::Avg, expr: Expr::column_ref(1) },
        AggExpr { func: AggFuncKind::Min, expr: Expr::column_ref(1) },
        AggExpr { func: AggFuncKind::Max, expr: Expr::column_ref(1) },
        AggExpr { func: AggFuncKind::First, expr: Expr::column_ref(1) },
    ];
    let sagg = StreamAggExecutor::new(
        vec![Expr::column_ref(0)],
        aggs,
        EvalContext::new(),
        gv_scan(9, &rows),
    )
    .unwrap();
    let got = drain_binaries(sagg, &[]);
    let mut expect = encode_values(&vec![
        Datum::U64(3),
        Datum::I64(14),
        Datum::U64(3),
        Datum::I64(14),
        Datum::I64(-3),
        Datum::I64(10),
        Datum::I64(10),
    ]);
    expect.extend_from_slice(&encode_values(&vec![Datum::I64(1)]));
    assert_eq!(got, vec![expect]);
}

#[test]
fn empty_child_yields_no_groups_and_no_rows() {
    let scan = gv_scan(9, &[]);
    let aggs = vec![AggExpr { func: AggFuncKind::Sum, expr: Expr::column_ref(1) }];
    let sagg =
        StreamAggExecutor::new(vec![Expr::column_ref(0)], aggs, EvalContext::new(), scan).unwrap();
    assert_eq!(drain_binaries(sagg, &[]).len(), 0);

    let scan = gv_scan(9, &[]);
    let aggs = vec![AggExpr { func: AggFuncKind::Sum, expr: Expr::column_ref(1) }];
    let hagg =
        HashAggExecutor::new(vec![Expr::column_ref(0)], aggs, EvalContext::new(), scan).unwrap();
    assert_eq!(drain_binaries(hagg, &[]).len(), 0);

    let topn = TopNExecutor::new(
        vec![(Expr::column_ref(0), false)],
        5,
        EvalContext::new(),
        gv_scan(9, &[]),
    )
    .unwrap();
    assert_eq!(drain_binaries(topn, &[0]).len(), 0);
}

#[test]
fn selection_rejects_out_of_range_condition() {
    let scan = name_scan(7, false);
    let cond = Expr::binop(ExprType::Gt, Expr::column_ref(9), Expr::int_lit(1));
    match SelectionExecutor::new(vec![cond], EvalContext::new(), scan) {
        Err(Error::OffsetOutOfRange) => {},
        other => panic!("expected offset error, got {:?}", other.is_ok()),
    }
}

#[test]
fn selection_treats_null_comparison_as_false() {
    // column 2 absent from the stored row and nullable: inflates to null
    let mut store = MemStore::new();
    store.put(encode_row_key(4, 1), encode_row(&vec![], &vec![]).unwrap());
    let cols = vec![col(1, true), col(2, false)];
    let scan = TableScanExecutor::table_scan(cols, vec![get_range(4, 0, 10)], store, false);
    let cond = Expr::binop(ExprType::Gt, Expr::column_ref(1), Expr::int_lit(0));
    let sel = SelectionExecutor::new(vec![cond], EvalContext::new(), scan).unwrap();
    assert_eq!(drain_binaries(sel, &[0]).len(), 0);
}

#[test]
fn sum_over_bytes_is_an_eval_error() {
    let mut store = MemStore::new();
    let value = encode_row(
        &vec![Datum::I64(1), Datum::Bytes(b"zz".to_vec())],
        &vec![1, 2],
    )
    .unwrap();
    store.put(encode_row_key(4, 1), value);
    let cols = vec![col(1, false), col(2, false)];
    let scan = TableScanExecutor::table_scan(cols, vec![get_range(4, 0, 10)], store, false);
    let aggs = vec![AggExpr { func: AggFuncKind::Sum, expr: Expr::column_ref(1) }];
    let mut sagg =
        StreamAggExecutor::new(vec![Expr::column_ref(0)], aggs, EvalContext::new(), scan).unwrap();
    assert_eq!(sagg.next().unwrap_err(), Error::Eval);
}

#[test]
fn counters_and_side_channels() {
    let mut scan = name_scan(7, false);
    scan.start_scan();
    assert!(scan.next().unwrap().is_some());
    let mut counts = Vec::new();
    scan.collect_output_counts(&mut counts);
    assert_eq!(counts, vec![1i64]);
    let consumed = scan.stop_scan().unwrap();
    assert_eq!(consumed.start, encode_row_key(7, 0));
    assert_eq!(consumed.end, encode_row_key(7, 1));
    assert_eq!(scan.get_len_of_columns(), 2);

    let mut sel = SelectionExecutor::new(
        vec![Expr::int_lit(1)],
        EvalContext::new(),
        name_scan(7, false),
    )
    .unwrap();
    assert!(sel.take_eval_warnings().is_none());
    assert!(sel.stop_scan().is_none());
}

#[test]
fn default_value_fills_missing_column() {
    let mut store = MemStore::new();
    store.put(encode_row_key(4, 1), encode_row(&vec![], &vec![]).unwrap());
    let mut with_default = col(2, false);
    with_default.default_val = Some(enc(&Datum::I64(99)));
    let cols = vec![col(1, true), with_default];
    let mut scan =
        TableScanExecutor::table_scan(cols, vec![get_range(4, 0, 10)], store, false);
    let row = scan.next().unwrap().unwrap();
    assert_eq!(row.get_binary(&[1]).unwrap(), enc(&Datum::I64(99)));
}

#[test]
fn index_scan_non_unique_reads_handle_from_key() {
    // index over one i64 column; non-unique: handle trails the key
    let mut store = MemStore::new();
    for (v, h) in [(5i64, 1i64), (5, 2), (9, 3)] {
        let key = encode_index_key(4, 1, &vec![Datum::I64(v)], Some(h));
        store.put(key, Vec::new());
    }
    let lo = encode_index_key(4, 1, &vec![], None);
    let hi = encode_index_key(4, 2, &vec![], None);
    let cols = vec![col(1, false)];
    let ranges = vec![KeyRange { start: lo, end: hi }];
    let mut scan = IndexScanExecutor::index_scan(cols, ranges, store, false, false);
    let mut seen = Vec::new();
    while let Some(row) = scan.next().unwrap() {
        match row {
            Row::Origin(o) => {
                seen.push((o.handle, o.data.get(1).unwrap().clone()));
            },
            _ => panic!("expected scanned row"),
        }
    }
    assert_eq!(
        seen,
        vec![(1, enc(&Datum::I64(5))), (2, enc(&Datum::I64(5))), (3, enc(&Datum::I64(9)))]
    );
}

#[test]
fn index_scan_unique_reads_handle_from_value() {
    let mut store = MemStore::new();
    for (v, h) in [(5i64, 1i64), (9, 3)] {
        let key = encode_index_key(4, 1, &vec![Datum::I64(v)], None);
        store.put(key, enc(&Datum::I64(h)));
    }
    let lo = encode_index_key(4, 1, &vec![], None);
    let hi = encode_index_key(4, 2, &vec![], None);
    let cols = vec![col(1, false)];
    let ranges = vec![KeyRange { start: lo, end: hi }];
    let mut scan = IndexScanExecutor::index_scan(cols, ranges, store, false, true);
    let mut handles = Vec::new();
    while let Some(row) = scan.next().unwrap() {
        match row {
            Row::Origin(o) => handles.push(o.handle),
            _ => panic!("expected scanned row"),
        }
    }
    assert_eq!(handles, vec![1, 3]);
}

#[test]
fn index_scan_rejects_malformed_entry() {
    let mut store = MemStore::new();
    store.put(b"shortkey".to_vec(), Vec::new());
    let cols = vec![col(1, false)];
    let ranges = vec![KeyRange { start: Vec::new(), end: vec![0xffu8; 4] }];
    let mut scan = IndexScanExecutor::index_scan(cols, ranges, store, false, false);
    assert_eq!(scan.next().unwrap_err(), Error::Codec);
}

#[test]
fn spdk_env_carries_configuration() {
    let env = cop_dag::spdk::get_env(b"fs", b"conf", b"bdev", 512);
    assert_eq!(env.fsname, b"fs".to_vec());
    assert_eq!(env.confname, b"conf".to_vec());
    assert_eq!(env.bdevname, b"bdev".to_vec());
    assert_eq!(env.cache_size_in_mb, 512);
}
