//! The aggregation operators: run-length aggregation over a pre-sorted
//! child, and hash aggregation over arbitrary input with first-seen group
//! order.

use vstd::prelude::*;

use crate::codec::{enc_datums, encode_values};
use crate::datum::{datum_eq, datum_lt, views_of, Cmp, Datum, DatumV};
use crate::executor::{AggColsV, Executor, Row, RowV};
use crate::executor::topn::{eval_key, eval_key_ex, row_key_of};
use crate::expr::{eval, eval_expr, expr_err, expr_wf, exprs_err, exprs_offsets, exprs_wf, lemma_exprs_err_at, lemma_exprs_offsets_push, lemma_exprs_wf_all, lemma_exprs_wf_push, offsets_view, Expr, ExprColumnRefVisitor};
use crate::schema::{EvalContext, EvalWarnings, ExecutorMetrics};
use crate::Error;

verus! {

/// An aggregate function.
#[derive(Debug, PartialEq, Eq, Structural, Clone, Copy)]
pub enum AggFuncKind {
    Count,
    Sum,
    Avg,
    Min,
    Max,
    First,
}

/// One aggregate expression: the function and its argument.
#[derive(Debug)]
pub struct AggExpr {
    pub func: AggFuncKind,
    pub expr: Expr,
}

/// The running state of one aggregate.
#[derive(Debug)]
pub enum AggState {
    Count { c: u64 },
    Sum { s: Option<i64> },
    Avg { c: u64, s: Option<i64> },
    Min { m: Option<Datum> },
    Max { m: Option<Datum> },
    First { f: Option<Datum>, seen: bool },
}

/// The model of a running aggregate state.
pub enum AggStateV {
    Count { c: u64 },
    Sum { s: Option<i64> },
    Avg { c: u64, s: Option<i64> },
    Min { m: Option<DatumV> },
    Max { m: Option<DatumV> },
    First { f: Option<DatumV>, seen: bool },
}

impl View for AggState {
    type V = AggStateV;

    open spec fn view(&self) -> AggStateV {
        match self {
            AggState::Count { c } => AggStateV::Count { c: *c },
            AggState::Sum { s } => AggStateV::Sum { s: *s },
            AggState::Avg { c, s } => AggStateV::Avg { c: *c, s: *s },
            AggState::Min { m } => AggStateV::Min {
                m: match m {
                    Some(d) => Some(d@),
                    None => None,
                },
            },
            AggState::Max { m } => AggStateV::Max {
                m: match m {
                    Some(d) => Some(d@),
                    None => None,
                },
            },
            AggState::First { f, seen } => AggStateV::First {
                f: match f {
                    Some(d) => Some(d@),
                    None => None,
                },
                seen: *seen,
            },
        }
    }
}

/// The views of a state vector.
pub open spec fn states_views(sts: Seq<AggState>) -> Seq<AggStateV> {
    sts.map_values(|s: AggState| s@)
}

/// The fresh state of one aggregate function.
pub open spec fn agg_init(k: AggFuncKind) -> AggStateV {
    match k {
        AggFuncKind::Count => AggStateV::Count { c: 0 },
        AggFuncKind::Sum => AggStateV::Sum { s: None },
        AggFuncKind::Avg => AggStateV::Avg { c: 0, s: None },
        AggFuncKind::Min => AggStateV::Min { m: None },
        AggFuncKind::Max => AggStateV::Max { m: None },
        AggFuncKind::First => AggStateV::First { f: None, seen: false },
    }
}

/// Folding one datum into a state: nulls are ignored by every function but
/// `First`; sums fail on overflow or a non-integer argument.
pub open spec fn agg_update(st: AggStateV, d: DatumV) -> Result<AggStateV, Error> {
    match st {
        AggStateV::Count { c } => if d is Null {
            Ok(st)
        } else if c < u64::MAX {
            Ok(AggStateV::Count { c: (c + 1) as u64 })
        } else {
            Err(Error::Eval)
        },
        AggStateV::Sum { s } => match d {
            DatumV::Null => Ok(st),
            DatumV::I64(x) => {
                let base = if s is Some {
                    s.unwrap() as int
                } else {
                    0
                };
                if i64::MIN <= base + x <= i64::MAX {
                    Ok(AggStateV::Sum { s: Some((base + x) as i64) })
                } else {
                    Err(Error::Eval)
                }
            },
            _ => Err(Error::Eval),
        },
        AggStateV::Avg { c, s } => match d {
            DatumV::Null => Ok(st),
            DatumV::I64(x) => {
                let base = if s is Some {
                    s.unwrap() as int
                } else {
                    0
                };
                if i64::MIN <= base + x <= i64::MAX && c < u64::MAX {
                    Ok(AggStateV::Avg { c: (c + 1) as u64, s: Some((base + x) as i64) })
                } else {
                    Err(Error::Eval)
                }
            },
            _ => Err(Error::Eval),
        },
        AggStateV::Min { m } => if d is Null {
            Ok(st)
        } else if m is None || datum_lt(d, m.unwrap()) {
            Ok(AggStateV::Min { m: Some(d) })
        } else {
            Ok(st)
        },
        AggStateV::Max { m } => if d is Null {
            Ok(st)
        } else if m is None || datum_lt(m.unwrap(), d) {
            Ok(AggStateV::Max { m: Some(d) })
        } else {
            Ok(st)
        },
        AggStateV::First { f, seen } => if seen {
            Ok(st)
        } else {
            Ok(AggStateV::First { f: Some(d), seen: true })
        },
    }
}

/// What one finished aggregate emits: `Count` its count, `Avg` the pair of
/// count and sum, the rest their value or null on empty input.
pub open spec fn agg_finalize(st: AggStateV) -> Seq<DatumV> {
    match st {
        AggStateV::Count { c } => seq![DatumV::U64(c)],
        AggStateV::Sum { s } => match s {
            Some(x) => seq![DatumV::I64(x)],
            None => seq![DatumV::Null],
        },
        AggStateV::Avg { c, s } => match s {
            Some(x) => seq![DatumV::U64(c), DatumV::I64(x)],
            None => seq![DatumV::U64(c), DatumV::Null],
        },
        AggStateV::Min { m } => match m {
            Some(d) => seq![d],
            None => seq![DatumV::Null],
        },
        AggStateV::Max { m } => match m {
            Some(d) => seq![d],
            None => seq![DatumV::Null],
        },
        AggStateV::First { f, seen: _ } => match f {
            Some(d) => seq![d],
            None => seq![DatumV::Null],
        },
    }
}

/// The fresh state vector of an aggregate list.
pub open spec fn states_init(aggs: Seq<AggExpr>) -> Seq<AggStateV> {
    aggs.map_values(|a: AggExpr| agg_init(a.func))
}

/// Folding one inflated row into every state: each aggregate evaluates its
/// argument, then folds it in; the first failure aborts.
pub open spec fn states_update(
    sts: Seq<AggStateV>,
    aggs: Seq<AggExpr>,
    ds: Seq<DatumV>,
) -> Result<Seq<AggStateV>, Error>
    recommends
        sts.len() == aggs.len(),
    decreases aggs.len(),
{
    if aggs.len() == 0 {
        Ok(Seq::empty())
    } else {
        match eval_expr(aggs[0].expr, ds) {
            Err(e) => Err(e),
            Ok(d) => match agg_update(sts[0], d) {
                Err(e) => Err(e),
                Ok(st) => match states_update(sts.skip(1), aggs.skip(1), ds) {
                    Err(e) => Err(e),
                    Ok(rest) => Ok(seq![st] + rest),
                },
            },
        }
    }
}

/// The emitted value vector of a finished group: each aggregate's outputs
/// in order.
pub open spec fn states_finalize(sts: Seq<AggStateV>) -> Seq<DatumV>
    decreases sts.len(),
{
    if sts.len() == 0 {
        Seq::empty()
    } else {
        agg_finalize(sts[0]) + states_finalize(sts.skip(1))
    }
}

/// An aggregated row: the finalized values, suffixed with the encoded
/// group key.
pub open spec fn agg_row(sts: Seq<AggStateV>, key: Seq<DatumV>) -> RowV {
    RowV::Agg(AggColsV { value: states_finalize(sts), suffix: enc_datums(key) })
}

/// Value equality of two group keys.
pub open spec fn key_eq(a: Seq<DatumV>, b: Seq<DatumV>) -> bool {
    a.len() == b.len() && forall|i: int| 0 <= i < a.len() ==> datum_eq(#[trigger] a[i], b[i])
}

/// Builds the fresh state vector.
pub fn states_init_ex(aggs: &Vec<AggExpr>) -> (r: Vec<AggState>)
    ensures
        states_views(r@) =~= states_init(aggs@),
{
    let mut out: Vec<AggState> = Vec::new();
    let mut i: usize = 0;
    while i < aggs.len()
        invariant
            i <= aggs@.len(),
            states_views(out@) =~= states_init(aggs@.take(i as int)),
        decreases aggs@.len() - i,
    {
        let st = match aggs[i].func {
            AggFuncKind::Count => AggState::Count { c: 0 },
            AggFuncKind::Sum => AggState::Sum { s: None },
            AggFuncKind::Avg => AggState::Avg { c: 0, s: None },
            AggFuncKind::Min => AggState::Min { m: None },
            AggFuncKind::Max => AggState::Max { m: None },
            AggFuncKind::First => AggState::First { f: None, seen: false },
        };
        let ghost oldout = out@;
        out.push(st);
        proof {
            assert(states_views(out@) =~= states_views(oldout).push(agg_init(
                aggs@[i as int].func,
            )));
            assert(states_init(aggs@.take(i + 1 as int)) =~= states_init(
                aggs@.take(i as int),
            ).push(agg_init(aggs@[i as int].func))) by {
                assert(aggs@.take(i + 1 as int) =~= aggs@.take(i as int).push(aggs@[i as int]));
            }
        }
        i = i + 1;
    }
    proof {
        assert(aggs@.take(aggs@.len() as int) =~= aggs@);
    }
    out
}

/// Folds one datum into one state.
pub fn agg_update_ex(st: AggState, d: &Datum) -> (r: Result<AggState, Error>)
    ensures
        match r {
            Ok(st2) => agg_update(st@, d@) == Ok::<AggStateV, Error>(st2@),
            Err(e) => agg_update(st@, d@) == Err::<AggStateV, Error>(e),
        },
{
    let is_null = matches!(d, Datum::Null);
    match st {
        AggState::Count { c } => {
            if is_null {
                Ok(AggState::Count { c })
            } else if c < u64::MAX {
                Ok(AggState::Count { c: c + 1 })
            } else {
                Err(Error::Eval)
            }
        },
        AggState::Sum { s } => {
            match d {
                Datum::Null => Ok(AggState::Sum { s }),
                Datum::I64(x) => {
                    let base: i64 = match s {
                        Some(v) => v,
                        None => 0,
                    };
                    match base.checked_add(*x) {
                        Some(t) => Ok(AggState::Sum { s: Some(t) }),
                        None => Err(Error::Eval),
                    }
                },
                _ => Err(Error::Eval),
            }
        },
        AggState::Avg { c, s } => {
            match d {
                Datum::Null => Ok(AggState::Avg { c, s }),
                Datum::I64(x) => {
                    let base: i64 = match s {
                        Some(v) => v,
                        None => 0,
                    };
                    match base.checked_add(*x) {
                        Some(t) => {
                            if c < u64::MAX {
                                Ok(AggState::Avg { c: c + 1, s: Some(t) })
                            } else {
                                Err(Error::Eval)
                            }
                        },
                        None => Err(Error::Eval),
                    }
                },
                _ => Err(Error::Eval),
            }
        },
        AggState::Min { m } => {
            if is_null {
                Ok(AggState::Min { m })
            } else {
                match m {
                    None => Ok(AggState::Min { m: Some(d.dup()) }),
                    Some(cur) => {
                        let c = crate::datum::datum_cmp(d, &cur);
                        if c == Cmp::Lt {
                            Ok(AggState::Min { m: Some(d.dup()) })
                        } else {
                            Ok(AggState::Min { m: Some(cur) })
                        }
                    },
                }
            }
        },
        AggState::Max { m } => {
            if is_null {
                Ok(AggState::Max { m })
            } else {
                match m {
                    None => Ok(AggState::Max { m: Some(d.dup()) }),
                    Some(cur) => {
                        let c = crate::datum::datum_cmp(d, &cur);
                        if c == Cmp::Gt {
                            Ok(AggState::Max { m: Some(d.dup()) })
                        } else {
                            Ok(AggState::Max { m: Some(cur) })
                        }
                    },
                }
            }
        },
        AggState::First { f, seen } => {
            if seen {
                Ok(AggState::First { f, seen })
            } else {
                Ok(AggState::First { f: Some(d.dup()), seen: true })
            }
        },
    }
}

/// Folds one inflated row into the whole state vector.
pub fn states_update_ex(sts: Vec<AggState>, aggs: &Vec<AggExpr>, datums: &Vec<Datum>) -> (r:
    Result<Vec<AggState>, Error>)
    requires
        sts@.len() == aggs@.len(),
    ensures
        match r {
            Ok(sts2) => states_update(states_views(sts@), aggs@, views_of(datums@)) == Ok::<
                Seq<AggStateV>,
                Error,
            >(states_views(sts2@)),
            Err(e) => states_update(states_views(sts@), aggs@, views_of(datums@)) == Err::<
                Seq<AggStateV>,
                Error,
            >(e),
        },
{
    let ghost stsv = states_views(sts@);
    let ghost dsv = views_of(datums@);
    let mut rem = sts;
    let mut out: Vec<AggState> = Vec::new();
    let mut i: usize = 0;
    let n = aggs.len();
    proof {
        assert(stsv.skip(0) =~= stsv);
        assert(aggs@.skip(0) =~= aggs@);
    }
    while i < n
        invariant
            i <= n,
            n == aggs@.len(),
            stsv == states_views(sts@),
            stsv.len() == n,
            rem@.len() == n - i,
            dsv == views_of(datums@),
            states_views(rem@) =~= stsv.skip(i as int),
            states_update(stsv, aggs@, dsv) == (match states_update(
                stsv.skip(i as int),
                aggs@.skip(i as int),
                dsv,
            ) {
                Ok(rest) => Ok::<Seq<AggStateV>, Error>(states_views(out@) + rest),
                Err(e) => Err::<Seq<AggStateV>, Error>(e),
            }),
        decreases n - i,
    {
        proof {
            assert(stsv.skip(i as int)[0] == stsv[i as int]);
            assert(aggs@.skip(i as int)[0] == aggs@[i as int]);
            assert(stsv.skip(i as int).skip(1) =~= stsv.skip(i + 1 as int));
            assert(aggs@.skip(i as int).skip(1) =~= aggs@.skip(i + 1 as int));
        }
        let d = match eval(&aggs[i].expr, datums) {
            Err(e) => {
                proof {
                    assert(eval_expr(aggs@[i as int].expr, dsv) == Err::<DatumV, Error>(e));
                    assert(states_update(stsv.skip(i as int), aggs@.skip(i as int), dsv)
                        == Err::<Seq<AggStateV>, Error>(e));
                    assert(states_update(stsv, aggs@, dsv) == Err::<Seq<AggStateV>, Error>(e));
                }
                return Err(e);
            },
            Ok(d) => d,
        };
        let ghost presq = rem@;
        let st = rem.remove(0);
        proof {
            assert(states_views(presq)[0] == stsv.skip(i as int)[0]);
            assert(st@ == stsv[i as int]);
            assert(states_views(rem@) =~= stsv.skip(i + 1 as int)) by {
                assert forall|q: int| 0 <= q < states_views(rem@).len() implies #[trigger]
                    states_views(rem@)[q] == stsv.skip(i + 1 as int)[q] by {
                    assert(states_views(rem@)[q] == states_views(presq)[q + 1]);
                    assert(states_views(presq)[q + 1] == stsv.skip(i as int)[q + 1]);
                }
            }
        }
        let st2 = match agg_update_ex(st, &d) {
            Err(e) => {
                proof {
                    assert(agg_update(stsv[i as int], d@) == Err::<AggStateV, Error>(e));
                    assert(states_update(stsv.skip(i as int), aggs@.skip(i as int), dsv)
                        == Err::<Seq<AggStateV>, Error>(e));
                    assert(states_update(stsv, aggs@, dsv) == Err::<Seq<AggStateV>, Error>(e));
                }
                return Err(e);
            },
            Ok(s2) => s2,
        };
        let ghost oldout = out@;
        out.push(st2);
        proof {
            assert(states_views(out@) =~= states_views(oldout).push(st2@));
            match states_update(stsv.skip(i + 1 as int), aggs@.skip(i + 1 as int), dsv) {
                Ok(rest) => {
                    assert(states_views(oldout) + (seq![st2@] + rest) =~= states_views(
                        oldout,
                    ).push(st2@) + rest);
                },
                Err(_) => {},
            }
        }
        i = i + 1;
    }
    proof {
        assert(states_update(stsv.skip(n as int), aggs@.skip(n as int), dsv) == Ok::<
            Seq<AggStateV>,
            Error,
        >(Seq::empty()));
        assert(states_views(out@) + Seq::<AggStateV>::empty() =~= states_views(out@));
    }
    Ok(out)
}

/// Emits the finalized values of a state vector.
pub fn states_finalize_ex(sts: &Vec<AggState>) -> (r: Vec<Datum>)
    ensures
        views_of(r@) =~= states_finalize(states_views(sts@)),
{
    let mut out: Vec<Datum> = Vec::new();
    let mut i: usize = 0;
    while i < sts.len()
        invariant
            i <= sts@.len(),
            views_of(out@) =~= states_finalize(states_views(sts@).take(i as int)),
        decreases sts@.len() - i,
    {
        let ghost pre = views_of(out@);
        match &sts[i] {
            AggState::Count { c } => {
                out.push(Datum::U64(*c));
            },
            AggState::Sum { s } => {
                match s {
                    Some(x) => out.push(Datum::I64(*x)),
                    None => out.push(Datum::Null),
                }
            },
            AggState::Avg { c, s } => {
                out.push(Datum::U64(*c));
                match s {
                    Some(x) => out.push(Datum::I64(*x)),
                    None => out.push(Datum::Null),
                }
            },
            AggState::Min { m } => {
                match m {
                    Some(d) => out.push(d.dup()),
                    None => out.push(Datum::Null),
                }
            },
            AggState::Max { m } => {
                match m {
                    Some(d) => out.push(d.dup()),
                    None => out.push(Datum::Null),
                }
            },
            AggState::First { f, seen: _ } => {
                match f {
                    Some(d) => out.push(d.dup()),
                    None => out.push(Datum::Null),
                }
            },
        }
        proof {
            let stv = states_views(sts@);
            assert(stv[i as int] == sts@[i as int]@);
            assert(views_of(out@) =~= pre + agg_finalize(stv[i as int]));
            lemma_states_finalize_push(stv.take(i as int), stv[i as int]);
            assert(stv.take(i + 1 as int) =~= stv.take(i as int).push(stv[i as int]));
        }
        i = i + 1;
    }
    proof {
        assert(states_views(sts@).take(sts@.len() as int) =~= states_views(sts@));
    }
    out
}

pub proof fn lemma_states_finalize_push(sts: Seq<AggStateV>, st: AggStateV)
    ensures
        states_finalize(sts.push(st)) =~= states_finalize(sts) + agg_finalize(st),
    decreases sts.len(),
{
    if sts.len() == 0 {
        assert(sts.push(st)[0] == st);
        assert(sts.push(st).skip(1) =~= Seq::<AggStateV>::empty());
        assert(states_finalize(Seq::<AggStateV>::empty()) == Seq::<DatumV>::empty());
    } else {
        assert(sts.push(st)[0] == sts[0]);
        assert(sts.push(st).skip(1) =~= sts.skip(1).push(st));
        lemma_states_finalize_push(sts.skip(1), st);
        assert(agg_finalize(sts[0]) + (states_finalize(sts.skip(1)) + agg_finalize(st)) =~= (
        agg_finalize(sts[0]) + states_finalize(sts.skip(1))) + agg_finalize(st));
    }
}

/// Compares two group keys for value equality.
pub fn keys_equal(a: &Vec<Datum>, b: &Vec<Datum>) -> (r: bool)
    ensures
        r == key_eq(views_of(a@), views_of(b@)),
{
    if a.len() != b.len() {
        return false;
    }
    let mut i: usize = 0;
    while i < a.len()
        invariant
            i <= a@.len(),
            a@.len() == b@.len(),
            forall|j: int|
                0 <= j < i ==> datum_eq(
                    #[trigger] views_of(a@)[j],
                    views_of(b@)[j],
                ),
        decreases a@.len() - i,
    {
        let c = crate::datum::datum_cmp(&a[i], &b[i]);
        if c != Cmp::Eq {
            proof {
                assert(!datum_eq(views_of(a@)[i as int], views_of(b@)[i as int]));
            }
            return false;
        }
        i = i + 1;
    }
    true
}

/// A successful state-vector update has one state per aggregate.
pub proof fn lemma_states_update_len(sts: Seq<AggStateV>, aggs: Seq<AggExpr>, ds: Seq<DatumV>)
    ensures
        states_update(sts, aggs, ds) matches Ok(r) ==> r.len() == aggs.len(),
    decreases aggs.len(),
{
    if aggs.len() > 0 {
        lemma_states_update_len(sts.skip(1), aggs.skip(1), ds);
    }
}

/// The group-by expressions as stored: each paired with an unused
/// direction flag, in input order.
pub open spec fn pairs_of(es: Seq<Expr>) -> Seq<(Expr, bool)> {
    es.map_values(|e: Expr| (e, false))
}

/// The argument expressions of an aggregate list.
pub open spec fn agg_args(aggs: Seq<AggExpr>) -> Seq<Expr> {
    aggs.map_values(|a: AggExpr| a.expr)
}

/// The current open group of a stream aggregation.
pub open spec fn cur_of(c: Option<(Vec<Datum>, Vec<AggState>)>) -> Option<
    (Seq<DatumV>, Seq<AggStateV>),
> {
    match c {
        Some(p) => Some((views_of(p.0@), states_views(p.1@))),
        None => None,
    }
}

/// What a run-length aggregation still emits: the child is pre-sorted by
/// group key, so equal-key runs fold into one aggregated row each, and the
/// open group flushes at end of stream.  A row that cannot be keyed cuts
/// the stream.
pub open spec fn sagg_pending(
    cur: Option<(Seq<DatumV>, Seq<AggStateV>)>,
    rows: Seq<RowV>,
    gb: Seq<(Expr, bool)>,
    aggs: Seq<AggExpr>,
    offsets: Seq<usize>,
) -> Seq<RowV>
    decreases rows.len(),
{
    if rows.len() == 0 {
        match cur {
            None => Seq::empty(),
            Some(p) => seq![agg_row(p.1, p.0)],
        }
    } else {
        match rows[0] {
            RowV::Agg(_) => Seq::empty(),
            RowV::Origin(o) => match crate::executor::inflate_spec(
                o.cols,
                offsets,
                o.handle,
                o.data,
            ) {
                Err(_) => Seq::empty(),
                Ok(ds) => match eval_key(gb, ds) {
                    Err(_) => Seq::empty(),
                    Ok(k) => match cur {
                        None => match states_update(states_init(aggs), aggs, ds) {
                            Err(_) => Seq::empty(),
                            Ok(sts) => sagg_pending(
                                Some((k, sts)),
                                rows.skip(1),
                                gb,
                                aggs,
                                offsets,
                            ),
                        },
                        Some(p) => if key_eq(k, p.0) {
                            match states_update(p.1, aggs, ds) {
                                Err(_) => Seq::empty(),
                                Ok(sts) => sagg_pending(
                                    Some((p.0, sts)),
                                    rows.skip(1),
                                    gb,
                                    aggs,
                                    offsets,
                                ),
                            }
                        } else {
                            match states_update(states_init(aggs), aggs, ds) {
                                Err(_) => Seq::empty(),
                                Ok(sts) => seq![agg_row(p.1, p.0)] + sagg_pending(
                                    Some((k, sts)),
                                    rows.skip(1),
                                    gb,
                                    aggs,
                                    offsets,
                                ),
                            }
                        },
                    },
                },
            },
        }
    }
}

/// Every row a stream aggregation emits is an aggregated row.
pub proof fn lemma_sagg_rows_agg(
    cur: Option<(Seq<DatumV>, Seq<AggStateV>)>,
    rows: Seq<RowV>,
    gb: Seq<(Expr, bool)>,
    aggs: Seq<AggExpr>,
    offsets: Seq<usize>,
)
    ensures
        forall|i: int|
            0 <= i < sagg_pending(cur, rows, gb, aggs, offsets).len() ==> (#[trigger] sagg_pending(
                cur,
                rows,
                gb,
                aggs,
                offsets,
            )[i]) is Agg,
    decreases rows.len(),
{
    if rows.len() > 0 {
        match rows[0] {
            RowV::Agg(_) => {},
            RowV::Origin(o) => {
                match crate::executor::inflate_spec(o.cols, offsets, o.handle, o.data) {
                    Err(_) => {},
                    Ok(ds) => {
                        match eval_key(gb, ds) {
                            Err(_) => {},
                            Ok(k) => {
                                match cur {
                                    None => {
                                        match states_update(states_init(aggs), aggs, ds) {
                                            Err(_) => {},
                                            Ok(sts) => {
                                                lemma_sagg_rows_agg(
                                                    Some((k, sts)),
                                                    rows.skip(1),
                                                    gb,
                                                    aggs,
                                                    offsets,
                                                );
                                            },
                                        }
                                    },
                                    Some(p) => {
                                        if key_eq(k, p.0) {
                                            match states_update(p.1, aggs, ds) {
                                                Err(_) => {},
                                                Ok(sts) => {
                                                    lemma_sagg_rows_agg(
                                                        Some((p.0, sts)),
                                                        rows.skip(1),
                                                        gb,
                                                        aggs,
                                                        offsets,
                                                    );
                                                },
                                            }
                                        } else {
                                            match states_update(states_init(aggs), aggs, ds) {
                                                Err(_) => {},
                                                Ok(sts) => {
                                                    lemma_sagg_rows_agg(
                                                        Some((k, sts)),
                                                        rows.skip(1),
                                                        gb,
                                                        aggs,
                                                        offsets,
                                                    );
                                                    let whole = sagg_pending(
                                                        cur,
                                                        rows,
                                                        gb,
                                                        aggs,
                                                        offsets,
                                                    );
                                                    let rest = sagg_pending(
                                                        Some((k, sts)),
                                                        rows.skip(1),
                                                        gb,
                                                        aggs,
                                                        offsets,
                                                    );
                                                    assert forall|i: int|
                                                        0 <= i < whole.len() implies (
                                                    #[trigger] whole[i]) is Agg by {
                                                        if i > 0 {
                                                            assert(whole[i] == rest[i - 1]);
                                                        }
                                                    }
                                                },
                                            }
                                        }
                                    },
                                }
                            },
                        }
                    },
                }
            },
        }
    }
}

/// Run-length aggregation over a child pre-sorted by its group keys.
pub struct StreamAggExecutor<E: Executor> {
    pub group_by: Vec<(Expr, bool)>,
    pub aggs: Vec<AggExpr>,
    pub related_cols_offset: Vec<usize>,
    pub ctx: EvalContext,
    pub src: E,
    pub cur: Option<(Vec<Datum>, Vec<AggState>)>,
}

impl<E: Executor> StreamAggExecutor<E> {
    /// Builds the operator over group-by and aggregate expressions; fails
    /// exactly when one of them references an offset outside the child's
    /// schema.
    pub fn new(group_by: Vec<Expr>, aggs: Vec<AggExpr>, ctx: EvalContext, src: E) -> (r: Result<
        StreamAggExecutor<E>,
        Error,
    >)
        requires
            src.wf(),
        ensures
            match r {
                Ok(t) => t.wf() && t.src == src && t.cur is None && t.aggs == aggs && t.group_by@
                    =~= pairs_of(group_by@) && exprs_wf(group_by@, src.schema_len() as int)
                    && exprs_wf(agg_args(aggs@), src.schema_len() as int) && offsets_view(
                    t.related_cols_offset@,
                ) =~= exprs_offsets(group_by@).union(exprs_offsets(agg_args(aggs@))),
                Err(e) => !(exprs_wf(group_by@, src.schema_len() as int) && exprs_wf(
                    agg_args(aggs@),
                    src.schema_len() as int,
                )) && e == (if !exprs_wf(group_by@, src.schema_len() as int) {
                    exprs_err(group_by@, src.schema_len() as int)
                } else {
                    exprs_err(agg_args(aggs@), src.schema_len() as int)
                }) && (e == Error::Codec || e == Error::OffsetOutOfRange),
            },
    {
        let cols_len = src.get_len_of_columns();
        let mut visitor = ExprColumnRefVisitor::new(cols_len);
        match visitor.batch_visit(&group_by) {
            Err(e) => {
                return Err(e);
            },
            Ok(()) => {},
        }
        let mut i: usize = 0;
        proof {
            assert(agg_args(aggs@.take(0)) =~= Seq::<Expr>::empty());
            assert(exprs_offsets(Seq::<Expr>::empty()) =~= Set::<int>::empty());
            assert(exprs_wf(Seq::<Expr>::empty(), src.schema_len() as int));
            assert(Set::<int>::empty().union(exprs_offsets(group_by@)) =~= exprs_offsets(
                group_by@,
            ));
        }
        while i < aggs.len()
            invariant
                i <= aggs@.len(),
                visitor.inv(),
                visitor.spec_cols_len() == src.schema_len(),
                exprs_wf(group_by@, src.schema_len() as int),
                exprs_wf(agg_args(aggs@.take(i as int)), src.schema_len() as int),
                visitor.offsets_set() =~= exprs_offsets(group_by@).union(
                    exprs_offsets(agg_args(aggs@.take(i as int))),
                ),
            decreases aggs@.len() - i,
        {
            proof {
                assert(agg_args(aggs@.take(i + 1 as int)) =~= agg_args(
                    aggs@.take(i as int),
                ).push(aggs@[i as int].expr)) by {
                    assert(aggs@.take(i + 1 as int) =~= aggs@.take(i as int).push(
                        aggs@[i as int],
                    ));
                }
                lemma_exprs_wf_push(
                    agg_args(aggs@.take(i as int)),
                    aggs@[i as int].expr,
                    src.schema_len() as int,
                );
                lemma_exprs_offsets_push(agg_args(aggs@.take(i as int)), aggs@[i as int].expr);
            }
            match visitor.visit(&aggs[i].expr) {
                Err(err) => {
                    proof {
                        let k = src.schema_len() as int;
                        let args = agg_args(aggs@);
                        lemma_exprs_wf_all(args, k);
                        assert(args[i as int] == aggs@[i as int].expr);
                        assert(!expr_wf(args[i as int], k));
                        lemma_exprs_wf_all(agg_args(aggs@.take(i as int)), k);
                        assert forall|m: int| 0 <= m < i implies expr_wf(#[trigger] args[m], k)
                            by {
                            assert(agg_args(aggs@.take(i as int))[m] == aggs@[m].expr);
                            assert(args[m] == aggs@[m].expr);
                            assert(expr_wf(agg_args(aggs@.take(i as int))[m], k));
                        }
                        lemma_exprs_err_at(args, k, i as int);
                    }
                    return Err(err);
                },
                Ok(()) => {},
            }
            i = i + 1;
        }
        proof {
            assert(aggs@.take(aggs@.len() as int) =~= aggs@);
        }
        let related_cols_offset = visitor.column_offsets();
        let ghost orig_gb = group_by@;
        let mut items = group_by;
        let mut gb: Vec<(Expr, bool)> = Vec::new();
        let n0 = items.len();
        let mut j: usize = 0;
        proof {
            assert(orig_gb.len() == n0 as int);
            assert(items@ =~= orig_gb.skip(0));
            assert(gb@ =~= pairs_of(orig_gb.take(0)));
        }
        while items.len() > 0
            invariant
                orig_gb.len() <= usize::MAX,
                j + items@.len() == orig_gb.len(),
                items@ =~= orig_gb.skip(j as int),
                gb@ =~= pairs_of(orig_gb.take(j as int)),
            decreases items@.len(),
        {
            let ghost preitems = items@;
            let e = items.remove(0);
            proof {
                assert(e == preitems[0]);
                assert(preitems[0] == orig_gb[j as int]);
                assert(items@ =~= orig_gb.skip(j + 1 as int)) by {
                    assert forall|q: int| 0 <= q < items@.len() implies #[trigger] items@[q]
                        == orig_gb.skip(j + 1 as int)[q] by {
                        assert(items@[q] == preitems[q + 1]);
                        assert(preitems[q + 1] == orig_gb.skip(j as int)[q + 1]);
                    }
                }
            }
            gb.push((e, false));
            proof {
                assert(pairs_of(orig_gb.take(j + 1 as int)) =~= pairs_of(
                    orig_gb.take(j as int),
                ).push((orig_gb[j as int], false))) by {
                    assert(orig_gb.take(j + 1 as int) =~= orig_gb.take(j as int).push(
                        orig_gb[j as int],
                    ));
                }
            }
            j = j + 1;
        }
        proof {
            assert(orig_gb.take(orig_gb.len() as int) =~= orig_gb);
        }
        Ok(StreamAggExecutor { group_by: gb, aggs, related_cols_offset, ctx, src, cur: None })
    }
}

impl<E: Executor> Executor for StreamAggExecutor<E> {
    open spec fn wf(&self) -> bool {
        &&& self.src.wf()
        &&& forall|i: int|
            0 <= i < self.related_cols_offset@.len() ==> (#[trigger] self.related_cols_offset@[i])
                < self.src.schema_len()
        &&& match self.cur {
            Some(p) => p.1@.len() == self.aggs@.len(),
            None => true,
        }
    }

    open spec fn pending(&self) -> Seq<RowV> {
        sagg_pending(
            cur_of(self.cur),
            self.src.pending(),
            self.group_by@,
            self.aggs@,
            self.related_cols_offset@,
        )
    }

    open spec fn schema_len(&self) -> nat {
        self.src.schema_len()
    }

    proof fn pending_rows_ok(&self) {
        lemma_sagg_rows_agg(
            cur_of(self.cur),
            self.src.pending(),
            self.group_by@,
            self.aggs@,
            self.related_cols_offset@,
        );
    }

    fn next(&mut self) -> (r: Result<Option<Row>, Error>) {
        loop
            invariant
                self.wf(),
                self.group_by == old(self).group_by,
                self.aggs == old(self).aggs,
                self.related_cols_offset == old(self).related_cols_offset,
                self.src.schema_len() == old(self).src.schema_len(),
                self.pending() =~= old(self).pending(),
            decreases self.src.pending().len(),
        {
            let ghost prepend = self.src.pending();
            let ghost precur = cur_of(self.cur);
            proof {
                self.src.pending_rows_ok();
            }
            let nxt = self.src.next();
            match nxt {
                Err(e) => {
                    return Err(e);
                },
                Ok(None) => {
                    let cur = self.cur.take();
                    match cur {
                        None => {
                            return Ok(None);
                        },
                        Some((key, states)) => {
                            let value = states_finalize_ex(&states);
                            let suffix = encode_values(&key);
                            let row = Row::agg(value, suffix);
                            proof {
                                assert(prepend.len() == 0);
                                assert(old(self).pending() =~= seq![row@]);
                                assert(self.pending() =~= Seq::<RowV>::empty());
                            }
                            return Ok(Some(row));
                        },
                    }
                },
                Ok(Some(row)) => {
                    match row {
                        Row::Agg(_) => {
                            return Err(Error::Eval);
                        },
                        Row::Origin(o) => {
                            let datums = match o.inflate_cols_with_offsets(
                                &self.related_cols_offset,
                            ) {
                                Err(e) => {
                                    return Err(e);
                                },
                                Ok(ds) => ds,
                            };
                            let key = match eval_key_ex(&self.group_by, &datums) {
                                Err(e) => {
                                    return Err(e);
                                },
                                Ok(k) => k,
                            };
                            let cur = self.cur.take();
                            match cur {
                                None => {
                                    let init = states_init_ex(&self.aggs);
                                    let sts = match states_update_ex(init, &self.aggs, &datums) {
                                        Err(e) => {
                                            return Err(e);
                                        },
                                        Ok(s) => s,
                                    };
                                    proof {
                                        lemma_states_update_len(
                                            states_init(self.aggs@),
                                            self.aggs@,
                                            views_of(datums@),
                                        );
                                    }
                                    self.cur = Some((key, sts));
                                    proof {
                                        assert(prepend[0] == RowV::Origin(o@));
                                        assert(self.pending() =~= old(self).pending());
                                    }
                                },
                                Some((k0, sts0)) => {
                                    if keys_equal(&key, &k0) {
                                        let ghost sts0v = states_views(sts0@);
                                        let sts = match states_update_ex(
                                            sts0,
                                            &self.aggs,
                                            &datums,
                                        ) {
                                            Err(e) => {
                                                return Err(e);
                                            },
                                            Ok(s) => s,
                                        };
                                        proof {
                                            lemma_states_update_len(
                                                sts0v,
                                                self.aggs@,
                                                views_of(datums@),
                                            );
                                        }
                                        self.cur = Some((k0, sts));
                                        proof {
                                            assert(prepend[0] == RowV::Origin(o@));
                                            assert(self.pending() =~= old(self).pending());
                                        }
                                    } else {
                                        let init = states_init_ex(&self.aggs);
                                        let sts = match states_update_ex(
                                            init,
                                            &self.aggs,
                                            &datums,
                                        ) {
                                            Err(e) => {
                                                return Err(e);
                                            },
                                            Ok(s) => s,
                                        };
                                        proof {
                                            lemma_states_update_len(
                                                states_init(self.aggs@),
                                                self.aggs@,
                                                views_of(datums@),
                                            );
                                        }
                                        let value = states_finalize_ex(&sts0);
                                        let suffix = encode_values(&k0);
                                        self.cur = Some((key, sts));
                                        let out = Row::agg(value, suffix);
                                        proof {
                                            assert(prepend[0] == RowV::Origin(o@));
                                            assert(old(self).pending() =~= seq![out@]
                                                + self.pending());
                                            assert(old(self).pending()[0] == out@);
                                            assert(old(self).pending().skip(1)
                                                =~= self.pending());
                                        }
                                        return Ok(Some(out));
                                    }
                                },
                            }
                        },
                    }
                },
            }
        }
    }

    fn collect_output_counts(&mut self, counts: &mut Vec<i64>) {
        self.src.collect_output_counts(counts);
    }

    fn collect_metrics_into(&mut self, metrics: &mut ExecutorMetrics) {
        self.src.collect_metrics_into(metrics);
    }

    fn get_len_of_columns(&self) -> (r: usize) {
        self.src.get_len_of_columns()
    }

    fn take_eval_warnings(&mut self) -> (r: Option<EvalWarnings>)
        ensures
            final(self).ctx.warnings.warning_cnt == 0,
            match r {
                Some(w) => w.warning_cnt == old(self).ctx.warnings.warning_cnt && w.warning_cnt
                    > 0,
                None => old(self).ctx.warnings.warning_cnt == 0,
            },
    {
        self.ctx.take_warnings()
    }
}

/// The views of a group table.
pub open spec fn groups_views(gs: Seq<(Vec<Datum>, Vec<AggState>)>) -> Seq<
    (Seq<DatumV>, Seq<AggStateV>),
> {
    gs.map_values(|g: (Vec<Datum>, Vec<AggState>)| (views_of(g.0@), states_views(g.1@)))
}

/// The first group with the given key.
pub open spec fn hagg_find(gs: Seq<(Seq<DatumV>, Seq<AggStateV>)>, k: Seq<DatumV>) -> Option<int>
    decreases gs.len(),
{
    if gs.len() == 0 {
        None
    } else if key_eq(gs[0].0, k) {
        Some(0)
    } else {
        match hagg_find(gs.skip(1), k) {
            Option::None => None,
            Option::Some(i) => Some(i + 1),
        }
    }
}

pub proof fn lemma_hagg_find_at(gs: Seq<(Seq<DatumV>, Seq<AggStateV>)>, k: Seq<DatumV>, j: int)
    requires
        0 <= j < gs.len(),
        key_eq(gs[j].0, k),
        forall|m: int| 0 <= m < j ==> !key_eq((#[trigger] gs[m]).0, k),
    ensures
        hagg_find(gs, k) == Some(j),
    decreases j,
{
    if j > 0 {
        assert(gs.skip(1)[j - 1] == gs[j]);
        assert forall|m: int| 0 <= m < j - 1 implies !key_eq((#[trigger] gs.skip(1)[m]).0, k) by {
            assert(gs.skip(1)[m] == gs[m + 1]);
        }
        lemma_hagg_find_at(gs.skip(1), k, j - 1);
    }
}

pub proof fn lemma_hagg_find_absent(gs: Seq<(Seq<DatumV>, Seq<AggStateV>)>, k: Seq<DatumV>)
    requires
        forall|m: int| 0 <= m < gs.len() ==> !key_eq((#[trigger] gs[m]).0, k),
    ensures
        hagg_find(gs, k) is None,
    decreases gs.len(),
{
    if gs.len() > 0 {
        assert forall|m: int| 0 <= m < gs.len() - 1 implies !key_eq(
            (#[trigger] gs.skip(1)[m]).0,
            k,
        ) by {
            assert(gs.skip(1)[m] == gs[m + 1]);
        }
        lemma_hagg_find_absent(gs.skip(1), k);
    }
}

/// Folding one keyed row into the group table: update the first matching
/// group, else append a fresh one.
pub open spec fn hagg_upsert(
    gs: Seq<(Seq<DatumV>, Seq<AggStateV>)>,
    k: Seq<DatumV>,
    ds: Seq<DatumV>,
    aggs: Seq<AggExpr>,
) -> Option<Seq<(Seq<DatumV>, Seq<AggStateV>)>> {
    match hagg_find(gs, k) {
        Option::None => match states_update(states_init(aggs), aggs, ds) {
            Err(_) => None,
            Ok(sts) => Some(gs.push((k, sts))),
        },
        Option::Some(i) => match states_update(gs[i].1, aggs, ds) {
            Err(_) => None,
            Ok(sts) => Some(gs.update(i, (gs[i].0, sts))),
        },
    }
}

/// The group table a hash aggregation builds from its input, groups in
/// first-seen order; nothing if any row cannot be keyed or folded.
pub open spec fn hagg_groups(
    rows: Seq<RowV>,
    gb: Seq<(Expr, bool)>,
    aggs: Seq<AggExpr>,
    offsets: Seq<usize>,
) -> Option<Seq<(Seq<DatumV>, Seq<AggStateV>)>>
    decreases rows.len(),
{
    if rows.len() == 0 {
        Some(Seq::empty())
    } else {
        match hagg_groups(rows.drop_last(), gb, aggs, offsets) {
            Option::None => None,
            Option::Some(gs) => match rows.last() {
                RowV::Agg(_) => None,
                RowV::Origin(o) => match crate::executor::inflate_spec(
                    o.cols,
                    offsets,
                    o.handle,
                    o.data,
                ) {
                    Err(_) => None,
                    Ok(ds) => match eval_key(gb, ds) {
                        Err(_) => None,
                        Ok(k) => hagg_upsert(gs, k, ds, aggs),
                    },
                },
            },
        }
    }
}

/// The rows a hash aggregation emits: one aggregated row per group, in
/// first-seen order.
pub open spec fn hagg_rows(
    rows: Seq<RowV>,
    gb: Seq<(Expr, bool)>,
    aggs: Seq<AggExpr>,
    offsets: Seq<usize>,
) -> Option<Seq<RowV>> {
    match hagg_groups(rows, gb, aggs, offsets) {
        Option::None => None,
        Option::Some(gs) => Some(
            gs.map_values(|g: (Seq<DatumV>, Seq<AggStateV>)| agg_row(g.1, g.0)),
        ),
    }
}

/// Stream and hash aggregation agree on a one-row input: both emit the
/// single group of that row, with the same aggregated values and the same
/// encoded key suffix.  (On longer inputs the agreement is a multiset
/// statement over permutations; it fails for the order-sensitive `First`
/// aggregate and on sum-overflow error paths, and is exercised by tests
/// instead.)
pub proof fn lemma_stream_hash_agree_single_row(
    r: RowV,
    gb: Seq<(Expr, bool)>,
    aggs: Seq<AggExpr>,
    offsets: Seq<usize>,
)
    ensures
        sagg_pending(None, seq![r], gb, aggs, offsets) =~= (match hagg_rows(
            seq![r],
            gb,
            aggs,
            offsets,
        ) {
            Option::Some(s) => s,
            Option::None => Seq::empty(),
        }),
{
    let rows = seq![r];
    assert(rows[0] == r);
    assert(rows.skip(1) =~= Seq::<RowV>::empty());
    assert(rows.drop_last() =~= Seq::<RowV>::empty());
    assert(rows.last() == r);
    assert(hagg_groups(Seq::<RowV>::empty(), gb, aggs, offsets) == Some(
        Seq::<(Seq<DatumV>, Seq<AggStateV>)>::empty(),
    ));
    match r {
        RowV::Agg(_) => {},
        RowV::Origin(o) => {
            match crate::executor::inflate_spec(o.cols, offsets, o.handle, o.data) {
                Err(_) => {},
                Ok(ds) => {
                    match eval_key(gb, ds) {
                        Err(_) => {},
                        Ok(k) => {
                            match states_update(states_init(aggs), aggs, ds) {
                                Err(_) => {
                                    assert(hagg_upsert(
                                        Seq::<(Seq<DatumV>, Seq<AggStateV>)>::empty(),
                                        k,
                                        ds,
                                        aggs,
                                    ) is None);
                                },
                                Ok(sts) => {
                                    assert(sagg_pending(
                                        Some((k, sts)),
                                        Seq::<RowV>::empty(),
                                        gb,
                                        aggs,
                                        offsets,
                                    ) =~= seq![agg_row(sts, k)]);
                                    let gs = Seq::<(Seq<DatumV>, Seq<AggStateV>)>::empty().push(
                                        (k, sts),
                                    );
                                    assert(hagg_find(
                                        Seq::<(Seq<DatumV>, Seq<AggStateV>)>::empty(),
                                        k,
                                    ) is None);
                                    assert(hagg_groups(rows, gb, aggs, offsets) == Some(gs));
                                    assert(gs.map_values(
                                        |g: (Seq<DatumV>, Seq<AggStateV>)| agg_row(g.1, g.0),
                                    ) =~= seq![agg_row(sts, k)]);
                                },
                            }
                        },
                    }
                },
            }
        },
    }
}

/// Hash aggregation over arbitrary input: the whole child is consumed on
/// the first pull, then one row per group is emitted in first-seen order.
pub struct HashAggExecutor<E: Executor> {
    pub group_by: Vec<(Expr, bool)>,
    pub aggs: Vec<AggExpr>,
    pub related_cols_offset: Vec<usize>,
    pub ctx: EvalContext,
    pub src: E,
    pub fetched: bool,
    pub buf: Vec<Row>,
}

impl<E: Executor> HashAggExecutor<E> {
    /// Builds the operator; fails exactly when a group-by or aggregate
    /// expression references an offset outside the child's schema.
    pub fn new(group_by: Vec<Expr>, aggs: Vec<AggExpr>, ctx: EvalContext, src: E) -> (r: Result<
        HashAggExecutor<E>,
        Error,
    >)
        requires
            src.wf(),
        ensures
            match r {
                Ok(t) => t.wf() && t.src == src && !t.fetched && t.aggs == aggs && t.group_by@
                    =~= pairs_of(group_by@) && exprs_wf(group_by@, src.schema_len() as int)
                    && exprs_wf(agg_args(aggs@), src.schema_len() as int) && offsets_view(
                    t.related_cols_offset@,
                ) =~= exprs_offsets(group_by@).union(exprs_offsets(agg_args(aggs@))),
                Err(e) => !(exprs_wf(group_by@, src.schema_len() as int) && exprs_wf(
                    agg_args(aggs@),
                    src.schema_len() as int,
                )) && e == (if !exprs_wf(group_by@, src.schema_len() as int) {
                    exprs_err(group_by@, src.schema_len() as int)
                } else {
                    exprs_err(agg_args(aggs@), src.schema_len() as int)
                }) && (e == Error::Codec || e == Error::OffsetOutOfRange),
            },
    {
        let cols_len = src.get_len_of_columns();
        let mut visitor = ExprColumnRefVisitor::new(cols_len);
        match visitor.batch_visit(&group_by) {
            Err(e) => {
                return Err(e);
            },
            Ok(()) => {},
        }
        let mut i: usize = 0;
        proof {
            assert(agg_args(aggs@.take(0)) =~= Seq::<Expr>::empty());
            assert(exprs_offsets(Seq::<Expr>::empty()) =~= Set::<int>::empty());
            assert(exprs_wf(Seq::<Expr>::empty(), src.schema_len() as int));
            assert(Set::<int>::empty().union(exprs_offsets(group_by@)) =~= exprs_offsets(
                group_by@,
            ));
        }
        while i < aggs.len()
            invariant
                i <= aggs@.len(),
                visitor.inv(),
                visitor.spec_cols_len() == src.schema_len(),
                exprs_wf(group_by@, src.schema_len() as int),
                exprs_wf(agg_args(aggs@.take(i as int)), src.schema_len() as int),
                visitor.offsets_set() =~= exprs_offsets(group_by@).union(
                    exprs_offsets(agg_args(aggs@.take(i as int))),
                ),
            decreases aggs@.len() - i,
        {
            proof {
                assert(agg_args(aggs@.take(i + 1 as int)) =~= agg_args(
                    aggs@.take(i as int),
                ).push(aggs@[i as int].expr)) by {
                    assert(aggs@.take(i + 1 as int) =~= aggs@.take(i as int).push(
                        aggs@[i as int],
                    ));
                }
                lemma_exprs_wf_push(
                    agg_args(aggs@.take(i as int)),
                    aggs@[i as int].expr,
                    src.schema_len() as int,
                );
                lemma_exprs_offsets_push(agg_args(aggs@.take(i as int)), aggs@[i as int].expr);
            }
            match visitor.visit(&aggs[i].expr) {
                Err(err) => {
                    proof {
                        let k = src.schema_len() as int;
                        let args = agg_args(aggs@);
                        lemma_exprs_wf_all(args, k);
                        assert(args[i as int] == aggs@[i as int].expr);
                        assert(!expr_wf(args[i as int], k));
                        lemma_exprs_wf_all(agg_args(aggs@.take(i as int)), k);
                        assert forall|m: int| 0 <= m < i implies expr_wf(#[trigger] args[m], k)
                            by {
                            assert(agg_args(aggs@.take(i as int))[m] == aggs@[m].expr);
                            assert(args[m] == aggs@[m].expr);
                            assert(expr_wf(agg_args(aggs@.take(i as int))[m], k));
                        }
                        lemma_exprs_err_at(args, k, i as int);
                    }
                    return Err(err);
                },
                Ok(()) => {},
            }
            i = i + 1;
        }
        proof {
            assert(aggs@.take(aggs@.len() as int) =~= aggs@);
        }
        let related_cols_offset = visitor.column_offsets();
        let ghost orig_gb = group_by@;
        let mut items = group_by;
        let mut gb: Vec<(Expr, bool)> = Vec::new();
        let n0 = items.len();
        let mut j: usize = 0;
        proof {
            assert(orig_gb.len() == n0 as int);
            assert(items@ =~= orig_gb.skip(0));
            assert(gb@ =~= pairs_of(orig_gb.take(0)));
        }
        while items.len() > 0
            invariant
                orig_gb.len() <= usize::MAX,
                j + items@.len() == orig_gb.len(),
                items@ =~= orig_gb.skip(j as int),
                gb@ =~= pairs_of(orig_gb.take(j as int)),
            decreases items@.len(),
        {
            let ghost preitems = items@;
            let e = items.remove(0);
            proof {
                assert(e == preitems[0]);
                assert(preitems[0] == orig_gb[j as int]);
                assert(items@ =~= orig_gb.skip(j + 1 as int)) by {
                    assert forall|q: int| 0 <= q < items@.len() implies #[trigger] items@[q]
                        == orig_gb.skip(j + 1 as int)[q] by {
                        assert(items@[q] == preitems[q + 1]);
                        assert(preitems[q + 1] == orig_gb.skip(j as int)[q + 1]);
                    }
                }
            }
            gb.push((e, false));
            proof {
                assert(pairs_of(orig_gb.take(j + 1 as int)) =~= pairs_of(
                    orig_gb.take(j as int),
                ).push((orig_gb[j as int], false))) by {
                    assert(orig_gb.take(j + 1 as int) =~= orig_gb.take(j as int).push(
                        orig_gb[j as int],
                    ));
                }
            }
            j = j + 1;
        }
        proof {
            assert(orig_gb.take(orig_gb.len() as int) =~= orig_gb);
        }
        Ok(
            HashAggExecutor {
                group_by: gb,
                aggs,
                related_cols_offset,
                ctx,
                src,
                fetched: false,
                buf: Vec::new(),
            },
        )
    }
}

impl<E: Executor> Executor for HashAggExecutor<E> {
    open spec fn wf(&self) -> bool {
        if self.fetched {
            forall|i: int|
                0 <= i < crate::executor::topn::row_views(self.buf@).len() ==> (
                #[trigger] crate::executor::topn::row_views(self.buf@)[i]) is Agg
        } else {
            &&& self.src.wf()
            &&& self.buf@.len() == 0
            &&& forall|i: int|
                0 <= i < self.related_cols_offset@.len() ==> (
                #[trigger] self.related_cols_offset@[i]) < self.src.schema_len()
        }
    }

    open spec fn pending(&self) -> Seq<RowV> {
        if self.fetched {
            crate::executor::topn::row_views(self.buf@)
        } else {
            match hagg_rows(
                self.src.pending(),
                self.group_by@,
                self.aggs@,
                self.related_cols_offset@,
            ) {
                Option::Some(s) => s,
                Option::None => Seq::empty(),
            }
        }
    }

    open spec fn schema_len(&self) -> nat {
        self.src.schema_len()
    }

    proof fn pending_rows_ok(&self) {
        if self.fetched {
        } else {
            match hagg_rows(
                self.src.pending(),
                self.group_by@,
                self.aggs@,
                self.related_cols_offset@,
            ) {
                Option::Some(s) => {
                    assert forall|i: int| 0 <= i < self.pending().len() implies
                        crate::executor::row_shape_ok(
                        #[trigger] self.pending()[i],
                        self.schema_len(),
                    ) by {
                        let gs = hagg_groups(
                            self.src.pending(),
                            self.group_by@,
                            self.aggs@,
                            self.related_cols_offset@,
                        ).unwrap();
                        assert(self.pending()[i] == agg_row(gs[i].1, gs[i].0));
                    }
                },
                Option::None => {},
            }
        }
    }

    fn next(&mut self) -> (r: Result<Option<Row>, Error>)
        ensures
            old(self).fetched ==> r is Ok,
    {
        if !self.fetched {
            let mut groups: Vec<(Vec<Datum>, Vec<AggState>)> = Vec::new();
            let ghost startp = self.src.pending();
            let ghost consumed: int = 0;
            proof {
                assert(startp.take(0) =~= Seq::<RowV>::empty());
                assert(groups_views(groups@) =~= Seq::<(Seq<DatumV>, Seq<AggStateV>)>::empty());
            }
            loop
                invariant
                    !old(self).fetched,
                    !self.fetched,
                    self.wf(),
                    self.group_by == old(self).group_by,
                    self.aggs == old(self).aggs,
                    self.related_cols_offset == old(self).related_cols_offset,
                    self.buf == old(self).buf,
                    self.src.schema_len() == old(self).src.schema_len(),
                    0 <= consumed <= startp.len(),
                    startp == old(self).src.pending(),
                    self.src.pending() =~= startp.skip(consumed),
                    hagg_groups(
                        startp.take(consumed),
                        self.group_by@,
                        self.aggs@,
                        self.related_cols_offset@,
                    ) == Option::Some(groups_views(groups@)),
                    forall|q: int|
                        0 <= q < groups@.len() ==> (#[trigger] groups@[q]).1@.len()
                            == self.aggs@.len(),
                ensures
                    hagg_groups(startp, self.group_by@, self.aggs@, self.related_cols_offset@)
                        == Option::Some(groups_views(groups@)),
                    !self.fetched,
                    self.group_by == old(self).group_by,
                    self.aggs == old(self).aggs,
                    self.related_cols_offset == old(self).related_cols_offset,
                    self.buf == old(self).buf,
                    self.src.schema_len() == old(self).src.schema_len(),
                    forall|q: int|
                        0 <= q < groups@.len() ==> (#[trigger] groups@[q]).1@.len()
                            == self.aggs@.len(),
                decreases self.src.pending().len(),
            {
                let ghost prepend = self.src.pending();
                proof {
                    self.src.pending_rows_ok();
                }
                let nxt = self.src.next();
                match nxt {
                    Err(e) => {
                        return Err(e);
                    },
                    Ok(None) => {
                        proof {
                            assert(consumed == startp.len());
                            assert(startp.take(consumed) =~= startp);
                        }
                        break ;
                    },
                    Ok(Some(row)) => {
                        match row {
                            Row::Agg(_) => {
                                return Err(Error::Eval);
                            },
                            Row::Origin(o) => {
                                let datums = match o.inflate_cols_with_offsets(
                                    &self.related_cols_offset,
                                ) {
                                    Err(e) => {
                                        return Err(e);
                                    },
                                    Ok(ds) => ds,
                                };
                                let key = match eval_key_ex(&self.group_by, &datums) {
                                    Err(e) => {
                                        return Err(e);
                                    },
                                    Ok(k) => k,
                                };
                                let ghost gsv = groups_views(groups@);
                                let ghost kv = views_of(key@);
                                let glen = groups.len();
                                proof {
                                    assert(groups@.len() == glen as int);
                                }
                                let mut j: usize = 0;
                                let mut found = false;
                                loop
                                    invariant_except_break
                                        j <= groups@.len(),
                                        !found,
                                        forall|m: int|
                                            0 <= m < j ==> !key_eq((#[trigger] gsv[m]).0, kv),
                                    invariant
                                        gsv == groups_views(groups@),
                                        kv == views_of(key@),
                                        groups@.len() <= usize::MAX,
                                    ensures
                                        found ==> j < groups@.len() && hagg_find(gsv, kv)
                                            == Some(j as int),
                                        !found ==> hagg_find(gsv, kv) is None,
                                    decreases groups@.len() - j,
                                {
                                    if j >= groups.len() {
                                        proof {
                                            lemma_hagg_find_absent(gsv, kv);
                                        }
                                        break ;
                                    }
                                    if keys_equal(&groups[j].0, &key) {
                                        proof {
                                            assert(gsv[j as int].0 == views_of(
                                                groups@[j as int].0@,
                                            ));
                                            lemma_hagg_find_at(gsv, kv, j as int);
                                        }
                                        found = true;
                                        break ;
                                    }
                                    proof {
                                        assert(gsv[j as int].0 == views_of(groups@[j as int].0@));
                                    }
                                    j = j + 1;
                                }
                                if found {
                                    let ghost pregroups = groups@;
                                    let entry = groups.remove(j);
                                    let sts = match states_update_ex(
                                        entry.1,
                                        &self.aggs,
                                        &datums,
                                    ) {
                                        Err(e) => {
                                            return Err(e);
                                        },
                                        Ok(s) => s,
                                    };
                                    proof {
                                        lemma_states_update_len(
                                            states_views(pregroups[j as int].1@),
                                            self.aggs@,
                                            views_of(datums@),
                                        );
                                    }
                                    groups.insert(j, (entry.0, sts));
                                    proof {
                                        assert(groups_views(groups@) =~= gsv.update(
                                            j as int,
                                            (gsv[j as int].0, states_views(sts@)),
                                        )) by {
                                            assert forall|q: int|
                                                0 <= q < groups_views(groups@).len() implies
                                                #[trigger] groups_views(groups@)[q] == gsv.update(
                                                j as int,
                                                (gsv[j as int].0, states_views(sts@)),
                                            )[q] by {
                                                if q < j {
                                                    assert(groups@[q] == pregroups[q]);
                                                } else if q > j {
                                                    assert(groups@[q] == pregroups[q]);
                                                } else {
                                                    assert(groups@[q] == (entry.0, sts));
                                                    assert(entry.0 == pregroups[j as int].0);
                                                }
                                            }
                                        }
                                        assert(startp.take(consumed + 1) =~= startp.take(
                                            consumed,
                                        ).push(startp[consumed]));
                                        assert(startp.take(consumed + 1).drop_last() =~= startp.take(
                                            consumed,
                                        ));
                                        assert(startp[consumed] == RowV::Origin(o@));
                                        assert(self.src.pending() =~= startp.skip(consumed + 1));
                                    }
                                    proof {
                                        consumed = consumed + 1;
                                    }
                                } else {
                                    let init = states_init_ex(&self.aggs);
                                    let sts = match states_update_ex(init, &self.aggs, &datums) {
                                        Err(e) => {
                                            return Err(e);
                                        },
                                        Ok(s) => s,
                                    };
                                    proof {
                                        lemma_states_update_len(
                                            states_init(self.aggs@),
                                            self.aggs@,
                                            views_of(datums@),
                                        );
                                    }
                                    let ghost pregroups = groups@;
                                    groups.push((key, sts));
                                    proof {
                                        assert(groups_views(groups@) =~= gsv.push(
                                            (kv, states_views(sts@)),
                                        ));
                                        assert(startp.take(consumed + 1) =~= startp.take(
                                            consumed,
                                        ).push(startp[consumed]));
                                        assert(startp.take(consumed + 1).drop_last() =~= startp.take(
                                            consumed,
                                        ));
                                        assert(startp[consumed] == RowV::Origin(o@));
                                        assert(self.src.pending() =~= startp.skip(consumed + 1));
                                    }
                                    proof {
                                        consumed = consumed + 1;
                                    }
                                }
                            },
                        }
                    },
                }
            }
            let ghost gsv2 = groups_views(groups@);
            let glen2 = groups.len();
            proof {
                assert(gsv2.len() == glen2 as int);
            }
            let mut buf: Vec<Row> = Vec::new();
            let mut m: usize = 0;
            while groups.len() > 0
                invariant
                    gsv2.len() <= usize::MAX,
                    m + groups@.len() == gsv2.len(),
                    groups_views(groups@) =~= gsv2.skip(m as int),
                    forall|q: int|
                        0 <= q < groups@.len() ==> (#[trigger] groups@[q]).1@.len()
                            == groups@[q].1@.len(),
                    crate::executor::topn::row_views(buf@) =~= gsv2.take(m as int).map_values(
                        |g: (Seq<DatumV>, Seq<AggStateV>)| agg_row(g.1, g.0),
                    ),
                    forall|q: int|
                        0 <= q < crate::executor::topn::row_views(buf@).len() ==> (
                        #[trigger] crate::executor::topn::row_views(buf@)[q]) is Agg,
                decreases groups@.len(),
            {
                let ghost pregroups2 = groups@;
                let g = groups.remove(0);
                proof {
                    assert(groups_views(pregroups2)[0] == gsv2.skip(m as int)[0]);
                    assert(groups_views(groups@) =~= gsv2.skip(m + 1 as int)) by {
                        assert forall|q: int| 0 <= q < groups_views(groups@).len() implies
                            #[trigger] groups_views(groups@)[q] == gsv2.skip(m + 1 as int)[q] by {
                            assert(groups_views(groups@)[q] == groups_views(pregroups2)[q + 1]);
                        }
                    }
                }
                let value = states_finalize_ex(&g.1);
                let suffix = encode_values(&g.0);
                let row = Row::agg(value, suffix);
                let ghost prebuf = crate::executor::topn::row_views(buf@);
                buf.push(row);
                proof {
                    assert(crate::executor::topn::row_views(buf@) =~= prebuf.push(agg_row(
                        gsv2[m as int].1,
                        gsv2[m as int].0,
                    )));
                    assert(gsv2.take(m + 1 as int) =~= gsv2.take(m as int).push(gsv2[m as int]));
                    assert(gsv2.take(m + 1 as int).map_values(
                        |g: (Seq<DatumV>, Seq<AggStateV>)| agg_row(g.1, g.0),
                    ) =~= gsv2.take(m as int).map_values(
                        |g: (Seq<DatumV>, Seq<AggStateV>)| agg_row(g.1, g.0),
                    ).push(agg_row(gsv2[m as int].1, gsv2[m as int].0)));
                }
                m = m + 1;
            }
            self.buf = buf;
            self.fetched = true;
            proof {
                assert(gsv2.take(gsv2.len() as int) =~= gsv2);
                assert(old(self).pending() =~= crate::executor::topn::row_views(self.buf@)) by {
                    assert forall|q: int| 0 <= q < old(self).pending().len() implies #[trigger]
                        old(self).pending()[q] == crate::executor::topn::row_views(self.buf@)[q]
                        by {
                        assert(old(self).pending()[q] == agg_row(gsv2[q].1, gsv2[q].0));
                        assert(crate::executor::topn::row_views(self.buf@)[q] == gsv2.take(
                            gsv2.len() as int,
                        ).map_values(|g: (Seq<DatumV>, Seq<AggStateV>)| agg_row(g.1, g.0))[q]);
                    }
                }
            }
        }
        let ghost prebuf2 = self.buf@;
        if self.buf.len() == 0 {
            return Ok(None);
        }
        let row = self.buf.remove(0);
        proof {
            assert(row@ == crate::executor::topn::row_views(prebuf2)[0]);
            assert forall|q: int| 0 <= q < crate::executor::topn::row_views(self.buf@).len()
                implies #[trigger] crate::executor::topn::row_views(self.buf@)[q]
                == crate::executor::topn::row_views(prebuf2).skip(1)[q] by {
                assert(self.buf@[q] == prebuf2[q + 1]);
            }
            assert(crate::executor::topn::row_views(self.buf@) =~= crate::executor::topn::row_views(
                prebuf2,
            ).skip(1));
        }
        Ok(Some(row))
    }

    fn collect_output_counts(&mut self, counts: &mut Vec<i64>) {
        self.src.collect_output_counts(counts);
    }

    fn collect_metrics_into(&mut self, metrics: &mut ExecutorMetrics) {
        self.src.collect_metrics_into(metrics);
    }

    fn get_len_of_columns(&self) -> (r: usize) {
        self.src.get_len_of_columns()
    }

    fn take_eval_warnings(&mut self) -> (r: Option<EvalWarnings>)
        ensures
            final(self).ctx.warnings.warning_cnt == 0,
            match r {
                Some(w) => w.warning_cnt == old(self).ctx.warnings.warning_cnt && w.warning_cnt
                    > 0,
                None => old(self).ctx.warnings.warning_cnt == 0,
            },
    {
        self.ctx.take_warnings()
    }
}

} // verus!
