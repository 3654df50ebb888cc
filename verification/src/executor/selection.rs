//! The selection operator: filters child rows by a conjunction of boolean
//! expressions, treating null as false, and preserves child order.

use vstd::prelude::*;

use crate::datum::{truthy, views_of, Datum, DatumV};
use crate::executor::{inflate_spec, row_shape_ok, Executor, Row, RowV};
use crate::expr::{eval, eval_expr, exprs_err, exprs_offsets, exprs_wf, offsets_view, Expr, ExprColumnRefVisitor};
use crate::schema::{EvalContext, EvalWarnings, ExecutorMetrics};
use crate::Error;

verus! {

/// Whether the conjunction holds of an inflated row: conditions evaluate
/// left to right, stopping at the first false, null or failure.
pub open spec fn conds_pass(conds: Seq<Expr>, row: Seq<DatumV>) -> bool
    decreases conds.len(),
{
    if conds.len() == 0 {
        true
    } else {
        match eval_expr(conds[0], row) {
            Ok(d) => truthy(d) && conds_pass(conds.skip(1), row),
            Err(_) => false,
        }
    }
}

/// Whether a child row survives the selection: only scanned rows whose
/// referenced columns inflate cleanly and whose conditions all hold.
pub open spec fn sel_pass(conds: Seq<Expr>, offsets: Seq<usize>, r: RowV) -> bool {
    match r {
        RowV::Origin(o) => match inflate_spec(o.cols, offsets, o.handle, o.data) {
            Ok(ds) => conds_pass(conds, ds),
            Err(_) => false,
        },
        RowV::Agg(_) => false,
    }
}

/// The surviving child rows, in child order.
pub open spec fn sel_pending(conds: Seq<Expr>, offsets: Seq<usize>, rows: Seq<RowV>) -> Seq<RowV>
    decreases rows.len(),
{
    if rows.len() == 0 {
        Seq::empty()
    } else if sel_pass(conds, offsets, rows[0]) {
        seq![rows[0]] + sel_pending(conds, offsets, rows.skip(1))
    } else {
        sel_pending(conds, offsets, rows.skip(1))
    }
}

/// Every selected row is one of the input rows.
pub proof fn lemma_sel_pending_shape(
    conds: Seq<Expr>,
    offsets: Seq<usize>,
    rows: Seq<RowV>,
    k: nat,
)
    requires
        forall|i: int| 0 <= i < rows.len() ==> row_shape_ok(#[trigger] rows[i], k),
    ensures
        forall|i: int|
            0 <= i < sel_pending(conds, offsets, rows).len() ==> row_shape_ok(
                #[trigger] sel_pending(conds, offsets, rows)[i],
                k,
            ),
    decreases rows.len(),
{
    if rows.len() > 0 {
        assert forall|i: int| 0 <= i < rows.skip(1).len() implies row_shape_ok(
            #[trigger] rows.skip(1)[i],
            k,
        ) by {
            assert(rows.skip(1)[i] == rows[i + 1]);
        }
        lemma_sel_pending_shape(conds, offsets, rows.skip(1), k);
        let rest = sel_pending(conds, offsets, rows.skip(1));
        if sel_pass(conds, offsets, rows[0]) {
            assert forall|i: int|
                0 <= i < sel_pending(conds, offsets, rows).len() implies row_shape_ok(
                #[trigger] sel_pending(conds, offsets, rows)[i],
                k,
            ) by {
                if i == 0 {
                    assert(sel_pending(conds, offsets, rows)[0] == rows[0]);
                } else {
                    assert(sel_pending(conds, offsets, rows)[i] == rest[i - 1]);
                }
            }
        }
    }
}

/// A selection whose single condition is the constant one keeps every row:
/// it is observationally equal to its child.
pub proof fn lemma_sel_true_is_identity(conds: Seq<Expr>, offsets: Seq<usize>, rows: Seq<RowV>)
    requires
        forall|i: int| 0 <= i < rows.len() ==> (#[trigger] rows[i]) is Origin,
        forall|i: int|
            0 <= i < rows.len() ==> inflate_spec(
                (#[trigger] rows[i])->Origin_0.cols,
                offsets,
                rows[i]->Origin_0.handle,
                rows[i]->Origin_0.data,
            ) is Ok,
        forall|row: Seq<DatumV>| conds_pass(conds, row),
    ensures
        sel_pending(conds, offsets, rows) =~= rows,
    decreases rows.len(),
{
    if rows.len() > 0 {
        assert(sel_pass(conds, offsets, rows[0]));
        assert forall|i: int| 0 <= i < rows.skip(1).len() implies (#[trigger] rows.skip(1)[i])
            is Origin && inflate_spec(
            rows.skip(1)[i]->Origin_0.cols,
            offsets,
            rows.skip(1)[i]->Origin_0.handle,
            rows.skip(1)[i]->Origin_0.data,
        ) is Ok by {
            assert(rows.skip(1)[i] == rows[i + 1]);
        }
        lemma_sel_true_is_identity(conds, offsets, rows.skip(1));
        assert(sel_pending(conds, offsets, rows) =~= seq![rows[0]] + rows.skip(1));
        assert(seq![rows[0]] + rows.skip(1) =~= rows);
    }
}

/// Evaluates the conjunction over an inflated row; fails exactly when some
/// condition fails before any returned false.
pub fn eval_conds(conds: &Vec<Expr>, row: &Vec<Datum>) -> (r: Result<bool, Error>)
    ensures
        match r {
            Ok(b) => b == conds_pass(conds@, views_of(row@)),
            Err(_) => !conds_pass(conds@, views_of(row@)),
        },
{
    let ghost rv = views_of(row@);
    let mut i: usize = 0;
    proof {
        assert(conds@.skip(0) =~= conds@);
    }
    loop
        invariant
            i <= conds@.len(),
            rv == views_of(row@),
            conds_pass(conds@, rv) == conds_pass(conds@.skip(i as int), rv),
        decreases conds@.len() - i,
    {
        if i >= conds.len() {
            proof {
                assert(conds@.skip(i as int).len() == 0);
            }
            return Ok(true);
        }
        let d = match eval(&conds[i], row) {
            Err(e) => {
                proof {
                    assert(conds@.skip(i as int)[0] == conds@[i as int]);
                }
                return Err(e);
            },
            Ok(d) => d,
        };
        let t = crate::datum::datum_truthy(&d);
        proof {
            assert(conds@.skip(i as int)[0] == conds@[i as int]);
            assert(conds@.skip(i as int).skip(1) =~= conds@.skip(i + 1 as int));
        }
        if !t {
            return Ok(false);
        }
        i = i + 1;
    }
}

/// Wraps a child and a conjunction of boolean conditions; on each pull,
/// child rows are inflated at the referenced columns, evaluated, and
/// skipped unless every condition is true.
pub struct SelectionExecutor<E: Executor> {
    pub conds: Vec<Expr>,
    pub related_cols_offset: Vec<usize>,
    pub ctx: EvalContext,
    pub src: E,
}

impl<E: Executor> SelectionExecutor<E> {
    /// Builds the operator, collecting the columns the conditions
    /// reference; fails exactly when a condition references an offset
    /// outside the child's schema.
    pub fn new(conds: Vec<Expr>, ctx: EvalContext, src: E) -> (r: Result<
        SelectionExecutor<E>,
        Error,
    >)
        requires
            src.wf(),
        ensures
            match r {
                Ok(s) => s.wf() && exprs_wf(conds@, src.schema_len() as int) && s.conds == conds
                    && s.src == src && offsets_view(s.related_cols_offset@) =~= exprs_offsets(
                    conds@,
                ) && s.pending() =~= sel_pending(conds@, s.related_cols_offset@, src.pending()),
                Err(e) => !exprs_wf(conds@, src.schema_len() as int) && e == exprs_err(
                    conds@,
                    src.schema_len() as int,
                ) && (e == Error::Codec || e == Error::OffsetOutOfRange),
            },
    {
        let cols_len = src.get_len_of_columns();
        let mut visitor = ExprColumnRefVisitor::new(cols_len);
        match visitor.batch_visit(&conds) {
            Err(e) => Err(e),
            Ok(()) => {
                proof {
                    assert(visitor.offsets_set() =~= exprs_offsets(conds@)) by {
                        assert(Set::<int>::empty().union(exprs_offsets(conds@)) =~= exprs_offsets(
                            conds@,
                        ));
                    }
                }
                let related_cols_offset = visitor.column_offsets();
                Ok(SelectionExecutor { conds, related_cols_offset, ctx, src })
            },
        }
    }
}

impl<E: Executor> Executor for SelectionExecutor<E> {
    open spec fn wf(&self) -> bool {
        &&& self.src.wf()
        &&& forall|i: int|
            0 <= i < self.related_cols_offset@.len() ==> (#[trigger] self.related_cols_offset@[i])
                < self.src.schema_len()
    }

    open spec fn pending(&self) -> Seq<RowV> {
        sel_pending(self.conds@, self.related_cols_offset@, self.src.pending())
    }

    open spec fn schema_len(&self) -> nat {
        self.src.schema_len()
    }

    proof fn pending_rows_ok(&self) {
        self.src.pending_rows_ok();
        lemma_sel_pending_shape(
            self.conds@,
            self.related_cols_offset@,
            self.src.pending(),
            self.schema_len(),
        );
    }

    fn next(&mut self) -> (r: Result<Option<Row>, Error>) {
        loop
            invariant
                self.wf(),
                self.conds == old(self).conds,
                self.related_cols_offset == old(self).related_cols_offset,
                self.src.schema_len() == old(self).src.schema_len(),
                self.pending() =~= old(self).pending(),
            decreases self.src.pending().len(),
        {
            let ghost prepend = self.src.pending();
            proof {
                self.src.pending_rows_ok();
            }
            let nxt = self.src.next();
            match nxt {
                Err(e) => {
                    return Err(e);
                },
                Ok(None) => {
                    proof {
                        assert(prepend.len() == 0);
                        assert(sel_pending(self.conds@, self.related_cols_offset@, prepend)
                            =~= Seq::<RowV>::empty());
                    }
                    return Ok(None);
                },
                Ok(Some(row)) => {
                    proof {
                        assert(row_shape_ok(prepend[0], old(self).src.schema_len()));
                    }
                    match row {
                        Row::Agg(_) => {
                            return Err(Error::Eval);
                        },
                        Row::Origin(o) => {
                            let inf = o.inflate_cols_with_offsets(&self.related_cols_offset);
                            match inf {
                                Err(e) => {
                                    return Err(e);
                                },
                                Ok(datums) => {
                                    let passr = eval_conds(&self.conds, &datums);
                                    match passr {
                                        Err(e) => {
                                            return Err(e);
                                        },
                                        Ok(true) => {
                                            proof {
                                                assert(sel_pass(
                                                    self.conds@,
                                                    self.related_cols_offset@,
                                                    prepend[0],
                                                ));
                                                assert(sel_pending(
                                                    self.conds@,
                                                    self.related_cols_offset@,
                                                    prepend,
                                                ) =~= seq![prepend[0]] + sel_pending(
                                                    self.conds@,
                                                    self.related_cols_offset@,
                                                    self.src.pending(),
                                                ));
                                            }
                                            return Ok(Some(Row::Origin(o)));
                                        },
                                        Ok(false) => {
                                            proof {
                                                assert(!sel_pass(
                                                    self.conds@,
                                                    self.related_cols_offset@,
                                                    prepend[0],
                                                ));
                                                assert(sel_pending(
                                                    self.conds@,
                                                    self.related_cols_offset@,
                                                    prepend,
                                                ) =~= sel_pending(
                                                    self.conds@,
                                                    self.related_cols_offset@,
                                                    self.src.pending(),
                                                ));
                                            }
                                        },
                                    }
                                },
                            }
                        },
                    }
                },
            }
        }
    }

    fn collect_output_counts(&mut self, counts: &mut Vec<i64>) {
        self.src.collect_output_counts(counts);
    }

    fn collect_metrics_into(&mut self, metrics: &mut ExecutorMetrics) {
        self.src.collect_metrics_into(metrics);
    }

    fn get_len_of_columns(&self) -> (r: usize) {
        self.src.get_len_of_columns()
    }

    fn take_eval_warnings(&mut self) -> (r: Option<EvalWarnings>)
        ensures
            final(self).ctx.warnings.warning_cnt == 0,
            match r {
                Some(w) => w.warning_cnt == old(self).ctx.warnings.warning_cnt && w.warning_cnt
                    > 0,
                None => old(self).ctx.warnings.warning_cnt == 0,
            },
    {
        self.ctx.take_warnings()
    }
}

} // verus!
