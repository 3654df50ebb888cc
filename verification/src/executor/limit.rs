//! The limit operator: forwards at most `limit` rows of its child, in
//! child order.

use vstd::prelude::*;

use crate::executor::{row_shape_ok, Executor, Row, RowV};
use crate::schema::ExecutorMetrics;
use crate::Error;

verus! {

/// Emits exactly the first `limit` rows of the child stream, or all of
/// them if fewer remain.
pub struct LimitExecutor<E: Executor> {
    pub limit: u64,
    pub seen: u64,
    pub src: E,
}

impl<E: Executor> LimitExecutor<E> {
    pub fn new(limit: u64, src: E) -> (r: LimitExecutor<E>)
        requires
            src.wf(),
        ensures
            r.wf(),
            r.limit == limit && r.seen == 0,
            r.src == src,
            r.pending() =~= if limit <= src.pending().len() {
                src.pending().take(limit as int)
            } else {
                src.pending()
            },
    {
        LimitExecutor { limit, seen: 0, src }
    }
}

/// A fresh limit operator emits exactly the smaller of its limit and the
/// child's row count, in child order.
pub proof fn lemma_limit_emits_min<E: Executor>(l: LimitExecutor<E>)
    requires
        l.seen == 0,
    ensures
        l.pending().len() == if l.limit <= l.src.pending().len() {
            l.limit as int
        } else {
            l.src.pending().len() as int
        },
        forall|i: int| 0 <= i < l.pending().len() ==> #[trigger] l.pending()[i] == l.src.pending()[i],
{
    if l.limit <= l.src.pending().len() {
        assert(l.pending() =~= l.src.pending().take(l.limit as int));
    }
}

impl<E: Executor> Executor for LimitExecutor<E> {
    open spec fn wf(&self) -> bool {
        self.src.wf() && self.seen <= self.limit
    }

    /// The first `limit - seen` child rows still to come.
    open spec fn pending(&self) -> Seq<RowV> {
        let rem = self.limit - self.seen;
        if rem <= self.src.pending().len() {
            self.src.pending().take(rem as int)
        } else {
            self.src.pending()
        }
    }

    open spec fn schema_len(&self) -> nat {
        self.src.schema_len()
    }

    proof fn pending_rows_ok(&self) {
        self.src.pending_rows_ok();
        assert forall|i: int| 0 <= i < self.pending().len() implies row_shape_ok(
            #[trigger] self.pending()[i],
            self.schema_len(),
        ) by {
            assert(self.pending()[i] == self.src.pending()[i]);
        }
    }

    fn next(&mut self) -> (r: Result<Option<Row>, Error>)
        ensures
            r is Err ==> old(self).seen < old(self).limit,
    {
        if self.seen >= self.limit {
            return Ok(None);
        }
        let r = self.src.next();
        match r {
            Err(e) => Err(e),
            Ok(None) => Ok(None),
            Ok(Some(row)) => {
                proof {
                    let oldp = old(self).src.pending();
                    let rem = old(self).limit - old(self).seen;
                    if rem <= oldp.len() {
                        assert(oldp.take(rem as int)[0] == oldp[0]);
                        assert(oldp.take(rem as int).skip(1) =~= oldp.skip(1).take(rem - 1));
                    }
                }
                self.seen = self.seen + 1;
                Ok(Some(row))
            },
        }
    }

    fn collect_output_counts(&mut self, counts: &mut Vec<i64>) {
        self.src.collect_output_counts(counts);
    }

    fn collect_metrics_into(&mut self, metrics: &mut ExecutorMetrics) {
        self.src.collect_metrics_into(metrics);
    }

    fn get_len_of_columns(&self) -> (r: usize) {
        self.src.get_len_of_columns()
    }

    fn take_eval_warnings(&mut self) -> Option<crate::schema::EvalWarnings> {
        self.src.take_eval_warnings()
    }
}

} // verus!
