//! Push-down expressions: a small tree language with column references,
//! literals and comparisons, the visitor that collects referenced column
//! offsets, and the evaluator.

use vstd::prelude::*;

use crate::codec::{dec_u64_le, enc_u64_le, lemma_u64_le_round_trip, push_u64_le, read_u64_le};
use crate::datum::{datum_eq, datum_lt, Cmp, Datum, DatumV};
use crate::Error;

verus! {

/// The kind of an expression node.
#[derive(Debug, PartialEq, Eq, Structural, Clone, Copy)]
pub enum ExprType {
    /// Leaf: a null literal.
    Null,
    /// Leaf: a signed integer literal, little-endian in the payload.
    Int64,
    /// Leaf: an unsigned integer literal, little-endian in the payload.
    Uint64,
    /// Leaf: a byte-string literal, the payload itself.
    Bytes,
    /// Leaf: a column reference; the payload is the column offset as a
    /// little-endian signed integer.
    ColumnRef,
    /// `left > right`, null if either side is null.
    Gt,
    /// `left < right`, null if either side is null.
    Lt,
    /// `left == right`, null if either side is null.
    Eq,
}

/// One node of a push-down expression tree.
#[derive(Debug)]
pub struct Expr {
    pub tp: ExprType,
    pub val: Vec<u8>,
    pub children: Vec<Expr>,
}

/// The signed integer a payload denotes.
pub open spec fn expr_i64(e: Expr) -> i64 {
    dec_u64_le(e.val@) as i64
}

/// Whether every column reference in the tree is a well-formed offset
/// below `cols_len`.
pub open spec fn expr_wf(e: Expr, cols_len: int) -> bool
    decreases e,
{
    if e.tp == ExprType::ColumnRef {
        e.val@.len() == 8 && 0 <= expr_i64(e) < cols_len
    } else {
        exprs_wf(e.children@, cols_len)
    }
}

pub open spec fn exprs_wf(es: Seq<Expr>, cols_len: int) -> bool
    decreases es,
{
    es.len() == 0 || (expr_wf(es[0], cols_len) && exprs_wf(es.skip(1), cols_len))
}

/// The set of column offsets referenced anywhere in the tree.
pub open spec fn expr_offsets(e: Expr) -> Set<int>
    decreases e,
{
    if e.tp == ExprType::ColumnRef {
        if e.val@.len() == 8 {
            set![expr_i64(e) as int]
        } else {
            Set::empty()
        }
    } else {
        exprs_offsets(e.children@)
    }
}

pub open spec fn exprs_offsets(es: Seq<Expr>) -> Set<int>
    decreases es,
{
    if es.len() == 0 {
        Set::empty()
    } else {
        expr_offsets(es[0]).union(exprs_offsets(es.skip(1)))
    }
}

pub proof fn lemma_exprs_wf_push(es: Seq<Expr>, e: Expr, cols_len: int)
    ensures
        exprs_wf(es.push(e), cols_len) == (exprs_wf(es, cols_len) && expr_wf(e, cols_len)),
    decreases es.len(),
{
    if es.len() == 0 {
        assert(es.push(e)[0] == e);
        assert(es.push(e).skip(1) =~= Seq::<Expr>::empty());
        assert(exprs_wf(Seq::<Expr>::empty(), cols_len));
    } else {
        assert(es.push(e)[0] == es[0]);
        assert(es.push(e).skip(1) =~= es.skip(1).push(e));
        lemma_exprs_wf_push(es.skip(1), e, cols_len);
    }
}

pub proof fn lemma_exprs_offsets_push(es: Seq<Expr>, e: Expr)
    ensures
        exprs_offsets(es.push(e)) =~= exprs_offsets(es).union(expr_offsets(e)),
    decreases es.len(),
{
    if es.len() == 0 {
        assert(es.push(e)[0] == e);
        assert(es.push(e).skip(1) =~= Seq::<Expr>::empty());
        assert(exprs_offsets(Seq::<Expr>::empty()) =~= Set::<int>::empty());
        assert(exprs_offsets(es.push(e)) =~= expr_offsets(e).union(Set::<int>::empty()));
    } else {
        assert(es.push(e)[0] == es[0]);
        assert(es.push(e).skip(1) =~= es.skip(1).push(e));
        lemma_exprs_offsets_push(es.skip(1), e);
    }
}

impl Expr {
    /// A leaf with a payload and no children.
    pub fn leaf(tp: ExprType, val: Vec<u8>) -> (r: Expr)
        ensures
            r.tp == tp && r.val == val && r.children@.len() == 0,
    {
        Expr { tp, val, children: Vec::new() }
    }

    /// A column reference to `offset`.
    pub fn column_ref(offset: i64) -> (r: Expr)
        ensures
            r.tp == ExprType::ColumnRef,
            r.val@.len() == 8,
            expr_i64(r) == offset,
            r.children@.len() == 0,
    {
        let mut val: Vec<u8> = Vec::new();
        let u = #[verifier::truncate] (offset as u64);
        push_u64_le(&mut val, u);
        proof {
            lemma_u64_le_round_trip(u);
            assert((offset as u64) as i64 == offset) by (bit_vector);
        }
        Expr { tp: ExprType::ColumnRef, val, children: Vec::new() }
    }

    /// A signed integer literal.
    pub fn int_lit(x: i64) -> (r: Expr)
        ensures
            r.tp == ExprType::Int64,
            r.val@.len() == 8,
            expr_i64(r) == x,
            r.children@.len() == 0,
    {
        let mut val: Vec<u8> = Vec::new();
        let u = #[verifier::truncate] (x as u64);
        push_u64_le(&mut val, u);
        proof {
            lemma_u64_le_round_trip(u);
            assert((x as u64) as i64 == x) by (bit_vector);
        }
        Expr { tp: ExprType::Int64, val, children: Vec::new() }
    }

    /// A comparison of two subtrees.
    pub fn binop(tp: ExprType, left: Expr, right: Expr) -> (r: Expr)
        ensures
            r.tp == tp,
            r.val@.len() == 0,
            r.children@.len() == 2,
            r.children@[0] == left,
            r.children@[1] == right,
    {
        let mut children: Vec<Expr> = Vec::new();
        children.push(left);
        children.push(right);
        Expr { tp, val: Vec::new(), children }
    }
}

/// The error the visitor reports for an ill-formed tree: that of the
/// first failing node in visiting order — a short payload reads as
/// `Codec`, a decoded offset outside the schema as `OffsetOutOfRange`.
pub open spec fn expr_err(e: Expr, cols_len: int) -> Error
    decreases e,
{
    if e.tp == ExprType::ColumnRef {
        if e.val@.len() != 8 {
            Error::Codec
        } else {
            Error::OffsetOutOfRange
        }
    } else {
        exprs_err(e.children@, cols_len)
    }
}

pub open spec fn exprs_err(es: Seq<Expr>, cols_len: int) -> Error
    decreases es,
{
    if es.len() == 0 {
        Error::Eval
    } else if !expr_wf(es[0], cols_len) {
        expr_err(es[0], cols_len)
    } else {
        exprs_err(es.skip(1), cols_len)
    }
}

/// The list error is the first ill-formed member's error.
pub proof fn lemma_exprs_err_at(es: Seq<Expr>, cols_len: int, j: int)
    requires
        0 <= j < es.len(),
        !expr_wf(es[j], cols_len),
        forall|m: int| 0 <= m < j ==> expr_wf(#[trigger] es[m], cols_len),
    ensures
        exprs_err(es, cols_len) == expr_err(es[j], cols_len),
    decreases j,
{
    if j > 0 {
        assert(es.skip(1)[j - 1] == es[j]);
        assert forall|m: int| 0 <= m < j - 1 implies expr_wf(#[trigger] es.skip(1)[m], cols_len)
            by {
            assert(es.skip(1)[m] == es[m + 1]);
        }
        lemma_exprs_err_at(es.skip(1), cols_len, j - 1);
    }
}

/// The set a collected offset list denotes.
pub open spec fn offsets_view(v: Seq<usize>) -> Set<int> {
    v.map_values(|x: usize| x as int).to_set()
}

/// Offsets of a prefix, and of any member, are offsets of the whole list.
pub proof fn lemma_exprs_offsets_prefix(es: Seq<Expr>, j: int)
    requires
        0 <= j <= es.len(),
    ensures
        exprs_offsets(es.take(j)).subset_of(exprs_offsets(es)),
        j < es.len() ==> expr_offsets(es[j]).subset_of(exprs_offsets(es)),
    decreases es.len(),
{
    if es.len() == 0 {
        assert(es.take(0) =~= es);
    } else if j == 0 {
        assert(es.take(0) =~= Seq::<Expr>::empty());
        assert(exprs_offsets(Seq::<Expr>::empty()) =~= Set::<int>::empty());
        assert forall|a: int| Set::<int>::empty().contains(a) implies exprs_offsets(es).contains(
            a,
        ) by {}
        if j < es.len() {
            assert(expr_offsets(es[0]).subset_of(exprs_offsets(es)));
        }
    } else {
        lemma_exprs_offsets_prefix(es.skip(1), j - 1);
        assert(es.take(j)[0] == es[0]);
        assert(es.take(j).skip(1) =~= es.skip(1).take(j - 1));
        if j < es.len() {
            assert(es.skip(1)[j - 1] == es[j]);
        }
        assert forall|a: int| exprs_offsets(es.take(j)).contains(a) implies exprs_offsets(
            es,
        ).contains(a) by {
            if exprs_offsets(es.skip(1).take(j - 1)).contains(a) {
                assert(exprs_offsets(es.skip(1)).contains(a));
            }
        }
        if j < es.len() {
            assert forall|a: int| expr_offsets(es[j]).contains(a) implies exprs_offsets(
                es,
            ).contains(a) by {
                assert(exprs_offsets(es.skip(1)).contains(a));
            }
        }
    }
}

/// An expression tree visitor that extracts all column offsets in the tree.
pub struct ExprColumnRefVisitor {
    cols_offset: Vec<usize>,
    cols_len: usize,
}

impl ExprColumnRefVisitor {
    /// The set of offsets collected so far.
    pub closed spec fn offsets_set(&self) -> Set<int> {
        self.cols_offset@.map_values(|x: usize| x as int).to_set()
    }

    pub closed spec fn spec_cols_len(&self) -> usize {
        self.cols_len
    }

    /// Collected offsets are unique and below the declared schema length.
    pub closed spec fn inv(&self) -> bool {
        &&& forall|i: int, j: int|
            0 <= i < j < self.cols_offset@.len() ==> self.cols_offset@[i] != self.cols_offset@[j]
        &&& forall|i: int|
            0 <= i < self.cols_offset@.len() ==> (#[trigger] self.cols_offset@[i])
                < self.cols_len
    }

    pub fn new(cols_len: usize) -> (r: ExprColumnRefVisitor)
        ensures
            r.inv(),
            r.offsets_set() =~= Set::<int>::empty(),
            r.spec_cols_len() == cols_len,
    {
        let r = ExprColumnRefVisitor { cols_offset: Vec::new(), cols_len };
        proof {
            assert forall|a: int| !r.offsets_set().contains(a) by {}
        }
        r
    }

    /// Records every column offset referenced in `expr`.  Succeeds exactly
    /// when every reference decodes to an offset inside the schema; the
    /// collected set then grows by exactly the offsets of `expr`.
    pub fn visit(&mut self, expr: &Expr) -> (r: Result<(), Error>)
        requires
            old(self).inv(),
        ensures
            final(self).inv(),
            final(self).spec_cols_len() == old(self).spec_cols_len(),
            match r {
                Ok(()) => expr_wf(*expr, old(self).spec_cols_len() as int)
                    && final(self).offsets_set() =~= old(self).offsets_set().union(
                    expr_offsets(*expr),
                ),
                Err(e) => !expr_wf(*expr, old(self).spec_cols_len() as int) && e == expr_err(
                    *expr,
                    old(self).spec_cols_len() as int,
                ) && (e == Error::Codec || e == Error::OffsetOutOfRange)
                    && old(self).offsets_set().subset_of(final(self).offsets_set())
                    && final(self).offsets_set().subset_of(
                    old(self).offsets_set().union(expr_offsets(*expr)),
                ),
            },
        decreases *expr,
    {
        if expr.tp == ExprType::ColumnRef {
            if expr.val.len() != 8 {
                return Err(Error::Codec);
            }
            let u = read_u64_le(expr.val.as_slice());
            let off = #[verifier::truncate] (u as i64);
            if off < 0 {
                return Err(Error::OffsetOutOfRange);
            }
            if off as u64 >= self.cols_len as u64 {
                return Err(Error::OffsetOutOfRange);
            }
            let offu = off as usize;
            proof {
                assert(expr_i64(*expr) == off);
                assert(0 <= expr_i64(*expr) < self.cols_len as int);
            }
            if !self.contains_offset(offu) {
                let ghost oldseq = self.cols_offset@;
                self.cols_offset.push(offu);
                proof {
                    let f = |x: usize| x as int;
                    assert forall|j: int| 0 <= j < oldseq.len() implies (#[trigger] oldseq[j])
                        != offu by {
                        assert(oldseq.map_values(f)[j] == oldseq[j] as int);
                    }
                    assert forall|i: int, j: int|
                        0 <= i < j < self.cols_offset@.len() implies self.cols_offset@[i]
                        != self.cols_offset@[j] by {
                        if j == oldseq.len() {
                            assert(self.cols_offset@[i] == oldseq[i]);
                        }
                    }
                    assert(self.cols_offset@.map_values(f) =~= oldseq.map_values(f).push(
                        offu as int,
                    ));
                    assert forall|a: int|
                        self.offsets_set().contains(a) <==> (old(self).offsets_set().union(
                            expr_offsets(*expr),
                        )).contains(a) by {
                        assert(expr_offsets(*expr) =~= set![offu as int]);
                        if self.cols_offset@.map_values(f).contains(a) {
                            let k = choose|k: int|
                                0 <= k < self.cols_offset@.map_values(f).len()
                                    && self.cols_offset@.map_values(f)[k] == a;
                            if k < oldseq.len() {
                                assert(oldseq.map_values(f)[k] == a);
                            }
                        }
                        if oldseq.map_values(f).contains(a) {
                            let k = choose|k: int|
                                0 <= k < oldseq.map_values(f).len() && oldseq.map_values(f)[k]
                                    == a;
                            assert(self.cols_offset@.map_values(f)[k] == a);
                        }
                        if a == offu as int {
                            assert(self.cols_offset@.map_values(f)[oldseq.len() as int] == a);
                        }
                    }
                    assert(final(self).offsets_set() =~= old(self).offsets_set().union(
                        expr_offsets(*expr),
                    ));
                }
            } else {
                proof {
                    assert(expr_offsets(*expr) =~= set![offu as int]);
                    assert(self.offsets_set().contains(offu as int));
                    assert(final(self).offsets_set() =~= old(self).offsets_set().union(
                        expr_offsets(*expr),
                    ));
                }
            }
            Ok(())
        } else {
            let mut j: usize = 0;
            let ghost start = self.offsets_set();
            while j < expr.children.len()
                invariant
                    expr.tp != ExprType::ColumnRef,
                    j <= expr.children@.len(),
                    self.inv(),
                    self.spec_cols_len() == old(self).spec_cols_len(),
                    exprs_wf(expr.children@.take(j as int), old(self).spec_cols_len() as int),
                    self.offsets_set() =~= start.union(
                        exprs_offsets(expr.children@.take(j as int)),
                    ),
                    start == old(self).offsets_set(),
                decreases expr.children@.len() - j,
            {
                let r = self.visit(&expr.children[j]);
                proof {
                    assert(expr.children@.take(j + 1 as int) =~= expr.children@.take(
                        j as int,
                    ).push(expr.children@[j as int]));
                    lemma_exprs_wf_push(
                        expr.children@.take(j as int),
                        expr.children@[j as int],
                        old(self).spec_cols_len() as int,
                    );
                    lemma_exprs_offsets_push(
                        expr.children@.take(j as int),
                        expr.children@[j as int],
                    );
                }
                match r {
                    Err(e) => {
                        proof {
                            lemma_exprs_wf_all(expr.children@, old(self).spec_cols_len() as int);
                            assert(!expr_wf(expr.children@[j as int], old(self).spec_cols_len()
                                as int));
                            assert(!exprs_wf(expr.children@, old(self).spec_cols_len() as int));
                            assert forall|a: int| old(self).offsets_set().contains(a)
                                implies self.offsets_set().contains(a) by {
                                assert(start.union(
                                    exprs_offsets(expr.children@.take(j as int)),
                                ).contains(a));
                            }
                            lemma_exprs_wf_all(
                                expr.children@.take(j as int),
                                old(self).spec_cols_len() as int,
                            );
                            assert forall|m: int| 0 <= m < j implies expr_wf(
                                #[trigger] expr.children@[m],
                                old(self).spec_cols_len() as int,
                            ) by {
                                assert(expr.children@.take(j as int)[m] == expr.children@[m]);
                                assert(expr_wf(
                                    expr.children@.take(j as int)[m],
                                    old(self).spec_cols_len() as int,
                                ));
                            }
                            lemma_exprs_err_at(
                                expr.children@,
                                old(self).spec_cols_len() as int,
                                j as int,
                            );
                            lemma_exprs_offsets_prefix(expr.children@, j as int);
                            assert forall|a: int| self.offsets_set().contains(a) implies old(
                                self,
                            ).offsets_set().union(expr_offsets(*expr)).contains(a) by {
                                if !start.union(
                                    exprs_offsets(expr.children@.take(j as int)),
                                ).contains(a) {
                                    assert(expr_offsets(expr.children@[j as int]).contains(a));
                                    assert(exprs_offsets(expr.children@).contains(a));
                                } else if !start.contains(a) {
                                    assert(exprs_offsets(expr.children@.take(j as int)).contains(
                                        a,
                                    ));
                                    assert(exprs_offsets(expr.children@).contains(a));
                                }
                            }
                        }
                        return Err(e);
                    },
                    Ok(()) => {},
                }
                j = j + 1;
            }
            proof {
                assert(expr.children@.take(expr.children@.len() as int) =~= expr.children@);
            }
            Ok(())
        }
    }

    /// Records the offsets of every expression in the list, stopping at the
    /// first ill-formed one.
    pub fn batch_visit(&mut self, exprs: &Vec<Expr>) -> (r: Result<(), Error>)
        requires
            old(self).inv(),
        ensures
            final(self).inv(),
            final(self).spec_cols_len() == old(self).spec_cols_len(),
            match r {
                Ok(()) => exprs_wf(exprs@, old(self).spec_cols_len() as int)
                    && final(self).offsets_set() =~= old(self).offsets_set().union(
                    exprs_offsets(exprs@),
                ),
                Err(e) => !exprs_wf(exprs@, old(self).spec_cols_len() as int) && e == exprs_err(
                    exprs@,
                    old(self).spec_cols_len() as int,
                ) && (e == Error::Codec || e == Error::OffsetOutOfRange)
                    && old(self).offsets_set().subset_of(
                    final(self).offsets_set(),
                ) && final(self).offsets_set().subset_of(
                    old(self).offsets_set().union(exprs_offsets(exprs@)),
                ) && (exists|k: int|
                    0 <= k < exprs@.len() && !expr_wf(
                        #[trigger] exprs@[k],
                        old(self).spec_cols_len() as int,
                    ) && forall|m: int|
                        0 <= m < k ==> expr_wf(#[trigger] exprs@[m], old(self).spec_cols_len() as int)),
            },
    {
        let mut j: usize = 0;
        let ghost start = self.offsets_set();
        while j < exprs.len()
            invariant
                j <= exprs@.len(),
                self.inv(),
                self.spec_cols_len() == old(self).spec_cols_len(),
                exprs_wf(exprs@.take(j as int), old(self).spec_cols_len() as int),
                self.offsets_set() =~= start.union(exprs_offsets(exprs@.take(j as int))),
                start == old(self).offsets_set(),
            decreases exprs@.len() - j,
        {
            let r = self.visit(&exprs[j]);
            proof {
                assert(exprs@.take(j + 1 as int) =~= exprs@.take(j as int).push(
                    exprs@[j as int],
                ));
                lemma_exprs_wf_push(
                    exprs@.take(j as int),
                    exprs@[j as int],
                    old(self).spec_cols_len() as int,
                );
                lemma_exprs_offsets_push(exprs@.take(j as int), exprs@[j as int]);
            }
            match r {
                Err(e) => {
                    proof {
                        let k = old(self).spec_cols_len() as int;
                        lemma_exprs_wf_all(exprs@, k);
                        lemma_exprs_wf_all(exprs@.take(j as int), k);
                        assert forall|m: int| 0 <= m < j implies expr_wf(
                            #[trigger] exprs@[m],
                            k,
                        ) by {
                            assert(exprs@.take(j as int)[m] == exprs@[m]);
                            assert(expr_wf(exprs@.take(j as int)[m], k));
                        }
                        assert(!expr_wf(exprs@[j as int], k));
                        lemma_exprs_err_at(exprs@, k, j as int);
                        assert forall|a: int| old(self).offsets_set().contains(a)
                            implies self.offsets_set().contains(a) by {
                            assert(start.union(exprs_offsets(exprs@.take(j as int))).contains(a));
                        }
                        lemma_exprs_offsets_prefix(exprs@, j as int);
                        assert forall|a: int| self.offsets_set().contains(a) implies old(
                            self,
                        ).offsets_set().union(exprs_offsets(exprs@)).contains(a) by {
                            if !start.union(exprs_offsets(exprs@.take(j as int))).contains(a) {
                                assert(expr_offsets(exprs@[j as int]).contains(a));
                                assert(exprs_offsets(exprs@).contains(a));
                            } else if !start.contains(a) {
                                assert(exprs_offsets(exprs@.take(j as int)).contains(a));
                                assert(exprs_offsets(exprs@).contains(a));
                            }
                        }
                    }
                    return Err(e);
                },
                Ok(()) => {},
            }
            j = j + 1;
        }
        proof {
            assert(exprs@.take(exprs@.len() as int) =~= exprs@);
        }
        Ok(())
    }

    /// The collected offsets, without duplicates, in no particular order.
    pub fn column_offsets(self) -> (r: Vec<usize>)
        requires
            self.inv(),
        ensures
            offsets_view(r@) =~= self.offsets_set(),
            forall|i: int, j: int| 0 <= i < j < r@.len() ==> r@[i] != r@[j],
            forall|i: int| 0 <= i < r@.len() ==> (#[trigger] r@[i]) < self.spec_cols_len(),
    {
        self.cols_offset
    }

    fn contains_offset(&self, x: usize) -> (r: bool)
        ensures
            r == self.offsets_set().contains(x as int),
    {
        let mut i: usize = 0;
        while i < self.cols_offset.len()
            invariant
                i <= self.cols_offset@.len(),
                forall|j: int| 0 <= j < i ==> (#[trigger] self.cols_offset@[j]) != x,
            decreases self.cols_offset@.len() - i,
        {
            if self.cols_offset[i] == x {
                proof {
                    let f = |y: usize| y as int;
                    assert(self.cols_offset@.map_values(f)[i as int] == x as int);
                }
                return true;
            }
            i = i + 1;
        }
        proof {
            let f = |y: usize| y as int;
            if self.offsets_set().contains(x as int) {
                let k = choose|k: int|
                    0 <= k < self.cols_offset@.map_values(f).len()
                        && self.cols_offset@.map_values(f)[k] == x as int;
                assert(self.cols_offset@[k] != x);
            }
        }
        false
    }
}

/// A well-formed list has only well-formed members, and conversely.
pub proof fn lemma_exprs_wf_all(es: Seq<Expr>, cols_len: int)
    ensures
        exprs_wf(es, cols_len) <==> (forall|i: int|
            0 <= i < es.len() ==> expr_wf(#[trigger] es[i], cols_len)),
    decreases es.len(),
{
    if es.len() > 0 {
        lemma_exprs_wf_all(es.skip(1), cols_len);
        assert forall|i: int| 0 <= i < es.len() - 1 implies #[trigger] es.skip(1)[i] == es[i + 1]
            by {}
        if forall|i: int| 0 <= i < es.len() ==> expr_wf(#[trigger] es[i], cols_len) {
            assert forall|i: int| 0 <= i < es.skip(1).len() implies expr_wf(
                #[trigger] es.skip(1)[i],
                cols_len,
            ) by {
                assert(es.skip(1)[i] == es[i + 1]);
            }
            assert(expr_wf(es[0], cols_len));
        }
        if exprs_wf(es, cols_len) {
            assert forall|i: int| 0 <= i < es.len() implies expr_wf(#[trigger] es[i], cols_len)
                by {
                if i > 0 {
                    assert(es.skip(1)[i - 1] == es[i]);
                }
            }
        }
    }
}

/// What evaluating an expression over a row of datums yields.  Comparisons
/// are null if either side is null, else a zero-or-one integer.
pub open spec fn eval_expr(e: Expr, row: Seq<DatumV>) -> Result<DatumV, Error>
    decreases e,
{
    if e.tp == ExprType::Null {
        Ok(DatumV::Null)
    } else if e.tp == ExprType::Int64 {
        if e.val@.len() == 8 {
            Ok(DatumV::I64(expr_i64(e)))
        } else {
            Err(Error::Codec)
        }
    } else if e.tp == ExprType::Uint64 {
        if e.val@.len() == 8 {
            Ok(DatumV::U64(dec_u64_le(e.val@)))
        } else {
            Err(Error::Codec)
        }
    } else if e.tp == ExprType::Bytes {
        Ok(DatumV::Bytes(e.val@))
    } else if e.tp == ExprType::ColumnRef {
        if e.val@.len() != 8 {
            Err(Error::Codec)
        } else if 0 <= expr_i64(e) < row.len() {
            Ok(row[expr_i64(e) as int])
        } else {
            Err(Error::OffsetOutOfRange)
        }
    } else if e.tp == ExprType::Gt || e.tp == ExprType::Lt || e.tp == ExprType::Eq {
        if e.children@.len() != 2 {
            Err(Error::Eval)
        } else {
            match eval_expr(e.children@[0], row) {
                Err(err) => Err(err),
                Ok(a) => match eval_expr(e.children@[1], row) {
                    Err(err) => Err(err),
                    Ok(b) => if a is Null || b is Null {
                        Ok(DatumV::Null)
                    } else if e.tp == ExprType::Gt {
                        Ok(DatumV::I64(if datum_lt(b, a) { 1 } else { 0 }))
                    } else if e.tp == ExprType::Lt {
                        Ok(DatumV::I64(if datum_lt(a, b) { 1 } else { 0 }))
                    } else {
                        Ok(DatumV::I64(if datum_eq(a, b) { 1 } else { 0 }))
                    },
                },
            }
        }
    } else {
        Err(Error::Eval)
    }
}

/// Evaluates one push-down expression over an inflated row.
pub fn eval(e: &Expr, row: &Vec<Datum>) -> (r: Result<Datum, Error>)
    ensures
        match r {
            Ok(d) => eval_expr(*e, crate::datum::views_of(row@)) == Ok::<DatumV, Error>(d@),
            Err(err) => eval_expr(*e, crate::datum::views_of(row@)) == Err::<DatumV, Error>(err),
        },
    decreases *e,
{
    let ghost rv = crate::datum::views_of(row@);
    match e.tp {
        ExprType::Null => Ok(Datum::Null),
        ExprType::Int64 => {
            if e.val.len() != 8 {
                Err(Error::Codec)
            } else {
                let u = read_u64_le(e.val.as_slice());
                Ok(Datum::I64(#[verifier::truncate] (u as i64)))
            }
        },
        ExprType::Uint64 => {
            if e.val.len() != 8 {
                Err(Error::Codec)
            } else {
                Ok(Datum::U64(read_u64_le(e.val.as_slice())))
            }
        },
        ExprType::Bytes => {
            let d = Datum::Bytes(e.val.clone());
            proof {
                assert(d@ == DatumV::Bytes(e.val@));
            }
            Ok(d)
        },
        ExprType::ColumnRef => {
            if e.val.len() != 8 {
                return Err(Error::Codec);
            }
            let u = read_u64_le(e.val.as_slice());
            let off = #[verifier::truncate] (u as i64);
            if off < 0 {
                return Err(Error::OffsetOutOfRange);
            }
            if off as u64 >= row.len() as u64 {
                return Err(Error::OffsetOutOfRange);
            }
            let offu = off as usize;
            proof {
                assert(rv[offu as int] == row@[offu as int]@);
            }
            Ok(row[offu].dup())
        },
        ExprType::Gt | ExprType::Lt | ExprType::Eq => {
            if e.children.len() != 2 {
                return Err(Error::Eval);
            }
            let a = match eval(&e.children[0], row) {
                Err(err) => {
                    return Err(err);
                },
                Ok(a) => a,
            };
            let b = match eval(&e.children[1], row) {
                Err(err) => {
                    return Err(err);
                },
                Ok(b) => b,
            };
            let a_null = matches!(a, Datum::Null);
            let b_null = matches!(b, Datum::Null);
            if a_null || b_null {
                return Ok(Datum::Null);
            }
            let c = crate::datum::datum_cmp(&a, &b);
            let flag: bool = match e.tp {
                ExprType::Gt => c == Cmp::Gt,
                ExprType::Lt => c == Cmp::Lt,
                _ => c == Cmp::Eq,
            };
            Ok(Datum::I64(if flag { 1 } else { 0 }))
        },
    }
}

} // verus!
