//! The top-n operator: consumes its child entirely, keeps the rows with
//! the smallest composite sort keys, and emits them in sort order.

use vstd::prelude::*;

use crate::datum::{datum_lt, views_of, Cmp, Datum, DatumV};
use crate::executor::{inflate_spec, row_shape_ok, Executor, Row, RowV};
use crate::expr::{eval, eval_expr, expr_err, expr_wf, exprs_err, exprs_offsets, exprs_wf, lemma_exprs_err_at, lemma_exprs_offsets_push, lemma_exprs_wf_all, lemma_exprs_wf_push, offsets_view, Expr, ExprColumnRefVisitor};
use crate::schema::{EvalContext, EvalWarnings, ExecutorMetrics};
use crate::Error;

use vstd::multiset::Multiset;
use vstd::seq_lib::lemma_multiset_commutative;

verus! {

/// Strict lexicographic order on composite sort keys; a set direction flag
/// reverses its column.
pub open spec fn key_lt(a: Seq<DatumV>, b: Seq<DatumV>, dirs: Seq<bool>) -> bool
    decreases a.len(),
{
    if a.len() == 0 || b.len() == 0 || dirs.len() == 0 {
        false
    } else {
        let fst = if dirs[0] {
            datum_lt(b[0], a[0])
        } else {
            datum_lt(a[0], b[0])
        };
        let rev = if dirs[0] {
            datum_lt(a[0], b[0])
        } else {
            datum_lt(b[0], a[0])
        };
        if fst {
            true
        } else if rev {
            false
        } else {
            key_lt(a.skip(1), b.skip(1), dirs.skip(1))
        }
    }
}

/// The direction flags of an ordering specification.
pub open spec fn dirs_of(order: Seq<(Expr, bool)>) -> Seq<bool> {
    order.map_values(|p: (Expr, bool)| p.1)
}

/// The expressions of an ordering specification.
pub open spec fn order_exprs_of(order: Seq<(Expr, bool)>) -> Seq<Expr> {
    order.map_values(|p: (Expr, bool)| p.0)
}

/// The composite sort key of an inflated row: each order expression
/// evaluated left to right; the first failure aborts.
pub open spec fn eval_key(order: Seq<(Expr, bool)>, datums: Seq<DatumV>) -> Result<
    Seq<DatumV>,
    Error,
>
    decreases order.len(),
{
    if order.len() == 0 {
        Ok(Seq::empty())
    } else {
        match eval_expr(order[0].0, datums) {
            Err(e) => Err(e),
            Ok(d) => match eval_key(order.skip(1), datums) {
                Err(e) => Err(e),
                Ok(rest) => Ok(seq![d] + rest),
            },
        }
    }
}

/// The sort key of a child row: only scanned rows that inflate cleanly
/// have one.
pub open spec fn row_key_of(r: RowV, order: Seq<(Expr, bool)>, offsets: Seq<usize>) -> Result<
    Seq<DatumV>,
    Error,
> {
    match r {
        RowV::Origin(o) => match inflate_spec(o.cols, offsets, o.handle, o.data) {
            Err(e) => Err(e),
            Ok(ds) => eval_key(order, ds),
        },
        RowV::Agg(_) => Err(Error::Eval),
    }
}

/// Each child row paired with its sort key, in child order; nothing if any
/// row has none.
pub open spec fn keyed_rows(rows: Seq<RowV>, order: Seq<(Expr, bool)>, offsets: Seq<usize>)
    -> Option<Seq<(Seq<DatumV>, RowV)>>
    decreases rows.len(),
{
    if rows.len() == 0 {
        Some(Seq::empty())
    } else {
        match row_key_of(rows[0], order, offsets) {
            Err(_) => None,
            Ok(k) => match keyed_rows(rows.skip(1), order, offsets) {
                Option::None => None,
                Option::Some(rest) => Some(seq![(k, rows[0])] + rest),
            },
        }
    }
}

/// Stable insertion: the new entry lands before the first strictly larger
/// key, after every equal one.
pub open spec fn insert_keyed(
    x: (Seq<DatumV>, RowV),
    s: Seq<(Seq<DatumV>, RowV)>,
    dirs: Seq<bool>,
) -> Seq<(Seq<DatumV>, RowV)>
    decreases s.len(),
{
    if s.len() == 0 {
        seq![x]
    } else if key_lt(x.0, s[0].0, dirs) {
        seq![x] + s
    } else {
        seq![s[0]] + insert_keyed(x, s.skip(1), dirs)
    }
}

/// The keyed rows sorted by key, stably, in the order the operator builds
/// them: each row inserted into the sorted list of those before it.
pub open spec fn sort_keyed(s: Seq<(Seq<DatumV>, RowV)>, dirs: Seq<bool>) -> Seq<
    (Seq<DatumV>, RowV),
>
    decreases s.len(),
{
    if s.len() == 0 {
        Seq::empty()
    } else {
        insert_keyed(s.last(), sort_keyed(s.drop_last(), dirs), dirs)
    }
}

/// Keys not strictly above one another in either direction compare as a
/// weak order: sortedness means no later entry is strictly below an
/// earlier one.
pub open spec fn keyed_sorted(s: Seq<(Seq<DatumV>, RowV)>, dirs: Seq<bool>) -> bool {
    forall|i: int, j: int| 0 <= i < j < s.len() ==> !key_lt(s[j].0, s[i].0, dirs)
}

/// Insertion keeps the list sorted and adds exactly the new entry.
pub proof fn lemma_insert_keyed_props(
    x: (Seq<DatumV>, RowV),
    s: Seq<(Seq<DatumV>, RowV)>,
    dirs: Seq<bool>,
)
    requires
        keyed_sorted(s, dirs),
    ensures
        keyed_sorted(insert_keyed(x, s, dirs), dirs),
        insert_keyed(x, s, dirs).to_multiset() =~= s.to_multiset().insert(x),
        insert_keyed(x, s, dirs).len() == s.len() + 1,
    decreases s.len(),
{
    broadcast use vstd::seq_lib::group_to_multiset_ensures;
    if s.len() == 0 {
        assert(seq![x] =~= Seq::<(Seq<DatumV>, RowV)>::empty().push(x));
        assert(seq![x].to_multiset() =~= Seq::<(Seq<DatumV>, RowV)>::empty().to_multiset().insert(
            x,
        ));
    } else if key_lt(x.0, s[0].0, dirs) {
        let r = seq![x] + s;
        lemma_multiset_commutative(seq![x], s);
        assert(seq![x] =~= Seq::<(Seq<DatumV>, RowV)>::empty().push(x));
        assert(seq![x].to_multiset() =~= Multiset::<(Seq<DatumV>, RowV)>::empty().insert(x));
        assert(r.to_multiset() =~= s.to_multiset().insert(x));
        assert forall|i: int, j: int| 0 <= i < j < r.len() implies !key_lt(
            r[j].0,
            r[i].0,
            dirs,
        ) by {
            assert(r[0] == x);
            if i == 0 {
                if j >= 1 {
                    assert(r[j] == s[j - 1]);
                    if key_lt(s[j - 1].0, x.0, dirs) {
                        lemma_key_lt_trans(s[j - 1].0, x.0, s[0].0, dirs);
                        if j - 1 > 0 {
                            assert(!key_lt(s[j - 1].0, s[0].0, dirs));
                        } else {
                            lemma_key_lt_irrefl(s[0].0, dirs);
                        }
                    }
                }
            } else {
                assert(r[i] == s[i - 1]);
                assert(r[j] == s[j - 1]);
            }
        }
    } else {
        assert forall|i: int, j: int| 0 <= i < j < s.skip(1).len() implies !key_lt(
            s.skip(1)[j].0,
            s.skip(1)[i].0,
            dirs,
        ) by {
            assert(s.skip(1)[j] == s[j + 1]);
            assert(s.skip(1)[i] == s[i + 1]);
        }
        lemma_insert_keyed_props(x, s.skip(1), dirs);
        let rest = insert_keyed(x, s.skip(1), dirs);
        let r = seq![s[0]] + rest;
        lemma_multiset_commutative(seq![s[0]], rest);
        lemma_multiset_commutative(seq![s[0]], s.skip(1));
        assert(s =~= seq![s[0]] + s.skip(1));
        assert(seq![s[0]] =~= Seq::<(Seq<DatumV>, RowV)>::empty().push(s[0]));
        assert(r.to_multiset() =~= s.to_multiset().insert(x));
        assert forall|i: int, j: int| 0 <= i < j < r.len() implies !key_lt(
            r[j].0,
            r[i].0,
            dirs,
        ) by {
            if i > 0 {
                assert(r[i] == rest[i - 1]);
                assert(r[j] == rest[j - 1]);
            } else {
                assert(r[j] == rest[j - 1]);
                lemma_insert_keyed_member(x, s.skip(1), dirs, j - 1);
                if rest[j - 1] == x {
                    assert(!key_lt(x.0, s[0].0, dirs));
                } else {
                    assert(exists|m: int|
                        0 <= m < s.skip(1).len() && s.skip(1)[m] == rest[j - 1]);
                    let m = choose|m: int|
                        0 <= m < s.skip(1).len() && s.skip(1)[m] == rest[j - 1];
                    assert(s.skip(1)[m] == s[m + 1]);
                    assert(!key_lt(s[m + 1].0, s[0].0, dirs));
                }
            }
        }
    }
}

/// Each entry of an insertion result is the inserted entry or one of the
/// old entries.
pub proof fn lemma_insert_keyed_member(
    x: (Seq<DatumV>, RowV),
    s: Seq<(Seq<DatumV>, RowV)>,
    dirs: Seq<bool>,
    j: int,
)
    requires
        0 <= j < insert_keyed(x, s, dirs).len(),
    ensures
        insert_keyed(x, s, dirs)[j] == x || exists|m: int|
            0 <= m < s.len() && s[m] == insert_keyed(x, s, dirs)[j],
    decreases s.len(),
{
    if s.len() == 0 {
    } else if key_lt(x.0, s[0].0, dirs) {
        if j > 0 {
            assert(insert_keyed(x, s, dirs)[j] == s[j - 1]);
        }
    } else {
        if j > 0 {
            lemma_insert_keyed_member(x, s.skip(1), dirs, j - 1);
            let r = insert_keyed(x, s, dirs);
            assert(r[j] == insert_keyed(x, s.skip(1), dirs)[j - 1]);
            if r[j] != x {
                let m = choose|m: int| 0 <= m < s.skip(1).len() && s.skip(1)[m] == r[j];
                assert(s[m + 1] == r[j]);
            }
        }
    }
}

/// Sorting yields a sorted permutation of its input.
pub proof fn lemma_sort_keyed_props(s: Seq<(Seq<DatumV>, RowV)>, dirs: Seq<bool>)
    ensures
        keyed_sorted(sort_keyed(s, dirs), dirs),
        sort_keyed(s, dirs).to_multiset() =~= s.to_multiset(),
        sort_keyed(s, dirs).len() == s.len(),
    decreases s.len(),
{
    broadcast use vstd::seq_lib::group_to_multiset_ensures;
    if s.len() > 0 {
        lemma_sort_keyed_props(s.drop_last(), dirs);
        lemma_insert_keyed_props(s.last(), sort_keyed(s.drop_last(), dirs), dirs);
        assert(s =~= s.drop_last().push(s.last()));
        assert(s.drop_last().push(s.last()).to_multiset() =~= s.drop_last().to_multiset().insert(
            s.last(),
        ));
    }
}

/// The datum order is transitive.
pub proof fn lemma_datum_lt_trans(a: DatumV, b: DatumV, c: DatumV)
    requires
        datum_lt(a, b),
        datum_lt(b, c),
    ensures
        datum_lt(a, c),
{
    match (a, b, c) {
        (DatumV::Bytes(x), DatumV::Bytes(y), DatumV::Bytes(z)) => {
            crate::storage::lemma_lex_lt_trans(x, y, z);
        },
        _ => {},
    }
}

/// Datums neither above nor below one another are equal in value.
pub proof fn lemma_datum_connex(a: DatumV, b: DatumV)
    requires
        !datum_lt(a, b),
        !datum_lt(b, a),
    ensures
        crate::datum::datum_eq(a, b),
{
    match (a, b) {
        (DatumV::Bytes(x), DatumV::Bytes(y)) => {
            crate::storage::lemma_lex_trichotomy(x, y);
        },
        _ => {},
    }
}

/// A datum equal in value to another orders exactly as it does.
pub proof fn lemma_datum_eq_subst(a: DatumV, b: DatumV, c: DatumV)
    requires
        crate::datum::datum_eq(b, c),
    ensures
        datum_lt(a, b) == datum_lt(a, c),
        datum_lt(b, a) == datum_lt(c, a),
{
    match (b, c) {
        (DatumV::Bytes(x), DatumV::Bytes(y)) => {},
        _ => {},
    }
}

/// The key order is transitive.
pub proof fn lemma_key_lt_trans(a: Seq<DatumV>, b: Seq<DatumV>, c: Seq<DatumV>, dirs: Seq<bool>)
    requires
        key_lt(a, b, dirs),
        key_lt(b, c, dirs),
    ensures
        key_lt(a, c, dirs),
    decreases a.len(),
{
    let d = dirs[0];
    let ab_fst = if d {
        datum_lt(b[0], a[0])
    } else {
        datum_lt(a[0], b[0])
    };
    let ab_rev = if d {
        datum_lt(a[0], b[0])
    } else {
        datum_lt(b[0], a[0])
    };
    let bc_fst = if d {
        datum_lt(c[0], b[0])
    } else {
        datum_lt(b[0], c[0])
    };
    let bc_rev = if d {
        datum_lt(b[0], c[0])
    } else {
        datum_lt(c[0], b[0])
    };
    if ab_fst && bc_fst {
        if d {
            lemma_datum_lt_trans(c[0], b[0], a[0]);
        } else {
            lemma_datum_lt_trans(a[0], b[0], c[0]);
        }
    } else if ab_fst && !bc_fst && !bc_rev {
        lemma_datum_connex(b[0], c[0]);
        lemma_datum_eq_subst(a[0], b[0], c[0]);
    } else if !ab_fst && !ab_rev && bc_fst {
        lemma_datum_connex(a[0], b[0]);
        lemma_datum_eq_subst(c[0], b[0], a[0]);
    } else {
        lemma_datum_connex(a[0], b[0]);
        lemma_datum_connex(b[0], c[0]);
        lemma_datum_eq_subst(a[0], b[0], c[0]);
        lemma_key_lt_trans(a.skip(1), b.skip(1), c.skip(1), dirs.skip(1));
    }
}

/// No key is strictly below itself.
pub proof fn lemma_lex_irrefl(x: Seq<u8>)
    ensures
        !crate::datum::lex_lt(x, x),
    decreases x.len(),
{
    if x.len() > 0 {
        lemma_lex_irrefl(x.skip(1));
    }
}

/// The key order is irreflexive.
pub proof fn lemma_key_lt_irrefl(k: Seq<DatumV>, dirs: Seq<bool>)
    ensures
        !key_lt(k, k, dirs),
    decreases k.len(),
{
    if k.len() > 0 && dirs.len() > 0 {
        match k[0] {
            DatumV::Bytes(x) => lemma_lex_irrefl(x),
            _ => {},
        }
        lemma_key_lt_irrefl(k.skip(1), dirs.skip(1));
    }
}

/// What the operator emits when every child row has a key: the sorted
/// prefix of length `limit`, or everything when fewer rows exist.
pub open spec fn topn_spec(
    rows: Seq<RowV>,
    order: Seq<(Expr, bool)>,
    offsets: Seq<usize>,
    limit: int,
) -> Option<Seq<RowV>> {
    match keyed_rows(rows, order, offsets) {
        Option::None => None,
        Option::Some(kd) => {
            let sorted = sort_keyed(kd, dirs_of(order));
            let kept = if limit <= sorted.len() {
                sorted.take(limit)
            } else {
                sorted
            };
            Some(kept.map_values(|p: (Seq<DatumV>, RowV)| p.1))
        },
    }
}

/// The views of a row buffer.
pub open spec fn rows_views(rs: Seq<Row>) -> Seq<RowV> {
    rs.map_values(|r: Row| r@)
}

/// Compares two composite keys under the direction flags.
pub fn cmp_keys(a: &Vec<Datum>, b: &Vec<Datum>, dirs: &Vec<bool>) -> (r: bool)
    ensures
        r == key_lt(views_of(a@), views_of(b@), dirs@),
{
    let mut i: usize = 0;
    let ghost av = views_of(a@);
    let ghost bv = views_of(b@);
    proof {
        assert(av.skip(0) =~= av);
        assert(bv.skip(0) =~= bv);
        assert(dirs@.skip(0) =~= dirs@);
    }
    loop
        invariant
            i <= a@.len() && i <= b@.len() && i <= dirs@.len(),
            av == views_of(a@) && bv == views_of(b@),
            key_lt(av, bv, dirs@) == key_lt(
                av.skip(i as int),
                bv.skip(i as int),
                dirs@.skip(i as int),
            ),
        decreases a@.len() - i,
    {
        if i >= a.len() || i >= b.len() || i >= dirs.len() {
            proof {
                assert(av.skip(i as int).len() == 0 || bv.skip(i as int).len() == 0
                    || dirs@.skip(i as int).len() == 0);
            }
            return false;
        }
        let c = crate::datum::datum_cmp(&a[i], &b[i]);
        proof {
            assert(av.skip(i as int)[0] == av[i as int]);
            assert(bv.skip(i as int)[0] == bv[i as int]);
            assert(dirs@.skip(i as int)[0] == dirs@[i as int]);
            assert(av.skip(i as int).skip(1) =~= av.skip(i + 1 as int));
            assert(bv.skip(i as int).skip(1) =~= bv.skip(i + 1 as int));
            assert(dirs@.skip(i as int).skip(1) =~= dirs@.skip(i + 1 as int));
        }
        let d = dirs[i];
        match c {
            Cmp::Lt => {
                return !d;
            },
            Cmp::Gt => {
                return d;
            },
            Cmp::Eq => {
                proof {
                    assert(!datum_lt(av[i as int], bv[i as int]) && !datum_lt(
                        bv[i as int],
                        av[i as int],
                    ));
                }
            },
        }
        i = i + 1;
    }
}

/// Evaluates the composite sort key of an inflated row.
pub fn eval_key_ex(order: &Vec<(Expr, bool)>, datums: &Vec<Datum>) -> (r: Result<
    Vec<Datum>,
    Error,
>)
    ensures
        match r {
            Ok(k) => eval_key(order@, views_of(datums@)) == Ok::<Seq<DatumV>, Error>(
                views_of(k@),
            ),
            Err(e) => eval_key(order@, views_of(datums@)) == Err::<Seq<DatumV>, Error>(e),
        },
{
    let ghost dv = views_of(datums@);
    let mut out: Vec<Datum> = Vec::new();
    let mut i: usize = 0;
    proof {
        assert(order@.take(0) =~= Seq::<(Expr, bool)>::empty());
        assert(order@.skip(0) =~= order@);
        assert(views_of(out@) =~= Seq::<DatumV>::empty());
        assert(eval_key(Seq::<(Expr, bool)>::empty(), dv) == Ok::<Seq<DatumV>, Error>(
            Seq::empty(),
        ));
        match eval_key(order@, dv) {
            Ok(rest) => {
                assert(views_of(out@) + rest =~= rest);
            },
            Err(_) => {},
        }
    }
    while i < order.len()
        invariant
            i <= order@.len(),
            dv == views_of(datums@),
            eval_key(order@.take(i as int), dv) == Ok::<Seq<DatumV>, Error>(views_of(out@)),
            eval_key(order@, dv) == (match eval_key(order@.skip(i as int), dv) {
                Ok(rest) => Ok::<Seq<DatumV>, Error>(views_of(out@) + rest),
                Err(e) => Err::<Seq<DatumV>, Error>(e),
            }),
        decreases order@.len() - i,
    {
        proof {
            assert(order@.skip(i as int)[0] == order@[i as int]);
            assert(order@.skip(i as int).skip(1) =~= order@.skip(i + 1 as int));
        }
        match eval(&order[i].0, datums) {
            Err(e) => {
                return Err(e);
            },
            Ok(d) => {
                let ghost oldout = out@;
                out.push(d);
                proof {
                    assert(views_of(out@) =~= views_of(oldout).push(d@));
                    assert(order@.take(i + 1 as int) =~= order@.take(i as int).push(
                        order@[i as int],
                    ));
                    lemma_eval_key_push(order@.take(i as int), order@[i as int], dv);
                    match eval_key(order@.skip(i + 1 as int), dv) {
                        Ok(rest) => {
                            assert(views_of(oldout) + (seq![d@] + rest) =~= views_of(oldout).push(
                                d@,
                            ) + rest);
                        },
                        Err(_) => {},
                    }
                }
            },
        }
        i = i + 1;
    }
    proof {
        assert(order@.skip(order@.len() as int).len() == 0);
        assert(views_of(out@) + Seq::<DatumV>::empty() =~= views_of(out@));
    }
    Ok(out)
}

pub proof fn lemma_eval_key_push(order: Seq<(Expr, bool)>, p: (Expr, bool), datums: Seq<DatumV>)
    ensures
        eval_key(order.push(p), datums) == (match eval_key(order, datums) {
            Ok(ks) => match eval_expr(p.0, datums) {
                Ok(d) => Ok::<Seq<DatumV>, Error>(ks.push(d)),
                Err(e) => Err::<Seq<DatumV>, Error>(e),
            },
            Err(e) => Err::<Seq<DatumV>, Error>(e),
        }),
    decreases order.len(),
{
    if order.len() == 0 {
        assert(order.push(p)[0] == p);
        assert(order.push(p).skip(1) =~= Seq::<(Expr, bool)>::empty());
        assert(eval_key(Seq::<(Expr, bool)>::empty(), datums) == Ok::<Seq<DatumV>, Error>(
            Seq::empty(),
        ));
        match eval_expr(p.0, datums) {
            Ok(d) => {
                assert(seq![d] + Seq::<DatumV>::empty() =~= Seq::<DatumV>::empty().push(d));
            },
            Err(_) => {},
        }
    } else {
        assert(order.push(p)[0] == order[0]);
        assert(order.push(p).skip(1) =~= order.skip(1).push(p));
        lemma_eval_key_push(order.skip(1), p, datums);
        match eval_expr(order[0].0, datums) {
            Ok(d0) => {
                match eval_key(order.skip(1), datums) {
                    Ok(rest) => {
                        match eval_expr(p.0, datums) {
                            Ok(d) => {
                                assert(seq![d0] + rest.push(d) =~= (seq![d0] + rest).push(d));
                            },
                            Err(_) => {},
                        }
                    },
                    Err(_) => {},
                }
            },
            Err(_) => {},
        }
    }
}

/// What a top-n operator emits when every child row has a sort key: a
/// totally ordered prefix, of length the smaller of the limit and the
/// child's row count, made only of child rows.
pub proof fn lemma_topn_ordered(
    rows: Seq<RowV>,
    order: Seq<(Expr, bool)>,
    offsets: Seq<usize>,
    limit: int,
)
    requires
        limit >= 0,
        keyed_rows(rows, order, offsets) is Some,
    ensures
        topn_spec(rows, order, offsets, limit) matches Some(out) && out.len() == (if limit
            <= rows.len() {
            limit
        } else {
            rows.len() as int
        }) && (forall|i: int, j: int|
            0 <= i < j < out.len() ==> !key_lt(
                row_key_of(#[trigger] out[j], order, offsets)->Ok_0,
                row_key_of(#[trigger] out[i], order, offsets)->Ok_0,
                dirs_of(order),
            )) && (forall|i: int|
            0 <= i < out.len() ==> exists|m: int|
                0 <= m < rows.len() && #[trigger] out[i] == rows[m]),
{
    broadcast use vstd::seq_lib::group_to_multiset_ensures;

    let kd = keyed_rows(rows, order, offsets).unwrap();
    lemma_keyed_rows_pairs(rows, order, offsets);
    lemma_sort_keyed_props(kd, dirs_of(order));
    let sorted = sort_keyed(kd, dirs_of(order));
    let kept = if limit <= sorted.len() {
        sorted.take(limit)
    } else {
        sorted
    };
    let out = topn_spec(rows, order, offsets, limit).unwrap();
    assert(out.len() == kept.len());
    assert forall|i: int| 0 <= i < kept.len() implies exists|m: int|
        0 <= m < rows.len() && kept[i].1 == rows[m] && #[trigger] kept[i] == kd[m] by {
        assert(kept[i] == sorted[i]);
        assert(sorted.contains(sorted[i]));
        assert(sorted.to_multiset().count(sorted[i]) > 0);
        assert(kd.to_multiset().count(sorted[i]) > 0);
        assert(kd.contains(sorted[i]));
        let m = choose|m: int| 0 <= m < kd.len() && kd[m] == sorted[i];
        assert(kd[m].1 == rows[m]);
    }
    assert forall|i: int, j: int| 0 <= i < j < out.len() implies !key_lt(
        row_key_of(#[trigger] out[j], order, offsets)->Ok_0,
        row_key_of(#[trigger] out[i], order, offsets)->Ok_0,
        dirs_of(order),
    ) by {
        assert(out[i] == kept[i].1);
        assert(out[j] == kept[j].1);
        let mi = choose|m: int| 0 <= m < rows.len() && kept[i].1 == rows[m] && kept[i] == kd[m];
        let mj = choose|m: int| 0 <= m < rows.len() && kept[j].1 == rows[m] && kept[j] == kd[m];
        assert(kd[mi].0 == row_key_of(rows[mi], order, offsets)->Ok_0);
        assert(kd[mj].0 == row_key_of(rows[mj], order, offsets)->Ok_0);
        assert(kept[i] == sorted[i] && kept[j] == sorted[j]);
        assert(!key_lt(sorted[j].0, sorted[i].0, dirs_of(order)));
    }
    assert forall|i: int| 0 <= i < out.len() implies exists|m: int|
        0 <= m < rows.len() && #[trigger] out[i] == rows[m] by {
        let m = choose|m: int| 0 <= m < rows.len() && kept[i].1 == rows[m] && kept[i] == kd[m];
        assert(out[i] == kept[i].1);
        assert(out[i] == rows[m]);
    }
}

/// The views of a keyed buffer.
pub open spec fn keyed_views(s: Seq<(Vec<Datum>, Row)>) -> Seq<(Seq<DatumV>, RowV)> {
    s.map_values(|p: (Vec<Datum>, Row)| (views_of(p.0@), p.1@))
}

/// Keyed rows pair each input row with its own key, in order.
pub proof fn lemma_keyed_rows_pairs(rows: Seq<RowV>, order: Seq<(Expr, bool)>, offsets: Seq<usize>)
    requires
        keyed_rows(rows, order, offsets) is Some,
    ensures
        keyed_rows(rows, order, offsets).unwrap().len() == rows.len(),
        forall|i: int|
            0 <= i < rows.len() ==> row_key_of(#[trigger] rows[i], order, offsets) is Ok
                && keyed_rows(rows, order, offsets).unwrap()[i] == (
            row_key_of(rows[i], order, offsets)->Ok_0,
            rows[i],
        ),
    decreases rows.len(),
{
    if rows.len() > 0 {
        lemma_keyed_rows_pairs(rows.skip(1), order, offsets);
        let kd = keyed_rows(rows, order, offsets).unwrap();
        let rest = keyed_rows(rows.skip(1), order, offsets).unwrap();
        assert forall|i: int|
            0 <= i < rows.len() implies row_key_of(#[trigger] rows[i], order, offsets) is Ok
            && kd[i] == (row_key_of(rows[i], order, offsets)->Ok_0, rows[i]) by {
            if i > 0 {
                assert(rows.skip(1)[i - 1] == rows[i]);
                assert(kd[i] == rest[i - 1]);
            }
        }
    }
}

/// Sorts a keyed buffer by composite key, stably.
pub fn sort_rows(input: Vec<(Vec<Datum>, Row)>, dirs: &Vec<bool>) -> (r: Vec<(Vec<Datum>, Row)>)
    ensures
        keyed_views(r@) =~= sort_keyed(keyed_views(input@), dirs@),
{
    let mut input = input;
    let mut out: Vec<(Vec<Datum>, Row)> = Vec::new();
    let ghost orig = keyed_views(input@);
    let n0 = input.len();
    let mut i: usize = 0;
    proof {
        assert(orig.len() == n0 as int);
        assert(orig.take(0) =~= Seq::<(Seq<DatumV>, RowV)>::empty());
    }
    while input.len() > 0
        invariant
            orig.len() <= usize::MAX,
            i + input@.len() == orig.len(),
            keyed_views(input@) =~= orig.skip(i as int),
            keyed_views(out@) =~= sort_keyed(orig.take(i as int), dirs@),
        decreases input@.len(),
    {
        let ghost prein = input@;
        let p = input.remove(0);
        proof {
            assert(keyed_views(prein)[0] == orig.skip(i as int)[0]);
        }
        let ghost pv = (views_of(p.0@), p.1@);
        proof {
            assert(pv == orig[i as int]);
            assert(keyed_views(input@) =~= orig.skip(i + 1 as int)) by {
                assert(keyed_views(input@).len() == orig.skip(i + 1 as int).len());
                assert forall|m: int| 0 <= m < keyed_views(input@).len() implies #[trigger]
                    keyed_views(input@)[m] == orig.skip(i + 1 as int)[m] by {
                    assert(keyed_views(input@)[m] == orig.skip(i as int)[m + 1]);
                }
            }
        }
        let mut j: usize = 0;
        loop
            invariant_except_break
                j <= out@.len(),
                forall|m: int|
                    0 <= m < j ==> !key_lt(pv.0, (#[trigger] keyed_views(out@)[m]).0, dirs@),
                keyed_views(out@) =~= sort_keyed(orig.take(i as int), dirs@),
                pv == (views_of(p.0@), p.1@),
            invariant
                keyed_views(input@) =~= orig.skip(i + 1 as int),
                pv == orig[i as int],
                i + 1 + input@.len() == orig.len(),
                orig.len() <= usize::MAX,
            ensures
                keyed_views(out@) =~= sort_keyed(orig.take(i + 1 as int), dirs@),
            decreases out@.len() - j,
        {
            if j >= out.len() || cmp_keys(&p.0, &out[j].0, dirs) {
                proof {
                    if j < out@.len() {
                        assert(keyed_views(out@)[j as int] == (
                            views_of(out@[j as int].0@),
                            out@[j as int].1@,
                        ));
                    }
                }
                let ghost preout = out@;
                let ghost oldout = keyed_views(out@);
                out.insert(j, p);
                proof {
                    assert(keyed_views(out@) =~= oldout.insert(j as int, pv)) by {
                        assert forall|m: int| 0 <= m < keyed_views(out@).len() implies #[trigger]
                            keyed_views(out@)[m] == oldout.insert(j as int, pv)[m] by {
                            if m < j {
                                assert(out@[m] == preout[m]);
                            } else if m > j {
                                assert(out@[m] == preout[m - 1]);
                            }
                        }
                    }
                    lemma_insert_keyed_at(pv, oldout, dirs@, j as int);
                    assert(oldout.take(j as int) + seq![pv] + oldout.skip(j as int)
                        =~= oldout.insert(j as int, pv));
                    assert(orig.take(i + 1 as int) =~= orig.take(i as int).push(orig[i as int]));
                    assert(orig.take(i + 1 as int).drop_last() =~= orig.take(i as int));
                    assert(sort_keyed(orig.take(i + 1 as int), dirs@) == insert_keyed(
                        orig[i as int],
                        sort_keyed(orig.take(i as int), dirs@),
                        dirs@,
                    ));
                    assert(keyed_views(out@) =~= sort_keyed(orig.take(i + 1 as int), dirs@));
                }
                break ;
            }
            proof {
                assert(keyed_views(out@)[j as int] == (
                    views_of(out@[j as int].0@),
                    out@[j as int].1@,
                ));
            }
            j = j + 1;
        }
        i = i + 1;
    }
    proof {
        assert(orig.take(orig.len() as int) =~= orig);
    }
    out
}

/// Splitting an insertion at the found position.
pub proof fn lemma_insert_keyed_at(
    x: (Seq<DatumV>, RowV),
    s: Seq<(Seq<DatumV>, RowV)>,
    dirs: Seq<bool>,
    j: int,
)
    requires
        0 <= j <= s.len(),
        forall|m: int| 0 <= m < j ==> !key_lt(x.0, (#[trigger] s[m]).0, dirs),
        j < s.len() ==> key_lt(x.0, s[j].0, dirs),
    ensures
        insert_keyed(x, s, dirs) =~= s.take(j) + seq![x] + s.skip(j),
    decreases j,
{
    if j == 0 {
        if s.len() > 0 {
            assert(s.take(0) =~= Seq::<(Seq<DatumV>, RowV)>::empty());
            assert(s.skip(0) =~= s);
        }
    } else {
        assert(!key_lt(x.0, s[0].0, dirs));
        assert forall|m: int| 0 <= m < j - 1 implies !key_lt(
            x.0,
            (#[trigger] s.skip(1)[m]).0,
            dirs,
        ) by {
            assert(s.skip(1)[m] == s[m + 1]);
        }
        assert(j - 1 < s.skip(1).len() ==> s.skip(1)[j - 1] == s[j]);
        lemma_insert_keyed_at(x, s.skip(1), dirs, j - 1);
        assert(s.skip(1).take(j - 1) =~= s.take(j).skip(1));
        assert(s.skip(1).skip(j - 1) =~= s.skip(j));
        assert(seq![s[0]] + (s.skip(1).take(j - 1) + seq![x] + s.skip(1).skip(j - 1)) =~= s.take(
            j,
        ) + seq![x] + s.skip(j));
    }
}

/// Consumes the child entirely on first pull, keeps the `limit` rows with
/// the smallest composite keys, and emits them in key order.
pub struct TopNExecutor<E: Executor> {
    pub order_exprs: Vec<(Expr, bool)>,
    pub dirs: Vec<bool>,
    pub related_cols_offset: Vec<usize>,
    pub limit: usize,
    pub ctx: EvalContext,
    pub src: E,
    pub fetched: bool,
    pub buf: Vec<Row>,
}

/// The views of a row buffer.
pub open spec fn row_views(rs: Seq<Row>) -> Seq<RowV> {
    rs.map_values(|r: Row| r@)
}

impl<E: Executor> TopNExecutor<E> {
    /// Builds the operator; fails exactly when an order expression
    /// references an offset outside the child's schema.
    pub fn new(order_exprs: Vec<(Expr, bool)>, limit: usize, ctx: EvalContext, src: E) -> (r:
        Result<TopNExecutor<E>, Error>)
        requires
            src.wf(),
        ensures
            match r {
                Ok(t) => t.wf() && !t.fetched && t.src == src && t.order_exprs == order_exprs
                    && t.limit == limit && t.dirs@ == dirs_of(order_exprs@) && exprs_wf(
                    order_exprs_of(order_exprs@),
                    src.schema_len() as int,
                ) && offsets_view(t.related_cols_offset@) =~= exprs_offsets(
                    order_exprs_of(order_exprs@),
                ),
                Err(e) => !exprs_wf(order_exprs_of(order_exprs@), src.schema_len() as int) && e
                    == exprs_err(order_exprs_of(order_exprs@), src.schema_len() as int) && (e
                    == Error::Codec || e == Error::OffsetOutOfRange),
            },
    {
        let cols_len = src.get_len_of_columns();
        let mut visitor = ExprColumnRefVisitor::new(cols_len);
        let mut i: usize = 0;
        let mut dirs: Vec<bool> = Vec::new();
        proof {
            assert(order_exprs_of(order_exprs@.take(0)) =~= Seq::<Expr>::empty());
            assert(exprs_offsets(Seq::<Expr>::empty()) =~= Set::<int>::empty());
            assert(exprs_wf(Seq::<Expr>::empty(), src.schema_len() as int));
        }
        while i < order_exprs.len()
            invariant
                i <= order_exprs@.len(),
                visitor.inv(),
                visitor.spec_cols_len() == src.schema_len(),
                exprs_wf(order_exprs_of(order_exprs@.take(i as int)), src.schema_len() as int),
                visitor.offsets_set() =~= exprs_offsets(
                    order_exprs_of(order_exprs@.take(i as int)),
                ),
                dirs@ =~= dirs_of(order_exprs@.take(i as int)),
            decreases order_exprs@.len() - i,
        {
            proof {
                assert(order_exprs_of(order_exprs@.take(i + 1 as int)) =~= order_exprs_of(
                    order_exprs@.take(i as int),
                ).push(order_exprs@[i as int].0)) by {
                    assert(order_exprs@.take(i + 1 as int) =~= order_exprs@.take(i as int).push(
                        order_exprs@[i as int],
                    ));
                }
                lemma_exprs_wf_push(
                    order_exprs_of(order_exprs@.take(i as int)),
                    order_exprs@[i as int].0,
                    src.schema_len() as int,
                );
                lemma_exprs_offsets_push(
                    order_exprs_of(order_exprs@.take(i as int)),
                    order_exprs@[i as int].0,
                );
            }
            match visitor.visit(&order_exprs[i].0) {
                Err(e) => {
                    proof {
                        let k = src.schema_len() as int;
                        let fs = order_exprs_of(order_exprs@);
                        lemma_exprs_wf_all(fs, k);
                        assert(fs[i as int] == order_exprs@[i as int].0);
                        assert(!expr_wf(fs[i as int], k));
                        lemma_exprs_wf_all(order_exprs_of(order_exprs@.take(i as int)), k);
                        assert forall|m: int| 0 <= m < i implies expr_wf(#[trigger] fs[m], k) by {
                            assert(order_exprs_of(order_exprs@.take(i as int))[m] == order_exprs@[
                                m].0);
                            assert(fs[m] == order_exprs@[m].0);
                            assert(expr_wf(order_exprs_of(order_exprs@.take(i as int))[m], k));
                        }
                        lemma_exprs_err_at(fs, k, i as int);
                    }
                    return Err(e);
                },
                Ok(()) => {},
            }
            dirs.push(order_exprs[i].1);
            proof {
                assert(dirs_of(order_exprs@.take(i + 1 as int)) =~= dirs_of(
                    order_exprs@.take(i as int),
                ).push(order_exprs@[i as int].1)) by {
                    assert(order_exprs@.take(i + 1 as int) =~= order_exprs@.take(i as int).push(
                        order_exprs@[i as int],
                    ));
                }
            }
            i = i + 1;
        }
        proof {
            assert(order_exprs@.take(order_exprs@.len() as int) =~= order_exprs@);
        }
        let related_cols_offset = visitor.column_offsets();
        Ok(
            TopNExecutor {
                order_exprs,
                dirs,
                related_cols_offset,
                limit,
                ctx,
                src,
                fetched: false,
                buf: Vec::new(),
            },
        )
    }
}

impl<E: Executor> Executor for TopNExecutor<E> {
    open spec fn wf(&self) -> bool {
        &&& self.dirs@ == dirs_of(self.order_exprs@)
        &&& if self.fetched {
            forall|i: int|
                0 <= i < row_views(self.buf@).len() ==> row_shape_ok(
                    #[trigger] row_views(self.buf@)[i],
                    self.src.schema_len(),
                )
        } else {
            &&& self.src.wf()
            &&& self.buf@.len() == 0
            &&& forall|i: int|
                0 <= i < self.related_cols_offset@.len() ==> (
                #[trigger] self.related_cols_offset@[i]) < self.src.schema_len()
        }
    }

    open spec fn pending(&self) -> Seq<RowV> {
        if self.fetched {
            row_views(self.buf@)
        } else {
            match topn_spec(
                self.src.pending(),
                self.order_exprs@,
                self.related_cols_offset@,
                self.limit as int,
            ) {
                Option::Some(s) => s,
                Option::None => Seq::empty(),
            }
        }
    }

    open spec fn schema_len(&self) -> nat {
        self.src.schema_len()
    }

    proof fn pending_rows_ok(&self) {
        broadcast use vstd::seq_lib::group_to_multiset_ensures;

        if self.fetched {
        } else {
            self.src.pending_rows_ok();
            let rows = self.src.pending();
            match keyed_rows(rows, self.order_exprs@, self.related_cols_offset@) {
                Option::None => {},
                Option::Some(kd) => {
                    lemma_keyed_rows_pairs(rows, self.order_exprs@, self.related_cols_offset@);
                    lemma_sort_keyed_props(kd, dirs_of(self.order_exprs@));
                    let sorted = sort_keyed(kd, dirs_of(self.order_exprs@));
                    let kept = if self.limit as int <= sorted.len() {
                        sorted.take(self.limit as int)
                    } else {
                        sorted
                    };
                    assert forall|i: int| 0 <= i < self.pending().len() implies row_shape_ok(
                        #[trigger] self.pending()[i],
                        self.schema_len(),
                    ) by {
                        assert(self.pending()[i] == kept[i].1);
                        assert(kept[i] == sorted[i]);
                        assert(sorted.contains(sorted[i]));
                        assert(sorted.to_multiset().count(sorted[i]) > 0);
                        assert(kd.to_multiset().count(sorted[i]) > 0);
                        assert(kd.contains(sorted[i]));
                        let m = choose|m: int| 0 <= m < kd.len() && kd[m] == sorted[i];
                        assert(kd[m].1 == rows[m]);
                        assert(row_shape_ok(rows[m], self.src.schema_len()));
                    }
                },
            }
        }
    }

    fn next(&mut self) -> (r: Result<Option<Row>, Error>)
        ensures
            old(self).fetched ==> r is Ok,
    {
        if !self.fetched {
            let mut keyed: Vec<(Vec<Datum>, Row)> = Vec::new();
            let ghost startp = self.src.pending();
            proof {
                self.src.pending_rows_ok();
                assert(keyed_views(keyed@) =~= Seq::<(Seq<DatumV>, RowV)>::empty());
            }
            loop
                invariant
                    forall|q: int|
                        0 <= q < startp.len() ==> row_shape_ok(
                            #[trigger] startp[q],
                            old(self).src.schema_len(),
                        ),
                    !old(self).fetched,
                    !self.fetched,
                    self.wf(),
                    self.order_exprs == old(self).order_exprs,
                    self.dirs == old(self).dirs,
                    self.related_cols_offset == old(self).related_cols_offset,
                    self.limit == old(self).limit,
                    self.buf == old(self).buf,
                    self.src.schema_len() == old(self).src.schema_len(),
                    startp == old(self).src.pending(),
                    keyed_rows(startp, self.order_exprs@, self.related_cols_offset@) == (
                    match keyed_rows(
                        self.src.pending(),
                        self.order_exprs@,
                        self.related_cols_offset@,
                    ) {
                        Option::Some(t) => Option::Some(keyed_views(keyed@) + t),
                        Option::None => Option::None::<Seq<(Seq<DatumV>, RowV)>>,
                    }),
                ensures
                    forall|q: int|
                        0 <= q < startp.len() ==> row_shape_ok(
                            #[trigger] startp[q],
                            old(self).src.schema_len(),
                        ),
                    keyed_rows(startp, self.order_exprs@, self.related_cols_offset@)
                        == Option::Some(keyed_views(keyed@)),
                    !self.fetched,
                    self.wf(),
                    self.order_exprs == old(self).order_exprs,
                    self.dirs == old(self).dirs,
                    self.related_cols_offset == old(self).related_cols_offset,
                    self.limit == old(self).limit,
                    self.buf == old(self).buf,
                    self.src.schema_len() == old(self).src.schema_len(),
                decreases self.src.pending().len(),
            {
                let ghost prepend = self.src.pending();
                proof {
                    self.src.pending_rows_ok();
                }
                let nxt = self.src.next();
                match nxt {
                    Err(e) => {
                        return Err(e);
                    },
                    Ok(None) => {
                        proof {
                            assert(keyed_rows(
                                prepend,
                                self.order_exprs@,
                                self.related_cols_offset@,
                            ) == Option::Some(Seq::<(Seq<DatumV>, RowV)>::empty()));
                            assert(keyed_views(keyed@) + Seq::<(Seq<DatumV>, RowV)>::empty()
                                =~= keyed_views(keyed@));
                        }
                        break ;
                    },
                    Ok(Some(row)) => {
                        match row {
                            Row::Agg(_) => {
                                return Err(Error::Eval);
                            },
                            Row::Origin(o) => {
                                proof {
                                    assert(row_shape_ok(prepend[0], self.src.schema_len()));
                                }
                                let datums = match o.inflate_cols_with_offsets(
                                    &self.related_cols_offset,
                                ) {
                                    Err(e) => {
                                        return Err(e);
                                    },
                                    Ok(ds) => ds,
                                };
                                let key = match eval_key_ex(&self.order_exprs, &datums) {
                                    Err(e) => {
                                        return Err(e);
                                    },
                                    Ok(k) => k,
                                };
                                let rw = Row::Origin(o);
                                let ghost pv = (views_of(key@), rw@);
                                proof {
                                    assert(row_key_of(
                                        prepend[0],
                                        self.order_exprs@,
                                        self.related_cols_offset@,
                                    ) == Ok::<Seq<DatumV>, Error>(views_of(key@)));
                                }
                                let ghost oldkeyed = keyed_views(keyed@);
                                keyed.push((key, rw));
                                proof {
                                    assert(keyed_views(keyed@) =~= oldkeyed.push(pv));
                                    match keyed_rows(
                                        self.src.pending(),
                                        self.order_exprs@,
                                        self.related_cols_offset@,
                                    ) {
                                        Option::Some(t) => {
                                            assert(keyed_rows(
                                                prepend,
                                                self.order_exprs@,
                                                self.related_cols_offset@,
                                            ) == Option::Some(seq![pv] + t));
                                            assert(oldkeyed + (seq![pv] + t) =~= oldkeyed.push(
                                                pv,
                                            ) + t);
                                        },
                                        Option::None => {},
                                    }
                                }
                            },
                        }
                    },
                }
            }
            let ghost kdg = keyed_views(keyed@);
            let sorted = sort_rows(keyed, &self.dirs);
            let mut sorted = sorted;
            let ghost sortedv = keyed_views(sorted@);
            while sorted.len() > self.limit
                invariant
                    keyed_views(sorted@) =~= sortedv.take(sorted@.len() as int),
                    sorted@.len() <= sortedv.len(),
                    self.limit as int <= sorted@.len() || sorted@.len() == sortedv.len(),
                decreases sorted@.len(),
            {
                let ghost n = sorted@.len() as int;
                let ghost presorted = sorted@;
                sorted.pop();
                proof {
                    assert(keyed_views(sorted@) =~= keyed_views(presorted).drop_last());
                    assert(sortedv.take(n).drop_last() =~= sortedv.take(n - 1));
                }
            }
            let mut buf: Vec<Row> = Vec::new();
            let ghost keptv = keyed_views(sorted@);
            proof {
                assert(sortedv.take(sortedv.len() as int) =~= sortedv);
                if self.limit as int <= sortedv.len() {
                    assert(sorted@.len() == self.limit as int);
                    assert(keptv =~= sortedv.take(self.limit as int));
                } else {
                    assert(sorted@.len() == sortedv.len());
                    assert(keptv =~= sortedv);
                }
            }
            let mut m: usize = 0;
            while sorted.len() > 0
                invariant
                    keptv.len() <= usize::MAX,
                    m + sorted@.len() == keptv.len(),
                    keyed_views(sorted@) =~= keptv.skip(m as int),
                    row_views(buf@) =~= keptv.take(m as int).map_values(
                        |p: (Seq<DatumV>, RowV)| p.1,
                    ),
                decreases sorted@.len(),
            {
                let ghost presorted2 = sorted@;
                let p = sorted.remove(0);
                proof {
                    assert(keyed_views(presorted2)[0] == keptv.skip(m as int)[0]);
                    assert(keyed_views(sorted@) =~= keptv.skip(m + 1 as int)) by {
                        assert(keyed_views(sorted@).len() == keptv.skip(m + 1 as int).len());
                        assert forall|q: int| 0 <= q < keyed_views(sorted@).len() implies
                            #[trigger] keyed_views(sorted@)[q] == keptv.skip(m + 1 as int)[q] by {
                            assert(keyed_views(sorted@)[q] == keptv.skip(m as int)[q + 1]);
                        }
                    }
                }
                let ghost oldbuf = row_views(buf@);
                buf.push(p.1);
                proof {
                    assert(row_views(buf@) =~= oldbuf.push(keptv[m as int].1));
                    assert(keptv.take(m + 1 as int) =~= keptv.take(m as int).push(
                        keptv[m as int],
                    ));
                    assert(keptv.take(m + 1 as int).map_values(|p: (Seq<DatumV>, RowV)| p.1)
                        =~= keptv.take(m as int).map_values(|p: (Seq<DatumV>, RowV)| p.1).push(
                        keptv[m as int].1,
                    ));
                }
                m = m + 1;
            }
            proof {
                assert(keptv.take(keptv.len() as int) =~= keptv);
            }
            self.buf = buf;
            self.fetched = true;
            proof {
                let rows = startp;
                let kd = keyed_rows(rows, self.order_exprs@, self.related_cols_offset@).unwrap();
                assert(kd == kdg);
                lemma_keyed_rows_pairs(rows, self.order_exprs@, self.related_cols_offset@);
                lemma_sort_keyed_props(kd, dirs_of(self.order_exprs@));
                broadcast use vstd::seq_lib::group_to_multiset_ensures;

                assert forall|i: int| 0 <= i < row_views(self.buf@).len() implies row_shape_ok(
                    #[trigger] row_views(self.buf@)[i],
                    self.src.schema_len(),
                ) by {
                    let sortedw = sort_keyed(kd, dirs_of(self.order_exprs@));
                    assert(row_views(self.buf@)[i] == keptv[i].1);
                    assert(keptv[i] == sortedw[i]);
                    assert(sortedw.contains(sortedw[i]));
                    assert(sortedw.to_multiset().count(sortedw[i]) > 0);
                    assert(kd.to_multiset().count(sortedw[i]) > 0);
                    assert(kd.contains(sortedw[i]));
                    let q = choose|q: int| 0 <= q < kd.len() && kd[q] == sortedw[i];
                    assert(kd[q].1 == rows[q]);
                    assert(row_shape_ok(rows[q], old(self).src.schema_len()));
                }
                let sortedw = sort_keyed(kd, dirs_of(self.order_exprs@));
                let keptw = if self.limit as int <= sortedw.len() {
                    sortedw.take(self.limit as int)
                } else {
                    sortedw
                };
                assert(sortedv == sortedw);
                assert(keptv =~= keptw);
                assert(old(self).pending() =~= row_views(self.buf@)) by {
                    assert forall|q: int| 0 <= q < old(self).pending().len() implies #[trigger]
                        old(self).pending()[q] == row_views(self.buf@)[q] by {
                        assert(old(self).pending()[q] == keptw[q].1);
                        assert(row_views(self.buf@)[q] == keptv.take(
                            keptv.len() as int,
                        ).map_values(|p: (Seq<DatumV>, RowV)| p.1)[q]);
                    }
                }
            }
        }
        let ghost prebuf = self.buf@;
        if self.buf.len() == 0 {
            return Ok(None);
        }
        let row = self.buf.remove(0);
        proof {
            assert(row@ == row_views(prebuf)[0]);
            assert forall|q: int| 0 <= q < row_views(self.buf@).len() implies #[trigger] row_views(
                self.buf@,
            )[q] == row_views(prebuf).skip(1)[q] by {
                assert(self.buf@[q] == prebuf[q + 1]);
            }
            assert(row_views(self.buf@) =~= row_views(prebuf).skip(1));
        }
        Ok(Some(row))
    }

    fn collect_output_counts(&mut self, counts: &mut Vec<i64>) {
        self.src.collect_output_counts(counts);
    }

    fn collect_metrics_into(&mut self, metrics: &mut ExecutorMetrics) {
        self.src.collect_metrics_into(metrics);
    }

    fn get_len_of_columns(&self) -> (r: usize) {
        self.src.get_len_of_columns()
    }

    fn take_eval_warnings(&mut self) -> (r: Option<EvalWarnings>)
        ensures
            final(self).ctx.warnings.warning_cnt == 0,
            match r {
                Some(w) => w.warning_cnt == old(self).ctx.warnings.warning_cnt && w.warning_cnt
                    > 0,
                None => old(self).ctx.warnings.warning_cnt == 0,
            },
    {
        self.ctx.take_warnings()
    }
}

} // verus!
