//! The datum model: a tagged, possibly-null SQL value, with value-based
//! ordering and equality under SQL-nullable semantics.

use vstd::prelude::*;

verus! {

/// A typed, possibly-null SQL value.
#[derive(Debug)]
pub enum Datum {
    Null,
    I64(i64),
    U64(u64),
    Bytes(Vec<u8>),
}

/// The mathematical model of a [`Datum`].
pub enum DatumV {
    Null,
    I64(i64),
    U64(u64),
    Bytes(Seq<u8>),
}

impl View for Datum {
    type V = DatumV;

    open spec fn view(&self) -> DatumV {
        match self {
            Datum::Null => DatumV::Null,
            Datum::I64(x) => DatumV::I64(*x),
            Datum::U64(x) => DatumV::U64(*x),
            Datum::Bytes(b) => DatumV::Bytes(b@),
        }
    }
}

/// The views of a sequence of datums.
pub open spec fn views_of(ds: Seq<Datum>) -> Seq<DatumV> {
    ds.map_values(|d: Datum| d@)
}

/// Strict lexicographic order on byte strings.
pub open spec fn lex_lt(a: Seq<u8>, b: Seq<u8>) -> bool
    decreases a.len(),
{
    if b.len() == 0 {
        false
    } else if a.len() == 0 {
        true
    } else if a[0] < b[0] {
        true
    } else if a[0] > b[0] {
        false
    } else {
        lex_lt(a.skip(1), b.skip(1))
    }
}

/// Datums order by kind first (null lowest, then numbers, then byte
/// strings), numbers by value and byte strings bytewise.
pub open spec fn datum_rank(d: DatumV) -> int {
    match d {
        DatumV::Null => 0,
        DatumV::I64(_) => 1,
        DatumV::U64(_) => 1,
        DatumV::Bytes(_) => 2,
    }
}

/// The numeric value of a numeric datum.
pub open spec fn datum_num(d: DatumV) -> int {
    match d {
        DatumV::I64(x) => x as int,
        DatumV::U64(x) => x as int,
        _ => 0,
    }
}

/// Value-based strict order on datums: null sorts lowest, numbers compare
/// by value across signedness, byte strings compare bytewise.
pub open spec fn datum_lt(a: DatumV, b: DatumV) -> bool {
    if datum_rank(a) != datum_rank(b) {
        datum_rank(a) < datum_rank(b)
    } else {
        match (a, b) {
            (DatumV::Bytes(x), DatumV::Bytes(y)) => lex_lt(x, y),
            _ => datum_num(a) < datum_num(b),
        }
    }
}

/// Value-based equality on datums: numbers compare by value across
/// signedness; null equals only null.
pub open spec fn datum_eq(a: DatumV, b: DatumV) -> bool {
    datum_rank(a) == datum_rank(b) && match (a, b) {
        (DatumV::Bytes(x), DatumV::Bytes(y)) => x == y,
        (DatumV::Null, DatumV::Null) => true,
        _ => datum_num(a) == datum_num(b),
    }
}

/// SQL truth of a datum when used as a condition: null and zero are false.
pub open spec fn truthy(d: DatumV) -> bool {
    match d {
        DatumV::Null => false,
        DatumV::I64(x) => x != 0,
        DatumV::U64(x) => x != 0,
        DatumV::Bytes(b) => b.len() > 0,
    }
}

/// Three-way comparison result.
#[derive(Debug, PartialEq, Eq, Structural, Clone, Copy)]
pub enum Cmp {
    Lt,
    Eq,
    Gt,
}

impl Datum {
    /// An owned copy with the same value.
    pub fn dup(&self) -> (r: Datum)
        ensures
            r@ == self@,
    {
        match self {
            Datum::Null => Datum::Null,
            Datum::I64(x) => Datum::I64(*x),
            Datum::U64(x) => Datum::U64(*x),
            Datum::Bytes(b) => {
                let mut v: Vec<u8> = Vec::new();
                let mut i: usize = 0;
                while i < b.len()
                    invariant
                        i <= b.len(),
                        v@ =~= b@.take(i as int),
                    decreases b.len() - i,
                {
                    v.push(b[i]);
                    proof {
                        assert(b@.take(i + 1 as int) =~= b@.take(i as int).push(b@[i as int]));
                    }
                    i = i + 1;
                }
                proof {
                    assert(b@.take(b.len() as int) =~= b@);
                }
                Datum::Bytes(v)
            },
        }
    }
}

/// Dropping an equal prefix from both sides does not change their
/// lexicographic relation.
pub proof fn lemma_lex_shift(a: Seq<u8>, b: Seq<u8>, i: int)
    requires
        0 <= i <= a.len(),
        i <= b.len(),
        a.take(i) =~= b.take(i),
    ensures
        lex_lt(a, b) == lex_lt(a.skip(i), b.skip(i)),
    decreases i,
{
    if i > 0 {
        assert(a.take(i)[0] == a[0]);
        assert(b.take(i)[0] == b[0]);
        assert(a.skip(1).take(i - 1) =~= b.skip(1).take(i - 1)) by {
            assert forall|j: int| 0 <= j < i - 1 implies #[trigger] a.skip(1).take(i - 1)[j] == b.skip(1).take(i - 1)[j] by {
                assert(a.take(i)[j + 1] == b.take(i)[j + 1]);
            }
        }
        lemma_lex_shift(a.skip(1), b.skip(1), i - 1);
        assert(a.skip(1).skip(i - 1) =~= a.skip(i));
        assert(b.skip(1).skip(i - 1) =~= b.skip(i));
    } else {
        assert(a.skip(0) =~= a);
        assert(b.skip(0) =~= b);
    }
}

/// Bytewise comparison of two byte strings, matching [`lex_lt`].
pub fn bytes_cmp(a: &[u8], b: &[u8]) -> (r: Cmp)
    ensures
        r == Cmp::Lt <==> lex_lt(a@, b@),
        r == Cmp::Gt <==> lex_lt(b@, a@),
        r == Cmp::Eq <==> a@ == b@,
{
    let mut i: usize = 0;
    loop
        invariant
            i <= a@.len(),
            i <= b@.len(),
            a@.take(i as int) =~= b@.take(i as int),
        decreases a@.len() - i,
    {
        if i >= a.len() || i >= b.len() {
            proof {
                lemma_lex_shift(a@, b@, i as int);
                lemma_lex_shift(b@, a@, i as int);
            }
            if a.len() == b.len() {
                proof {
                    assert(a@ =~= a@.take(i as int));
                    assert(b@ =~= b@.take(i as int));
                    assert(a@ =~= b@);
                    assert(a@.skip(i as int).len() == 0);
                }
                return Cmp::Eq;
            } else if i >= a.len() && i < b.len() {
                proof {
                    assert(a@.skip(i as int).len() == 0);
                    assert(b@.skip(i as int).len() > 0);
                    assert(a@.len() != b@.len());
                }
                return Cmp::Lt;
            } else {
                proof {
                    assert(b@.skip(i as int).len() == 0);
                    assert(a@.skip(i as int).len() > 0);
                    assert(a@.len() != b@.len());
                }
                return Cmp::Gt;
            }
        }
        let x = a[i];
        let y = b[i];
        if x != y {
            proof {
                lemma_lex_shift(a@, b@, i as int);
                lemma_lex_shift(b@, a@, i as int);
                assert(a@.skip(i as int).len() > 0);
                assert(b@.skip(i as int).len() > 0);
                assert(a@.skip(i as int)[0] == a@[i as int]);
                assert(b@.skip(i as int)[0] == b@[i as int]);
                assert(a@[i as int] != b@[i as int]);
            }
            if x < y {
                return Cmp::Lt;
            } else {
                return Cmp::Gt;
            }
        }
        proof {
            assert(a@.take(i + 1 as int) =~= b@.take(i + 1 as int)) by {
                assert(a@.take(i + 1 as int) =~= a@.take(i as int).push(a@[i as int]));
                assert(b@.take(i + 1 as int) =~= b@.take(i as int).push(b@[i as int]));
            }
        }
        i = i + 1;
    }
}

/// Value-based three-way comparison of datums, matching [`datum_lt`] and
/// [`datum_eq`].
pub fn datum_cmp(a: &Datum, b: &Datum) -> (r: Cmp)
    ensures
        r == Cmp::Lt <==> datum_lt(a@, b@),
        r == Cmp::Gt <==> datum_lt(b@, a@),
        r == Cmp::Eq <==> datum_eq(a@, b@),
{
    match (a, b) {
        (Datum::Null, Datum::Null) => Cmp::Eq,
        (Datum::Null, _) => Cmp::Lt,
        (_, Datum::Null) => Cmp::Gt,
        (Datum::Bytes(x), Datum::Bytes(y)) => bytes_cmp(x.as_slice(), y.as_slice()),
        (Datum::Bytes(_), _) => Cmp::Gt,
        (_, Datum::Bytes(_)) => Cmp::Lt,
        (Datum::I64(x), Datum::I64(y)) => {
            if *x < *y {
                Cmp::Lt
            } else if *x > *y {
                Cmp::Gt
            } else {
                Cmp::Eq
            }
        },
        (Datum::I64(x), Datum::U64(y)) => {
            if *x < 0 {
                Cmp::Lt
            } else {
                let xu = *x as u64;
                if xu < *y {
                    Cmp::Lt
                } else if xu > *y {
                    Cmp::Gt
                } else {
                    Cmp::Eq
                }
            }
        },
        (Datum::U64(x), Datum::I64(y)) => {
            if *y < 0 {
                Cmp::Gt
            } else {
                let yu = *y as u64;
                if *x < yu {
                    Cmp::Lt
                } else if *x > yu {
                    Cmp::Gt
                } else {
                    Cmp::Eq
                }
            }
        },
        (Datum::U64(x), Datum::U64(y)) => {
            if *x < *y {
                Cmp::Lt
            } else if *x > *y {
                Cmp::Gt
            } else {
                Cmp::Eq
            }
        },
    }
}

/// Whether this datum counts as true when used as a filter condition.
pub fn datum_truthy(d: &Datum) -> (r: bool)
    ensures
        r == truthy(d@),
{
    match d {
        Datum::Null => false,
        Datum::I64(x) => *x != 0,
        Datum::U64(x) => *x != 0,
        Datum::Bytes(b) => b.len() > 0,
    }
}

} // verus!
