//! An in-memory key-value snapshot with ranged scans: the storage a scan
//! executor drives.  Rows are kept strictly sorted by key, so a ranged
//! scanner emits keys in bytewise order.

use vstd::prelude::*;

use crate::datum::{bytes_cmp, lex_lt, Cmp};
use crate::executor::copy_bytes;

verus! {

/// The byte-string views of a pair list.
pub open spec fn kv_views(ps: Seq<(Vec<u8>, Vec<u8>)>) -> Seq<(Seq<u8>, Seq<u8>)> {
    ps.map_values(|p: (Vec<u8>, Vec<u8>)| (p.0@, p.1@))
}

/// Strictly sorted by key, bytewise.
pub open spec fn kv_sorted(kvs: Seq<(Seq<u8>, Seq<u8>)>) -> bool {
    forall|i: int, j: int| 0 <= i < j < kvs.len() ==> lex_lt(kvs[i].0, kvs[j].0)
}

/// Whether `k` lies in the half-open interval `[start, end)`.
pub open spec fn in_range(k: Seq<u8>, start: Seq<u8>, end: Seq<u8>) -> bool {
    !lex_lt(k, start) && lex_lt(k, end)
}

/// The pairs of `kvs` inside `[start, end)`, in order; values are dropped
/// when `key_only` is set.
pub open spec fn range_filter(
    kvs: Seq<(Seq<u8>, Seq<u8>)>,
    start: Seq<u8>,
    end: Seq<u8>,
    key_only: bool,
) -> Seq<(Seq<u8>, Seq<u8>)>
    decreases kvs.len(),
{
    if kvs.len() == 0 {
        Seq::empty()
    } else {
        let rest = range_filter(kvs.skip(1), start, end, key_only);
        if in_range(kvs[0].0, start, end) {
            seq![
                (kvs[0].0, if key_only {
                    Seq::<u8>::empty()
                } else {
                    kvs[0].1
                }),
            ] + rest
        } else {
            rest
        }
    }
}

/// What `put` does to the sorted pair list: the new pair lands before the
/// first larger key, replacing an equal one.
pub open spec fn kv_insert(
    kvs: Seq<(Seq<u8>, Seq<u8>)>,
    k: Seq<u8>,
    v: Seq<u8>,
) -> Seq<(Seq<u8>, Seq<u8>)>
    decreases kvs.len(),
{
    if kvs.len() == 0 {
        seq![(k, v)]
    } else if lex_lt(k, kvs[0].0) {
        seq![(k, v)] + kvs
    } else if k == kvs[0].0 {
        seq![(k, v)] + kvs.skip(1)
    } else {
        seq![kvs[0]] + kv_insert(kvs.skip(1), k, v)
    }
}

/// A read-only snapshot of key-value pairs, strictly sorted by key.
#[derive(Debug)]
pub struct MemStore {
    pub rows: Vec<(Vec<u8>, Vec<u8>)>,
}

impl MemStore {
    /// The pair list the store holds.
    pub open spec fn kv_view(&self) -> Seq<(Seq<u8>, Seq<u8>)> {
        kv_views(self.rows@)
    }

    pub open spec fn wf(&self) -> bool {
        kv_sorted(self.kv_view())
    }

    pub fn new() -> (r: MemStore)
        ensures
            r.wf(),
            r.kv_view() =~= Seq::<(Seq<u8>, Seq<u8>)>::empty(),
    {
        MemStore { rows: Vec::new() }
    }

    /// Stores `value` under `key`, replacing any previous value.
    pub fn put(&mut self, key: Vec<u8>, value: Vec<u8>)
        requires
            old(self).wf(),
        ensures
            final(self).wf(),
            final(self).kv_view() =~= kv_insert(old(self).kv_view(), key@, value@),
    {
        let ghost oldkv = self.kv_view();
        let mut i: usize = 0;
        proof {
            assert(oldkv.skip(0) =~= oldkv);
            assert(oldkv.take(0) =~= Seq::<(Seq<u8>, Seq<u8>)>::empty());
            assert(Seq::<(Seq<u8>, Seq<u8>)>::empty() + kv_insert(oldkv, key@, value@)
                =~= kv_insert(oldkv, key@, value@));
        }
        loop
            invariant
                self == old(self),
                kv_sorted(oldkv),
                i <= self.rows@.len(),
                forall|j: int| 0 <= j < i ==> lex_lt((#[trigger] self.kv_view()[j]).0, key@),
                kv_insert(oldkv, key@, value@) =~= oldkv.take(i as int) + kv_insert(
                    oldkv.skip(i as int),
                    key@,
                    value@,
                ),
                oldkv == self.kv_view(),
            decreases self.rows@.len() - i,
        {
            if i >= self.rows.len() {
                proof {
                    assert(oldkv.skip(i as int).len() == 0);
                    assert(kv_insert(oldkv.skip(i as int), key@, value@) =~= seq![(key@, value@)]);
                }
                self.rows.push((key, value));
                proof {
                    lemma_kv_views_push(old(self).rows@, self.rows@);
                    assert(oldkv.take(i as int) =~= oldkv);
                    assert(self.kv_view() =~= oldkv.take(i as int) + seq![(key@, value@)]
                        + oldkv.skip(i as int));
                    lemma_kv_insert_sorted_here(oldkv, key@, value@, i as int, false);
                }
                return ;
            }
            let c = bytes_cmp(self.rows[i].0.as_slice(), key.as_slice());
            proof {
                assert(self.kv_view()[i as int].0 == self.rows@[i as int].0@);
                assert(oldkv.skip(i as int)[0] == oldkv[i as int]);
                assert(oldkv.skip(i as int).skip(1) =~= oldkv.skip(i + 1 as int));
            }
            match c {
                Cmp::Lt => {
                    proof {
                        assert(kv_insert(oldkv.skip(i as int), key@, value@) =~= seq![
                            oldkv[i as int],
                        ] + kv_insert(oldkv.skip(i + 1 as int), key@, value@));
                        assert(oldkv.take(i + 1 as int) =~= oldkv.take(i as int).push(
                            oldkv[i as int],
                        ));
                        assert(oldkv.take(i as int) + (seq![oldkv[i as int]] + kv_insert(
                            oldkv.skip(i + 1 as int),
                            key@,
                            value@,
                        )) =~= oldkv.take(i + 1 as int) + kv_insert(
                            oldkv.skip(i + 1 as int),
                            key@,
                            value@,
                        ));
                    }
                    i = i + 1;
                },
                Cmp::Eq => {
                    proof {
                        assert(!lex_lt(key@, oldkv.skip(i as int)[0].0));
                        assert(kv_insert(oldkv.skip(i as int), key@, value@) =~= seq![
                            (key@, value@),
                        ] + oldkv.skip(i + 1 as int));
                    }
                    self.rows.remove(i);
                    self.rows.insert(i, (key, value));
                    proof {
                        lemma_kv_views_update(old(self).rows@, self.rows@, i as int);
                        assert(self.kv_view() =~= oldkv.take(i as int) + seq![(key@, value@)]
                            + oldkv.skip(i + 1 as int));
                        lemma_kv_insert_sorted_here(oldkv, key@, value@, i as int, true);
                    }
                    return ;
                },
                Cmp::Gt => {
                    proof {
                        assert(lex_lt(key@, oldkv.skip(i as int)[0].0));
                        assert(kv_insert(oldkv.skip(i as int), key@, value@) =~= seq![
                            (key@, value@),
                        ] + oldkv.skip(i as int));
                    }
                    self.rows.insert(i, (key, value));
                    proof {
                        lemma_kv_views_insert(old(self).rows@, self.rows@, i as int);
                        assert(self.kv_view() =~= oldkv.take(i as int) + seq![(key@, value@)]
                            + oldkv.skip(i as int));
                        lemma_kv_insert_sorted_here(oldkv, key@, value@, i as int, false);
                    }
                    return ;
                },
            }
        }
    }

    /// Opens a scanner over `[start, end)`: the matching pairs in key
    /// order, reversed when `desc`, values dropped when `key_only`.
    pub fn scan_range(&self, start: &Vec<u8>, end: &Vec<u8>, desc: bool, key_only: bool) -> (r:
        MemScanner)
        ensures
            r.inv(),
            r.remaining() =~= if desc {
                range_filter(self.kv_view(), start@, end@, key_only).reverse()
            } else {
                range_filter(self.kv_view(), start@, end@, key_only)
            },
    {
        let mut items: Vec<(Vec<u8>, Vec<u8>)> = Vec::new();
        let mut i: usize = 0;
        while i < self.rows.len()
            invariant
                i <= self.rows@.len(),
                kv_views(items@) =~= range_filter(
                    self.kv_view().take(i as int),
                    start@,
                    end@,
                    key_only,
                ),
            decreases self.rows@.len() - i,
        {
            proof {
                assert(self.kv_view()[i as int] == (self.rows@[i as int].0@, self.rows@[i
                    as int].1@));
                lemma_range_filter_push(
                    self.kv_view().take(i as int),
                    self.kv_view()[i as int],
                    start@,
                    end@,
                    key_only,
                );
                assert(self.kv_view().take(i + 1 as int) =~= self.kv_view().take(i as int).push(
                    self.kv_view()[i as int],
                ));
            }
            let klow = bytes_cmp(self.rows[i].0.as_slice(), start.as_slice());
            if klow != Cmp::Lt {
                let khigh = bytes_cmp(self.rows[i].0.as_slice(), end.as_slice());
                if khigh == Cmp::Lt {
                    let k = copy_bytes(&self.rows[i].0);
                    let v = if key_only {
                        Vec::new()
                    } else {
                        copy_bytes(&self.rows[i].1)
                    };
                    let ghost olditems = items@;
                    items.push((k, v));
                    proof {
                        assert(kv_views(items@) =~= kv_views(olditems).push((k@, v@)));
                    }
                }
            }
            i = i + 1;
        }
        proof {
            assert(self.kv_view().take(self.kv_view().len() as int) =~= self.kv_view());
        }
        if desc {
            let mut rev: Vec<(Vec<u8>, Vec<u8>)> = Vec::new();
            let n = items.len();
            let mut j: usize = n;
            proof {
                assert(kv_views(items@).skip(n as int).reverse() =~= Seq::<
                    (Seq<u8>, Seq<u8>),
                >::empty());
            }
            while j > 0
                invariant
                    j <= n,
                    n == items@.len(),
                    kv_views(items@) =~= range_filter(self.kv_view(), start@, end@, key_only),
                    kv_views(rev@) =~= kv_views(items@).skip(j as int).reverse(),
                decreases j,
            {
                j = j - 1;
                let k = copy_bytes(&items[j].0);
                let v = copy_bytes(&items[j].1);
                let ghost oldrev = rev@;
                rev.push((k, v));
                proof {
                    let f = kv_views(items@);
                    assert(kv_views(rev@) =~= kv_views(oldrev).push((k@, v@)));
                    assert((k@, v@) == f[j as int]);
                    assert(f.skip(j as int).reverse() =~= f.skip(j + 1 as int).reverse().push(
                        f[j as int],
                    ));
                }
            }
            proof {
                assert(kv_views(rev@).skip(0) =~= kv_views(rev@));
                assert(kv_views(items@).skip(0) =~= kv_views(items@));
            }
            MemScanner { items: rev, pos: 0 }
        } else {
            proof {
                assert(kv_views(items@).skip(0) =~= kv_views(items@));
            }
            MemScanner { items, pos: 0 }
        }
    }
}

/// A scanner over one key range: hands out its pairs one at a time.
#[derive(Debug)]
pub struct MemScanner {
    pub items: Vec<(Vec<u8>, Vec<u8>)>,
    pub pos: usize,
}

impl MemScanner {
    pub open spec fn inv(&self) -> bool {
        self.pos <= self.items@.len()
    }

    /// The pairs not yet handed out.
    pub open spec fn remaining(&self) -> Seq<(Seq<u8>, Seq<u8>)> {
        kv_views(self.items@).skip(self.pos as int)
    }

    /// The next pair, or nothing at the end of the range.
    pub fn next(&mut self) -> (r: Option<(Vec<u8>, Vec<u8>)>)
        requires
            old(self).inv(),
        ensures
            final(self).inv(),
            match r {
                Some(p) => old(self).remaining().len() > 0 && (p.0@, p.1@) == old(
                    self,
                ).remaining()[0] && final(self).remaining() =~= old(self).remaining().skip(1),
                None => old(self).remaining().len() == 0 && final(self).remaining() =~= old(
                    self,
                ).remaining(),
            },
    {
        if self.pos >= self.items.len() {
            return None;
        }
        let k = copy_bytes(&self.items[self.pos].0);
        let v = copy_bytes(&self.items[self.pos].1);
        proof {
            assert(old(self).remaining()[0] == kv_views(self.items@)[self.pos as int]);
            assert(kv_views(self.items@).skip(self.pos as int).skip(1) =~= kv_views(
                self.items@,
            ).skip(self.pos + 1));
        }
        self.pos = self.pos + 1;
        Some((k, v))
    }
}

pub proof fn lemma_kv_views_push(a: Seq<(Vec<u8>, Vec<u8>)>, b: Seq<(Vec<u8>, Vec<u8>)>)
    requires
        b == a.push(a.last()) || b.len() == a.len() + 1 && b.drop_last() =~= a,
    ensures
        kv_views(b) =~= kv_views(a).push((b.last().0@, b.last().1@)),
{
}

pub proof fn lemma_kv_views_insert(a: Seq<(Vec<u8>, Vec<u8>)>, b: Seq<(Vec<u8>, Vec<u8>)>, i: int)
    requires
        0 <= i <= a.len(),
        b =~= a.insert(i, b[i]),
    ensures
        kv_views(b) =~= kv_views(a).insert(i, (b[i].0@, b[i].1@)),
{
}

pub proof fn lemma_kv_views_update(a: Seq<(Vec<u8>, Vec<u8>)>, b: Seq<(Vec<u8>, Vec<u8>)>, i: int)
    requires
        0 <= i < a.len(),
        a.len() == b.len(),
        b =~= a.update(i, b[i]),
    ensures
        kv_views(b) =~= kv_views(a).update(i, (b[i].0@, b[i].1@)),
{
}

pub proof fn lemma_range_filter_push(
    kvs: Seq<(Seq<u8>, Seq<u8>)>,
    p: (Seq<u8>, Seq<u8>),
    start: Seq<u8>,
    end: Seq<u8>,
    key_only: bool,
)
    ensures
        range_filter(kvs.push(p), start, end, key_only) =~= range_filter(
            kvs,
            start,
            end,
            key_only,
        ) + (if in_range(p.0, start, end) {
            seq![
                (p.0, if key_only {
                    Seq::<u8>::empty()
                } else {
                    p.1
                }),
            ]
        } else {
            Seq::<(Seq<u8>, Seq<u8>)>::empty()
        }),
    decreases kvs.len(),
{
    if kvs.len() == 0 {
        assert(kvs.push(p)[0] == p);
        assert(kvs.push(p).skip(1) =~= Seq::<(Seq<u8>, Seq<u8>)>::empty());
        assert(range_filter(Seq::<(Seq<u8>, Seq<u8>)>::empty(), start, end, key_only) =~= Seq::<
            (Seq<u8>, Seq<u8>),
        >::empty());
    } else {
        assert(kvs.push(p)[0] == kvs[0]);
        assert(kvs.push(p).skip(1) =~= kvs.skip(1).push(p));
        lemma_range_filter_push(kvs.skip(1), p, start, end, key_only);
    }
}

/// Inserting at the found position keeps the pair list strictly sorted.
pub proof fn lemma_kv_insert_sorted_here(
    kvs: Seq<(Seq<u8>, Seq<u8>)>,
    k: Seq<u8>,
    v: Seq<u8>,
    i: int,
    replace: bool,
)
    requires
        kv_sorted(kvs),
        0 <= i <= kvs.len(),
        forall|j: int| 0 <= j < i ==> lex_lt((#[trigger] kvs[j]).0, k),
        replace ==> i < kvs.len() && kvs[i].0 == k,
        !replace && i < kvs.len() ==> lex_lt(k, kvs[i].0),
    ensures
        kv_sorted(
            kvs.take(i) + seq![(k, v)] + (if replace {
                kvs.skip(i + 1)
            } else {
                kvs.skip(i)
            }),
        ),
{
    let tail = if replace {
        kvs.skip(i + 1)
    } else {
        kvs.skip(i)
    };
    let merged = kvs.take(i) + seq![(k, v)] + tail;
    assert forall|a: int, b: int| 0 <= a < b < merged.len() implies lex_lt(
        merged[a].0,
        merged[b].0,
    ) by {
        let off = if replace {
            1int
        } else {
            0int
        };
        if a < i {
            assert(merged[a] == kvs[a]);
        }
        if b < i {
            assert(merged[b] == kvs[b]);
        }
        if a > i {
            assert(merged[a] == kvs[a - 1 + off]);
        }
        if b > i {
            assert(merged[b] == kvs[b - 1 + off]);
        }
        if b > i {
            assert(lex_lt(k, kvs[b - 1 + off].0)) by {
                if replace {
                    if b - 1 + off > i {
                        assert(lex_lt(kvs[i].0, kvs[b - 1 + off].0));
                    }
                } else {
                    if b - 1 + off > i {
                        lemma_lex_lt_trans(k, kvs[i].0, kvs[b - 1 + off].0);
                    }
                }
            }
        }
    }
}

/// Bytewise order is transitive.
pub proof fn lemma_lex_lt_trans(a: Seq<u8>, b: Seq<u8>, c: Seq<u8>)
    requires
        lex_lt(a, b),
        lex_lt(b, c),
    ensures
        lex_lt(a, c),
    decreases a.len() + b.len() + c.len(),
{
    if c.len() == 0 {
    } else if b.len() == 0 {
    } else if a.len() == 0 {
    } else {
        if a[0] == b[0] && b[0] == c[0] {
            lemma_lex_lt_trans(a.skip(1), b.skip(1), c.skip(1));
        }
    }
}

/// Of two byte strings, one is below the other or they are equal.
pub proof fn lemma_lex_trichotomy(a: Seq<u8>, b: Seq<u8>)
    ensures
        lex_lt(a, b) || lex_lt(b, a) || a == b,
    decreases a.len() + b.len(),
{
    if a.len() > 0 && b.len() > 0 && a[0] == b[0] {
        lemma_lex_trichotomy(a.skip(1), b.skip(1));
        if !lex_lt(a, b) && !lex_lt(b, a) {
            assert(a.skip(1) =~= b.skip(1) || lex_lt(a.skip(1), b.skip(1)) || lex_lt(
                b.skip(1),
                a.skip(1),
            ));
            assert(a =~= seq![a[0]] + a.skip(1));
            assert(b =~= seq![b[0]] + b.skip(1));
        }
    }
}

} // verus!
