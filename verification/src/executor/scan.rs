//! The shared scan machinery: drives one or more key ranges against a
//! storage snapshot, yielding raw key-value pairs in scan order.

use vstd::prelude::*;

use crate::datum::lex_lt;
use crate::schema::KeyRange;
use crate::storage::{in_range, kv_sorted, range_filter, MemScanner, MemStore};

verus! {

/// Not-above is transitive for bytewise order.
pub proof fn lemma_lex_le_trans(a: Seq<u8>, b: Seq<u8>, c: Seq<u8>)
    requires
        !lex_lt(b, a),
        !lex_lt(c, b),
    ensures
        !lex_lt(c, a),
{
    if lex_lt(c, a) {
        crate::storage::lemma_lex_trichotomy(a, b);
        if lex_lt(a, b) {
            crate::storage::lemma_lex_lt_trans(c, a, b);
        }
    }
}

/// Below one bytestring and not above another means below the latter.
pub proof fn lemma_lex_lt_le(a: Seq<u8>, b: Seq<u8>, c: Seq<u8>)
    requires
        lex_lt(a, b),
        !lex_lt(c, b),
    ensures
        lex_lt(a, c),
{
    crate::storage::lemma_lex_trichotomy(b, c);
    if lex_lt(b, c) {
        crate::storage::lemma_lex_lt_trans(a, b, c);
    }
}

/// The filtered range keeps keys strictly ascending, inside the interval,
/// and never below the first stored key.
pub proof fn lemma_range_filter_ordered(
    kvs: Seq<(Seq<u8>, Seq<u8>)>,
    start: Seq<u8>,
    end: Seq<u8>,
    ko: bool,
)
    requires
        kv_sorted(kvs),
    ensures
        kv_sorted(range_filter(kvs, start, end, ko)),
        forall|m: int|
            0 <= m < range_filter(kvs, start, end, ko).len() ==> in_range(
                (#[trigger] range_filter(kvs, start, end, ko)[m]).0,
                start,
                end,
            ),
        kvs.len() > 0 ==> forall|m: int|
            0 <= m < range_filter(kvs, start, end, ko).len() ==> !lex_lt(
                (#[trigger] range_filter(kvs, start, end, ko)[m]).0,
                kvs[0].0,
            ),
    decreases kvs.len(),
{
    if kvs.len() > 0 {
        assert forall|i: int, j: int| 0 <= i < j < kvs.skip(1).len() implies lex_lt(
            (#[trigger] kvs.skip(1)[i]).0,
            (#[trigger] kvs.skip(1)[j]).0,
        ) by {
            assert(kvs.skip(1)[i] == kvs[i + 1]);
            assert(kvs.skip(1)[j] == kvs[j + 1]);
        }
        lemma_range_filter_ordered(kvs.skip(1), start, end, ko);
        let rest = range_filter(kvs.skip(1), start, end, ko);
        let whole = range_filter(kvs, start, end, ko);
        assert forall|m: int| 0 <= m < rest.len() implies lex_lt(kvs[0].0, (#[trigger] rest[m]).0)
            by {
            if kvs.skip(1).len() > 0 {
                assert(!lex_lt(rest[m].0, kvs.skip(1)[0].0));
                assert(kvs.skip(1)[0] == kvs[1]);
                lemma_lex_lt_le(kvs[0].0, kvs[1].0, rest[m].0);
            }
        }
        if in_range(kvs[0].0, start, end) {
            assert(whole[0].0 == kvs[0].0);
            assert forall|i: int, j: int| 0 <= i < j < whole.len() implies lex_lt(
                (#[trigger] whole[i]).0,
                (#[trigger] whole[j]).0,
            ) by {
                if i > 0 {
                    assert(whole[i] == rest[i - 1]);
                }
                assert(whole[j] == rest[j - 1]);
            }
            assert forall|m: int| 0 <= m < whole.len() implies in_range(
                (#[trigger] whole[m]).0,
                start,
                end,
            ) by {
                if m > 0 {
                    assert(whole[m] == rest[m - 1]);
                }
            }
            assert forall|m: int| 0 <= m < whole.len() implies !lex_lt(
                (#[trigger] whole[m]).0,
                kvs[0].0,
            ) by {
                crate::executor::topn::lemma_lex_irrefl(kvs[0].0);
                if m > 0 {
                    assert(whole[m] == rest[m - 1]);
                    assert(lex_lt(kvs[0].0, rest[m - 1].0));
                    crate::executor::topn::lemma_lex_irrefl(whole[m].0);
                    if lex_lt(whole[m].0, kvs[0].0) {
                        crate::storage::lemma_lex_lt_trans(whole[m].0, kvs[0].0, whole[m].0);
                    }
                }
            }
        } else {
            assert forall|m: int| 0 <= m < whole.len() implies !lex_lt(
                (#[trigger] whole[m]).0,
                kvs[0].0,
            ) by {
                assert(whole[m] == rest[m]);
                assert(lex_lt(kvs[0].0, rest[m].0));
                crate::executor::topn::lemma_lex_irrefl(whole[m].0);
                if lex_lt(whole[m].0, kvs[0].0) {
                    crate::storage::lemma_lex_lt_trans(whole[m].0, kvs[0].0, whole[m].0);
                }
            }
        }
    }
}

/// Ascending scan order: across ranges that do not overlap and come in
/// ascending order, the emitted keys are strictly ascending bytewise.
pub proof fn lemma_scan_keys_ascending(
    kv: Seq<(Seq<u8>, Seq<u8>)>,
    ranges: Seq<KeyRange>,
    from: int,
    key_only: bool,
)
    requires
        kv_sorted(kv),
        0 <= from,
        forall|i: int| 0 <= i < ranges.len() ==> !lex_lt((#[trigger] ranges[i]).end@, ranges[i].start@),
        forall|i: int|
            0 <= i < ranges.len() - 1 ==> !lex_lt(
                (#[trigger] ranges[i + 1]).start@,
                ranges[i].end@,
            ),
    ensures
        kv_sorted(ranges_rows(kv, ranges, from, false, key_only)),
        forall|m: int|
            from < ranges.len() && 0 <= m < ranges_rows(kv, ranges, from, false, key_only).len()
                ==> !lex_lt(
                (#[trigger] ranges_rows(kv, ranges, from, false, key_only)[m]).0,
                ranges[from].start@,
            ),
    decreases ranges.len() - from,
{
    if from < ranges.len() {
        lemma_scan_keys_ascending(kv, ranges, from + 1, key_only);
        lemma_range_filter_ordered(kv, ranges[from].start@, ranges[from].end@, key_only);
        let head = range_rows(kv, ranges[from], false, key_only);
        let tail = ranges_rows(kv, ranges, from + 1, false, key_only);
        let whole = ranges_rows(kv, ranges, from, false, key_only);
        assert forall|a: int, b: int| 0 <= a < b < whole.len() implies lex_lt(
            (#[trigger] whole[a]).0,
            (#[trigger] whole[b]).0,
        ) by {
            if b < head.len() {
                assert(whole[a] == head[a]);
                assert(whole[b] == head[b]);
            } else if a >= head.len() {
                assert(whole[a] == tail[a - head.len()]);
                assert(whole[b] == tail[b - head.len()]);
            } else {
                assert(whole[a] == head[a]);
                assert(whole[b] == tail[b - head.len()]);
                assert(head[a] == range_filter(
                    kv,
                    ranges[from].start@,
                    ranges[from].end@,
                    key_only,
                )[a]);
                assert(in_range(
                    range_filter(kv, ranges[from].start@, ranges[from].end@, key_only)[a].0,
                    ranges[from].start@,
                    ranges[from].end@,
                ));
                assert(in_range(head[a].0, ranges[from].start@, ranges[from].end@));
                assert(from + 1 < ranges.len());
                assert(!lex_lt(tail[b - head.len()].0, ranges[from + 1].start@));
                assert(!lex_lt(ranges[from + 1].start@, ranges[from].end@));
                lemma_lex_lt_le(head[a].0, ranges[from].end@, ranges[from + 1].start@);
                lemma_lex_lt_le(head[a].0, ranges[from + 1].start@, tail[b - head.len()].0);
            }
        }
        assert forall|m: int| 0 <= m < whole.len() implies !lex_lt(
            (#[trigger] whole[m]).0,
            ranges[from].start@,
        ) by {
            if m < head.len() {
                assert(whole[m] == head[m]);
                assert(head[m] == range_filter(
                    kv,
                    ranges[from].start@,
                    ranges[from].end@,
                    key_only,
                )[m]);
                assert(in_range(
                    range_filter(kv, ranges[from].start@, ranges[from].end@, key_only)[m].0,
                    ranges[from].start@,
                    ranges[from].end@,
                ));
            } else {
                assert(whole[m] == tail[m - head.len()]);
                if from + 1 < ranges.len() {
                    assert(!lex_lt(tail[m - head.len()].0, ranges[from + 1].start@));
                    assert(!lex_lt(ranges[from + 1].start@, ranges[from].end@));
                    assert(!lex_lt(ranges[from].end@, ranges[from].start@));
                    lemma_lex_le_trans(
                        ranges[from].start@,
                        ranges[from].end@,
                        ranges[from + 1].start@,
                    );
                    lemma_lex_le_trans(
                        ranges[from].start@,
                        ranges[from + 1].start@,
                        tail[m - head.len()].0,
                    );
                }
            }
        }
    }
}

/// The pairs one range contributes, in scan order.
pub open spec fn range_rows(
    kv: Seq<(Seq<u8>, Seq<u8>)>,
    r: KeyRange,
    desc: bool,
    key_only: bool,
) -> Seq<(Seq<u8>, Seq<u8>)> {
    if desc {
        range_filter(kv, r.start@, r.end@, key_only).reverse()
    } else {
        range_filter(kv, r.start@, r.end@, key_only)
    }
}

/// The pairs of all ranges from index `from` on, concatenated in range
/// order.
pub open spec fn ranges_rows(
    kv: Seq<(Seq<u8>, Seq<u8>)>,
    ranges: Seq<KeyRange>,
    from: int,
    desc: bool,
    key_only: bool,
) -> Seq<(Seq<u8>, Seq<u8>)>
    decreases ranges.len() - from,
{
    if from < 0 || from >= ranges.len() {
        Seq::empty()
    } else {
        range_rows(kv, ranges[from], desc, key_only) + ranges_rows(
            kv,
            ranges,
            from + 1,
            desc,
            key_only,
        )
    }
}

/// Drives the configured key ranges against the snapshot, one scanner at a
/// time, and counts the rows produced per range.  When descending, ranges
/// are consumed in reverse list order and each scanner runs backwards.
pub struct ScanExecutor {
    pub store: MemStore,
    pub key_ranges: Vec<KeyRange>,
    pub desc: bool,
    pub key_only: bool,
    pub range_idx: usize,
    pub cur: MemScanner,
    pub counts: Vec<i64>,
    pub current_count: i64,
    pub started: bool,
    pub emitted_any: bool,
    pub last_key: Vec<u8>,
}

impl ScanExecutor {
    pub open spec fn wf(&self) -> bool {
        &&& self.store.wf()
        &&& self.cur.inv()
        &&& self.range_idx <= self.key_ranges@.len()
        &&& (self.range_idx >= self.key_ranges@.len() ==> self.cur.remaining().len() == 0)
    }

    /// The raw pairs still to be emitted: the rest of the open scanner,
    /// then every range after the current one.
    pub open spec fn kv_pending(&self) -> Seq<(Seq<u8>, Seq<u8>)> {
        self.cur.remaining() + ranges_rows(
            self.store.kv_view(),
            self.key_ranges@,
            self.range_idx + 1,
            self.desc,
            self.key_only,
        )
    }

    /// Builds the scan over `key_ranges`; a descending scan consumes the
    /// ranges in reverse list order.
    pub fn new(store: MemStore, key_ranges: Vec<KeyRange>, desc: bool, key_only: bool) -> (r:
        ScanExecutor)
        requires
            store.wf(),
        ensures
            r.wf(),
            r.store == store,
            r.desc == desc && r.key_only == key_only,
            r.key_ranges@ =~= if desc {
                key_ranges@.reverse()
            } else {
                key_ranges@
            },
            r.kv_pending() =~= ranges_rows(store.kv_view(), r.key_ranges@, 0, desc, key_only),
    {
        let mut ranges = key_ranges;
        if desc {
            let mut rev: Vec<KeyRange> = Vec::new();
            let ghost orig = ranges@;
            proof {
                assert(orig.take(orig.len() as int) =~= orig);
                assert(orig.skip(orig.len() as int).reverse() =~= Seq::<KeyRange>::empty());
            }
            while ranges.len() > 0
                invariant
                    ranges@.len() <= orig.len(),
                    rev@ =~= orig.skip(ranges@.len() as int).reverse(),
                    ranges@ =~= orig.take(ranges@.len() as int),
                decreases ranges@.len(),
            {
                let ghost n = ranges@.len() as int;
                match ranges.pop() {
                    None => {
                        return unreached();
                    },
                    Some(kr) => {
                        proof {
                            assert(orig.take(n)[n - 1] == orig[n - 1]);
                            assert(kr == orig[n - 1]);
                            assert(ranges@ =~= orig.take(n).drop_last());
                            assert(ranges@ =~= orig.take(n - 1));
                        }
                        rev.push(kr);
                        proof {
                            assert(orig.skip(n - 1) =~= seq![orig[n - 1]] + orig.skip(n));
                            assert(orig.skip(n - 1).reverse() =~= orig.skip(n).reverse().push(
                                orig[n - 1],
                            ));
                        }
                    },
                }
            }
            proof {
                assert(orig.skip(0) =~= orig);
            }
            ranges = rev;
        }
        let cur = if ranges.len() > 0 {
            store.scan_range(&ranges[0].start, &ranges[0].end, desc, key_only)
        } else {
            MemScanner { items: Vec::new(), pos: 0 }
        };
        let r = ScanExecutor {
            store,
            key_ranges: ranges,
            desc,
            key_only,
            range_idx: 0,
            cur,
            counts: Vec::new(),
            current_count: 0,
            started: false,
            emitted_any: false,
            last_key: Vec::new(),
        };
        proof {
            if r.key_ranges@.len() > 0 {
                assert(r.kv_pending() =~= range_rows(
                    r.store.kv_view(),
                    r.key_ranges@[0],
                    desc,
                    key_only,
                ) + ranges_rows(r.store.kv_view(), r.key_ranges@, 1, desc, key_only));
            } else {
                assert(r.cur.remaining() =~= Seq::<(Seq<u8>, Seq<u8>)>::empty());
            }
        }
        r
    }

    /// The next raw pair in scan order, advancing across ranges; `None`
    /// when every range is exhausted.
    pub fn next_kv(&mut self) -> (r: Result<Option<(Vec<u8>, Vec<u8>)>, crate::Error>)
        requires
            old(self).wf(),
        ensures
            final(self).wf(),
            final(self).store == old(self).store,
            final(self).key_ranges == old(self).key_ranges,
            final(self).desc == old(self).desc && final(self).key_only == old(self).key_only,
            match r {
                Ok(Some(p)) => old(self).kv_pending().len() > 0 && (p.0@, p.1@) == old(
                    self,
                ).kv_pending()[0] && final(self).kv_pending() =~= old(self).kv_pending().skip(1)
                    && final(self).emitted_any && final(self).last_key@ == p.0@,
                Ok(None) => old(self).kv_pending().len() == 0 && final(self).kv_pending() =~= old(
                    self,
                ).kv_pending() && final(self).emitted_any == old(self).emitted_any
                    && final(self).last_key == old(self).last_key,
                Err(_) => false,
            },
    {
        loop
            invariant
                self.wf(),
                self.store == old(self).store,
                self.key_ranges == old(self).key_ranges,
                self.desc == old(self).desc && self.key_only == old(self).key_only,
                self.emitted_any == old(self).emitted_any,
                self.last_key == old(self).last_key,
                self.kv_pending() =~= old(self).kv_pending(),
            decreases self.key_ranges@.len() - self.range_idx,
        {
            let nxt = self.cur.next();
            match nxt {
                Some(p) => {
                    if self.current_count < i64::MAX {
                        self.current_count = self.current_count + 1;
                    }
                    self.emitted_any = true;
                    self.last_key = crate::executor::copy_bytes(&p.0);
                    proof {
                        assert(old(self).kv_pending()[0] == (p.0@, p.1@));
                        assert(self.kv_pending() =~= old(self).kv_pending().skip(1));
                    }
                    return Ok(Some(p));
                },
                None => {
                    if self.range_idx >= self.key_ranges.len() {
                        return Ok(None);
                    }
                    self.counts.push(self.current_count);
                    self.current_count = 0;
                    let ghost before = self.kv_pending();
                    self.range_idx = self.range_idx + 1;
                    if self.range_idx < self.key_ranges.len() {
                        let sc = self.store.scan_range(
                            &self.key_ranges[self.range_idx].start,
                            &self.key_ranges[self.range_idx].end,
                            self.desc,
                            self.key_only,
                        );
                        self.cur = sc;
                        proof {
                            assert(self.kv_pending() =~= range_rows(
                                self.store.kv_view(),
                                self.key_ranges@[self.range_idx as int],
                                self.desc,
                                self.key_only,
                            ) + ranges_rows(
                                self.store.kv_view(),
                                self.key_ranges@,
                                self.range_idx + 1,
                                self.desc,
                                self.key_only,
                            ));
                            assert(before =~= self.kv_pending());
                        }
                    } else {
                        proof {
                            assert(before =~= self.kv_pending());
                        }
                    }
                },
            }
        }
    }

    /// Appends the per-range row counts gathered so far and resets them.
    pub fn collect_counts(&mut self, counts: &mut Vec<i64>)
        ensures
            final(self).kv_pending() == old(self).kv_pending(),
            final(self).wf() == old(self).wf(),
            final(counts)@ =~= old(counts)@ + old(self).counts@.push(old(self).current_count),
            final(self).counts@.len() == 0 && final(self).current_count == 0,
            final(self).store == old(self).store && final(self).key_ranges == old(
                self,
            ).key_ranges && final(self).desc == old(self).desc && final(self).key_only == old(
                self,
            ).key_only && final(self).cur == old(self).cur && final(self).range_idx == old(
                self,
            ).range_idx,
    {
        let mut i: usize = 0;
        while i < self.counts.len()
            invariant
                i <= self.counts@.len(),
                self == old(self),
                counts@ =~= old(counts)@ + self.counts@.take(i as int),
            decreases self.counts@.len() - i,
        {
            counts.push(self.counts[i]);
            proof {
                assert(self.counts@.take(i + 1 as int) =~= self.counts@.take(i as int).push(
                    self.counts@[i as int],
                ));
            }
            i = i + 1;
        }
        proof {
            assert(self.counts@.take(self.counts@.len() as int) =~= self.counts@);
        }
        counts.push(self.current_count);
        self.counts = Vec::new();
        self.current_count = 0;
    }

    /// Marks the scan as started.
    pub fn start(&mut self)
        ensures
            *final(self) == (ScanExecutor { started: true, ..*old(self) }),
    {
        self.started = true;
    }
}

} // verus!
