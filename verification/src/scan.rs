//! Scans: rows of the memtables and of table blocks, merged in order.

use vstd::prelude::*;
use crate::bytes;
use crate::bytes::{bytes_eq, bytes_le, bytes_lt, copy_bytes, starts_with};
use crate::memtable;
use crate::memtable::{MemQuery, MemTables};
use crate::record;
use crate::record::{InternalRecord, InternalRecordView, KeyFilter, KeyFilterView, Op, Query, Record, RecordView};
use crate::sort;
use crate::sort::{is_before, SortOrder};
use crate::versions;
use crate::versions::{newest_rows, without_ranges};

verus! {

/// A range tombstone: the keys from the first up to the second.
pub type Tombstone = (Seq<u8>, Seq<u8>);

/// What a list of range tombstones holds.
pub open spec fn tombstone_views(s: Seq<(Vec<u8>, Vec<u8>)>) -> Seq<Tombstone> {
    Seq::new(s.len(), |i: int| (s[i].0@, s[i].1@))
}

/// Whether a tombstone covers the key.
pub open spec fn covered(tombstones: Seq<Tombstone>, key: Seq<u8>) -> bool {
    exists|i: int|
        0 <= i < tombstones.len() && bytes::lex_le((#[trigger] tombstones[i]).0, key)
            && bytes::lex_lt(key, tombstones[i].1)
}

/// The range tombstones among the rows.
pub open spec fn row_tombstones(rows: Seq<InternalRecordView>) -> Seq<Tombstone>
    decreases rows.len(),
{
    if rows.len() == 0 {
        Seq::empty()
    } else {
        let front = row_tombstones(rows.drop_last());
        match (rows.last().op, rows.last().range_end) {
            (Op::DeleteRange, Some(end)) => front.push((rows.last().key, end)),
            _ => front,
        }
    }
}

/// The rows of a block that have not expired.
pub open spec fn live(rows: Seq<InternalRecordView>, now: i64) -> Seq<InternalRecordView> {
    rows.filter(|r: InternalRecordView| r.expire_at > now)
}

/// What a scan takes of a row of a block that has not expired: nothing of a
/// range tombstone or of a row that the query does not ask for; else the row
/// without its sequence number. A full scan asks for every row.
pub open spec fn taken(
    row: InternalRecordView,
    filter: KeyFilterView,
    times: Option<(i64, i64)>,
    full: bool,
) -> Option<InternalRecordView> {
    if row.op == Op::DeleteRange {
        None
    } else if full || (memtable::admits_key(filter, row.key) && memtable::admits_ts(times, row.ts)) {
        Some(InternalRecordView { seq: 0, ..row })
    } else {
        None
    }
}

/// What a scan takes of the rows of a block.
pub open spec fn taken_rows(
    rows: Seq<InternalRecordView>,
    filter: KeyFilterView,
    times: Option<(i64, i64)>,
    full: bool,
    now: i64,
) -> Seq<InternalRecordView>
    decreases rows.len(),
{
    if rows.len() == 0 {
        Seq::empty()
    } else {
        let front = taken_rows(rows.drop_last(), filter, times, full, now);
        if rows.last().expire_at <= now {
            front
        } else {
            match taken(rows.last(), filter, times, full) {
                Some(row) => front.push(row),
                None => front,
            }
        }
    }
}

/// Whether a query asks for the key of a record.
fn asks_for_key(filter: &KeyFilter, key: &Vec<u8>) -> (r: bool)
    ensures
        r == memtable::admits_key(filter@, key@),
{
    match filter {
        KeyFilter::Prefix(prefix) => starts_with(key, prefix),
        KeyFilter::Range { start, end } => bytes_le(start, key) && bytes_le(key, end),
        KeyFilter::All => true,
    }
}

/// Takes from a block what a scan asks for, and notes its range tombstones.
pub fn filter_sst_block(
    records: &[InternalRecord],
    key_filter: &KeyFilter,
    time_range: Option<(i64, i64)>,
    is_full_scan: bool,
    now_us: i64,
    tombstones: &mut Vec<(Vec<u8>, Vec<u8>)>,
) -> (filtered: Vec<InternalRecord>)
    ensures
        record::views(filtered@) == taken_rows(
            record::views(records@),
            key_filter@,
            time_range,
            is_full_scan,
            now_us,
        ),
        tombstone_views(final(tombstones)@) == tombstone_views(old(tombstones)@) + row_tombstones(
            live(record::views(records@), now_us),
        ),
{
    let ghost rows = record::views(records@);
    let ghost noted = tombstone_views(tombstones@);
    let mut filtered: Vec<InternalRecord> = Vec::new();
    let mut i: usize = 0;
    proof {
        reveal(Seq::filter);
        assert(live(rows.take(0), now_us) =~= Seq::<InternalRecordView>::empty());
        assert(tombstone_views(tombstones@) =~= noted + row_tombstones(live(rows.take(0), now_us)));
    }
    while i < records.len()
        invariant
            i <= records@.len(),
            rows == record::views(records@),
            record::views(filtered@) == taken_rows(
                rows.take(i as int),
                key_filter@,
                time_range,
                is_full_scan,
                now_us,
            ),
            tombstone_views(tombstones@) == noted + row_tombstones(
                live(rows.take(i as int), now_us),
            ),
        decreases records@.len() - i,
    {
        let rec = &records[i];
        let ghost part = rows.take(i + 1);
        let ghost so_far = record::views(filtered@);
        let ghost before = tombstone_views(tombstones@);
        let ghost live_before = live(rows.take(i as int), now_us);
        proof {
            reveal(Seq::filter);
            assert(part.drop_last() =~= rows.take(i as int));
            assert(part.last() == rec@);
            if rec@.expire_at > now_us {
                assert(live(part, now_us) == live_before.push(rec@));
                assert(live_before.push(rec@).drop_last() =~= live_before);
            }
        }
        i += 1;
        if rec.expire_at <= now_us {
            continue;
        }
        if rec.op == Op::DeleteRange {
            if let Some(end) = &rec.range_end {
                tombstones.push((copy_bytes(&rec.key), copy_bytes(end)));
                proof {
                    assert(tombstone_views(tombstones@) =~= before.push((rec@.key, end@)));
                    assert(before.push((rec@.key, end@)) =~= noted + row_tombstones(live_before).push(
                        (rec@.key, end@),
                    ));
                }
            }
            continue;
        }
        if !is_full_scan {
            if !asks_for_key(key_filter, &rec.key) {
                continue;
            }
            if let Some((ts_start, ts_end)) = time_range {
                if rec.ts < ts_start || rec.ts > ts_end {
                    continue;
                }
            }
        }
        let row = InternalRecord {
            seq: 0,
            op: rec.op,
            key: copy_bytes(&rec.key),
            ts: rec.ts,
            expire_at: rec.expire_at,
            value: copy_bytes(&rec.value),
            range_end: match &rec.range_end {
                Some(end) => Some(copy_bytes(end)),
                None => None,
            },
        };
        filtered.push(row);
        assert(record::views(filtered@) =~= so_far.push(row@));
    }
    assert(rows.take(i as int) =~= rows);
    filtered
}

/// The rows that the sources of a scan still hold.
pub type Sources = Seq<Seq<InternalRecordView>>;

/// Which of the first `n` sources has the first row by key and time; the first
/// such source, where there are several.
pub open spec fn best_source(sources: Sources, n: nat) -> Option<int>
    decreases n,
{
    if n == 0 {
        None
    } else {
        let best = best_source(sources, (n - 1) as nat);
        if sources[n - 1].len() == 0 {
            best
        } else {
            match best {
                Some(j) => if sort::key_ts_lt(sources[n - 1][0], sources[j][0]) {
                    Some(n - 1)
                } else {
                    best
                },
                None => Some(n - 1),
            }
        }
    }
}

/// How many rows the first `n` sources hold.
pub open spec fn rows_left(sources: Sources, n: nat) -> nat
    decreases n,
{
    if n == 0 {
        0
    } else {
        rows_left(sources, (n - 1) as nat) + sources[n - 1].len()
    }
}

/// The sources after the first row of source `i` was taken.
pub open spec fn advanced(sources: Sources, i: int) -> Sources {
    sources.update(i, sources[i].drop_first())
}

/// The best source has a row, no other source has one that comes before it, and it
/// comes before those of the sources in front.
pub proof fn lemma_best(sources: Sources, n: nat)
    requires
        n <= sources.len(),
    ensures
        match best_source(sources, n) {
            Some(i) => {
                &&& 0 <= i < n
                &&& sources[i].len() > 0
                &&& forall|k: int|
                    0 <= k < n && (#[trigger] sources[k]).len() > 0 ==> !sort::key_ts_lt(
                        sources[k][0],
                        sources[i][0],
                    )
                &&& forall|k: int|
                    0 <= k < i && (#[trigger] sources[k]).len() > 0 ==> sort::key_ts_lt(
                        sources[i][0],
                        sources[k][0],
                    )
            },
            None => forall|k: int| 0 <= k < n ==> (#[trigger] sources[k]).len() == 0,
        },
    decreases n,
{
    let o = SortOrder::KeyTs;
    if n > 0 {
        lemma_best(sources, (n - 1) as nat);
        match best_source(sources, n) {
            Some(i) => {
                let best = best_source(sources, (n - 1) as nat);
                assert forall|k: int| 0 <= k < i && (#[trigger] sources[k]).len()
                    > 0 implies sort::key_ts_lt(sources[i][0], sources[k][0]) by {
                    if let Some(j) = best {
                        sort::lemma_before(o, sources[i][0], sources[j][0], sources[k][0]);
                    }
                }
                assert forall|k: int| 0 <= k < n && (#[trigger] sources[k]).len()
                    > 0 implies !sort::key_ts_lt(sources[k][0], sources[i][0]) by {
                    sort::lemma_before(o, sources[i][0], sources[i][0], sources[k][0]);
                    if let Some(j) = best {
                        sort::lemma_before(o, sources[i][0], sources[j][0], sources[k][0]);
                        sort::lemma_before(o, sources[k][0], sources[i][0], sources[j][0]);
                    }
                }
            },
            None => {},
        }
    }
}

/// Taking a row leaves one row fewer.
pub proof fn lemma_advanced(sources: Sources, n: nat, i: int)
    requires
        n <= sources.len(),
        0 <= i < sources.len(),
        sources[i].len() > 0,
    ensures
        rows_left(advanced(sources, i), n) == rows_left(sources, n) - (if i < n {
            1int
        } else {
            0int
        }),
    decreases n,
{
    if n > 0 {
        lemma_advanced(sources, (n - 1) as nat, i);
    }
}

/// What a merging scan yields of the sources: of the rows with one key and time
/// that of the first source decides; tombstones and rows that a range tombstone
/// covers are left out. `last` is the key and time that were decided last.
pub open spec fn merged(
    sources: Sources,
    tombstones: Seq<Tombstone>,
    last: Option<(Seq<u8>, i64)>,
) -> Seq<RecordView>
    decreases rows_left(sources, sources.len()),
{
    match best_source(sources, sources.len()) {
        None => Seq::empty(),
        Some(i) => {
            proof {
                lemma_best(sources, sources.len());
                lemma_advanced(sources, sources.len(), i);
            }
            let row = sources[i][0];
            let rest = advanced(sources, i);
            if last == Some((row.key, row.ts)) {
                merged(rest, tombstones, last)
            } else {
                let later = merged(rest, tombstones, Some((row.key, row.ts)));
                if row.op != Op::Put || covered(tombstones, row.key) {
                    later
                } else {
                    seq![row.record()] + later
                }
            }
        },
    }
}

/// Source `i` alone has rows, in strictly ascending order of key and time.
pub open spec fn is_only(sources: Sources, i: int) -> bool {
    &&& 0 <= i < sources.len()
    &&& sort::strictly_sorted(SortOrder::KeyTs, sources[i])
    &&& forall|j: int| 0 <= j < sources.len() && j != i ==> (#[trigger] sources[j]).len() == 0
}

/// A source alone stays alone.
proof fn lemma_only_advanced(sources: Sources, i: int)
    requires
        is_only(sources, i),
        sources[i].len() > 0,
    ensures
        is_only(advanced(sources, i), i),
{
    let o = SortOrder::KeyTs;
    let rest = advanced(sources, i);
    assert forall|a: int, b: int| 0 <= a < b < rest[i].len() implies sort::before(
        o,
        #[trigger] rest[i][a],
        #[trigger] rest[i][b],
    ) by {
        assert(sort::before(o, sources[i][a + 1], sources[i][b + 1]));
    }
}

/// Where the one source is at its end, nothing is yielded.
proof fn lemma_only_ended(sources: Sources, i: int)
    requires
        is_only(sources, i),
        sources[i].len() == 0,
    ensures
        forall|tombstones: Seq<Tombstone>, last: Option<(Seq<u8>, i64)>| (#[trigger] merged(
            sources,
            tombstones,
            last,
        )).len() == 0,
{
    lemma_best(sources, sources.len());
}

/// Of a source alone, the next row is yielded if it is a put, and then the rest.
proof fn lemma_only_step(sources: Sources, tombstones: Seq<Tombstone>, i: int)
    requires
        is_only(sources, i),
        sources[i].len() > 0,
        tombstones.len() == 0,
    ensures
        merged(sources, tombstones, None) == (if sources[i][0].op == Op::Put {
            seq![sources[i][0].record()] + merged(advanced(sources, i), tombstones, None)
        } else {
            merged(advanced(sources, i), tombstones, None)
        }),
{
    let o = SortOrder::KeyTs;
    let row = sources[i][0];
    let rest = advanced(sources, i);
    let place = Some((row.key, row.ts));
    lemma_best(sources, sources.len());
    assert(!covered(tombstones, row.key));
    lemma_only_advanced(sources, i);
    lemma_best(rest, rest.len());
    if rest[i].len() > 0 {
        assert(sort::before(o, sources[i][0], sources[i][1]));
        assert(rest[i][0] == sources[i][1]);
        bytes::lemma_lex_irreflexive(row.key);
        assert(best_source(rest, rest.len()) == Some(i));
        assert(merged(rest, tombstones, place) == merged(rest, tombstones, None));
    } else {
        lemma_only_ended(rest, i);
        assert(merged(rest, tombstones, place) =~= merged(rest, tombstones, None));
    }
}

/// Whether a range tombstone covers the key.
pub fn covers(tombstones: &Vec<(Vec<u8>, Vec<u8>)>, key: &[u8]) -> (r: bool)
    ensures
        r == covered(tombstone_views(tombstones@), key@),
{
    let ghost all = tombstone_views(tombstones@);
    let mut i: usize = 0;
    while i < tombstones.len()
        invariant
            i <= tombstones@.len(),
            all == tombstone_views(tombstones@),
            forall|k: int|
                0 <= k < i ==> !(bytes::lex_le((#[trigger] all[k]).0, key@) && bytes::lex_lt(
                    key@,
                    all[k].1,
                )),
        decreases tombstones@.len() - i,
    {
        let t = &tombstones[i];
        assert(all[i as int] == (t.0@, t.1@));
        if bytes_le(&t.0, key) && bytes_lt(key, &t.1) {
            return true;
        }
        i += 1;
    }
    false
}

/// A source of a scan: records, and how many of them are taken.
#[derive(Debug)]
struct ScanSource {
    records: Vec<InternalRecord>,
    pos: usize,
}

impl ScanSource {
    spec fn rows(self) -> Seq<InternalRecordView> {
        record::views(self.records@).skip(self.pos as int)
    }

    spec fn wf(self) -> bool {
        self.pos <= self.records@.len()
    }
}

/// A scan: records in the order of key and time, one at a time.
#[derive(Debug)]
pub struct ScanIterator {
    sources: Vec<ScanSource>,
    tombstones: Vec<(Vec<u8>, Vec<u8>)>,
    last_dedup: Option<(Vec<u8>, i64)>,
    /// The only source that has rows, where there is one and no range tombstone, so
    /// that nothing is to be merged.
    single: Option<usize>,
}

impl ScanIterator {
    /// The rows that the sources still hold.
    pub closed spec fn sources(self) -> Sources {
        Seq::new(self.sources@.len(), |i: int| self.sources@[i].rows())
    }

    /// The range tombstones of the scan.
    pub closed spec fn tombstones(self) -> Seq<Tombstone> {
        tombstone_views(self.tombstones@)
    }

    /// The key and time that were decided last.
    pub closed spec fn last(self) -> Option<(Seq<u8>, i64)> {
        match self.last_dedup {
            Some((key, ts)) => Some((key@, ts)),
            None => None,
        }
    }

    /// The sources are where they can be, and a scan that merges nothing has one source
    /// alone.
    pub closed spec fn wf(self) -> bool {
        &&& forall|i: int| 0 <= i < self.sources@.len() ==> (#[trigger] self.sources@[i]).wf()
        &&& self.single matches Some(i) ==> {
            &&& is_only(self.sources(), i as int)
            &&& self.tombstones().len() == 0
            &&& self.last() is None
        }
    }

    /// The records that the scan has yet to yield.
    pub open spec fn output(self) -> Seq<RecordView> {
        merged(self.sources(), self.tombstones(), self.last())
    }

    /// Which source has the first row by key and time.
    fn best(&self) -> (r: Option<usize>)
        requires
            self.wf(),
        ensures
            match r {
                Some(i) => best_source(self.sources(), self.sources().len()) == Some(i as int),
                None => best_source(self.sources(), self.sources().len()) is None,
            },
    {
        let mut best: Option<usize> = None;
        let mut n: usize = 0;
        while n < self.sources.len()
            invariant
                self.wf(),
                n <= self.sources@.len(),
                match best {
                    Some(i) => best_source(self.sources(), n as nat) == Some(i as int) && i < n
                        && self.sources()[i as int].len() > 0,
                    None => best_source(self.sources(), n as nat) is None,
                },
            decreases self.sources@.len() - n,
        {
            let src = &self.sources[n];
            assert(self.sources@[n as int].wf());
            if src.pos < src.records.len() {
                let row = &src.records[src.pos];
                assert(self.sources()[n as int][0] == row@);
                match best {
                    Some(i) => {
                        assert(self.sources@[i as int].wf());
                        let other = &self.sources[i].records[self.sources[i].pos];
                        assert(self.sources()[i as int][0] == other@);
                        if is_before(SortOrder::KeyTs, row, other) {
                            best = Some(n);
                        }
                    },
                    None => {
                        best = Some(n);
                    },
                }
            }
            n += 1;
        }
        best
    }

    /// Takes the first row of a source.
    fn advance_source(&mut self, i: usize) -> (r: InternalRecord)
        requires
            old(self).wf(),
            i < old(self).sources().len(),
            old(self).sources()[i as int].len() > 0,
        ensures
            final(self).wf(),
            r@ == old(self).sources()[i as int][0],
            final(self).sources() == advanced(old(self).sources(), i as int),
            final(self).tombstones() == old(self).tombstones(),
            final(self).last() == old(self).last(),
            final(self).single == old(self).single,
    {
        assert(self.sources@[i as int].wf());
        let pos: usize = self.sources[i].pos;
        assert(pos < self.sources[i as int].records.len());
        let rec = self.sources[i].records[pos].clone();
        self.sources[i].pos = pos + 1;
        proof {
            let before = old(self).sources@[i as int];
            let after = self.sources@[i as int];
            assert(after.rows() =~= before.rows().drop_first());
            assert(self.sources() =~= advanced(old(self).sources(), i as int));
            if let Some(k) = self.single {
                assert(old(self).sources()[i as int].len() > 0);
                lemma_only_advanced(old(self).sources(), k as int);
            }
        }
        rec
    }

    /// Whether a range tombstone covers the record.
    fn is_tombstoned(&self, rec: &InternalRecord) -> (r: bool)
        ensures
            r == covered(self.tombstones(), rec@.key),
    {
        covers(&self.tombstones, &rec.key)
    }

    /// Whether the key and time of the record were decided last.
    fn is_decided(&self, rec: &InternalRecord) -> (r: bool)
        ensures
            r == (self.last() == Some((rec@.key, rec@.ts))),
    {
        match &self.last_dedup {
            Some((key, ts)) => *ts == rec.ts && bytes_eq(key, &rec.key),
            None => false,
        }
    }

    /// The next record.
    pub fn next(&mut self) -> (r: Option<Record>)
        requires
            old(self).wf(),
        ensures
            final(self).wf(),
            match r {
                Some(rec) => {
                    &&& old(self).output().len() > 0
                    &&& rec@ == old(self).output()[0]
                    &&& final(self).output() == old(self).output().drop_first()
                },
                None => old(self).output().len() == 0 && final(self).output().len() == 0,
            },
    {
        if let Some(i) = self.single {
            return self.next_single(i);
        }
        loop
            invariant
                self.wf(),
                self.single is None,
                self.output() == old(self).output(),
            decreases rows_left(self.sources(), self.sources().len()),
        {
            let ghost before = *self;
            let i: usize = match self.best() {
                Some(i) => i,
                None => {
                    return None;
                },
            };
            proof {
                lemma_best(self.sources(), self.sources().len());
                lemma_advanced(self.sources(), self.sources().len(), i as int);
            }
            let rec = self.advance_source(i);
            if self.is_decided(&rec) {
                continue;
            }
            self.last_dedup = Some((copy_bytes(&rec.key), rec.ts));
            proof {
                assert(self.sources() == advanced(before.sources(), i as int));
                assert(self.last() == Some((rec@.key, rec@.ts)));
            }
            if rec.op != Op::Put {
                continue;
            }
            if self.is_tombstoned(&rec) {
                continue;
            }
            proof {
                assert(before.output() == seq![rec@.record()] + self.output());
                assert(before.output().drop_first() =~= self.output());
            }
            return Some(rec.into_record_owned());
        }
    }

    /// The next record of a scan that merges nothing: the next put.
    fn next_single(&mut self, i: usize) -> (r: Option<Record>)
        requires
            old(self).wf(),
            old(self).single == Some(i),
        ensures
            final(self).wf(),
            match r {
                Some(rec) => {
                    &&& old(self).output().len() > 0
                    &&& rec@ == old(self).output()[0]
                    &&& final(self).output() == old(self).output().drop_first()
                },
                None => old(self).output().len() == 0 && final(self).output().len() == 0,
            },
    {
        loop
            invariant
                self.wf(),
                self.single == Some(i),
                self.output() == old(self).output(),
            decreases self.sources()[i as int].len(),
        {
            let ghost before = *self;
            assert(self.sources@[i as int].wf());
            if self.sources[i].pos >= self.sources[i].records.len() {
                proof {
                    lemma_only_ended(self.sources(), i as int);
                }
                return None;
            }
            let rec = self.advance_source(i);
            proof {
                lemma_only_step(before.sources(), before.tombstones(), i as int);
            }
            if rec.op != Op::Put {
                continue;
            }
            proof {
                assert(before.output() == seq![rec@.record()] + self.output());
                assert(before.output().drop_first() =~= self.output());
            }
            return Some(rec.into_record_owned());
        }
    }

    /// All the records that are left.
    pub fn collect(&mut self) -> (r: Vec<Record>)
        requires
            old(self).wf(),
        ensures
            final(self).wf(),
            record::record_views(r@) == old(self).output(),
            final(self).output().len() == 0,
    {
        let mut out: Vec<Record> = Vec::new();
        let ghost all = self.output();
        assert(record::record_views(out@) + self.output() =~= all);
        loop
            invariant
                self.wf(),
                record::record_views(out@) + self.output() == all,
            ensures
                self.wf(),
                record::record_views(out@) + self.output() == all,
                self.output().len() == 0,
            decreases self.output().len(),
        {
            let ghost left = self.output();
            let ghost so_far = record::record_views(out@);
            match self.next() {
                Some(rec) => {
                    let ghost row = rec@;
                    out.push(rec);
                    proof {
                        assert(record::record_views(out@) =~= so_far.push(row));
                        assert(so_far + left =~= so_far.push(row) + left.drop_first());
                    }
                },
                None => {
                    break ;
                },
            }
        }
        assert(record::record_views(out@) =~= all);
        out
    }
}

/// The query that a scan asks the memtables.
pub open spec fn mem_query(query: Query, now: i64) -> MemQuery {
    MemQuery { key: query.key_filter@, times: query.time_range, now }
}

/// Whether a query asks for everything.
pub open spec fn is_full(query: Query) -> bool {
    &&& query.time_range is None
    &&& match query.key_filter@ {
        KeyFilterView::All => true,
        KeyFilterView::Prefix(p) => p.len() == 0,
        _ => false,
    }
}

/// What the blocks hold.
pub open spec fn block_contents(blocks: Seq<Vec<InternalRecord>>) -> Sources {
    Seq::new(blocks.len(), |i: int| record::views(blocks[i]@))
}

/// The range tombstones of the blocks, one block after another.
pub open spec fn block_tombstones(blocks: Sources, now: i64) -> Seq<Tombstone>
    decreases blocks.len(),
{
    if blocks.len() == 0 {
        Seq::empty()
    } else {
        block_tombstones(blocks.drop_last(), now) + row_tombstones(live(blocks.last(), now))
    }
}

/// What a scan takes of each block.
pub open spec fn block_lists(blocks: Sources, query: Query, now: i64) -> Sources {
    Seq::new(
        blocks.len(),
        |i: int|
            taken_rows(blocks[i], query.key_filter@, query.time_range, is_full(query), now),
    )
}

/// The lists of rows that a scan is over: those that the query selects of the
/// memtables, then those of each block.
pub open spec fn scan_lists(mem: MemTables, blocks: Sources, query: Query, now: i64) -> Sources {
    seq![versions::point_rows(mem.selected(mem_query(query, now)))] + block_lists(blocks, query, now)
}

/// The query for all rows of the memtables that have not expired.
pub open spec fn all_rows(now: i64) -> MemQuery {
    MemQuery { key: KeyFilterView::All, times: None, now }
}

/// The range tombstones that a scan minds: all of the memtables, and those of the
/// blocks.
pub open spec fn scan_tombstones(mem: MemTables, blocks: Sources, now: i64) -> Seq<Tombstone> {
    row_tombstones(mem.selected(all_rows(now))) + block_tombstones(blocks, now)
}

/// The row that decides on a key and time: the newest one of the first list that
/// has one.
pub open spec fn deciding(lists: Sources, key: Seq<u8>, ts: i64) -> Option<InternalRecordView>
    decreases lists.len(),
{
    if lists.len() == 0 {
        None
    } else {
        match deciding(lists.drop_last(), key, ts) {
            Some(row) => Some(row),
            None => versions::current(lists.last(), key, ts),
        }
    }
}

/// Whether a scan yields a record with the key and time: where the row that decides
/// is a put and no range tombstone covers the key.
pub open spec fn shown(lists: Sources, tombstones: Seq<Tombstone>, key: Seq<u8>, ts: i64) -> bool {
    deciding(lists, key, ts) matches Some(row) && row.op == Op::Put && !covered(tombstones, key)
}

/// `a` comes before `b` by key, or by time where the keys are equal.
pub open spec fn record_lt(a: RecordView, b: RecordView) -> bool {
    bytes::lex_lt(a.key, b.key) || (a.key == b.key && a.ts < b.ts)
}

/// `out` is the answer of a scan over the lists: for each key and time that is to
/// be shown the record of the row that decides, and nothing else, in ascending
/// order of key and time.
pub open spec fn is_answer(
    lists: Sources,
    tombstones: Seq<Tombstone>,
    out: Seq<RecordView>,
) -> bool {
    &&& forall|i: int, j: int|
        0 <= i < j < out.len() ==> record_lt(#[trigger] out[i], #[trigger] out[j])
    &&& forall|i: int|
        0 <= i < out.len() ==> shown(lists, tombstones, (#[trigger] out[i]).key, out[i].ts)
            && out[i] == (deciding(lists, out[i].key, out[i].ts)->0).record()
    &&& forall|key: Seq<u8>, ts: i64| #[trigger]
        shown(lists, tombstones, key, ts) ==> out.contains(
            (deciding(lists, key, ts)->0).record(),
        )
}

/// Whether this is a scan for the query that has yielded nothing yet, over the
/// memtables and the blocks.
pub open spec fn is_scan(
    mem: MemTables,
    blocks: Sources,
    query: Query,
    now: i64,
    iter: ScanIterator,
) -> bool {
    &&& iter.wf()
    &&& is_answer(
        scan_lists(mem, blocks, query, now),
        scan_tombstones(mem, blocks, now),
        iter.output(),
    )
}

/// Every source is in strictly ascending order of key and time.
pub open spec fn all_strict(sources: Sources) -> bool {
    forall|i: int|
        0 <= i < sources.len() ==> sort::strictly_sorted(SortOrder::KeyTs, #[trigger] sources[i])
}

/// A key and time do not come after any row of the sources.
spec fn not_after(at: (Seq<u8>, i64), sources: Sources) -> bool {
    forall|i: int, k: int|
        0 <= i < sources.len() && 0 <= k < sources[i].len() ==> {
            let row = #[trigger] sources[i][k];
            bytes::lex_lt(at.0, row.key) || (at.0 == row.key && at.1 <= row.ts)
        }
}

/// The row that is merged next comes after no other row, and taking it keeps the
/// sources in order.
proof fn lemma_merge_step(sources: Sources, i: int)
    requires
        all_strict(sources),
        best_source(sources, sources.len()) == Some(i),
    ensures
        0 <= i < sources.len(),
        sources[i].len() > 0,
        rows_left(advanced(sources, i), sources.len()) < rows_left(sources, sources.len()),
        all_strict(advanced(sources, i)),
        not_after((sources[i][0].key, sources[i][0].ts), sources),
        not_after((sources[i][0].key, sources[i][0].ts), advanced(sources, i)),
{
    let o = SortOrder::KeyTs;
    lemma_best(sources, sources.len());
    lemma_advanced(sources, sources.len(), i);
    let rest = advanced(sources, i);
    let at = sources[i][0];
    assert forall|j: int| 0 <= j < rest.len() implies sort::strictly_sorted(o, #[trigger] rest[j]) by {
        assert(sort::strictly_sorted(o, sources[j]));
        if j == i {
            assert forall|a: int, b: int| 0 <= a < b < rest[j].len() implies sort::before(
                o,
                #[trigger] rest[j][a],
                #[trigger] rest[j][b],
            ) by {
                assert(sort::before(o, sources[j][a + 1], sources[j][b + 1]));
            }
        }
    }
    assert forall|j: int, k: int| 0 <= j < sources.len() && 0 <= k < sources[j].len() implies ({
        let row = #[trigger] sources[j][k];
        bytes::lex_lt(at.key, row.key) || (at.key == row.key && at.ts <= row.ts)
    }) by {
        let row = sources[j][k];
        let head = sources[j][0];
        assert(!sort::key_ts_lt(head, at));
        assert(sort::strictly_sorted(o, sources[j]));
        if k > 0 {
            assert(sort::before(o, sources[j][0], sources[j][k]));
        }
        bytes::lemma_lex_total(head.key, at.key);
        bytes::lemma_lex_total(row.key, head.key);
        bytes::lemma_lex_total(row.key, at.key);
        if bytes::lex_lt(at.key, head.key) && bytes::lex_lt(head.key, row.key) {
            bytes::lemma_lex_transitive(at.key, head.key, row.key);
        }
    }
    assert forall|j: int, k: int| 0 <= j < rest.len() && 0 <= k < rest[j].len() implies ({
        let row = #[trigger] rest[j][k];
        bytes::lex_lt(at.key, row.key) || (at.key == row.key && at.ts <= row.ts)
    }) by {
        if j == i {
            assert(rest[j][k] == sources[j][k + 1]);
        } else {
            assert(rest[j][k] == sources[j][k]);
        }
    }
}

/// The newest row of a place stays when a row elsewhere is taken from the front.
proof fn lemma_current_behind(rows: Seq<InternalRecordView>, key: Seq<u8>, ts: i64)
    requires
        rows.len() > 0,
        !versions::at_place(rows[0], key, ts),
    ensures
        versions::current(rows.drop_first(), key, ts) == versions::current(rows, key, ts),
    decreases rows.len(),
{
    if rows.len() > 1 {
        lemma_current_behind(rows.drop_last(), key, ts);
        assert(rows.drop_first().drop_last() =~= rows.drop_last().drop_first());
    } else {
        assert(versions::current(rows.drop_last(), key, ts) is None);
    }
}

/// The first list that has a row with the key and time decides.
pub proof fn lemma_deciding_at(lists: Sources, i: int, key: Seq<u8>, ts: i64)
    requires
        0 <= i < lists.len(),
        versions::current(lists[i], key, ts) is Some,
        forall|j: int| 0 <= j < i ==> versions::current(#[trigger] lists[j], key, ts) is None,
    ensures
        deciding(lists, key, ts) == versions::current(lists[i], key, ts),
    decreases lists.len(),
{
    let front = lists.drop_last();
    if i < front.len() {
        assert forall|j: int| 0 <= j < i implies versions::current(#[trigger] front[j], key, ts) is None by {
            assert(versions::current(lists[j], key, ts) is None);
        }
        lemma_deciding_at(front, i, key, ts);
    } else {
        assert forall|j: int| 0 <= j < front.len() implies versions::current(
            #[trigger] front[j],
            key,
            ts,
        ) is None by {
            assert(versions::current(lists[j], key, ts) is None);
        }
        lemma_deciding_none(front, key, ts);
    }
}

/// Where no list has a row with the key and time, none decides.
pub proof fn lemma_deciding_none(lists: Sources, key: Seq<u8>, ts: i64)
    requires
        forall|j: int|
            0 <= j < lists.len() ==> versions::current(#[trigger] lists[j], key, ts) is None,
    ensures
        deciding(lists, key, ts) is None,
    decreases lists.len(),
{
    if lists.len() > 0 {
        let front = lists.drop_last();
        assert forall|j: int| 0 <= j < front.len() implies versions::current(
            #[trigger] front[j],
            key,
            ts,
        ) is None by {
            assert(versions::current(lists[j], key, ts) is None);
        }
        lemma_deciding_none(front, key, ts);
        assert(versions::current(lists[lists.len() - 1], key, ts) is None);
    }
}

/// Lists with the same newest rows have the same row decide.
pub proof fn lemma_deciding_same(a: Sources, b: Sources, key: Seq<u8>, ts: i64)
    requires
        a.len() == b.len(),
        forall|i: int|
            0 <= i < a.len() ==> versions::current(#[trigger] a[i], key, ts) == versions::current(
                b[i],
                key,
                ts,
            ),
    ensures
        deciding(a, key, ts) == deciding(b, key, ts),
    decreases a.len(),
{
    if a.len() > 0 {
        let front = a.drop_last();
        assert forall|i: int| 0 <= i < front.len() implies versions::current(
            #[trigger] front[i],
            key,
            ts,
        ) == versions::current(b.drop_last()[i], key, ts) by {
            assert(versions::current(a[i], key, ts) == versions::current(b[i], key, ts));
        }
        lemma_deciding_same(front, b.drop_last(), key, ts);
        assert(versions::current(a[a.len() - 1], key, ts) == versions::current(
            b[b.len() - 1],
            key,
            ts,
        ));
    }
}

/// Taking the row that is merged next changes nothing elsewhere, and that row
/// decides on its key and time.
proof fn lemma_step_decides(sources: Sources, i: int)
    requires
        all_strict(sources),
        best_source(sources, sources.len()) == Some(i),
    ensures
        ({
            let row = sources[i][0];
            &&& deciding(sources, row.key, row.ts) == Some(row)
            &&& forall|key: Seq<u8>, ts: i64|
                !versions::at_place(row, key, ts) ==> #[trigger] deciding(
                    advanced(sources, i),
                    key,
                    ts,
                ) == deciding(sources, key, ts)
        }),
{
    let o = SortOrder::KeyTs;
    lemma_best(sources, sources.len());
    lemma_merge_step(sources, i);
    let row = sources[i][0];
    let rest = advanced(sources, i);
    bytes::lemma_lex_irreflexive(row.key);
    assert forall|j: int| 0 <= j < i implies versions::current(
        #[trigger] sources[j],
        row.key,
        row.ts,
    ) is None by {
        let k = versions::lemma_current_found(sources[j], row.key, row.ts);
        if versions::current(sources[j], row.key, row.ts) is Some {
            assert(sort::key_ts_lt(row, sources[j][0]));
            assert(sort::strictly_sorted(o, sources[j]));
            if k > 0 {
                assert(sort::before(o, sources[j][0], sources[j][k]));
                sort::lemma_before(o, row, sources[j][0], sources[j][k]);
            }
        }
    }
    assert(versions::current(sources[i], row.key, row.ts) == Some(row)) by {
        assert forall|x: int|
            0 <= x < sources[i].len() && versions::same_place(#[trigger] sources[i][x], row) implies (
        sources[i][x].seq < row.seq || (sources[i][x].seq == row.seq && x <= 0)) by {
            assert(sort::strictly_sorted(o, sources[i]));
            if x > 0 {
                assert(sort::before(o, sources[i][0], sources[i][x]));
            }
        }
        versions::lemma_current_at(sources[i], 0);
    }
    lemma_deciding_at(sources, i, row.key, row.ts);
    assert forall|key: Seq<u8>, ts: i64| !versions::at_place(row, key, ts) implies #[trigger] deciding(
        rest,
        key,
        ts,
    ) == deciding(sources, key, ts) by {
        assert forall|j: int| 0 <= j < rest.len() implies versions::current(
            #[trigger] rest[j],
            key,
            ts,
        ) == versions::current(sources[j], key, ts) by {
            if j == i {
                lemma_current_behind(sources[i], key, ts);
            }
        }
        lemma_deciding_same(rest, sources, key, ts);
    }
}

/// What a merge yields comes in ascending order and after `last`.
proof fn lemma_merged_ascending(
    sources: Sources,
    tombstones: Seq<Tombstone>,
    last: Option<(Seq<u8>, i64)>,
)
    requires
        all_strict(sources),
        last matches Some(at) ==> not_after(at, sources),
    ensures
        ({
            let out = merged(sources, tombstones, last);
            &&& forall|i: int, j: int|
                0 <= i < j < out.len() ==> record_lt(#[trigger] out[i], #[trigger] out[j])
            &&& last matches Some(at) ==> forall|i: int|
                0 <= i < out.len() ==> {
                    let rec = #[trigger] out[i];
                    bytes::lex_lt(at.0, rec.key) || (at.0 == rec.key && at.1 < rec.ts)
                }
        }),
    decreases rows_left(sources, sources.len()),
{
    match best_source(sources, sources.len()) {
        None => {},
        Some(n) => {
            lemma_merge_step(sources, n);
            let row = sources[n][0];
            let rest = advanced(sources, n);
            let out = merged(sources, tombstones, last);
            if last == Some((row.key, row.ts)) {
                lemma_merged_ascending(rest, tombstones, last);
            } else {
                let now = Some((row.key, row.ts));
                let later = merged(rest, tombstones, now);
                lemma_merged_ascending(rest, tombstones, now);
                if row.op == Op::Put && !covered(tombstones, row.key) {
                    assert(out == seq![row.record()] + later);
                    assert forall|i: int, j: int| 0 <= i < j < out.len() implies record_lt(
                        #[trigger] out[i],
                        #[trigger] out[j],
                    ) by {
                        assert(out[j] == later[j - 1]);
                        if i > 0 {
                            assert(out[i] == later[i - 1]);
                        }
                    }
                }
                if let Some(at) = last {
                    assert(bytes::lex_lt(at.0, row.key) || (at.0 == row.key && at.1 <= row.ts));
                    assert forall|i: int| 0 <= i < out.len() implies ({
                        let rec = #[trigger] out[i];
                        bytes::lex_lt(at.0, rec.key) || (at.0 == rec.key && at.1 < rec.ts)
                    }) by {
                        let rec = out[i];
                        if row.op == Op::Put && !covered(tombstones, row.key) {
                            if i > 0 {
                                assert(rec == later[i - 1]);
                            }
                        } else {
                            assert(rec == later[i]);
                        }
                        if bytes::lex_lt(at.0, row.key) && bytes::lex_lt(row.key, rec.key) {
                            bytes::lemma_lex_transitive(at.0, row.key, rec.key);
                        }
                    }
                }
            }
        },
    }
}

/// A merge yields what is to be shown, but for the place that was decided last.
proof fn lemma_merged(
    sources: Sources,
    tombstones: Seq<Tombstone>,
    last: Option<(Seq<u8>, i64)>,
)
    requires
        all_strict(sources),
        last matches Some(at) ==> not_after(at, sources),
    ensures
        ({
            let out = merged(sources, tombstones, last);
            &&& forall|i: int|
                0 <= i < out.len() ==> shown(sources, tombstones, (#[trigger] out[i]).key, out[i].ts)
                    && out[i] == (deciding(sources, out[i].key, out[i].ts)->0).record()
            &&& forall|key: Seq<u8>, ts: i64| #[trigger]
                shown(sources, tombstones, key, ts) && last != Some((key, ts)) ==> out.contains(
                    (deciding(sources, key, ts)->0).record(),
                )
        }),
    decreases rows_left(sources, sources.len()),
{
    let out = merged(sources, tombstones, last);
    match best_source(sources, sources.len()) {
        None => {
            lemma_best(sources, sources.len());
            assert forall|key: Seq<u8>, ts: i64| #[trigger]
                shown(sources, tombstones, key, ts) && last != Some((key, ts)) implies out.contains(
                (deciding(sources, key, ts)->0).record(),
            ) by {
                lemma_deciding_none(sources, key, ts);
            }
        },
        Some(n) => {
            lemma_merge_step(sources, n);
            lemma_step_decides(sources, n);
            let row = sources[n][0];
            let rest = advanced(sources, n);
            let place = Some((row.key, row.ts));
            let later = merged(rest, tombstones, place);
            lemma_merged(rest, tombstones, place);
            lemma_merged_ascending(rest, tombstones, place);
            bytes::lemma_lex_irreflexive(row.key);
            let kept = last != place && row.op == Op::Put && !covered(tombstones, row.key);
            assert(out == (if kept {
                seq![row.record()] + later
            } else {
                later
            }));
            assert forall|i: int| 0 <= i < out.len() implies shown(
                sources,
                tombstones,
                (#[trigger] out[i]).key,
                out[i].ts,
            ) && out[i] == (deciding(sources, out[i].key, out[i].ts)->0).record() by {
                if !(kept && i == 0) {
                    let k = if kept {
                        i - 1
                    } else {
                        i
                    };
                    let rec = later[k];
                    assert(out[i] == rec);
                    assert(bytes::lex_lt(row.key, rec.key) || (row.key == rec.key && row.ts
                        < rec.ts));
                    assert(deciding(rest, rec.key, rec.ts) == deciding(sources, rec.key, rec.ts));
                }
            }
            assert forall|key: Seq<u8>, ts: i64| #[trigger]
                shown(sources, tombstones, key, ts) && last != Some((key, ts)) implies out.contains(
                (deciding(sources, key, ts)->0).record(),
            ) by {
                let rec = (deciding(sources, key, ts)->0).record();
                if versions::at_place(row, key, ts) {
                    assert(kept);
                    assert(out[0] == rec);
                } else {
                    assert(deciding(rest, key, ts) == deciding(sources, key, ts));
                    assert(shown(rest, tombstones, key, ts));
                    assert(later.contains(rec));
                    let m = choose|m: int| 0 <= m < later.len() && later[m] == rec;
                    if kept {
                        assert(out[m + 1] == rec);
                    } else {
                        assert(out[m] == rec);
                    }
                }
            }
        },
    }
}

/// A merge of condensed lists is the answer over the lists.
proof fn lemma_merged_answers(lists: Sources, sources: Sources, tombstones: Seq<Tombstone>)
    requires
        lists.len() == sources.len(),
        forall|i: int|
            0 <= i < lists.len() ==> versions::condensed(lists[i], #[trigger] sources[i]),
    ensures
        is_answer(lists, tombstones, merged(sources, tombstones, None)),
{
    let out = merged(sources, tombstones, None);
    assert forall|i: int| 0 <= i < sources.len() implies sort::strictly_sorted(
        SortOrder::KeyTs,
        #[trigger] sources[i],
    ) by {
        assert(versions::condensed(lists[i], sources[i]));
    }
    lemma_merged_ascending(sources, tombstones, None);
    lemma_merged(sources, tombstones, None);
    assert forall|key: Seq<u8>, ts: i64| #[trigger] deciding(lists, key, ts) == deciding(
        sources,
        key,
        ts,
    ) by {
        assert forall|i: int| 0 <= i < sources.len() implies versions::current(
            #[trigger] sources[i],
            key,
            ts,
        ) == versions::current(lists[i], key, ts) by {
            versions::lemma_condensed(lists[i], sources[i], key, ts);
        }
        lemma_deciding_same(sources, lists, key, ts);
    }
    assert forall|i: int| 0 <= i < out.len() implies shown(
        lists,
        tombstones,
        (#[trigger] out[i]).key,
        out[i].ts,
    ) && out[i] == (deciding(lists, out[i].key, out[i].ts)->0).record() by {
        assert(deciding(lists, out[i].key, out[i].ts) == deciding(sources, out[i].key, out[i].ts));
    }
    assert forall|key: Seq<u8>, ts: i64| #[trigger]
        shown(lists, tombstones, key, ts) implies out.contains(
        (deciding(lists, key, ts)->0).record(),
    ) by {
        assert(deciding(lists, key, ts) == deciding(sources, key, ts));
        assert(shown(sources, tombstones, key, ts));
    }
}

/// The range tombstones among the records.
fn collect_tombstones(records: &Vec<InternalRecord>) -> (r: Vec<(Vec<u8>, Vec<u8>)>)
    ensures
        tombstone_views(r@) == row_tombstones(record::views(records@)),
{
    let ghost rows = record::views(records@);
    let mut out: Vec<(Vec<u8>, Vec<u8>)> = Vec::new();
    let mut i: usize = 0;
    assert(tombstone_views(out@) =~= row_tombstones(rows.take(0)));
    while i < records.len()
        invariant
            i <= records@.len(),
            rows == record::views(records@),
            tombstone_views(out@) == row_tombstones(rows.take(i as int)),
        decreases records@.len() - i,
    {
        let rec = &records[i];
        let ghost before = tombstone_views(out@);
        proof {
            assert(rows.take(i + 1).drop_last() =~= rows.take(i as int));
            assert(rows.take(i + 1).last() == rec@);
        }
        if rec.op == Op::DeleteRange {
            if let Some(end) = &rec.range_end {
                out.push((copy_bytes(&rec.key), copy_bytes(end)));
                assert(tombstone_views(out@) =~= before.push((rec@.key, end@)));
            }
        }
        i += 1;
    }
    assert(rows.take(i as int) =~= rows);
    out
}

/// Notes the range tombstones of a block that have not expired.
fn note_tombstones(
    records: &Vec<InternalRecord>,
    now_us: i64,
    tombstones: &mut Vec<(Vec<u8>, Vec<u8>)>,
)
    ensures
        tombstone_views(final(tombstones)@) == tombstone_views(old(tombstones)@) + row_tombstones(
            live(record::views(records@), now_us),
        ),
{
    let ghost rows = record::views(records@);
    let ghost noted = tombstone_views(tombstones@);
    let mut i: usize = 0;
    proof {
        reveal(Seq::filter);
        assert(live(rows.take(0), now_us) =~= Seq::<InternalRecordView>::empty());
        assert(tombstone_views(tombstones@) =~= noted + row_tombstones(live(rows.take(0), now_us)));
    }
    while i < records.len()
        invariant
            i <= records@.len(),
            rows == record::views(records@),
            tombstone_views(tombstones@) == noted + row_tombstones(
                live(rows.take(i as int), now_us),
            ),
        decreases records@.len() - i,
    {
        let rec = &records[i];
        let ghost before = tombstone_views(tombstones@);
        let ghost front = live(rows.take(i as int), now_us);
        proof {
            reveal(Seq::filter);
            let part = rows.take(i + 1);
            assert(part.drop_last() =~= rows.take(i as int));
            assert(part.last() == rec@);
            if rec@.expire_at > now_us {
                assert(live(part, now_us) == front.push(rec@));
                assert(front.push(rec@).drop_last() =~= front);
            }
        }
        if rec.expire_at > now_us && rec.op == Op::DeleteRange {
            if let Some(end) = &rec.range_end {
                tombstones.push((copy_bytes(&rec.key), copy_bytes(end)));
                proof {
                    assert(tombstone_views(tombstones@) =~= before.push((rec@.key, end@)));
                    assert(before.push((rec@.key, end@)) =~= noted + row_tombstones(front).push(
                        (rec@.key, end@),
                    ));
                }
            }
        }
        i += 1;
    }
    assert(rows.take(i as int) =~= rows);
}

/// The range tombstones of the memtables and of the blocks.
pub fn all_tombstones(
    memtables: &MemTables,
    blocks: &Vec<Vec<InternalRecord>>,
    now_us: i64,
) -> (r: Vec<(Vec<u8>, Vec<u8>)>)
    ensures
        tombstone_views(r@) == scan_tombstones(*memtables, block_contents(blocks@), now_us),
{
    let ghost contents = block_contents(blocks@);
    let rows = memtables.query_all(now_us);
    let mut tombstones = collect_tombstones(&rows);
    let ghost noted = tombstone_views(tombstones@);
    let mut i: usize = 0;
    assert(noted + block_tombstones(contents.take(0), now_us) =~= noted);
    while i < blocks.len()
        invariant
            i <= blocks@.len(),
            contents == block_contents(blocks@),
            tombstone_views(tombstones@) == noted + block_tombstones(
                contents.take(i as int),
                now_us,
            ),
        decreases blocks@.len() - i,
    {
        note_tombstones(&blocks[i], now_us, &mut tombstones);
        proof {
            let part = contents.take(i + 1);
            assert(part.drop_last() =~= contents.take(i as int));
            assert(part.last() == record::views(blocks@[i as int]@));
            assert(tombstone_views(tombstones@) =~= noted + block_tombstones(part, now_us));
        }
        i += 1;
    }
    assert(contents.take(i as int) =~= contents);
    tombstones
}

impl ScanIterator {
    /// A scan for the query over the memtables and over the blocks in which rows
    /// that it asks for may stand.
    pub fn build(
        query: &Query,
        memtables: &MemTables,
        blocks: &Vec<Vec<InternalRecord>>,
        now_us: i64,
    ) -> (r: Self)
        requires
            query.key_filter@ matches KeyFilterView::Range { start, end } ==> query.time_range is None
                && memtables.frozen().len() > 0 ==> bytes::lex_le(start, end),
        ensures
            is_scan(*memtables, block_contents(blocks@), *query, now_us, r),
    {
        let mem = match (&query.key_filter, query.time_range) {
            (KeyFilter::Prefix(key), None) => memtables.query_prefix(key, now_us),
            (KeyFilter::Range { start, end }, None) => memtables.query_key_range(start, end, now_us),
            (KeyFilter::All, Some((ts_start, ts_end))) => {
                memtables.query_time_range(ts_start, ts_end, now_us)
            },
            (KeyFilter::Prefix(key), Some((ts_start, ts_end))) => {
                memtables.query_prefix_time_range(key, ts_start, ts_end, now_us)
            },
            (KeyFilter::Range { start, end }, Some((ts_start, ts_end))) => {
                memtables.query_key_time_range(start, end, ts_start, ts_end, now_us)
            },
            (KeyFilter::All, None) => memtables.query_all(now_us),
        };
        let ghost mem_rows = record::views(mem@);
        assert(mem_rows == memtables.selected(mem_query(*query, now_us)));
        let noted = memtables.query_all(now_us);
        let mut tombstones = collect_tombstones(&noted);
        let full: bool = match (&query.key_filter, query.time_range) {
            (KeyFilter::All, None) => true,
            (KeyFilter::Prefix(p), None) => p.len() == 0,
            _ => false,
        };
        let points = without_ranges(&mem);
        let first = newest_rows(&points);
        let ghost lists = scan_lists(*memtables, block_contents(blocks@), *query, now_us);
        let mut sources: Vec<ScanSource> = Vec::new();
        sources.push(ScanSource { records: first, pos: 0 });
        assert(sources@[0].rows() =~= record::views(first@));
        load_blocks(blocks, query, full, now_us, &mut sources, &mut tombstones);
        let single: Option<usize> = if tombstones.len() == 0 {
            only_source(&sources)
        } else {
            None
        };
        let r = Self { sources, tombstones, last_dedup: None, single };
        proof {
            assert forall|i: int| 0 <= i < lists.len() implies versions::condensed(
                lists[i],
                #[trigger] r.sources()[i],
            ) by {
                if i > 0 {
                    assert(lists[i] == block_lists(block_contents(blocks@), *query, now_us)[i - 1]);
                    assert(versions::condensed(
                        block_lists(block_contents(blocks@), *query, now_us)[i - 1],
                        sources@[i - 1 + 1].rows(),
                    ));
                }
            }
            if let Some(k) = r.single {
                assert(versions::condensed(lists[k as int], r.sources()[k as int]));
                assert forall|j: int| 0 <= j < r.sources().len() && j != k implies (
                #[trigger] r.sources()[j]).len() == 0 by {
                    assert(r.sources@[j].rows().len() == 0);
                }
            }
            assert(r.tombstones() == scan_tombstones(*memtables, block_contents(blocks@), now_us));
            lemma_merged_answers(lists, r.sources(), r.tombstones());
        }
        r
    }
}

/// The only source that has rows, if there is just one.
fn only_source(sources: &Vec<ScanSource>) -> (r: Option<usize>)
    requires
        forall|i: int| 0 <= i < sources@.len() ==> (#[trigger] sources@[i]).wf(),
    ensures
        r matches Some(k) ==> k < sources@.len() && forall|j: int|
            0 <= j < sources@.len() && j != k ==> (#[trigger] sources@[j]).rows().len() == 0,
{
    let mut found: Option<usize> = None;
    let mut i: usize = 0;
    while i < sources.len()
        invariant
            i <= sources@.len(),
            forall|j: int| 0 <= j < sources@.len() ==> (#[trigger] sources@[j]).wf(),
            match found {
                Some(k) => k < i && forall|j: int|
                    0 <= j < i && j != k ==> (#[trigger] sources@[j]).rows().len() == 0,
                None => forall|j: int| 0 <= j < i ==> (#[trigger] sources@[j]).rows().len() == 0,
            },
        decreases sources@.len() - i,
    {
        assert(sources@[i as int].wf());
        if sources[i].pos < sources[i].records.len() {
            if found.is_some() {
                return None;
            }
            found = Some(i);
        } else {
            assert(sources@[i as int].rows().len() == 0);
        }
        i += 1;
    }
    found
}

/// Loads the blocks of a scan, behind the first source.
fn load_blocks(
    blocks: &Vec<Vec<InternalRecord>>,
    query: &Query,
    full: bool,
    now_us: i64,
    sources: &mut Vec<ScanSource>,
    tombstones: &mut Vec<(Vec<u8>, Vec<u8>)>,
)
    requires
        full == is_full(*query),
        old(sources)@.len() == 1,
        old(sources)@[0].wf(),
    ensures
        final(sources)@.len() == blocks@.len() + 1,
        final(sources)@[0] == old(sources)@[0],
        forall|i: int| 0 <= i < final(sources)@.len() ==> (#[trigger] final(sources)@[i]).wf(),
        forall|i: int|
            0 <= i < blocks@.len() ==> versions::condensed(
                #[trigger] block_lists(block_contents(blocks@), *query, now_us)[i],
                final(sources)@[i + 1].rows(),
            ),
        tombstone_views(final(tombstones)@) == tombstone_views(old(tombstones)@) + block_tombstones(
            block_contents(blocks@),
            now_us,
        ),
{
    let ghost contents = block_contents(blocks@);
    let ghost lists = block_lists(contents, *query, now_us);
    let ghost noted = tombstone_views(tombstones@);
    let mut i: usize = 0;
    proof {
        assert(noted + block_tombstones(contents.take(0), now_us) =~= noted);
    }
    while i < blocks.len()
        invariant
            i <= blocks@.len(),
            full == is_full(*query),
            contents == block_contents(blocks@),
            lists == block_lists(contents, *query, now_us),
            sources@.len() == i + 1,
            sources@[0] == old(sources)@[0],
            forall|k: int| 0 <= k < sources@.len() ==> (#[trigger] sources@[k]).wf(),
            forall|k: int|
                0 <= k < i ==> versions::condensed(#[trigger] lists[k], sources@[k + 1].rows()),
            tombstone_views(tombstones@) == noted + block_tombstones(
                contents.take(i as int),
                now_us,
            ),
        decreases blocks@.len() - i,
    {
        let ghost loaded = sources@;
        let filtered = filter_sst_block(
            &blocks[i],
            &query.key_filter,
            query.time_range,
            full,
            now_us,
            tombstones,
        );
        let newest = newest_rows(&filtered);
        sources.push(ScanSource { records: newest, pos: 0 });
        proof {
            let part = contents.take(i + 1);
            assert(part.drop_last() =~= contents.take(i as int));
            assert(part.last() == record::views(blocks@[i as int]@));
            assert(tombstone_views(tombstones@) =~= noted + block_tombstones(part, now_us));
            assert(sources@[i + 1].rows() =~= record::views(newest@));
            assert(lists[i as int] == record::views(filtered@));
            assert forall|k: int| 0 <= k < i + 1 implies versions::condensed(
                #[trigger] lists[k],
                sources@[k + 1].rows(),
            ) by {
                if k < i {
                    assert(sources@[k + 1] == loaded[k + 1]);
                }
            }
        }
        i += 1;
    }
    assert(contents.take(i as int) =~= contents);
}

/// What is taken of a block is what the query asks for.
proof fn lemma_taken_admitted(
    rows: Seq<InternalRecordView>,
    filter: KeyFilterView,
    times: Option<(i64, i64)>,
    full: bool,
    now: i64,
    i: int,
)
    requires
        full ==> times is None && match filter {
            KeyFilterView::All => true,
            KeyFilterView::Prefix(p) => p.len() == 0,
            _ => false,
        },
        0 <= i < taken_rows(rows, filter, times, full, now).len(),
    ensures
        memtable::admits_key(filter, taken_rows(rows, filter, times, full, now)[i].key),
        memtable::admits_ts(times, taken_rows(rows, filter, times, full, now)[i].ts),
    decreases rows.len(),
{
    let front = taken_rows(rows.drop_last(), filter, times, full, now);
    if i < front.len() {
        lemma_taken_admitted(rows.drop_last(), filter, times, full, now, i);
    } else if full {
        if let KeyFilterView::Prefix(p) = filter {
            assert(rows.last().key.subrange(0, 0) =~= p);
        }
    }
}

/// A row decides only on a key and time that the query asks for.
pub proof fn lemma_deciding_admitted(
    mem: MemTables,
    blocks: Sources,
    query: Query,
    now: i64,
    key: Seq<u8>,
    ts: i64,
)
    requires
        deciding(scan_lists(mem, blocks, query, now), key, ts) is Some,
    ensures
        memtable::admits_key(query.key_filter@, key),
        memtable::admits_ts(query.time_range, ts),
{
    let lists = scan_lists(mem, blocks, query, now);
    if !(memtable::admits_key(query.key_filter@, key) && memtable::admits_ts(query.time_range, ts)) {
        assert forall|j: int| 0 <= j < lists.len() implies versions::current(
            #[trigger] lists[j],
            key,
            ts,
        ) is None by {
            let y = versions::lemma_current_found(lists[j], key, ts);
            if versions::current(lists[j], key, ts) is Some {
                if j == 0 {
                    let selected = mem.selected(mem_query(query, now));
                    let keep = |r: InternalRecordView| r.op != Op::DeleteRange;
                    assert(lists[0] == selected.filter(keep));
                    assert(selected.filter(keep).contains(lists[0][y]));
                    selected.lemma_filter_contains_rev(keep, lists[0][y]);
                    memtable::lemma_selected_asked(mem, mem_query(query, now), lists[0][y]);
                } else {
                    assert(lists[j] == block_lists(blocks, query, now)[j - 1]);
                    lemma_taken_admitted(
                        blocks[j - 1],
                        query.key_filter@,
                        query.time_range,
                        is_full(query),
                        now,
                        y,
                    );
                }
            }
        }
        lemma_deciding_none(lists, key, ts);
    }
}

/// Lists after one another: the first that has a row decides.
pub proof fn lemma_deciding_append(a: Sources, b: Sources, key: Seq<u8>, ts: i64)
    ensures
        deciding(a + b, key, ts) == match deciding(a, key, ts) {
            Some(row) => Some(row),
            None => deciding(b, key, ts),
        },
    decreases b.len(),
{
    if b.len() == 0 {
        assert(a + b =~= a);
    } else {
        lemma_deciding_append(a, b.drop_last(), key, ts);
        assert((a + b).drop_last() =~= a + b.drop_last());
        assert((a + b).last() == b.last());
    }
}

/// A row decides, where some list has it and no list has another one with its key and
/// time.
pub proof fn lemma_deciding_only(lists: Sources, row: InternalRecordView)
    requires
        forall|j: int, k: int|
            0 <= j < lists.len() && 0 <= k < lists[j].len() && versions::same_place(
                #[trigger] lists[j][k],
                row,
            ) ==> lists[j][k] == row,
        exists|j: int, k: int|
            0 <= j < lists.len() && 0 <= k < lists[j].len() && #[trigger] lists[j][k] == row,
    ensures
        deciding(lists, row.key, row.ts) == Some(row),
    decreases lists.len(),
{
    let front = lists.drop_last();
    let last = lists.last();
    assert forall|j: int, k: int|
        0 <= j < front.len() && 0 <= k < front[j].len() && versions::same_place(
            #[trigger] front[j][k],
            row,
        ) implies front[j][k] == row by {
        assert(front[j][k] == lists[j][k]);
    }
    if exists|j: int, k: int|
        0 <= j < front.len() && 0 <= k < front[j].len() && #[trigger] front[j][k] == row {
        lemma_deciding_only(front, row);
    } else {
        assert forall|j: int| 0 <= j < front.len() implies versions::current(
            #[trigger] front[j],
            row.key,
            row.ts,
        ) is None by {
            let y = versions::lemma_current_found(front[j], row.key, row.ts);
            if versions::current(front[j], row.key, row.ts) is Some {
                assert(versions::same_place(front[j][y], row));
            }
        }
        lemma_deciding_none(front, row.key, row.ts);
        let (j, k) = choose|j: int, k: int|
            0 <= j < lists.len() && 0 <= k < lists[j].len() && #[trigger] lists[j][k] == row;
        assert(j == lists.len() - 1) by {
            if j < front.len() {
                assert(front[j][k] == row);
            }
        }
        let y = versions::lemma_current_found(last, row.key, row.ts);
        assert(versions::at_place(last[k], row.key, row.ts));
        assert(versions::same_place(lists[lists.len() - 1][y], row));
    }
}

/// What is taken of a block: each row that has not expired, as it is taken.
pub proof fn lemma_taken_from(
    rows: Seq<InternalRecordView>,
    filter: KeyFilterView,
    times: Option<(i64, i64)>,
    full: bool,
    now: i64,
    i: int,
) -> (k: int)
    requires
        0 <= i < taken_rows(rows, filter, times, full, now).len(),
    ensures
        0 <= k < rows.len(),
        rows[k].expire_at > now,
        taken(rows[k], filter, times, full) == Some(taken_rows(rows, filter, times, full, now)[i]),
    decreases rows.len(),
{
    let front = taken_rows(rows.drop_last(), filter, times, full, now);
    if i < front.len() {
        lemma_taken_from(rows.drop_last(), filter, times, full, now, i)
    } else {
        rows.len() - 1
    }
}

/// A row of a block that has not expired and of which something is taken is taken.
pub proof fn lemma_taken_to(
    rows: Seq<InternalRecordView>,
    filter: KeyFilterView,
    times: Option<(i64, i64)>,
    full: bool,
    now: i64,
    k: int,
) -> (i: int)
    requires
        0 <= k < rows.len(),
        rows[k].expire_at > now,
        taken(rows[k], filter, times, full) is Some,
    ensures
        0 <= i < taken_rows(rows, filter, times, full, now).len(),
        taken(rows[k], filter, times, full) == Some(taken_rows(rows, filter, times, full, now)[i]),
    decreases rows.len(),
{
    let front = taken_rows(rows.drop_last(), filter, times, full, now);
    if k < rows.len() - 1 {
        lemma_taken_to(rows.drop_last(), filter, times, full, now, k)
    } else {
        front.len() as int
    }
}

/// Whether a row is a range tombstone that covers the key.
pub open spec fn row_covers(row: InternalRecordView, key: Seq<u8>) -> bool {
    row.op == Op::DeleteRange && (row.range_end matches Some(end) && bytes::lex_le(row.key, key)
        && bytes::lex_lt(key, end))
}

/// A key is covered by the range tombstones among rows where one of the rows covers
/// it.
pub proof fn lemma_covered_rows(rows: Seq<InternalRecordView>, key: Seq<u8>)
    ensures
        covered(row_tombstones(rows), key) <==> exists|i: int|
            0 <= i < rows.len() && row_covers(#[trigger] rows[i], key),
    decreases rows.len(),
{
    if rows.len() > 0 {
        let front = rows.drop_last();
        let last = rows.last();
        lemma_covered_rows(front, key);
        let before = row_tombstones(front);
        let all = row_tombstones(rows);
        if covered(before, key) {
            let i = choose|i: int| 0 <= i < front.len() && row_covers(#[trigger] front[i], key);
            assert(rows[i] == front[i]);
            let t = choose|t: int|
                0 <= t < before.len() && bytes::lex_le((#[trigger] before[t]).0, key)
                    && bytes::lex_lt(key, before[t].1);
            assert(all[t] == before[t]);
        }
        if row_covers(last, key) {
            assert(all[all.len() - 1] == (last.key, last.range_end->0));
            assert(rows[rows.len() - 1] == last);
        }
        if covered(all, key) {
            let t = choose|t: int|
                0 <= t < all.len() && bytes::lex_le((#[trigger] all[t]).0, key) && bytes::lex_lt(
                    key,
                    all[t].1,
                );
            if t < before.len() {
                assert(before[t] == all[t]);
            } else {
                assert(row_covers(rows[rows.len() - 1], key));
            }
        }
        if exists|i: int| 0 <= i < rows.len() && row_covers(#[trigger] rows[i], key) {
            let i = choose|i: int| 0 <= i < rows.len() && row_covers(#[trigger] rows[i], key);
            if i < front.len() {
                assert(front[i] == rows[i]);
            }
        }
    } else {
        assert(row_tombstones(rows).len() == 0);
    }
}

/// A key is covered by the range tombstones of blocks where a row of one of them
/// covers it that has not expired.
pub proof fn lemma_covered_blocks(blocks: Sources, now: i64, key: Seq<u8>)
    ensures
        covered(block_tombstones(blocks, now), key) <==> exists|b: int, i: int|
            0 <= b < blocks.len() && 0 <= i < blocks[b].len() && blocks[b][i].expire_at > now
                && row_covers(#[trigger] blocks[b][i], key),
    decreases blocks.len(),
{
    if blocks.len() > 0 {
        let front = blocks.drop_last();
        let last = blocks.last();
        let alive = live(last, now);
        lemma_covered_blocks(front, now, key);
        lemma_covered_rows(alive, key);
        crate::engine::lemma_covered_append(block_tombstones(front, now), row_tombstones(alive), key);
        if covered(block_tombstones(front, now), key) {
            let (b, i) = choose|b: int, i: int|
                0 <= b < front.len() && 0 <= i < front[b].len() && front[b][i].expire_at > now
                    && row_covers(#[trigger] front[b][i], key);
            assert(blocks[b][i] == front[b][i]);
        }
        if covered(row_tombstones(alive), key) {
            let i = choose|i: int| 0 <= i < alive.len() && row_covers(#[trigger] alive[i], key);
            let keep = |r: InternalRecordView| r.expire_at > now;
            assert(alive.contains(alive[i]));
            crate::write_worker::lemma_filtered(last, keep, alive[i]);
            let k = choose|k: int| 0 <= k < last.len() && last[k] == alive[i];
            assert(row_covers(blocks[blocks.len() - 1][k], key));
        }
        if exists|b: int, i: int|
            0 <= b < blocks.len() && 0 <= i < blocks[b].len() && blocks[b][i].expire_at > now
                && row_covers(#[trigger] blocks[b][i], key) {
            let (b, i) = choose|b: int, i: int|
                0 <= b < blocks.len() && 0 <= i < blocks[b].len() && blocks[b][i].expire_at > now
                    && row_covers(#[trigger] blocks[b][i], key);
            if b < front.len() {
                assert(front[b][i] == blocks[b][i]);
            } else {
                let keep = |r: InternalRecordView| r.expire_at > now;
                assert(last.contains(last[i]));
                crate::write_worker::lemma_filtered(last, keep, last[i]);
                let k = choose|k: int| 0 <= k < alive.len() && alive[k] == last[i];
                assert(row_covers(alive[k], key));
            }
        }
    } else {
        assert(block_tombstones(blocks, now).len() == 0);
    }
}

/// There is one answer: what a scan yields is fixed by its lists and tombstones.
pub proof fn law_answer_unique(
    lists: Sources,
    tombstones: Seq<Tombstone>,
    a: Seq<RecordView>,
    b: Seq<RecordView>,
)
    requires
        is_answer(lists, tombstones, a),
        is_answer(lists, tombstones, b),
    ensures
        a == b,
{
    assert forall|i: int| 0 <= i < a.len() implies b.contains(#[trigger] a[i]) by {
        assert(shown(lists, tombstones, a[i].key, a[i].ts));
    }
    assert forall|i: int| 0 <= i < b.len() implies a.contains(#[trigger] b[i]) by {
        assert(shown(lists, tombstones, b[i].key, b[i].ts));
    }
    lemma_same_records(a, b);
}

/// The order of records is strict.
proof fn lemma_record_lt(a: RecordView, b: RecordView)
    ensures
        !record_lt(a, a),
        record_lt(a, b) ==> !record_lt(b, a),
{
    bytes::lemma_lex_irreflexive(a.key);
    bytes::lemma_lex_total(a.key, b.key);
    if bytes::lex_lt(a.key, b.key) && bytes::lex_lt(b.key, a.key) {
        bytes::lemma_lex_transitive(a.key, b.key, a.key);
    }
}

/// Strictly ascending lists with the same records are one list.
proof fn lemma_same_records(a: Seq<RecordView>, b: Seq<RecordView>)
    requires
        forall|i: int, j: int|
            0 <= i < j < a.len() ==> record_lt(#[trigger] a[i], #[trigger] a[j]),
        forall|i: int, j: int|
            0 <= i < j < b.len() ==> record_lt(#[trigger] b[i], #[trigger] b[j]),
        forall|i: int| 0 <= i < a.len() ==> b.contains(#[trigger] a[i]),
        forall|i: int| 0 <= i < b.len() ==> a.contains(#[trigger] b[i]),
    ensures
        a == b,
{
    lemma_same_fronts(a, b, a.len() as int);
    if a.len() < b.len() {
        let i = a.len() as int;
        assert(a.contains(b[i]));
        let k = choose|k: int| 0 <= k < a.len() && a[k] == b[i];
        assert(b[k] == b[i]);
        assert(record_lt(b[k], b[i]));
        lemma_record_lt(b[i], b[i]);
    }
    if b.len() < a.len() {
        let i = b.len() as int;
        assert(b.contains(a[i]));
        let k = choose|k: int| 0 <= k < b.len() && b[k] == a[i];
        assert(a[k] == a[i]);
        assert(record_lt(a[k], a[i]));
        lemma_record_lt(a[i], a[i]);
    }
    assert(a =~= b);
}

proof fn lemma_same_fronts(a: Seq<RecordView>, b: Seq<RecordView>, n: int)
    requires
        forall|i: int, j: int|
            0 <= i < j < a.len() ==> record_lt(#[trigger] a[i], #[trigger] a[j]),
        forall|i: int, j: int|
            0 <= i < j < b.len() ==> record_lt(#[trigger] b[i], #[trigger] b[j]),
        forall|i: int| 0 <= i < a.len() ==> b.contains(#[trigger] a[i]),
        forall|i: int| 0 <= i < b.len() ==> a.contains(#[trigger] b[i]),
        0 <= n <= a.len(),
    ensures
        forall|i: int| 0 <= i < n && i < b.len() ==> a[i] == b[i],
    decreases n,
{
    if n > 0 {
        lemma_same_fronts(a, b, n - 1);
        let i = n - 1;
        if i < b.len() {
            assert(b.contains(a[i]));
            assert(a.contains(b[i]));
            let j = choose|j: int| 0 <= j < b.len() && b[j] == a[i];
            let k = choose|k: int| 0 <= k < a.len() && a[k] == b[i];
            if j < i {
                assert(a[j] == b[j]);
                assert(record_lt(a[j], a[i]));
                lemma_record_lt(a[i], a[i]);
            }
            if k < i {
                assert(a[k] == b[k]);
                assert(record_lt(b[k], b[i]));
                lemma_record_lt(b[i], b[i]);
            }
            if j > i && k > i {
                assert(record_lt(b[i], b[j]));
                assert(record_lt(a[i], a[k]));
                lemma_record_lt(a[i], b[i]);
            }
        }
    }
}

/// A deletion hides what it is newer than: where the row that decides on a key and
/// time is a tombstone, or a range tombstone covers the key, no record with the key
/// and time is yielded.
pub proof fn law_scan_hides_deleted(
    lists: Sources,
    tombstones: Seq<Tombstone>,
    out: Seq<RecordView>,
    key: Seq<u8>,
    ts: i64,
    i: int,
)
    requires
        is_answer(lists, tombstones, out),
        deciding(lists, key, ts) matches Some(row) ==> row.op != Op::Put || covered(tombstones, key),
        0 <= i < out.len(),
    ensures
        !(out[i].key == key && out[i].ts == ts),
{
    assert(shown(lists, tombstones, out[i].key, out[i].ts));
}

/// The newest row of the memtables wins: one that the query selects there and that
/// is the newest of its key and time is yielded, if it is a put that no range
/// tombstone covers, and where it is a deletion nothing with its key and time is.
pub proof fn law_scan_sees_memtable(
    mem: MemTables,
    blocks: Sources,
    query: Query,
    now: i64,
    iter: ScanIterator,
    row: InternalRecordView,
)
    requires
        is_scan(mem, blocks, query, now, iter),
        versions::current(
            versions::point_rows(mem.selected(mem_query(query, now))),
            row.key,
            row.ts,
        ) == Some(row),
    ensures
        iter.output().contains(row.record()) <== row.op == Op::Put && !covered(
            scan_tombstones(mem, blocks, now),
            row.key,
        ),
        row.op != Op::Put ==> forall|i: int|
            0 <= i < iter.output().len() ==> !((#[trigger] iter.output()[i]).key == row.key
                && iter.output()[i].ts == row.ts),
{
    let lists = scan_lists(mem, blocks, query, now);
    let tombstones = scan_tombstones(mem, blocks, now);
    assert(lists[0] == versions::point_rows(mem.selected(mem_query(query, now))));
    lemma_deciding_at(lists, 0, row.key, row.ts);
    if row.op == Op::Put && !covered(tombstones, row.key) {
        assert(shown(lists, tombstones, row.key, row.ts));
    }
    if row.op != Op::Put {
        assert forall|i: int| 0 <= i < iter.output().len() implies !((#[trigger] iter.output()[i]).key
            == row.key && iter.output()[i].ts == row.ts) by {
            law_scan_hides_deleted(lists, tombstones, iter.output(), row.key, row.ts, i);
        }
    }
}

/// The newest row of the tables wins where the memtables have none: the newest of
/// its key and time in the first block that has one is yielded, if it is a put that
/// no range tombstone covers, and where it is a deletion nothing with its key and
/// time is.
pub proof fn law_scan_sees_table(
    mem: MemTables,
    blocks: Sources,
    query: Query,
    now: i64,
    iter: ScanIterator,
    b: int,
    row: InternalRecordView,
)
    requires
        is_scan(mem, blocks, query, now, iter),
        0 <= b < blocks.len(),
        versions::current(block_lists(blocks, query, now)[b], row.key, row.ts) == Some(row),
        versions::current(
            versions::point_rows(mem.selected(mem_query(query, now))),
            row.key,
            row.ts,
        ) is None,
        forall|c: int|
            0 <= c < b ==> versions::current(
                #[trigger] block_lists(blocks, query, now)[c],
                row.key,
                row.ts,
            ) is None,
    ensures
        iter.output().contains(row.record()) <== row.op == Op::Put && !covered(
            scan_tombstones(mem, blocks, now),
            row.key,
        ),
        row.op != Op::Put ==> forall|i: int|
            0 <= i < iter.output().len() ==> !((#[trigger] iter.output()[i]).key == row.key
                && iter.output()[i].ts == row.ts),
{
    let lists = scan_lists(mem, blocks, query, now);
    let tombstones = scan_tombstones(mem, blocks, now);
    let rest = block_lists(blocks, query, now);
    assert(lists[b + 1] == rest[b]);
    assert forall|j: int| 0 <= j < b + 1 implies versions::current(
        #[trigger] lists[j],
        row.key,
        row.ts,
    ) is None by {
        if j > 0 {
            assert(lists[j] == rest[j - 1]);
        }
    }
    lemma_deciding_at(lists, b + 1, row.key, row.ts);
    if row.op == Op::Put && !covered(tombstones, row.key) {
        assert(shown(lists, tombstones, row.key, row.ts));
    }
    if row.op != Op::Put {
        assert forall|i: int| 0 <= i < iter.output().len() implies !((#[trigger] iter.output()[i]).key
            == row.key && iter.output()[i].ts == row.ts) by {
            law_scan_hides_deleted(lists, tombstones, iter.output(), row.key, row.ts, i);
        }
    }
}

/// Deleting a range takes exactly the keys of the range out of every answer: over
/// the same rows, with one range tombstone more, a scan yields what it yielded
/// before, in the same order, but for the keys from `start` up to `end`.
pub proof fn law_range_deletion(
    lists: Sources,
    tombstones: Seq<Tombstone>,
    more: Seq<Tombstone>,
    start: Seq<u8>,
    end: Seq<u8>,
    before: Seq<RecordView>,
    after: Seq<RecordView>,
)
    requires
        is_answer(lists, tombstones, before),
        is_answer(lists, more, after),
        forall|key: Seq<u8>| #[trigger]
            covered(more, key) <==> covered(tombstones, key) || (bytes::lex_le(start, key)
                && bytes::lex_lt(key, end)),
    ensures
        after == before.filter(
            |r: RecordView| !(bytes::lex_le(start, r.key) && bytes::lex_lt(r.key, end)),
        ),
{
    let keep = |r: RecordView| !(bytes::lex_le(start, r.key) && bytes::lex_lt(r.key, end));
    let kept = before.filter(keep);
    lemma_filter_ascending(before, keep);
    assert forall|i: int| 0 <= i < kept.len() implies shown(
        lists,
        more,
        (#[trigger] kept[i]).key,
        kept[i].ts,
    ) && kept[i] == (deciding(lists, kept[i].key, kept[i].ts)->0).record() by {
        let rec = kept[i];
        assert(kept.contains(rec));
        before.lemma_filter_contains_rev(keep, rec);
        let k = choose|k: int| 0 <= k < before.len() && before[k] == rec;
        assert(shown(lists, tombstones, before[k].key, before[k].ts));
        assert(keep(rec)) by {
            broadcast use vstd::seq_lib::group_filter_ensures;
            assert(keep(kept[i]));
        }
        assert(covered(more, rec.key) <==> covered(tombstones, rec.key) || (bytes::lex_le(
            start,
            rec.key,
        ) && bytes::lex_lt(rec.key, end)));
    }
    assert forall|key: Seq<u8>, ts: i64| #[trigger] shown(lists, more, key, ts) implies kept.contains(
        (deciding(lists, key, ts)->0).record(),
    ) by {
        broadcast use vstd::seq_lib::group_filter_ensures;
        let rec = (deciding(lists, key, ts)->0).record();
        assert(!covered(more, key));
        assert(shown(lists, tombstones, key, ts));
        assert(before.contains(rec));
        let k = choose|k: int| 0 <= k < before.len() && before[k] == rec;
        lemma_deciding_place(lists, key, ts);
        assert(keep(before[k]));
        assert(kept.contains(before[k]));
    }
    law_answer_unique(lists, more, kept, after);
}

/// The row that decides on a key and time has them.
proof fn lemma_deciding_place(lists: Sources, key: Seq<u8>, ts: i64)
    ensures
        deciding(lists, key, ts) matches Some(row) ==> versions::at_place(row, key, ts),
    decreases lists.len(),
{
    if lists.len() > 0 {
        lemma_deciding_place(lists.drop_last(), key, ts);
        let y = versions::lemma_current_found(lists.last(), key, ts);
    }
}

/// What is kept of an ascending list is ascending.
proof fn lemma_filter_ascending(list: Seq<RecordView>, keep: spec_fn(RecordView) -> bool)
    requires
        forall|i: int, j: int|
            0 <= i < j < list.len() ==> record_lt(#[trigger] list[i], #[trigger] list[j]),
    ensures
        forall|i: int, j: int|
            0 <= i < j < list.filter(keep).len() ==> record_lt(
                #[trigger] list.filter(keep)[i],
                #[trigger] list.filter(keep)[j],
            ),
    decreases list.len(),
{
    reveal(Seq::filter);
    if list.len() > 0 {
        let front = list.drop_last();
        let kept = list.filter(keep);
        let before = front.filter(keep);
        lemma_filter_ascending(front, keep);
        assert forall|i: int, j: int| 0 <= i < j < kept.len() implies record_lt(
            #[trigger] kept[i],
            #[trigger] kept[j],
        ) by {
            assert(kept[i] == before[i]);
            if j < before.len() {
                assert(kept[j] == before[j]);
            } else {
                assert(before.contains(before[i]));
                front.lemma_filter_contains_rev(keep, before[i]);
                let k = choose|k: int| 0 <= k < front.len() && front[k] == before[i];
                assert(record_lt(list[k], list[list.len() - 1]));
            }
        }
    }
}

/// The row that decides stands in one of the lists.
proof fn lemma_deciding_member(lists: Sources, key: Seq<u8>, ts: i64) -> (at: (int, int))
    requires
        deciding(lists, key, ts) is Some,
    ensures
        0 <= at.0 < lists.len(),
        0 <= at.1 < lists[at.0].len(),
        lists[at.0][at.1] == deciding(lists, key, ts)->0,
    decreases lists.len(),
{
    let front = lists.drop_last();
    if deciding(front, key, ts) is Some {
        let at = lemma_deciding_member(front, key, ts);
        assert(front[at.0] == lists[at.0]);
        at
    } else {
        let y = versions::lemma_current_found(lists.last(), key, ts);
        (lists.len() - 1, y)
    }
}

/// An answer holds nothing that was not asked for and nothing that was not written: each
/// record has a key and a time that the query asks for, has not expired, is covered by no
/// deleted range, and is that of a put in the memtables or in a block.
pub proof fn law_answer_asked(
    mem: MemTables,
    blocks: Sources,
    query: Query,
    now: i64,
    out: Seq<RecordView>,
    i: int,
)
    requires
        is_answer(
            scan_lists(mem, blocks, query, now),
            scan_tombstones(mem, blocks, now),
            out,
        ),
        0 <= i < out.len(),
    ensures
        memtable::admits_key(query.key_filter@, out[i].key),
        memtable::admits_ts(query.time_range, out[i].ts),
        out[i].expire_at >= now,
        !covered(scan_tombstones(mem, blocks, now), out[i].key),
        (exists|k: int|
            0 <= k < mem.selected(mem_query(query, now)).len() && (#[trigger] mem.selected(
                mem_query(query, now),
            )[k]).op == Op::Put && mem.selected(mem_query(query, now))[k].record() == out[i]) || (
        exists|b: int, k: int|
            0 <= b < blocks.len() && 0 <= k < blocks[b].len() && (#[trigger] blocks[b][k]).op
                == Op::Put && blocks[b][k].record() == out[i]),
{
    let lists = scan_lists(mem, blocks, query, now);
    let tombstones = scan_tombstones(mem, blocks, now);
    let key = out[i].key;
    let ts = out[i].ts;
    assert(shown(lists, tombstones, key, ts));
    lemma_deciding_admitted(mem, blocks, query, now, key, ts);
    let row = deciding(lists, key, ts)->0;
    assert(out[i] == row.record());
    let at = lemma_deciding_member(lists, key, ts);
    if at.0 == 0 {
        let selected = mem.selected(mem_query(query, now));
        let keep = |r: InternalRecordView| r.op != Op::DeleteRange;
        assert(lists[0] == selected.filter(keep));
        assert(selected.filter(keep).contains(lists[0][at.1]));
        selected.lemma_filter_contains_rev(keep, lists[0][at.1]);
        memtable::lemma_selected_asked(mem, mem_query(query, now), row);
        let k = choose|k: int| 0 <= k < selected.len() && selected[k] == row;
        assert(selected[k].op == Op::Put);
    } else {
        let b = at.0 - 1;
        assert(lists[at.0] == block_lists(blocks, query, now)[b]);
        let k = lemma_taken_from(
            blocks[b],
            query.key_filter@,
            query.time_range,
            is_full(query),
            now,
            at.1,
        );
        assert(blocks[b][k].op == Op::Put);
        assert(blocks[b][k].record() == out[i]);
    }
}

} // verus!
