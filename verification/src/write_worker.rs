//! The write path: batches go to the log and to the memtables, and full
//! memtables are flushed to tables.

use vstd::prelude::*;
use crate::manifest;
use crate::manifest::{clone_blocks, Manifest, ManifestEntry, SstInfo};
use crate::memtable;
use crate::memtable::{MemTable, MemTables};
use crate::record;
use crate::record::{Config, InternalRecord, InternalRecordView, Op};
use crate::scan;
use crate::sort;
use crate::sort::{sort_records, SortOrder};
use crate::sstable;
use crate::sstable::{can_be_written, time_span, SstFile, SstWriter};
use crate::stats::StatsCounters;
use crate::versions;
use crate::versions::{newest_rows, only_ranges, without_ranges};
use crate::wal;
use crate::wal::{Wal, WalTruncation, WalWrite};

verus! {

/// The index of a memtable after rows with these key hashes were appended to
/// `start` others.
pub open spec fn index_after(
    index: Map<(u64, i64), usize>,
    start: nat,
    rows: Seq<InternalRecordView>,
    hashes: Seq<u64>,
) -> Map<(u64, i64), usize>
    decreases rows.len(),
{
    if rows.len() == 0 {
        index
    } else {
        index_after(index, start, rows.drop_last(), hashes.drop_last()).insert(
            (hashes.last(), rows.last().ts),
            (start + rows.len() - 1) as usize,
        )
    }
}

/// The table after a batch of rows was appended to it.
pub open spec fn takes_batch(
    before: MemTable,
    rows: Seq<InternalRecordView>,
    after: MemTable,
) -> bool {
    &&& after.wf()
    &&& !after.is_frozen()
    &&& after.rows() == before.rows() + rows
    &&& after.charged() == before.charged() + memtable::total_size(rows)
    &&& exists|hashes: Seq<u64>|
        hashes.len() == rows.len() && after.index() == #[trigger] index_after(
            before.index(),
            before.rows().len(),
            rows,
            hashes,
        )
}

/// Appends a batch to the table that takes writes.
pub fn insert_batch(table: &mut MemTable, records: &Vec<InternalRecord>)
    requires
        old(table).wf(),
        !old(table).is_frozen(),
        old(table).charged() + memtable::total_size(record::views(records@)) <= usize::MAX,
    ensures
        takes_batch(*old(table), record::views(records@), *final(table)),
{
    let ghost rows = record::views(records@);
    let ghost mut hashes: Seq<u64> = Seq::empty();
    let mut i: usize = 0;
    assert(table.rows() =~= old(table).rows() + rows.take(0));
    while i < records.len()
        invariant
            i <= records@.len(),
            rows == record::views(records@),
            table.wf(),
            !table.is_frozen(),
            table.rows() == old(table).rows() + rows.take(i as int),
            table.charged() == old(table).charged() + memtable::total_size(rows.take(i as int)),
            hashes.len() == i,
            table.index() == index_after(
                old(table).index(),
                old(table).rows().len(),
                rows.take(i as int),
                hashes,
            ),
            old(table).charged() + memtable::total_size(rows) <= usize::MAX,
        decreases records@.len() - i,
    {
        let ghost before = *table;
        proof {
            assert(rows.take(i + 1).drop_last() =~= rows.take(i as int));
            assert(rows == rows.take(i + 1) + rows.skip(i + 1));
            memtable::lemma_total_append(rows.take(i + 1), rows.skip(i + 1));
        }
        table.insert(records[i].clone());
        proof {
            let row = rows[i as int];
            let h = choose|h: u64|
                table.index() == #[trigger] before.index().insert(
                    (h, row.ts),
                    before.rows().len() as usize,
                );
            assert(hashes.push(h).drop_last() =~= hashes);
            hashes = hashes.push(h);
            assert(table.rows() =~= old(table).rows() + rows.take(i + 1));
        }
        i += 1;
    }
    assert(rows.take(i as int) =~= rows);
}

/// The rows that the next flush takes out of the memtables: those of the oldest
/// frozen table, or, where there is none, those of the active table once it is
/// frozen.
pub open spec fn oldest_rows(mem: MemTables, rows: Seq<InternalRecordView>) -> bool {
    if mem.frozen().len() > 0 {
        rows == mem.frozen()[0].rows()
    } else {
        &&& sort::strictly_sorted(SortOrder::KeyTsSeq, rows)
        &&& forall|key: Seq<u8>, ts: i64, seq: u64| #[trigger]
            memtable::slot(rows, key, ts, seq) == memtable::slot(mem.active().rows(), key, ts, seq)
    }
}

/// What a table of the rows holds: of those that are not range tombstones the
/// newest of each key and time, and every range tombstone, sorted by key and time.
pub open spec fn table_rows(live: Seq<InternalRecordView>, rows: Seq<InternalRecordView>) -> bool {
    exists|points: Seq<InternalRecordView>| #[trigger]
        versions::condensed(versions::point_rows(live), points) && sort::stably_sorted(
            SortOrder::KeyTs,
            points + versions::range_rows(live),
            rows,
        )
}

/// The rows that the next flush writes: those that a table of the rows holds that
/// have not expired.
pub open spec fn flushed_rows(mem: MemTables, now: i64, rows: Seq<InternalRecordView>) -> bool {
    exists|oldest: Seq<InternalRecordView>| #[trigger]
        oldest_rows(mem, oldest) && table_rows(scan::live(oldest, now), rows)
}

/// Whether a table of the rows can be written.
pub open spec fn writable(rows: Seq<InternalRecordView>, block_size: usize, bits_per_key: usize) -> bool {
    let parts = sstable::chunks(rows, sstable::at_least_one(block_size));
    &&& rows.len() <= u32::MAX
    &&& memtable::total_size(rows) <= usize::MAX
    &&& sstable::key_runs(rows).len() * bits_per_key <= usize::MAX
    &&& forall|i: int| 0 <= i < parts.len() ==> sstable::fits_block(#[trigger] parts[i])
}

/// The greatest sequence number of the rows, zero where there is none.
pub open spec fn last_seq(rows: Seq<InternalRecordView>) -> u64
    decreases rows.len(),
{
    if rows.len() == 0 {
        0
    } else {
        let front = last_seq(rows.drop_last());
        if rows.last().seq > front {
            rows.last().seq
        } else {
            front
        }
    }
}

fn greatest_seq(records: &Vec<InternalRecord>) -> (r: u64)
    ensures
        r == last_seq(record::views(records@)),
{
    let ghost rows = record::views(records@);
    let mut max: u64 = 0;
    let mut i: usize = 0;
    while i < records.len()
        invariant
            i <= records@.len(),
            rows == record::views(records@),
            max == last_seq(rows.take(i as int)),
        decreases records@.len() - i,
    {
        assert(rows.take(i + 1).drop_last() =~= rows.take(i as int));
        if records[i].seq > max {
            max = records[i].seq;
        }
        i += 1;
    }
    assert(rows.take(i as int) =~= rows);
    max
}

fn raw_size(records: &Vec<InternalRecord>) -> (r: u64)
    requires
        memtable::total_size(record::views(records@)) <= usize::MAX,
    ensures
        r == memtable::total_size(record::views(records@)),
{
    let ghost rows = record::views(records@);
    let mut total: usize = 0;
    let mut i: usize = 0;
    while i < records.len()
        invariant
            i <= records@.len(),
            rows == record::views(records@),
            memtable::total_size(rows) <= usize::MAX,
            total == memtable::total_size(rows.take(i as int)),
        decreases records@.len() - i,
    {
        proof {
            assert(rows.take(i + 1).drop_last() =~= rows.take(i as int));
            assert(rows == rows.take(i + 1) + rows.skip(i + 1));
            memtable::lemma_total_append(rows.take(i + 1), rows.skip(i + 1));
        }
        total = total + records[i].estimated_size();
        i += 1;
    }
    assert(rows.take(i as int) =~= rows);
    total as u64
}

/// Copies of the records that have not expired.
fn unexpired(records: &[InternalRecord], now_us: i64) -> (r: Vec<InternalRecord>)
    ensures
        record::views(r@) == scan::live(record::views(records@), now_us),
{
    let ghost rows = record::views(records@);
    let mut out: Vec<InternalRecord> = Vec::new();
    let mut i: usize = 0;
    proof {
        reveal(Seq::filter);
        assert(record::views(out@) =~= scan::live(rows.take(0), now_us));
    }
    while i < records.len()
        invariant
            i <= records@.len(),
            rows == record::views(records@),
            record::views(out@) == scan::live(rows.take(i as int), now_us),
        decreases records@.len() - i,
    {
        let ghost before = record::views(out@);
        proof {
            reveal(Seq::filter);
            assert(rows.take(i + 1).drop_last() =~= rows.take(i as int));
        }
        if records[i].expire_at > now_us {
            out.push(records[i].clone());
            assert(record::views(out@) =~= before.push(rows[i as int]));
        }
        i += 1;
    }
    assert(rows.take(i as int) =~= rows);
    out
}

/// The records that a table of the records holds.
fn table_records(live: &Vec<InternalRecord>) -> (r: Vec<InternalRecord>)
    ensures
        table_rows(record::views(live@), record::views(r@)),
{
    let points = without_ranges(live);
    let mut chosen = newest_rows(&points);
    let ghost newest = record::views(chosen@);
    let ranges = only_ranges(live);
    let mut i: usize = 0;
    assert(record::views(chosen@) =~= newest + record::views(ranges@).take(0));
    while i < ranges.len()
        invariant
            i <= ranges@.len(),
            record::views(chosen@) == newest + record::views(ranges@).take(i as int),
        decreases ranges@.len() - i,
    {
        let ghost before = record::views(chosen@);
        chosen.push(ranges[i].clone());
        proof {
            assert(record::views(chosen@) =~= before.push(ranges@[i as int]@));
            assert(record::views(chosen@) =~= newest + record::views(ranges@).take(i + 1));
        }
        i += 1;
    }
    proof {
        assert(record::views(ranges@).take(i as int) =~= record::views(ranges@));
    }
    let sorted = sort_records(&chosen, SortOrder::KeyTs);
    assert(versions::condensed(versions::point_rows(record::views(live@)), newest));
    sorted
}

/// What a write does besides filling the memtable.
#[derive(Debug, Clone, Copy, PartialEq, Eq, Structural)]
pub struct WriteEffect {
    /// What is done to the log.
    pub wal: WalWrite,
    /// Whether a memtable is to be flushed now.
    pub flush_due: bool,
}

/// A table that a flush writes.
#[derive(Debug)]
pub struct Flush {
    /// The file.
    pub file: SstFile,
    /// What the manifest is told of it.
    pub info: SstInfo,
    /// The greatest sequence number in it.
    pub last_seq: u64,
    /// The memory that its records were charged.
    pub raw_bytes: u64,
}

/// What the end of a flush does to the files.
#[derive(Debug)]
pub struct FlushEffect {
    /// The changes that the manifest's file is to list.
    pub entries: Vec<ManifestEntry>,
    /// What is done to the log.
    pub wal: WalTruncation,
}

impl Flush {
    /// What the manifest lists for the flush.
    pub open spec fn entry(self) -> manifest::EntryView {
        manifest::EntryView::Flush {
            seq: self.last_seq,
            sst: self.info@,
            blocks: manifest::block_views(self.file.blocks@),
        }
    }

    /// The flush of these rows to the table `sst_id`.
    pub open spec fn is_of(
        self,
        rows: Seq<InternalRecordView>,
        sst_id: u32,
        block_size: usize,
        bits_per_key: usize,
    ) -> bool {
        let span = sstable::span(rows);
        &&& self.file.is_of(rows, block_size, bits_per_key, false)
        &&& self.info@ == (manifest::SstInfoView {
            id: sst_id,
            records: rows.len() as u64,
            bytes: self.file.total_bytes,
            min_ts: span.min_ts,
            max_ts: span.max_ts,
            min_expire: span.min_expire,
            max_expire: span.max_expire,
            bloom: Some(self.file.bloom@),
        })
        &&& self.last_seq == last_seq(rows)
        &&& self.raw_bytes == memtable::total_size(rows)
    }
}

/// The log and the memtables.
pub struct WriteWorker {
    config: Config,
    wal: Wal,
    memtables: MemTables,
}

impl WriteWorker {
    /// The configuration.
    pub closed spec fn settings(self) -> Config {
        self.config
    }

    /// The log.
    pub closed spec fn log(self) -> Wal {
        self.wal
    }

    /// The memtables.
    pub closed spec fn mem(self) -> MemTables {
        self.memtables
    }

    pub open spec fn wf(self) -> bool {
        self.log().wf() && self.mem().wf()
    }

    pub fn new(config: Config, wal: Wal, memtables: MemTables) -> (r: Self)
        ensures
            r.settings() == config,
            r.log() == wal,
            r.mem() == memtables,
    {
        Self { config, wal, memtables }
    }

    /// The configuration.
    pub fn config(&self) -> (r: &Config)
        ensures
            *r == self.settings(),
    {
        &self.config
    }

    /// The memtables.
    pub fn memtables(&self) -> (r: &MemTables)
        ensures
            *r == self.mem(),
    {
        &self.memtables
    }

    /// The log.
    pub fn wal(&self) -> (r: &Wal)
        ensures
            *r == self.log(),
    {
        &self.wal
    }

    /// Whether a write has to wait until a memtable is flushed.
    pub fn must_stall(&self) -> (r: bool)
        ensures
            r == self.mem().stalls(),
    {
        self.memtables.should_flush() && self.memtables.frozen_is_full()
    }

    /// Takes a batch, which the log holds as `wal_buf`, into the log and the
    /// memtable.
    pub fn process_batch_encoded(
        &mut self,
        records: &Vec<InternalRecord>,
        wal_buf: &[u8],
        mem_bytes: u64,
        num_records: u64,
        stats: &mut StatsCounters,
    ) -> (r: WriteEffect)
        requires
            old(self).wf(),
            old(self).log().segments().last().written_bytes + wal_buf@.len() <= u64::MAX,
            old(self).log().next_id() < u64::MAX,
            old(self).mem().active().charged() + memtable::total_size(record::views(records@))
                <= usize::MAX,
        ensures
            final(self).wf(),
            final(self).settings() == old(self).settings(),
            old(self).log().appends(wal_buf@, final(self).log(), r.wal),
            takes_batch(
                old(self).mem().active(),
                record::views(records@),
                final(self).mem().active(),
            ),
            final(self).mem().frozen() == old(self).mem().frozen(),
            final(self).mem().same_limits(old(self).mem()),
            r.flush_due == (final(self).mem().active().charged() >= final(self).mem().size_limit()
                && final(self).mem().frozen().len() < final(self).mem().max_frozen()),
            *final(stats) == (StatsCounters {
                wal_bytes: old(stats).wal_bytes.wrapping_add(mem_bytes),
                memtable_records: final(self).mem().active().rows().len() as usize,
                memtable_bytes: final(self).mem().active().charged() as usize,
                frozen_memtable_count: final(self).mem().frozen().len() as usize,
                total_records_written: old(stats).total_records_written.wrapping_add(num_records),
                total_bytes_written: old(stats).total_bytes_written.wrapping_add(mem_bytes),
                ..*old(stats)
            }),
    {
        let wal: WalWrite = self.wal.write_encoded(wal_buf);
        let active = self.memtables.active_for_batch();
        insert_batch(active, records);
        stats.add_wal_bytes(mem_bytes);
        let (rec_count, byte_count) = self.memtables.active_stats();
        stats.set_memtable(rec_count, byte_count);
        stats.set_frozen_count(self.memtables.frozen_count());
        stats.records_written(num_records, mem_bytes);
        let flush_due: bool = self.memtables.should_flush() && !self.memtables.frozen_is_full();
        WriteEffect { wal, flush_due }
    }

    /// Whether a flush to the table `sst_id` leaves the worker as `after` and
    /// gives `out`: nothing, where the active memtable is empty. Else that is
    /// frozen, the oldest frozen one is taken out, and its rows that have not
    /// expired make the table, where there are any.
    pub open spec fn flushes(
        self,
        sst_id: u32,
        now: i64,
        after: WriteWorker,
        out: Option<Flush>,
    ) -> bool {
        &&& after.settings() == self.settings()
        &&& after.log() == self.log()
        &&& after.mem().same_limits(self.mem())
        &&& if self.mem().active().rows().len() == 0 {
            &&& out is None
            &&& after.mem().active() == self.mem().active()
            &&& after.mem().frozen() == self.mem().frozen()
        } else {
            &&& after.mem().active().rows() == Seq::<InternalRecordView>::empty()
            &&& after.mem().active().index() == Map::<(u64, i64), usize>::empty()
            &&& after.mem().active().charged() == 0
            &&& exists|last: MemTable|
                freezes(self.mem().active(), last) && after.mem().frozen()
                    == #[trigger] self.mem().frozen().push(last).drop_first()
            &&& exists|rows: Seq<InternalRecordView>| #[trigger]
                flushed_rows(self.mem(), now, rows) && match out {
                    Some(flush) => rows.len() > 0 && flush.is_of(
                        rows,
                        sst_id,
                        self.settings().block_size,
                        self.settings().bloom_bits_per_key,
                    ),
                    None => rows.len() == 0,
                }
        }
    }

    /// Whether what the next flush writes can be written.
    pub fn can_write_table(&self, now_us: i64) -> (r: bool)
        requires
            self.wf(),
        ensures
            r <==> forall|rows: Seq<InternalRecordView>| #[trigger]
                flushed_rows(self.mem(), now_us, rows) ==> writable(
                    rows,
                    self.settings().block_size,
                    self.settings().bloom_bits_per_key,
                ),
    {
        let charged: usize = self.memtables.oldest_bytes();
        let size: usize = self.config.block_size;
        let bits: usize = self.config.bloom_bits_per_key;
        if charged as u64 <= u32::MAX as u64 && charged.checked_mul(110).is_some()
            && charged.checked_mul(bits).is_some() {
            proof {
                assert forall|rows: Seq<InternalRecordView>| #[trigger]
                    flushed_rows(self.mem(), now_us, rows) implies writable(rows, size, bits) by {
                    law_small_table_writable(self.mem(), now_us, rows, size, bits);
                }
            }
            return true;
        }
        let oldest = self.memtables.oldest_copy();
        let kept = unexpired(&oldest, now_us);
        let records = table_records(&kept);
        let ghost rows = record::views(records@);
        proof {
            assert(oldest_rows(self.mem(), record::views(oldest@)));
            assert(flushed_rows(self.mem(), now_us, rows));
            lemma_flushed_smaller(self.mem(), now_us, rows);
            assert forall|other: Seq<InternalRecordView>| #[trigger]
                flushed_rows(self.mem(), now_us, other) implies other == rows by {
                law_flushed_unique(self.mem(), now_us, other, rows);
            }
        }
        can_be_written(&records, size, bits)
    }

    /// Freezes the active memtable and takes out the oldest frozen one: the
    /// table to write of it, where a record has not expired.
    pub fn do_flush(&mut self, sst_id: u32, now_us: i64) -> (r: Option<Flush>)
        requires
            old(self).wf(),
            forall|rows: Seq<InternalRecordView>| #[trigger]
                flushed_rows(old(self).mem(), now_us, rows) ==> writable(
                    rows,
                    old(self).settings().block_size,
                    old(self).settings().bloom_bits_per_key,
                ),
        ensures
            final(self).wf(),
            old(self).flushes(sst_id, now_us, *final(self), r),
    {
        if !self.memtables.freeze() {
            return None;
        }
        let ghost frozen = self.memtables.frozen();
        let ghost last = frozen.last();
        let oldest = match self.memtables.pop_frozen() {
            Some(table) => table,
            None => {
                return None;
            },
        };
        proof {
            assert(frozen =~= old(self).mem().frozen().push(last));
            assert(freezes(old(self).mem().active(), last));
            assert(oldest_rows(old(self).mem(), oldest.rows()));
        }
        let kept = unexpired(oldest.iter_sorted(), now_us);
        let all_records = table_records(&kept);
        let ghost rows = record::views(all_records@);
        assert(flushed_rows(old(self).mem(), now_us, rows));
        if all_records.len() == 0 {
            return None;
        }
        let file = match SstWriter::write(
            &all_records,
            self.config.block_size,
            self.config.zstd_level,
            self.config.bloom_bits_per_key,
            false,
        ) {
            Ok(file) => file,
            Err(_) => {
                return None;
            },
        };
        let span = time_span(&all_records);
        let last_seq: u64 = greatest_seq(&all_records);
        let raw_bytes: u64 = raw_size(&all_records);
        let info = SstInfo {
            id: sst_id,
            records: all_records.len() as u64,
            bytes: file.total_bytes,
            min_ts: span.min_ts,
            max_ts: span.max_ts,
            min_expire: span.min_expire,
            max_expire: span.max_expire,
            bloom: Some(file.bloom.clone()),
        };
        Some(Flush { file, info, last_seq, raw_bytes })
    }

    /// Enters a table that was written in the manifest, and drops the segments
    /// of the log that it makes superfluous.
    pub fn finish_flush(
        &mut self,
        manifest: &mut Manifest,
        flush: &Flush,
        stats: &mut StatsCounters,
        now_secs: i64,
    ) -> (r: FlushEffect)
        requires
            old(self).wf(),
            old(manifest)@.wf(),
            old(self).log().next_id() < u64::MAX,
        ensures
            final(self).wf(),
            final(self).settings() == old(self).settings(),
            final(self).mem() == old(self).mem(),
            old(self).log().drops(flush.last_seq, final(self).log(), r.wal),
            r.entries@.len() == 2,
            r.entries@[0]@ == flush.entry(),
            (r.entries@[1]@ == manifest::EntryView::Checkpoint {
                last_flushed_seq: flush.last_seq,
            }),
            final(manifest)@ == old(manifest)@.applied(r.entries@[0]@).applied(r.entries@[1]@),
            final(manifest)@.wf(),
            *final(stats) == (StatsCounters {
                total_flushes: old(stats).total_flushes.wrapping_add(1),
                last_flush_at: now_secs,
                memtable_records: old(self).mem().active().rows().len() as usize,
                memtable_bytes: old(self).mem().active().charged() as usize,
                frozen_memtable_count: old(self).mem().frozen().len() as usize,
                ..*old(stats)
            }),
    {
        let flushed = ManifestEntry::Flush {
            seq: flush.last_seq,
            sst: flush.info.clone(),
            blocks: clone_blocks(&flush.file.blocks),
        };
        let checkpoint = ManifestEntry::Checkpoint { last_flushed_seq: flush.last_seq };
        manifest.append(&flushed);
        manifest.append(&checkpoint);
        let wal = self.wal.truncate_before(flush.last_seq);
        stats.flush_done(now_secs);
        let (rec_count, byte_count) = self.memtables.active_stats();
        stats.set_memtable(rec_count, byte_count);
        stats.set_frozen_count(self.memtables.frozen_count());
        let mut entries: Vec<ManifestEntry> = Vec::new();
        entries.push(flushed);
        entries.push(checkpoint);
        FlushEffect { entries, wal }
    }
}

/// A flush lets writes go on: where a write had to wait, it need not after a flush.
pub proof fn law_flush_ends_stall(
    before: WriteWorker,
    sst_id: u32,
    now: i64,
    after: WriteWorker,
    out: Option<Flush>,
)
    requires
        before.wf(),
        before.mem().stalls(),
        before.mem().size_limit() > 0,
        before.flushes(sst_id, now, after, out),
    ensures
        !after.mem().stalls(),
{
    memtable::lemma_charged(before.mem().active());
}

/// The bytes that the table is charged that the next flush takes out.
pub open spec fn oldest_charged(mem: MemTables) -> nat {
    if mem.frozen().len() > 0 {
        mem.frozen()[0].charged()
    } else {
        mem.active().charged()
    }
}

/// What the next flush writes is no larger than what the table is charged that it
/// takes out.
proof fn lemma_flushed_smaller(mem: MemTables, now: i64, rows: Seq<InternalRecordView>)
    requires
        mem.wf(),
        flushed_rows(mem, now, rows),
    ensures
        memtable::total_size(rows) <= oldest_charged(mem),
{
    let oldest = choose|oldest: Seq<InternalRecordView>| #[trigger]
        oldest_rows(mem, oldest) && table_rows(scan::live(oldest, now), rows);
    if mem.frozen().len() > 0 {
        assert(mem.frozen()[0].wf());
        memtable::lemma_charged(mem.frozen()[0]);
    } else {
        memtable::lemma_charged(mem.active());
        memtable::lemma_slots_smaller(oldest, mem.active().rows());
    }
    lemma_live_smaller(oldest, now);
    lemma_table_smaller(scan::live(oldest, now), rows);
}

/// What a flush tells the manifest is true of the rows: the times and expiries of all
/// rows, and of no others, stand between those that are told, the rows and the bytes of
/// the file are counted, and no row has a greater number than the one told.
pub proof fn law_flush_told(
    flush: Flush,
    rows: Seq<InternalRecordView>,
    sst_id: u32,
    block_size: usize,
    bits_per_key: usize,
)
    requires
        flush.is_of(rows, sst_id, block_size, bits_per_key),
        0 < rows.len() <= u64::MAX,
    ensures
        flush.info.id == sst_id,
        flush.info.records == rows.len(),
        flush.info.bytes == flush.file.bytes@.len(),
        flush.info.bloom matches Some(filter) && filter@ == flush.file.bloom@,
        forall|i: int|
            0 <= i < rows.len() ==> {
                &&& flush.info.min_ts <= (#[trigger] rows[i]).ts <= flush.info.max_ts
                &&& flush.info.min_expire <= rows[i].expire_at <= flush.info.max_expire
                &&& rows[i].seq <= flush.last_seq
            },
        exists|i: int| 0 <= i < rows.len() && (#[trigger] rows[i]).ts == flush.info.min_ts,
        exists|i: int| 0 <= i < rows.len() && (#[trigger] rows[i]).ts == flush.info.max_ts,
        exists|i: int| 0 <= i < rows.len() && (#[trigger] rows[i]).expire_at == flush.info.min_expire,
        exists|i: int| 0 <= i < rows.len() && (#[trigger] rows[i]).expire_at == flush.info.max_expire,
        exists|i: int| 0 <= i < rows.len() && (#[trigger] rows[i]).seq == flush.last_seq,
{
    sstable::law_span_bounds(rows);
    lemma_last_seq_bounds(rows);
    let told = flush.info@;
    assert(told.id == sst_id);
    assert(told.max_expire == sstable::span(rows).max_expire);
}

/// The last number is the greatest, and a row has it.
proof fn lemma_last_seq_bounds(rows: Seq<InternalRecordView>)
    ensures
        forall|i: int| 0 <= i < rows.len() ==> (#[trigger] rows[i]).seq <= last_seq(rows),
        rows.len() > 0 ==> exists|i: int|
            0 <= i < rows.len() && (#[trigger] rows[i]).seq == last_seq(rows),
    decreases rows.len(),
{
    if rows.len() > 0 {
        let front = rows.drop_last();
        lemma_last_seq_bounds(front);
        assert(rows[rows.len() - 1] == rows.last());
        assert forall|i: int| 0 <= i < rows.len() implies (#[trigger] rows[i]).seq <= last_seq(
            rows,
        ) by {
            if i < front.len() {
                assert(front[i] == rows[i]);
            }
        }
        if last_seq(rows) != rows.last().seq {
            assert(front.len() > 0);
            let i = choose|i: int| 0 <= i < front.len() && (#[trigger] front[i]).seq == last_seq(
                front,
            );
            assert(rows[i] == front[i]);
        }
    }
}

/// The rows that the next flush writes are determined.
pub proof fn law_flushed_unique(
    mem: MemTables,
    now: i64,
    a: Seq<InternalRecordView>,
    b: Seq<InternalRecordView>,
)
    requires
        flushed_rows(mem, now, a),
        flushed_rows(mem, now, b),
    ensures
        a == b,
{
    let x = choose|oldest: Seq<InternalRecordView>| #[trigger]
        oldest_rows(mem, oldest) && table_rows(scan::live(oldest, now), a);
    let y = choose|oldest: Seq<InternalRecordView>| #[trigger]
        oldest_rows(mem, oldest) && table_rows(scan::live(oldest, now), b);
    if mem.frozen().len() == 0 {
        memtable::lemma_slots_unique(x, y);
    }
    let live = scan::live(x, now);
    let p = choose|points: Seq<InternalRecordView>| #[trigger]
        versions::condensed(versions::point_rows(live), points) && sort::stably_sorted(
            SortOrder::KeyTs,
            points + versions::range_rows(live),
            a,
        );
    let q = choose|points: Seq<InternalRecordView>| #[trigger]
        versions::condensed(versions::point_rows(live), points) && sort::stably_sorted(
            SortOrder::KeyTs,
            points + versions::range_rows(live),
            b,
        );
    versions::law_condensed_unique(versions::point_rows(live), p, q);
    sort::law_sort_unique(SortOrder::KeyTs, p + versions::range_rows(live), a, b);
}

/// What the next flush writes can be written, where the table that it takes out is
/// charged less than 4 GiB.
pub proof fn law_small_table_writable(
    mem: MemTables,
    now: i64,
    rows: Seq<InternalRecordView>,
    block_size: usize,
    bits_per_key: usize,
)
    requires
        mem.wf(),
        flushed_rows(mem, now, rows),
        oldest_charged(mem) <= u32::MAX,
        oldest_charged(mem) * 110 <= usize::MAX,
        oldest_charged(mem) * bits_per_key <= usize::MAX,
    ensures
        writable(rows, block_size, bits_per_key),
{
    let charged = oldest_charged(mem);
    lemma_flushed_smaller(mem, now, rows);
    sstable::lemma_rows_fit(rows);
    let keys = sstable::key_runs(rows).len();
    assert(keys * bits_per_key <= charged * bits_per_key) by (nonlinear_arith)
        requires
            keys <= charged,
            0 <= bits_per_key,
    ;
    let size = sstable::at_least_one(block_size);
    let parts = sstable::chunks(rows, size);
    assert forall|i: int| 0 <= i < parts.len() implies sstable::fits_block(#[trigger] parts[i]) by {
        sstable::lemma_chunks_fit(rows, size, i);
        sstable::lemma_rows_fit(parts[i]);
    }
}

/// The rows that have not expired are together no larger than all.
proof fn lemma_live_smaller(rows: Seq<InternalRecordView>, now: i64)
    ensures
        memtable::total_size(scan::live(rows, now)) <= memtable::total_size(rows),
    decreases rows.len(),
{
    reveal(Seq::filter);
    if rows.len() > 0 {
        lemma_live_smaller(rows.drop_last(), now);
        let front = scan::live(rows.drop_last(), now);
        assert(front.push(rows.last()).drop_last() =~= front);
    }
}

/// Whether `after` is the table once it is frozen.
pub open spec fn freezes(before: MemTable, after: MemTable) -> bool {
    &&& after.wf()
    &&& after.is_frozen()
    &&& after.charged() == before.charged()
    &&& sort::strictly_sorted(SortOrder::KeyTsSeq, after.rows())
    &&& forall|key: Seq<u8>, ts: i64, seq: u64| #[trigger]
        memtable::slot(after.rows(), key, ts, seq) == memtable::slot(before.rows(), key, ts, seq)
}

/// What a table of rows holds is together no larger than the rows.
proof fn lemma_table_smaller(live: Seq<InternalRecordView>, rows: Seq<InternalRecordView>)
    requires
        table_rows(live, rows),
    ensures
        memtable::total_size(rows) <= memtable::total_size(live),
{
    let points = choose|points: Seq<InternalRecordView>| #[trigger]
        versions::condensed(versions::point_rows(live), points) && sort::stably_sorted(
            SortOrder::KeyTs,
            points + versions::range_rows(live),
            rows,
        );
    memtable::lemma_sorted_smaller(SortOrder::KeyTs, points + versions::range_rows(live), rows);
    memtable::lemma_total_append(points, versions::range_rows(live));
    lemma_parts_sum(live);
    lemma_condensed_smaller(versions::point_rows(live), points);
}

/// The rows that are range tombstones and those that are not are together all.
proof fn lemma_parts_sum(rows: Seq<InternalRecordView>)
    ensures
        memtable::total_size(versions::point_rows(rows)) + memtable::total_size(
            versions::range_rows(rows),
        ) == memtable::total_size(rows),
    decreases rows.len(),
{
    reveal(Seq::filter);
    if rows.len() > 0 {
        let front = rows.drop_last();
        lemma_parts_sum(front);
        let points = versions::point_rows(front);
        let ranges = versions::range_rows(front);
        assert(points.push(rows.last()).drop_last() =~= points);
        assert(ranges.push(rows.last()).drop_last() =~= ranges);
    }
}

/// What rows are condensed to is no larger.
proof fn lemma_condensed_smaller(rows: Seq<InternalRecordView>, out: Seq<InternalRecordView>)
    requires
        versions::condensed(rows, out),
    ensures
        memtable::total_size(out) <= memtable::total_size(rows),
{
    assert forall|i: int| 0 <= i < out.len() implies rows.contains(#[trigger] out[i]) by {
        let y = versions::lemma_current_found(rows, out[i].key, out[i].ts);
        assert(rows[y] == out[i]);
    }
    assert forall|i: int, j: int| 0 <= i < j < out.len() implies #[trigger] out[i] != #[trigger] out[j] by {
        assert(sort::before(SortOrder::KeyTs, out[i], out[j]));
        sort::lemma_before(SortOrder::KeyTs, out[i], out[i], out[i]);
    }
    memtable::lemma_distinct_smaller(rows, out);
}

/// A flush loses no record that has not expired: of the memtable that it takes out,
/// each range tombstone that has not expired is written, and of the other rows that
/// have not expired the newest of each key and time, and nothing else is.
pub proof fn law_flush_keeps_live(
    oldest: Seq<InternalRecordView>,
    now: i64,
    rows: Seq<InternalRecordView>,
    row: InternalRecordView,
)
    requires
        table_rows(scan::live(oldest, now), rows),
    ensures
        row.op == Op::DeleteRange ==> (rows.contains(row) <==> oldest.contains(row)
            && row.expire_at > now),
        row.op != Op::DeleteRange ==> (rows.contains(row) <==> versions::current(
            versions::point_rows(scan::live(oldest, now)),
            row.key,
            row.ts,
        ) == Some(row)),
        sort::sorted(SortOrder::KeyTs, rows),
{
    let live = scan::live(oldest, now);
    let points = choose|points: Seq<InternalRecordView>| #[trigger]
        versions::condensed(versions::point_rows(live), points) && sort::stably_sorted(
            SortOrder::KeyTs,
            points + versions::range_rows(live),
            rows,
        );
    let chosen = points + versions::range_rows(live);
    sort::law_sort_sorts(SortOrder::KeyTs, chosen, rows);
    sort::law_sort_keeps_rows(SortOrder::KeyTs, chosen, rows, row);
    lemma_filtered(oldest, |r: InternalRecordView| r.expire_at > now, row);
    lemma_filtered(live, |r: InternalRecordView| r.op == Op::DeleteRange, row);
    lemma_filtered(live, |r: InternalRecordView| r.op != Op::DeleteRange, row);
    let y = versions::lemma_current_found(versions::point_rows(live), row.key, row.ts);
    if chosen.contains(row) {
        let i = choose|i: int| 0 <= i < chosen.len() && chosen[i] == row;
        if i < points.len() {
            assert(points[i] == row);
            assert(versions::point_rows(live)[y] == row);
            assert(versions::point_rows(live).contains(row));
        } else {
            assert(versions::range_rows(live)[i - points.len()] == row);
            assert(versions::range_rows(live).contains(row));
        }
    }
    if versions::range_rows(live).contains(row) {
        let i = choose|i: int|
            0 <= i < versions::range_rows(live).len() && versions::range_rows(live)[i] == row;
        assert(chosen[points.len() + i] == row);
    }
    if versions::current(versions::point_rows(live), row.key, row.ts) == Some(row) {
        assert(versions::has_place(points, versions::point_rows(live)[y]));
        let i = choose|i: int| 0 <= i < points.len() && versions::same_place(#[trigger] points[i], row);
        assert(chosen[i] == row);
    }
}

/// What a filter keeps.
pub proof fn lemma_filtered(
    rows: Seq<InternalRecordView>,
    keep: spec_fn(InternalRecordView) -> bool,
    row: InternalRecordView,
)
    ensures
        rows.filter(keep).contains(row) <==> rows.contains(row) && keep(row),
{
    broadcast use vstd::seq_lib::group_filter_ensures;

    if rows.contains(row) && keep(row) {
        let i = choose|i: int| 0 <= i < rows.len() && rows[i] == row;
        assert(rows.filter(keep).contains(rows[i]));
    }
    if rows.filter(keep).contains(row) {
        rows.lemma_filter_contains_rev(keep, row);
        let k = choose|k: int| 0 <= k < rows.filter(keep).len() && rows.filter(keep)[k] == row;
        assert(keep(rows.filter(keep)[k]));
    }
}

} // verus!
