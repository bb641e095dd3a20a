//! Counters of what the engine does.

use vstd::prelude::*;

verus! {

/// The counters of an engine. Counts wrap around at 2^64.
#[derive(Debug, Clone, Copy, PartialEq, Eq, Structural)]
pub struct StatsCounters {
    /// Records written since the engine was opened.
    pub total_records_written: u64,
    /// Bytes written since the engine was opened.
    pub total_bytes_written: u64,
    /// Records that queries returned.
    pub total_records_read: u64,
    /// Records that were skipped because they had expired.
    pub total_records_expired: u64,
    /// Memtables flushed to tables.
    pub total_flushes: u64,
    /// Garbage collections.
    pub total_gc_runs: u64,
    /// Compactions.
    pub total_compaction_runs: u64,
    /// Records that garbage collection removed.
    pub records_purged_by_gc: u64,
    /// UDP packets received.
    pub udp_packets_received: u64,
    /// UDP packets dropped.
    pub udp_packets_dropped: u64,
    /// HTTP requests.
    pub http_requests_total: u64,
    /// Records in the active memtable.
    pub memtable_records: usize,
    /// Bytes of the active memtable.
    pub memtable_bytes: usize,
    /// Frozen memtables that wait to be flushed.
    pub frozen_memtable_count: usize,
    /// Tables.
    pub sstable_count: usize,
    /// Bytes of the tables.
    pub sstable_bytes: u64,
    /// Bytes written to the log.
    pub wal_bytes: u64,
    /// Entries of the block index.
    pub block_meta_index_entries: usize,
    /// Time buckets of the block index.
    pub time_index_buckets: usize,
    /// Compressed size over raw size, in thousandths.
    pub compression_ratio_permille: u64,
    /// When garbage was last collected, in Unix seconds; zero if never.
    pub last_gc_at: i64,
    /// When a memtable was last flushed, in Unix seconds; zero if never.
    pub last_flush_at: i64,
    /// When tables were last compacted, in Unix seconds; zero if never.
    pub last_compaction_at: i64,
}

impl Default for StatsCounters {
    fn default() -> (r: Self)
        ensures
            r == StatsCounters::zero(),
    {
        Self::new()
    }
}

impl StatsCounters {
    /// The counters before anything was counted.
    pub open spec fn zero() -> StatsCounters {
        StatsCounters {
            total_records_written: 0,
            total_bytes_written: 0,
            total_records_read: 0,
            total_records_expired: 0,
            total_flushes: 0,
            total_gc_runs: 0,
            total_compaction_runs: 0,
            records_purged_by_gc: 0,
            udp_packets_received: 0,
            udp_packets_dropped: 0,
            http_requests_total: 0,
            memtable_records: 0,
            memtable_bytes: 0,
            frozen_memtable_count: 0,
            sstable_count: 0,
            sstable_bytes: 0,
            wal_bytes: 0,
            block_meta_index_entries: 0,
            time_index_buckets: 0,
            compression_ratio_permille: 1000,
            last_gc_at: 0,
            last_flush_at: 0,
            last_compaction_at: 0,
        }
    }

    pub fn new() -> (r: Self)
        ensures
            r == StatsCounters::zero(),
    {
        Self {
            total_records_written: 0,
            total_bytes_written: 0,
            total_records_read: 0,
            total_records_expired: 0,
            total_flushes: 0,
            total_gc_runs: 0,
            total_compaction_runs: 0,
            records_purged_by_gc: 0,
            udp_packets_received: 0,
            udp_packets_dropped: 0,
            http_requests_total: 0,
            memtable_records: 0,
            memtable_bytes: 0,
            frozen_memtable_count: 0,
            sstable_count: 0,
            sstable_bytes: 0,
            wal_bytes: 0,
            block_meta_index_entries: 0,
            time_index_buckets: 0,
            compression_ratio_permille: 1000,
            last_gc_at: 0,
            last_flush_at: 0,
            last_compaction_at: 0,
        }
    }

    /// Counts records that were written.
    pub fn records_written(&mut self, count: u64, bytes: u64)
        ensures
            *final(self) == (StatsCounters {
                total_records_written: old(self).total_records_written.wrapping_add(count),
                total_bytes_written: old(self).total_bytes_written.wrapping_add(bytes),
                ..*old(self)
            }),
    {
        self.total_records_written = self.total_records_written.wrapping_add(count);
        self.total_bytes_written = self.total_bytes_written.wrapping_add(bytes);
    }

    /// Counts a record that was written.
    pub fn record_written(&mut self, bytes: u64)
        ensures
            *final(self) == (StatsCounters {
                total_records_written: old(self).total_records_written.wrapping_add(1),
                total_bytes_written: old(self).total_bytes_written.wrapping_add(bytes),
                ..*old(self)
            }),
    {
        self.records_written(1, bytes);
    }

    /// Counts records that were returned.
    pub fn records_read(&mut self, count: u64)
        ensures
            *final(self) == (StatsCounters {
                total_records_read: old(self).total_records_read.wrapping_add(count),
                ..*old(self)
            }),
    {
        self.total_records_read = self.total_records_read.wrapping_add(count);
    }

    /// Counts records that had expired.
    pub fn records_expired(&mut self, count: u64)
        ensures
            *final(self) == (StatsCounters {
                total_records_expired: old(self).total_records_expired.wrapping_add(count),
                ..*old(self)
            }),
    {
        self.total_records_expired = self.total_records_expired.wrapping_add(count);
    }

    /// Counts a flush.
    pub fn flush_done(&mut self, now_secs: i64)
        ensures
            *final(self) == (StatsCounters {
                total_flushes: old(self).total_flushes.wrapping_add(1),
                last_flush_at: now_secs,
                ..*old(self)
            }),
    {
        self.total_flushes = self.total_flushes.wrapping_add(1);
        self.last_flush_at = now_secs;
    }

    /// Counts a garbage collection and the records that it removed.
    pub fn gc_done(&mut self, purged: u64, now_secs: i64)
        ensures
            *final(self) == (StatsCounters {
                total_gc_runs: old(self).total_gc_runs.wrapping_add(1),
                records_purged_by_gc: old(self).records_purged_by_gc.wrapping_add(purged),
                last_gc_at: now_secs,
                ..*old(self)
            }),
    {
        self.total_gc_runs = self.total_gc_runs.wrapping_add(1);
        self.records_purged_by_gc = self.records_purged_by_gc.wrapping_add(purged);
        self.last_gc_at = now_secs;
    }

    /// Counts a compaction.
    pub fn compaction_done(&mut self, now_secs: i64)
        ensures
            *final(self) == (StatsCounters {
                total_compaction_runs: old(self).total_compaction_runs.wrapping_add(1),
                last_compaction_at: now_secs,
                ..*old(self)
            }),
    {
        self.total_compaction_runs = self.total_compaction_runs.wrapping_add(1);
        self.last_compaction_at = now_secs;
    }

    /// Notes the size of the active memtable.
    pub fn set_memtable(&mut self, records: usize, bytes: usize)
        ensures
            *final(self) == (StatsCounters {
                memtable_records: records,
                memtable_bytes: bytes,
                ..*old(self)
            }),
    {
        self.memtable_records = records;
        self.memtable_bytes = bytes;
    }

    /// Notes how many frozen memtables wait.
    pub fn set_frozen_count(&mut self, count: usize)
        ensures
            *final(self) == (StatsCounters { frozen_memtable_count: count, ..*old(self) }),
    {
        self.frozen_memtable_count = count;
    }

    /// Notes how many tables there are, and their bytes.
    pub fn set_sstable(&mut self, count: usize, bytes: u64)
        ensures
            *final(self) == (StatsCounters {
                sstable_count: count,
                sstable_bytes: bytes,
                ..*old(self)
            }),
    {
        self.sstable_count = count;
        self.sstable_bytes = bytes;
    }

    /// Counts bytes written to the log.
    pub fn add_wal_bytes(&mut self, bytes: u64)
        ensures
            *final(self) == (StatsCounters {
                wal_bytes: old(self).wal_bytes.wrapping_add(bytes),
                ..*old(self)
            }),
    {
        self.wal_bytes = self.wal_bytes.wrapping_add(bytes);
    }

    /// Notes the size of the block index.
    pub fn set_index_stats(&mut self, entries: usize, buckets: usize)
        ensures
            *final(self) == (StatsCounters {
                block_meta_index_entries: entries,
                time_index_buckets: buckets,
                ..*old(self)
            }),
    {
        self.block_meta_index_entries = entries;
        self.time_index_buckets = buckets;
    }
}

} // verus!
