use flowdb::stats::StatsCounters;
use flowdb::stress::{mixed_op, sequential_batch, stress_config, worker_batch, MixedOp};

#[test]
fn sequential_batches_cover_all_records() {
    let first = sequential_batch(0, 5, 3, 2);
    assert_eq!(first.len(), 3);
    assert_eq!(first[2].key, b"seq_00000002");
    assert_eq!(first[2].ts, 200);
    assert_eq!(first[2].value, vec![0xab, 0xab]);
    assert_eq!(sequential_batch(3, 5, 3, 2).len(), 2);
    assert!(sequential_batch(5, 5, 3, 2).is_empty());
}

#[test]
fn workers_write_their_own_keys() {
    let batch = worker_batch(7, 10, 12, 50, 1);
    assert_eq!(batch.len(), 2);
    assert_eq!(batch[1].key, b"cw7_11");
    assert_eq!(batch[1].value, vec![0xcd]);
}

#[test]
fn mixed_operations_write_first() {
    match mixed_op(2, 3, 4, 1) {
        MixedOp::Write(rec) => assert_eq!(rec.key, b"mix2_3"),
        MixedOp::Read(_) => panic!("expected a write"),
    }
    match mixed_op(2, 34, 4, 1) {
        MixedOp::Write(_) => panic!("expected a read"),
        MixedOp::Read(prefix) => assert_eq!(prefix, "mix2_4"),
    }
}

#[test]
fn the_configuration_of_the_test() {
    let config = stress_config("/tmp/x");
    assert_eq!(config.data_dir, "/tmp/x");
    assert_eq!(config.memtable_size_mb, 4);
    assert_eq!(config.block_size, 4096);
}

#[test]
fn counters() {
    let mut stats = StatsCounters::default();
    stats.record_written(10);
    stats.records_written(2, 5);
    stats.records_read(4);
    stats.records_expired(1);
    stats.flush_done(77);
    stats.compaction_done(78);
    stats.gc_done(3, 79);
    stats.set_memtable(8, 9);
    stats.set_frozen_count(1);
    stats.set_sstable(2, 100);
    stats.add_wal_bytes(u64::MAX);
    stats.add_wal_bytes(2);
    stats.set_index_stats(5, 6);
    assert_eq!((stats.total_records_written, stats.total_bytes_written), (3, 15));
    assert_eq!((stats.total_records_read, stats.total_records_expired), (4, 1));
    assert_eq!((stats.total_flushes, stats.last_flush_at), (1, 77));
    assert_eq!((stats.total_compaction_runs, stats.last_compaction_at), (1, 78));
    assert_eq!((stats.records_purged_by_gc, stats.last_gc_at), (3, 79));
    assert_eq!((stats.memtable_records, stats.memtable_bytes), (8, 9));
    assert_eq!((stats.frozen_memtable_count, stats.sstable_count, stats.sstable_bytes), (1, 2, 100));
    assert_eq!(stats.wal_bytes, 1);
    assert_eq!((stats.block_meta_index_entries, stats.time_index_buckets), (5, 6));
    assert_eq!(stats.compression_ratio_permille, 1000);
}
