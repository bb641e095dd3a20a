use flowdb::engine::{expire_after, Engine, StagedWrite};
use flowdb::lookup::Table;
use flowdb::manifest::ManifestEntry;
use flowdb::sstable::SstReader;
use flowdb::{Config, FlowError, Query, ReadOptions, Record, ScanRange};

/// An engine whose files are in memory.
struct Db {
    engine: Engine,
    segments: Vec<(u64, Vec<u8>)>,
    entries: Vec<ManifestEntry>,
    files: Vec<(SstReader, Vec<u8>)>,
    now: i64,
}

fn make_config() -> Config {
    Config {
        data_dir: "db".to_string(),
        memtable_size_mb: 1,
        block_size: 100,
        gc_interval_secs: 3600,
        max_frozen_memtables: 2,
        zstd_level: 1,
        flush_interval_ms: 60000,
        time_bucket_secs: 3600,
        block_cache_capacity_mb: 16,
        index_memory_budget_mb: 64,
        default_ttl_secs: None,
        bloom_bits_per_key: 10,
        wal_segment_size_mb: 64,
        compaction_threshold: 2,
        ..Config::default()
    }
}

fn make_record(key: &str, ts: i64) -> Record {
    Record { key: key.as_bytes().to_vec(), ts, expire_at: i64::MAX, value: vec![1, 2, 3] }
}

fn tables(files: &[(SstReader, Vec<u8>)]) -> Vec<Table<'_>> {
    files.iter().map(|(reader, data)| Table { reader, data }).collect()
}

impl Db {
    fn with_config(config: Config) -> Db {
        Db::reopen(config, vec![], vec![], vec![])
    }

    fn open() -> Db {
        Db::with_config(make_config())
    }

    fn reopen(
        config: Config,
        segments: Vec<(u64, Vec<u8>)>,
        entries: Vec<ManifestEntry>,
        files: Vec<(SstReader, Vec<u8>)>,
    ) -> Db {
        let (engine, created) = Engine::open(config, true, &segments, &entries).unwrap();
        let mut segments = segments;
        if let Some(id) = created {
            segments.push((id, vec![]));
        }
        Db { engine, segments, entries, files, now: 1_000_000_000 }
    }

    fn restart(self) -> Db {
        Db::reopen(make_config(), self.segments, self.entries, self.files)
    }

    fn commit(&mut self, staged: Option<StagedWrite>) {
        if let Some(staged) = staged {
            let at = self.segments.iter().position(|s| s.0 == staged.segment).unwrap();
            self.segments[at].1.extend_from_slice(&staged.wal_buf);
            let effect = self.engine.commit(&staged);
            if let Some(id) = effect.wal.rollover {
                self.segments.push((id, vec![]));
            }
            if effect.flush_due {
                self.flush();
            }
        }
    }

    fn write(&mut self, batch: &[Record]) {
        let staged = self.engine.write_batch(batch);
        self.commit(staged);
    }

    fn delete(&mut self, key: &str, ts: i64) {
        let staged = self.engine.delete_batch(&[(key.as_bytes().to_vec(), ts)]);
        self.commit(staged);
    }

    fn delete_range(&mut self, start: &str, end: &str) {
        let staged = self.engine.delete_range(start, end);
        self.commit(Some(staged));
    }

    fn flush(&mut self) -> bool {
        match self.engine.flush(self.now) {
            None => false,
            Some(flush) => {
                let reader = SstReader::open(&flush.file.bytes, flush.info.id, 0).unwrap();
                self.files.push((reader, flush.file.bytes.clone()));
                let effect = self.engine.finish_flush(&flush, self.now / 1_000_000);
                self.entries.extend(effect.entries);
                self.segments.retain(|s| !effect.wal.deleted.contains(&s.0));
                if let Some(id) = effect.wal.created {
                    self.segments.push((id, vec![]));
                }
                true
            }
        }
    }

    fn gc(&mut self) -> u64 {
        let plan = self.engine.trigger_gc(self.now, self.now / 1_000_000);
        for id in &plan.to_delete {
            self.entries.push(ManifestEntry::GcDeleteSst { sst_id: *id });
            self.files.retain(|(reader, _)| reader.sst_id() != *id);
        }
        plan.purged
    }

    fn get(&mut self, key: &str, ts: i64) -> Option<Record> {
        self.engine.get(key, ts, self.now, &tables(&self.files))
    }

    fn query(&mut self, query: &Query) -> Vec<Record> {
        self.engine.query(query, self.now, &tables(&self.files))
    }

    fn prefix(&mut self, key: &str) -> Vec<Record> {
        self.engine.query_by_prefix(key, self.now, &tables(&self.files))
    }

    fn query_by_key_range(&mut self, start: &str, end: &str) -> Vec<Record> {
        self.engine.query_by_key_range(start, end, self.now, &tables(&self.files))
    }

    fn scan_prefix(&mut self, prefix: &str) -> Vec<Record> {
        self.engine.scan_prefix(prefix, self.now, &tables(&self.files)).collect()
    }

    fn scan(&mut self, range: &ScanRange) -> Vec<Record> {
        self.engine.scan(range, self.now, &tables(&self.files)).collect()
    }

    fn latest(&mut self, key: &str) -> Option<Record> {
        self.engine.get_latest(key, self.now, &tables(&self.files))
    }
}

#[test]
fn test_engine_write_read_roundtrip() {
    let mut db = Db::open();
    db.write(&[make_record("key1", 100), make_record("key2", 200), make_record("key3", 300)]);
    let results = db.prefix("key1");
    assert_eq!(results.len(), 1);
    assert_eq!(results[0].key, b"key1");
}

#[test]
fn test_engine_key_range_query() {
    let mut db = Db::open();
    db.write(&[make_record("a", 100), make_record("b", 200), make_record("c", 300), make_record("d", 400)]);
    let results = db.engine.query_by_key_range("b", "c", db.now, &[]);
    assert_eq!(results.len(), 2);
}

#[test]
fn test_engine_time_range_query() {
    let mut db = Db::open();
    db.write(&[make_record("a", 100), make_record("b", 200), make_record("c", 300)]);
    let results = db.engine.query_time_range(150, 300, db.now, &[]);
    assert_eq!(results.len(), 2);
}

#[test]
fn test_engine_prefix_time_range() {
    let mut db = Db::open();
    db.write(&[make_record("a", 100), make_record("a", 200), make_record("a", 300), make_record("b", 200)]);
    let results = db.engine.query_prefix_time_range("a", 150, 250, db.now, &[]);
    assert_eq!(results.len(), 1);
    assert_eq!(results[0].ts, 200);
}

#[test]
fn test_engine_ttl_expiry() {
    let mut db = Db::open();
    let mut rec = make_record("exp", 100);
    rec.expire_at = 1;
    db.write(&[rec]);
    assert!(db.prefix("exp").is_empty());
}

#[test]
fn test_engine_flush_and_query() {
    let mut config = make_config();
    config.memtable_size_mb = 64;
    let mut db = Db::with_config(config);
    let records: Vec<Record> = (0..50).map(|i| make_record(&format!("key_{:04}", i), i * 10)).collect();
    db.write(&records);
    assert!(db.flush());
    assert_eq!(db.prefix("key_").len(), 50);
}

#[test]
fn test_engine_stats() {
    let mut db = Db::open();
    db.write(&[make_record("a", 100), make_record("b", 200)]);
    assert_eq!(db.engine.stats().total_records_written, 2);
}

#[test]
fn test_engine_recovery() {
    let mut db = Db::open();
    db.write(&[make_record("a", 100), make_record("b", 200)]);
    db.flush();
    let mut db = db.restart();
    let results = db.prefix("a");
    assert_eq!(results.len(), 1);
    assert_eq!(results[0].key, b"a");
    assert_eq!(db.prefix("b").len(), 1);
}

#[test]
fn test_engine_gc_removes_expired_sstables() {
    let mut db = Db::open();
    let now = db.now;
    let records: Vec<Record> = (0..10).map(|i| make_record(&format!("gc_key_{}", i), now)).collect();
    let staged = db.engine.write_batch_ttl(&records, Some(1));
    db.commit(staged);
    db.flush();
    assert_eq!(db.prefix("gc_key_").len(), 10);

    db.now += 2_000_000;
    let purged = db.gc();
    assert!(purged > 0);
    assert!(db.prefix("gc_key_").is_empty());
    assert_eq!(purged, 10);
    assert!(db.engine.active_tables().is_empty());
    assert_eq!(db.engine.stats().block_meta_index_entries, 0);
    assert_eq!(db.engine.stats().records_purged_by_gc, 10);
}

#[test]
fn test_engine_delete_range() {
    let mut db = Db::open();
    db.write(&[make_record("a", 100), make_record("b", 200), make_record("c", 300), make_record("d", 400)]);
    db.delete_range("b", "d");
    let results = db.query_by_key_range("a", "d");
    assert_eq!(results.len(), 2);
    assert_eq!(results[0].key, b"a");
    assert_eq!(results[1].key, b"d");
}

#[test]
fn test_engine_delete_range_flush_and_query() {
    let mut db = Db::open();
    db.write(&[make_record("s1", 100), make_record("s2", 200), make_record("s3", 300)]);
    db.flush();
    db.delete_range("s1", "s3");
    db.flush();
    let results = db.prefix("s");
    assert_eq!(results.len(), 1);
    assert_eq!(results[0].key, b"s3");
}

#[test]
fn test_engine_delete_range_preserves_outside() {
    let mut db = Db::open();
    db.write(&[
        make_record("x-a", 100),
        make_record("x-b", 200),
        make_record("x-c", 300),
        make_record("y-a", 100),
        make_record("y-b", 200),
    ]);
    db.delete_range("x-a", "x-c");
    let x_results = db.prefix("x-");
    assert_eq!(x_results.len(), 1);
    assert_eq!(x_results[0].key, b"x-c");
    assert_eq!(db.prefix("y-").len(), 2);
}

#[test]
fn test_scan_prefix_basic() {
    let mut db = Db::open();
    db.write(&[make_record("alpha", 100), make_record("alpha", 200), make_record("beta", 150)]);
    let records = db.engine.scan_prefix("alpha", db.now, &[]).collect();
    assert_eq!(records.len(), 2);
    assert_eq!(records[0].ts, 100);
    assert_eq!(records[1].ts, 200);
}

#[test]
fn test_scan_prefix_time_range() {
    let mut db = Db::open();
    db.write(&[make_record("k1", 10), make_record("k1", 20), make_record("k1", 30), make_record("k2", 15)]);
    let records = db.engine.scan_prefix_time_range("k1", 12, 25, db.now, &[]).collect();
    assert_eq!(records.len(), 1);
    assert_eq!(records[0].ts, 20);
}

#[test]
fn engine_test_scan_range_all() {
    let mut db = Db::open();
    db.write(&[make_record("a", 1), make_record("b", 2), make_record("c", 3)]);
    let records = db.scan(&ScanRange::all());
    assert_eq!(records.len(), 3);
    assert_eq!(records[0].key, b"a");
    assert_eq!(records[1].key, b"b");
    assert_eq!(records[2].key, b"c");
}

#[test]
fn test_scan_key_range() {
    let mut db = Db::open();
    db.write(&[make_record("a", 1), make_record("b", 2), make_record("c", 3), make_record("d", 4)]);
    assert_eq!(db.scan(&ScanRange::key_range("b", "c")).len(), 2);
}

#[test]
fn test_scan_time_range() {
    let mut db = Db::open();
    db.write(&[make_record("a", 100), make_record("b", 200), make_record("c", 300)]);
    assert_eq!(db.scan(&ScanRange::time_range(150, 300)).len(), 2);
}

#[test]
fn test_scan_matches_query() {
    let mut db = Db::open();
    let records: Vec<Record> = (0..50).map(|i| make_record(&format!("key_{:04}", i), i * 10)).collect();
    db.write(&records);
    let scan_results = db.scan_prefix("key_");
    let query_results = db.prefix("key_");
    assert_eq!(scan_results.len(), query_results.len());
    for (s, q) in scan_results.iter().zip(query_results.iter()) {
        assert_eq!(s.key, q.key);
        assert_eq!(s.ts, q.ts);
    }
}

#[test]
fn test_scan_after_flush() {
    let mut db = Db::open();
    db.write(&[make_record("s1", 100), make_record("s2", 200), make_record("s3", 300)]);
    db.flush();
    assert_eq!(db.scan_prefix("s").len(), 3);
}

#[test]
fn test_scan_with_delete_range() {
    let mut db = Db::open();
    db.write(&[make_record("a", 100), make_record("b", 200), make_record("c", 300), make_record("d", 400)]);
    db.delete_range("b", "d");
    let records = db.scan(&ScanRange::key_range("a", "d"));
    assert_eq!(records.len(), 2);
    assert_eq!(records[0].key, b"a");
    assert_eq!(records[1].key, b"d");
}

#[test]
fn test_scan_empty_range() {
    let mut db = Db::open();
    db.write(&[make_record("a", 1)]);
    assert!(db.scan_prefix("nonexistent").is_empty());
}

#[test]
fn test_get_latest() {
    let mut db = Db::open();
    db.write(&[
        make_record("key1", 100),
        make_record("key1", 300),
        make_record("key1", 200),
        make_record("key2", 500),
    ]);
    assert_eq!(db.latest("key1").unwrap().ts, 300);
    assert_eq!(db.latest("key2").unwrap().ts, 500);
    assert!(db.latest("nonexistent").is_none());
}

#[test]
fn test_get_latest_after_flush() {
    let mut db = Db::open();
    db.write(&[make_record("k", 10), make_record("k", 20), make_record("k", 30)]);
    db.flush();
    db.write(&[make_record("k", 99)]);
    assert_eq!(db.latest("k").unwrap().ts, 99);
}

#[test]
fn test_scan_lazy_does_not_materialize_all() {
    let mut db = Db::open();
    for i in 0..100u64 {
        db.write(&[Record {
            key: format!("k{:03}", i).into_bytes(),
            ts: i as i64,
            expire_at: i64::MAX,
            value: vec![42u8; 32],
        }]);
    }
    let mut iter = db.engine.scan(&ScanRange::all(), db.now, &[]);
    let mut first_5 = Vec::new();
    for _ in 0..5 {
        first_5.push(iter.next().unwrap());
    }
    assert_eq!(first_5.len(), 5);
    assert_eq!(first_5[0].key, b"k000");
    assert_eq!(first_5[4].key, b"k004");
}

#[test]
fn test_scan_opt_with_read_options() {
    let mut db = Db::open();
    db.write(&[make_record("x", 1)]);
    let opts = ReadOptions { fill_cache: false, verify_checksums: false };
    let records = db.engine.scan_opt(&ScanRange::prefix("x"), &opts, db.now, &[]).collect();
    assert_eq!(records.len(), 1);
}

#[test]
fn unflushed_writes_survive_a_crash() {
    let mut db = Db::open();
    db.write(&[make_record("a", 1)]);
    db.flush();
    db.write(&[make_record("b", 2)]);
    db.delete("a", 1);
    // The log is cut inside its last record.
    let last = db.segments.len() - 1;
    let len = db.segments[last].1.len();
    let mut db = Db {
        segments: {
            let mut segments = db.segments;
            segments[last].1.truncate(len - 1);
            segments
        },
        ..db
    }
    .restart();
    assert!(db.get("b", 2).is_some());
    assert!(db.get("a", 1).is_some());
    assert_eq!(db.engine.active_tables(), vec![1]);
}

#[test]
fn reads_see_the_last_write_wherever_it_is() {
    let mut db = Db::open();
    let mut rec = make_record("k", 5);
    db.write(&[rec.clone()]);
    rec.value = vec![9];
    db.write(&[rec.clone()]);
    assert_eq!(db.get("k", 5).unwrap().value, vec![9]);
    db.flush();
    assert_eq!(db.get("k", 6).map(|r| r.ts), None);
    rec.value = vec![7];
    db.write(&[rec]);
    db.flush();
    assert_eq!(db.engine.active_tables(), vec![1, 2]);
    assert_eq!(db.get("k", 5).unwrap().value, vec![7]);
    let scanned = db.prefix("k");
    assert_eq!(scanned.len(), 1);
    assert_eq!(scanned[0].value, vec![7]);
    assert_eq!(db.scan(&ScanRange::all())[0].value, vec![7]);
}

#[test]
fn deletions_hide_records_in_older_tables() {
    let mut db = Db::open();
    db.write(&[make_record("k", 5), make_record("l", 5)]);
    db.flush();
    db.delete("k", 5);
    assert!(db.get("k", 5).is_none());
    assert_eq!(db.prefix("k").len(), 0);
    db.flush();
    assert!(db.get("k", 5).is_none());
    assert!(db.prefix("k").is_empty());
    assert!(db.get("l", 5).is_some());
    let (hits, misses) = db.engine.cache_counts();
    assert!(hits + misses > 0);
}

#[test]
fn patching_changes_value_and_time_to_live() {
    let mut db = Db::open();
    db.write(&[make_record("k", 5)]);
    let patched = db.engine.patch_record("k", 5, Some(vec![8]), Some(3), db.now, &[]);
    let (rec, staged) = patched.unwrap();
    assert_eq!(rec.value, vec![8]);
    assert_eq!(rec.expire_at, 3_000_005);
    db.commit(Some(staged));
    db.now = 4;
    assert_eq!(db.get("k", 5).unwrap().value, vec![8]);
    let missing = db.engine.patch_record("q", -1, None, None, 0, &[]);
    assert_eq!(missing.unwrap_err(), FlowError::Other("record not found: key=q, ts=-1".to_string()));
}

#[test]
fn times_to_live() {
    assert_eq!(expire_after(5, 2), 2_000_005);
    assert_eq!(expire_after(-10, 0), -10);
    assert_eq!(expire_after(i64::MAX, 1), i64::MAX.wrapping_add(1_000_000));
    let mut config = make_config();
    config.default_ttl_secs = Some(10);
    let mut db = Db::with_config(config);
    let staged = db.engine.write_batch(&[make_record("k", 0)]).unwrap();
    assert_eq!(staged.records[0].expire_at, 10_000_000);
    let handed = db.engine.write_batch_sync(vec![make_record("k", 0)]).unwrap();
    assert_eq!(handed.records[0].expire_at, 10_000_000);
    let own = db.engine.write_batch_ttl(&[make_record("k", 0)], Some(1)).unwrap();
    assert_eq!(own.records[0].expire_at, 1_000_000);
    assert!(db.engine.write_batch(&[]).is_none());
    assert!(db.engine.delete_batch(&[]).is_none());
}

#[test]
fn sequence_numbers_follow_the_tables() {
    let mut db = Db::open();
    let staged = db.engine.write_batch(&[make_record("a", 1), make_record("b", 1)]).unwrap();
    assert_eq!(staged.records[0].seq, 1_000_000);
    assert_eq!(staged.records[1].seq, 1_000_001);
    db.commit(Some(staged));
    db.flush();
    let mut db = db.restart();
    let staged = db.engine.write_batch(&[make_record("c", 1)]).unwrap();
    assert_eq!(staged.records[0].seq, 2_000_000);
}

#[test]
fn a_missing_directory_is_an_error() {
    let mut config = make_config();
    config.create_if_missing = false;
    let refused = Engine::open(config.clone(), false, &vec![], &vec![]);
    assert_eq!(
        refused.err(),
        Some(FlowError::Io("data directory does not exist: db".to_string()))
    );
    assert!(Engine::open(config, true, &vec![], &vec![]).is_ok());
}

#[test]
fn a_full_memtable_is_flushed() {
    let mut db = Db::open();
    for i in 0..12 {
        let mut rec = make_record(&format!("k{:02}", i), 1);
        rec.value = vec![0; 100_000];
        db.write(&[rec]);
    }
    assert_eq!(db.engine.stats().total_flushes, 1);
    assert_eq!(db.prefix("k").len(), 12);
}

#[test]
fn scans_over_tables_and_memtables_are_in_order() {
    let mut db = Db::open();
    for round in 0..3 {
        let batch: Vec<Record> = (0..250)
            .map(|i| make_record(&format!("k{:03}", (i * 7 + round * 3) % 500), round))
            .collect();
        db.write(&batch);
        if round < 2 {
            db.flush();
        }
    }
    for range in [ScanRange::all(), ScanRange::prefix("k"), ScanRange::key_range("k100", "k300")] {
        let records = db.scan(&range);
        assert!(records.len() > 100);
        for pair in records.windows(2) {
            assert!((&pair[0].key, pair[0].ts) < (&pair[1].key, pair[1].ts));
        }
    }
}

#[test]
fn a_point_delete_hides_the_record_from_queries() {
    let mut db = Db::open();
    db.write(&[Record { key: b"k".to_vec(), ts: 1, expire_at: i64::MAX, value: vec![1] }]);
    assert_eq!(db.prefix("k").len(), 1);
    db.delete("k", 1);
    assert!(db.prefix("k").is_empty());
    assert!(db.scan(&ScanRange::all()).is_empty());
    assert!(db.get("k", 1).is_none());
    db.flush();
    assert!(db.prefix("k").is_empty());
    assert!(db.prefix("").is_empty());
    assert!(db.get("k", 1).is_none());
}

#[test]
fn a_record_that_is_written_again_has_its_last_value() {
    let mut db = Db::open();
    for value in 1..4u8 {
        db.write(&[Record { key: b"k".to_vec(), ts: 1, expire_at: i64::MAX, value: vec![value] }]);
        assert_eq!(db.prefix("k").into_iter().map(|r| r.value).collect::<Vec<_>>(), vec![vec![value]]);
    }
    db.flush();
    assert_eq!(db.get("k", 1).unwrap().value, vec![3]);
    assert_eq!(db.prefix("").into_iter().map(|r| r.value).collect::<Vec<_>>(), vec![vec![3]]);
}

#[test]
fn a_full_scan_minds_deletions_in_newer_tables() {
    let mut db = Db::open();
    db.write(&[make_record("a", 1), make_record("b", 1)]);
    db.flush();
    db.delete("a", 1);
    db.flush();
    let left: Vec<Vec<u8>> = db.prefix("").into_iter().map(|r| r.key).collect();
    assert_eq!(left, vec![b"b".to_vec()]);
}

#[test]
fn a_range_deletion_hides_its_keys_from_every_query() {
    let mut db = Db::open();
    db.write(&[make_record("a", 5), make_record("b", 5), make_record("c", 5), make_record("d", 5)]);
    db.delete_range("b", "d");
    for _ in 0..2 {
        assert!(db.prefix("b").is_empty());
        assert!(db.query(&Query::time_range(5, 5)).iter().all(|r| r.key != b"b" && r.key != b"c"));
        assert!(db.query(&Query::prefix_time_range("c", 5, 5)).is_empty());
        assert!(db.get("b", 5).is_none() && db.get("c", 5).is_none());
        assert!(db.get("b", 0).is_none());
        assert!(db.get("a", 5).is_some() && db.get("d", 5).is_some());
        let left: Vec<Vec<u8>> = db.prefix("").into_iter().map(|r| r.key).collect();
        assert_eq!(left, vec![b"a".to_vec(), b"d".to_vec()]);
        db.flush();
    }
}

#[test]
fn a_range_deletion_in_a_newer_table_is_found() {
    let mut db = Db::open();
    db.write(&[make_record("b1", 5), make_record("z", 5)]);
    db.flush();
    db.delete_range("a", "c");
    db.flush();
    assert!(db.prefix("b").is_empty());
    assert!(db.query(&Query::prefix_time_range("b", 5, 5)).is_empty());
    assert!(db.get("b1", 5).is_none());
    assert!(db.get("z", 5).is_some());
}

#[test]
fn invalid_configurations_are_rejected() {
    let cases: Vec<(&str, fn(&mut Config))> = vec![
        ("gc_interval_secs", |c| c.gc_interval_secs = 0),
        ("memtable_size_mb", |c| c.memtable_size_mb = 0),
        ("max_frozen_memtables", |c| c.max_frozen_memtables = 0),
        ("block_size", |c| c.block_size = 0),
        ("flush_interval_ms", |c| c.flush_interval_ms = 0),
        ("time_bucket_secs", |c| c.time_bucket_secs = 0),
        ("index_memory_budget_mb", |c| c.index_memory_budget_mb = 0),
        ("block_cache_capacity_mb", |c| c.block_cache_capacity_mb = 0),
        ("wal_segment_size_mb", |c| c.wal_segment_size_mb = 0),
        ("compaction_threshold", |c| c.compaction_threshold = 0),
    ];
    for (name, spoil) in cases {
        let mut config = make_config();
        assert!(config.validate().is_ok());
        spoil(&mut config);
        let expected = || FlowError::Config(format!("{} must be greater than 0", name));
        assert_eq!(config.validate(), Err(expected()));
        assert_eq!(Engine::open(config, true, &vec![], &vec![]).err(), Some(expected()));
    }
    let mut config = make_config();
    config.bloom_bits_per_key = 0;
    assert!(Engine::open(config, true, &vec![], &vec![]).is_ok());
}

#[test]
fn numbers_go_on_after_those_in_the_log() {
    let mut db = Db::open();
    db.write(&[Record { key: b"k".to_vec(), ts: 1, expire_at: i64::MAX, value: vec![1] }]);
    db.write(&[make_record("x", 1)]);
    let mut db = db.restart();
    let staged = db.engine.write_batch(&[Record {
        key: b"k".to_vec(),
        ts: 1,
        expire_at: i64::MAX,
        value: vec![2],
    }]);
    let staged = staged.unwrap();
    assert_eq!(staged.records[0].seq, 1_000_002);
    db.commit(Some(staged));
    let mut db = db.restart();
    assert_eq!(db.get("k", 1).unwrap().value, vec![2]);
    assert_eq!(db.prefix("k").into_iter().map(|r| r.value).collect::<Vec<_>>(), vec![vec![2]]);
    assert_eq!(flowdb::engine::first_seq(3, 7, 9_000_000), 9_000_001);
    assert_eq!(flowdb::engine::first_seq(0, 5_000_000, 9), 5_000_000);
    assert_eq!(flowdb::engine::first_seq(0, 1, 0), 1_000_000);
}

#[test]
fn writes_stall_while_flushing_is_behind() {
    let config = Config { memtable_size_mb: 1, max_frozen_memtables: 1, ..make_config() };
    let mut db = Db::with_config(config);
    assert!(!db.engine.must_stall());
    let mut rec = make_record("k", 1);
    rec.value = vec![0; 2 << 20];
    let staged = db.engine.write_batch(&[rec]).unwrap();
    let effect = db.engine.commit(&staged);
    assert!(effect.flush_due);
    assert!(!db.engine.must_stall());
}

#[test]
fn what_can_be_written_is_told() {
    let mut db = Db::open();
    assert!(db.engine.can_write(&[make_record("a", 1)]));
    assert!(db.engine.can_delete(&[(b"a".to_vec(), 1)]));
    let staged = db.engine.write_batch(&[make_record("a", 1)]).unwrap();
    assert!(db.engine.can_commit(&staged));
    db.commit(Some(staged));
    assert!(db.engine.can_flush(db.now));
    assert!(db.engine.can_collect());
    assert!(db.flush());
}

#[test]
fn filters_of_another_hash_are_rebuilt() {
    let mut db = Db::open();
    let batch: Vec<Record> = (0..300).map(|i| make_record(&format!("k{:03}", i), 1)).collect();
    db.write(&batch);
    db.flush();
    let mut entries = std::mem::take(&mut db.entries);
    for entry in entries.iter_mut() {
        if let ManifestEntry::Flush { sst, .. } = entry {
            sst.bloom.as_mut().unwrap().hash_version = 0;
        }
    }
    let mut db = Db::reopen(make_config(), db.segments, entries, db.files);
    assert!(db.get("k007", 1).is_some());
    db.engine.refresh_filters(&tables(&db.files));
    for i in 0..300 {
        assert!(db.get(&format!("k{:03}", i), 1).is_some());
    }
    assert!(db.get("absent", 1).is_none());
    let filter = db.files[0].0.rebuild_filter(&db.files[0].1, 10).unwrap();
    assert_eq!(filter.hash_version(), 2);
    assert!(filter.may_contain(b"k299"));
    assert!((0..100).filter(|i| filter.may_contain(format!("no{}", i).as_bytes())).count() < 20);
    assert!(db.files[0].0.rebuild_filter(&db.files[0].1[..60], 10).is_none());
}

#[test]
fn a_reopened_engine_answers_as_before() {
    fn shown(records: Vec<Record>) -> Vec<(Vec<u8>, i64, i64, Vec<u8>)> {
        records.into_iter().map(|r| (r.key, r.ts, r.expire_at, r.value)).collect()
    }
    let mut db = Db::open();
    let batch: Vec<Record> = (0..50).map(|i| make_record(&format!("k{:02}", i), i)).collect();
    db.write(&batch);
    db.delete("k07", 7);
    db.delete_range("k20", "k30");
    let before = shown(db.prefix("k"));
    assert_eq!(before.len(), 39);
    let mut db = db.restart();
    assert_eq!(shown(db.prefix("k")), before);
    db.flush();
    assert_eq!(shown(db.prefix("k")), before);
    let mut db = db.restart();
    assert_eq!(shown(db.prefix("k")), before);
    assert_eq!(shown(db.prefix("")), before);
}

/// The record that a query for the key and the time returns.
fn queried(db: &mut Db, key: &str, ts: i64) -> Option<(Vec<u8>, i64, Vec<u8>)> {
    let mut query = Query::key_range(key, key);
    query.time_range = Some((ts, ts));
    let found = db.query(&query);
    assert!(found.len() <= 1);
    found.into_iter().next().map(|r| (r.key, r.ts, r.value))
}

#[test]
fn a_lookup_and_a_query_agree() {
    let mut db = Db::open();
    let mut expected: Vec<Option<u8>> = Vec::new();
    for i in 0..300u32 {
        let mut rec = make_record(&format!("k{:03}", i), i as i64);
        rec.value = vec![1];
        db.write(&[rec]);
        expected.push(Some(1));
    }
    db.flush();
    for i in (0..300u32).step_by(7) {
        let mut rec = make_record(&format!("k{:03}", i), i as i64);
        rec.value = vec![2];
        db.write(&[rec]);
        expected[i as usize] = Some(2);
    }
    db.flush();
    for i in (0..300u32).step_by(11) {
        db.delete(&format!("k{:03}", i), i as i64);
        expected[i as usize] = None;
    }
    db.delete_range("k100", "k110");
    for i in 100..110 {
        expected[i] = None;
    }
    for _ in 0..3 {
        for i in 0..300u32 {
            let key = format!("k{:03}", i);
            let got = db.get(&key, i as i64).map(|r| (r.key, r.ts, r.value));
            assert_eq!(got, queried(&mut db, &key, i as i64), "{}", key);
            let value = expected[i as usize].map(|v| (key.as_bytes().to_vec(), i as i64, vec![v]));
            assert_eq!(got, value);
            assert!(db.get(&key, 1000).is_none());
        }
        db.flush();
        db = db.restart();
    }
}

#[test]
fn a_written_table_can_be_entered() {
    let mut db = Db::open();
    db.write(&[make_record("a", 1)]);
    let flush = db.engine.flush(db.now).unwrap();
    assert!(db.engine.can_enter(&flush));
    let mut huge = flush;
    huge.info.bytes = u64::MAX;
    assert!(db.engine.can_enter(&huge));
    db.engine.finish_flush(&huge, 0);
    let staged = db.engine.write_batch(&[make_record("b", 1)]).unwrap();
    db.engine.commit(&staged);
    let next = db.engine.flush(db.now).unwrap();
    assert!(!db.engine.can_enter(&next));
}
