use flowdb::memtable::{MemTable, MemTables};
use flowdb::wal::Wal;
use flowdb::write_worker::WriteWorker;
use flowdb::{Config, InternalRecord, Op, Record};


fn make_rec(key: &str, ts: i64, seq: u64) -> InternalRecord {
    InternalRecord::from_record(
        &Record {
            key: key.as_bytes().to_vec(),
            ts,
            expire_at: i64::MAX,
            value: vec![1, 2, 3],
        },
        seq,
    )
}

#[test]
fn test_memtable_insert_query() {
    let mut mt = MemTable::new();
    mt.insert(make_rec("a", 100, 1));
    mt.insert(make_rec("a", 200, 2));
    mt.insert(make_rec("b", 100, 3));

    let result = mt.query_prefix(b"a", i64::MAX);
    assert_eq!(result.len(), 2);
}

#[test]
fn test_memtable_time_range() {
    let mut mt = MemTable::new();
    mt.insert(make_rec("a", 100, 1));
    mt.insert(make_rec("a", 200, 2));
    mt.insert(make_rec("b", 300, 3));

    let result = mt.query_time_range(150, 300, i64::MAX);
    assert_eq!(result.len(), 2);
}

#[test]
fn test_memtable_key_range() {
    let mut mt = MemTable::new();
    mt.insert(make_rec("a", 100, 1));
    mt.insert(make_rec("b", 100, 2));
    mt.insert(make_rec("c", 100, 3));

    let result = mt.query_key_range(b"a", b"b", i64::MAX);
    assert_eq!(result.len(), 2);
}

#[test]
fn test_memtable_expiry() {
    let mut mt = MemTable::new();
    let mut rec = make_rec("a", 100, 1);
    rec.expire_at = 50;
    mt.insert(rec);
    mt.insert(make_rec("b", 100, 2));

    let result = mt.query_prefix(b"a", 100);
    assert!(result.is_empty());
}

#[test]
fn test_memtables_freeze() {
    let mut mts = MemTables::new(2, 1024);
    mts.insert(make_rec("a", 100, 1));
    assert!(mts.freeze());
    assert_eq!(mts.frozen_count(), 1);

    let results = mts.query_prefix(b"a", i64::MAX);
    assert_eq!(results.len(), 1);
}

#[test]
fn test_memtables_drain_frozen() {
    let mut mts = MemTables::new(2, 1024);
    mts.insert(make_rec("a", 100, 1));
    mts.freeze();

    let frozen = mts.pop_frozen().unwrap();
    assert_eq!(frozen.len(), 1);
    assert_eq!(mts.frozen_count(), 0);
}

#[test]
fn test_memtable_query_prefix_time_range() {
    let mut mt = MemTable::new();
    mt.insert(make_rec("a", 100, 1));
    mt.insert(make_rec("a", 200, 2));
    mt.insert(make_rec("a", 300, 3));
    mt.insert(make_rec("b", 200, 4));

    let result = mt.query_prefix_time_range(b"a", 150, 250, i64::MAX);
    assert_eq!(result.len(), 1);
    assert_eq!(result[0].ts, 200);
}

#[test]
fn test_memtable_query_key_time_range() {
    let mut mt = MemTable::new();
    mt.insert(make_rec("a", 100, 1));
    mt.insert(make_rec("b", 200, 2));
    mt.insert(make_rec("c", 300, 3));
    mt.insert(make_rec("d", 400, 4));

    let result = mt.query_key_time_range(b"b", b"c", 150, 350, i64::MAX);
    assert_eq!(result.len(), 2);
}

#[test]
fn test_memtable_len_is_empty_bytes() {
    let mut mt = MemTable::new();
    assert!(mt.is_empty());
    assert_eq!(mt.len(), 0);
    assert_eq!(mt.bytes(), 0);

    mt.insert(make_rec("a", 100, 1));
    assert!(!mt.is_empty());
    assert_eq!(mt.len(), 1);
    assert!(mt.bytes() > 0);

    mt.insert(make_rec("b", 200, 2));
    assert_eq!(mt.len(), 2);
}

#[test]
fn test_memtable_iter_sorted() {
    let mut mt = MemTable::new();
    mt.insert(make_rec("c", 300, 3));
    mt.insert(make_rec("a", 100, 1));
    mt.insert(make_rec("b", 200, 2));
    mt.convert_to_map();

    let keys: Vec<Vec<u8>> = mt.iter_sorted().iter().map(|r| r.key.clone()).collect();
    assert_eq!(keys, vec![b"a".to_vec(), b"b".to_vec(), b"c".to_vec()]);
}

#[test]
fn test_memtable_get() {
    let mut mt = MemTable::new();
    mt.insert(make_rec("a", 100, 1));
    mt.insert(make_rec("b", 200, 2));

    let result = mt.get(b"a", 100);
    assert!(result.is_some());
    assert_eq!(result.unwrap().key, b"a".to_vec());

    let result = mt.get(b"c", 100);
    assert!(result.is_none());
}

#[test]
fn test_memtable_query_prefix_time_range_expiry() {
    let mut mt = MemTable::new();
    let mut rec = make_rec("a", 100, 1);
    rec.expire_at = 50;
    mt.insert(rec);
    mt.insert(make_rec("a", 200, 2));

    let result = mt.query_prefix_time_range(b"a", 0, 300, 60);
    assert_eq!(result.len(), 1);
    assert_eq!(result[0].ts, 200);
}

#[test]
fn test_memtable_query_key_time_range_expiry() {
    let mut mt = MemTable::new();
    let mut rec = make_rec("b", 200, 2);
    rec.expire_at = 50;
    mt.insert(rec);
    mt.insert(make_rec("a", 100, 1));
    mt.insert(make_rec("c", 300, 3));

    let result = mt.query_key_time_range(b"a", b"c", 0, 400, 60);
    assert_eq!(result.len(), 2);
}

#[test]
fn test_memtables_query_prefix_time_range() {
    let mut mts = MemTables::new(2, 1024);
    mts.insert(make_rec("a", 100, 1));
    mts.insert(make_rec("a", 200, 2));
    mts.freeze();
    mts.insert(make_rec("a", 300, 3));

    let results = mts.query_prefix_time_range(b"a", 50, 250, i64::MAX);
    assert_eq!(results.len(), 2);
}

#[test]
fn test_memtables_query_key_time_range() {
    let mut mts = MemTables::new(2, 1024);
    mts.insert(make_rec("b", 100, 1));
    mts.freeze();
    mts.insert(make_rec("c", 200, 2));

    let results = mts.query_key_time_range(b"b", b"c", 50, 250, i64::MAX);
    assert_eq!(results.len(), 2);
}

#[test]
fn test_memtables_active_stats() {
    let mut mts = MemTables::new(2, 1024);
    let (count, bytes) = mts.active_stats();
    assert_eq!(count, 0);
    assert_eq!(bytes, 0);

    mts.insert(make_rec("a", 100, 1));
    let (count, bytes) = mts.active_stats();
    assert_eq!(count, 1);
    assert!(bytes > 0);
}

#[test]
fn test_memtables_should_flush() {
    let mut mts = MemTables::new(2, 30);
    assert!(!mts.should_flush());
    mts.insert(make_rec("a", 100, 1));
    assert!(mts.should_flush());
}

#[test]
fn test_memtables_frozen_is_full() {
    let mut mts = MemTables::new(2, 1024);
    assert!(!mts.frozen_is_full());
    mts.insert(make_rec("a", 100, 1));
    mts.freeze();
    mts.insert(make_rec("b", 200, 2));
    mts.freeze();
    assert!(mts.frozen_is_full());
}

#[test]
fn a_read_sees_the_last_write() {
    let mut mt = MemTable::new();
    mt.insert(make_rec("a", 100, 1));
    let mut second = make_rec("a", 100, 2);
    second.value = vec![9];
    mt.insert(second);
    assert_eq!(mt.get(b"a", 100).unwrap().value, vec![9]);
    mt.convert_to_map();
    assert_eq!(mt.len(), 2);
    assert_eq!(mt.get(b"a", 100).unwrap().value, vec![9]);
}

#[test]
fn a_deletion_is_what_a_lookup_finds() {
    let mut mts = MemTables::new(2, 1024);
    mts.insert(make_rec("a", 100, 1));
    mts.insert(InternalRecord::delete(b"a".to_vec(), 100, 2));
    assert_eq!(mts.get(b"a", 100, 0).unwrap().op, Op::Delete);
    assert!(mts.freeze());
    assert_eq!(mts.get(b"a", 100, 0).unwrap().op, Op::Delete);
}

#[test]
fn the_newest_frozen_table_is_looked_up_first() {
    let mut mts = MemTables::new(4, 1024);
    for (seq, value) in [(1u64, 11u8), (2, 22), (3, 33)] {
        let mut rec = make_rec("k", 5, seq);
        rec.value = vec![value];
        mts.insert(rec);
        assert!(mts.freeze());
    }
    assert_eq!(mts.get(b"k", 5, 0).unwrap().value, vec![33]);
    assert!(!mts.freeze());
    let oldest = mts.pop_frozen().unwrap();
    assert_eq!(oldest.iter_sorted()[0].value, vec![11]);
}

#[test]
fn a_frozen_table_answers_a_prefix_query_alike() {
    let mut mt = MemTable::new();
    for key in ["ab", "abc", "abd", "ac", "b"] {
        mt.insert(make_rec(key, 1, 1));
    }
    let before: Vec<Vec<u8>> = mt.query_prefix(b"ab", 0).iter().map(|r| r.key.clone()).collect();
    mt.convert_to_map();
    let after: Vec<Vec<u8>> = mt.query_prefix(b"ab", 0).iter().map(|r| r.key.clone()).collect();
    assert_eq!(before, vec![b"ab".to_vec(), b"abc".to_vec(), b"abd".to_vec()]);
    assert_eq!(before, after);
}

#[test]
fn insertion_into_a_frozen_table_replaces_a_slot() {
    let mut mt = MemTable::new();
    mt.insert(make_rec("b", 1, 1));
    mt.convert_to_map();
    let mut again = make_rec("b", 1, 1);
    again.value = vec![7; 10];
    mt.insert(again);
    mt.insert(make_rec("a", 1, 1));
    assert_eq!(mt.len(), 2);
    let keys: Vec<Vec<u8>> = mt.iter_sorted().iter().map(|r| r.key.clone()).collect();
    assert_eq!(keys, vec![b"a".to_vec(), b"b".to_vec()]);
    assert_eq!(mt.get(b"b", 1).unwrap().value.len(), 10);
    assert_eq!(mt.bytes(), (31 + 1 + 10) + (31 + 1 + 3));
}

#[test]
fn a_range_query_has_both_ends() {
    let mut mts = MemTables::new(2, 1024);
    for key in ["a", "b", "c", "d"] {
        mts.insert(make_rec(key, 1, 1));
    }
    assert_eq!(mts.query_key_range(b"b", b"c", 0).len(), 2);
    assert!(mts.freeze());
    assert_eq!(mts.query_key_range(b"b", b"c", 0).len(), 2);
    assert_eq!(mts.query_all(0).len(), 4);
}

#[test]
fn a_flush_ends_a_stall() {
    let mut mem = MemTables::new(1, 50);
    mem.insert(make_rec("a", 1, 1));
    mem.insert(make_rec("b", 1, 2));
    assert!(mem.freeze());
    assert_eq!(mem.frozen_count(), 1);
    mem.insert(make_rec("c", 1, 3));
    mem.insert(make_rec("d", 1, 4));
    assert!(mem.oldest_bytes() > 50);
    let (wal, _) = Wal::open(&vec![], 1);
    let mut worker = WriteWorker::new(Config::default(), wal, mem);
    assert!(worker.must_stall());
    let flush = worker.do_flush(1, 0).unwrap();
    assert_eq!(flush.info.records, 2);
    assert_eq!(flush.last_seq, 2);
    assert!(!worker.must_stall());
}

#[test]
fn a_flush_keeps_the_newest_version_and_every_range_tombstone() {
    let mut mem = MemTables::new(2, 1 << 20);
    mem.insert(make_rec("a", 0, 1));
    mem.insert(InternalRecord::delete_range(b"a".to_vec(), b"b".to_vec(), 2));
    mem.insert(InternalRecord::delete_range(b"a".to_vec(), b"c".to_vec(), 3));
    mem.insert(make_rec("a", 0, 4));
    mem.insert(InternalRecord::delete(b"x".to_vec(), 7, 6));
    mem.insert(make_rec("x", 7, 5));
    let (wal, _) = Wal::open(&vec![], 1);
    let mut worker = WriteWorker::new(Config::default(), wal, mem);
    let flush = worker.do_flush(1, 0).unwrap();
    assert_eq!(flush.info.records, 4);
    assert_eq!(flush.last_seq, 6);
    assert_eq!(flush.file.blocks[0].max_key, b"x".to_vec());
}

#[test]
fn frozen_tables_take_every_prefix() {
    for frozen in [false, true] {
        let mut mt = MemTable::new();
        mt.insert(make_rec("", 1, 1));
        mt.insert(make_rec("a", 1, 2));
        let mut top = make_rec("", 1, 3);
        top.key = vec![255, 255, 7];
        mt.insert(top);
        if frozen {
            mt.convert_to_map();
        }
        assert_eq!(mt.query_prefix(b"", 0).len(), 3);
        assert_eq!(mt.query_prefix(&[255, 255], 0).len(), 1);
        assert_eq!(mt.query_prefix(&[255], 0).len(), 1);
        assert_eq!(mt.query_prefix(b"a", 0).len(), 1);
    }
}
