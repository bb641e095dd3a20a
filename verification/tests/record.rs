use flowdb::record::{increment_prefix_bytes, is_prefix_range, Bound};
use flowdb::{Config, InternalRecord, KeyFilter, Op, Query, ReadOptions, Record, ScanRange, SyncMode};

#[test]
fn test_internal_record_estimated_size() {
    let rec = Record { key: b"hello".to_vec(), ts: 100, expire_at: i64::MAX, value: vec![1, 2, 3, 4, 5] };
    let irec = InternalRecord::from_record(&rec, 1);
    let expected = 8 + 1 + 2 + 5 + 8 + 8 + 4 + 5;
    assert_eq!(irec.estimated_size(), expected);
}

#[test]
fn test_internal_record_estimated_size_empty() {
    let rec = Record { key: Vec::new(), ts: 0, expire_at: 0, value: Vec::new() };
    let irec = InternalRecord::from_record(&rec, 0);
    let expected = (8 + 1 + 2) + 8 + 8 + 4;
    assert_eq!(irec.estimated_size(), expected);
}

#[test]
fn test_query_key_time_range_constructor() {
    let q = Query::key_time_range("a", "z", 100, 200);
    match &q.key_filter {
        KeyFilter::Range { start, end } => {
            assert_eq!(start, b"a".as_slice());
            assert_eq!(end, b"z".as_slice());
        }
        _ => panic!("expected range"),
    }
    assert_eq!(q.time_range, Some((100, 200)));
}

#[test]
fn test_query_prefix_time_range_constructor() {
    let q = Query::prefix_time_range("key", 100, 200);
    match &q.key_filter {
        KeyFilter::Prefix(k) => assert_eq!(k, b"key".as_slice()),
        _ => panic!("expected prefix"),
    }
    assert_eq!(q.time_range, Some((100, 200)));
}

#[test]
fn test_query_time_range_constructor() {
    let q = Query::time_range(100, 200);
    assert!(matches!(q.key_filter, KeyFilter::All));
    assert_eq!(q.time_range, Some((100, 200)));
}

fn check_default(config: &Config) {
    assert_eq!(config.data_dir, "./data");
    assert_eq!(config.default_ttl_secs, None);
    assert_eq!(config.gc_interval_secs, 3600);
    assert_eq!(config.memtable_size_mb, 64);
    assert_eq!(config.max_frozen_memtables, 2);
    assert_eq!(config.block_size, 8192);
    assert_eq!(config.zstd_level, 3);
    assert_eq!(config.flush_interval_ms, 1000);
    assert_eq!(config.time_bucket_secs, 3600);
    assert_eq!(config.index_memory_budget_mb, 256);
    assert_eq!(config.block_cache_capacity_mb, 128);
    assert_eq!(config.bloom_bits_per_key, 10);
    assert_eq!(config.wal_segment_size_mb, 64);
    assert_eq!(config.compaction_threshold, 2);
    assert!(config.create_if_missing);
}

#[test]
fn record_test_config_default_values() {
    let config = flowdb::record::Config::default();
    check_default(&config);
    assert_eq!(config.wal_sync_mode, SyncMode::Always);
    assert!(config.auto_background);
}

#[test]
fn lib_test_config_default_values() {
    let config = Config::default();
    check_default(&config);
}

#[test]
fn test_internal_record_from_to_record_roundtrip() {
    let rec = Record { key: b"test".to_vec(), ts: 42, expire_at: 100, value: vec![7, 8, 9] };
    let irec = InternalRecord::from_record(&rec, 99);
    assert_eq!(irec.seq, 99);
    assert_eq!(irec.key, b"test".as_slice());
    assert_eq!(irec.ts, 42);
    assert_eq!(irec.expire_at, 100);
    assert_eq!(irec.value, vec![7, 8, 9]);

    let back = irec.to_record();
    assert_eq!(back.key, rec.key);
    assert_eq!(back.ts, rec.ts);
    assert_eq!(back.expire_at, rec.expire_at);
    assert_eq!(back.value, rec.value);
}

#[test]
fn test_read_options_default() {
    let opts = ReadOptions::default();
    assert!(opts.fill_cache);
    assert!(opts.verify_checksums);
}

#[test]
fn test_scan_range_prefix() {
    let r = ScanRange::prefix("foo");
    assert!(matches!(r.key_start, Bound::Included(_)));
    assert!(matches!(r.key_end, Bound::Excluded(_)));
    assert!(matches!(r.ts_start, Bound::Unbounded));
    let (kf, tr) = r.to_query_params();
    assert!(matches!(kf, KeyFilter::Prefix(_)));
    assert!(tr.is_none());
}

#[test]
fn test_scan_range_time_range() {
    let r = ScanRange::time_range(10, 20);
    assert!(matches!(r.key_start, Bound::Unbounded));
    let (kf, tr) = r.to_query_params();
    assert!(matches!(kf, KeyFilter::All));
    assert_eq!(tr, Some((10, 20)));
}

#[test]
fn test_scan_range_prefix_time_range() {
    let r = ScanRange::prefix_time_range("bar", 1, 100);
    let (kf, tr) = r.to_query_params();
    assert!(matches!(kf, KeyFilter::Prefix(_)));
    assert_eq!(tr, Some((1, 100)));
}

#[test]
fn test_scan_range_key_range() {
    let r = ScanRange::key_range("a", "z");
    let (kf, tr) = r.to_query_params();
    match kf {
        KeyFilter::Range { start, end } => {
            assert_eq!(start, b"a");
            assert_eq!(end, b"z");
        }
        _ => panic!("expected range"),
    }
    assert!(tr.is_none());
}

#[test]
fn record_test_scan_range_all() {
    let r = ScanRange::all();
    let (kf, tr) = r.to_query_params();
    assert!(matches!(kf, KeyFilter::All));
    assert!(tr.is_none());
}

#[test]
fn test_increment_prefix_bytes() {
    assert_eq!(increment_prefix_bytes(b"abc"), b"abd");
    assert_eq!(increment_prefix_bytes(b"a\xff"), b"b");
    assert_eq!(increment_prefix_bytes(b"\xff\xff"), vec![0xff, 0xff, 0]);
}

#[test]
fn half_open_range_that_is_no_prefix_stays_a_range() {
    assert!(is_prefix_range(b"ab", b"ac"));
    assert!(!is_prefix_range(b"ab", b"ad"));
    let r = ScanRange {
        key_start: Bound::Included(b"ab".to_vec()),
        key_end: Bound::Excluded(b"ad".to_vec()),
        ts_start: Bound::Included(1),
        ts_end: Bound::Unbounded,
    };
    let (kf, tr) = r.to_query_params();
    assert!(matches!(kf, KeyFilter::Range { start, end } if start == b"ab" && end == b"ad"));
    assert_eq!(tr, None);
}

#[test]
fn op_codes_round_trip() {
    for op in [Op::Put, Op::Delete, Op::DeleteRange] {
        assert_eq!(Op::from_u8(op.to_u8()), op);
    }
    assert_eq!(Op::from_u8(77), Op::Put);
    assert_eq!(Op::default(), Op::Put);
}

#[test]
fn key_text_has_replacement_characters() {
    let rec = Record::new(vec![b'a', 0xff, b'b'], 1, vec![]);
    assert_eq!(rec.key_str(), "a\u{fffd}b");
    assert_eq!(rec.expire_at, i64::MAX);
}

#[test]
fn tombstones() {
    let del = InternalRecord::delete(b"k".to_vec(), 5, 9);
    assert_eq!((del.op, del.ts, del.seq, del.expire_at), (Op::Delete, 5, 9, i64::MAX));
    let range = InternalRecord::delete_range(b"a".to_vec(), b"c".to_vec(), 3);
    assert_eq!(range.op, Op::DeleteRange);
    assert_eq!(range.ts, 0);
    assert_eq!(range.range_end, Some(b"c".to_vec()));
}
