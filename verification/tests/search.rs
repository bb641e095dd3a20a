use flowdb::block_index::{candidate_blocks, count_blocks, point_blocks};
use flowdb::bytes::{
    append_bytes, bytes_eq, bytes_le, bytes_lt, compare_bytes, copy_range, i64_to_u64, push_be, push_le,
    read_be, read_le, starts_with, u64_to_i64, KeyOrder,
};
use flowdb::jsondb::encoding::{doc_key, doc_prefix, encode_index_value, idx_key, idx_value_prefix, JsonValue};
use flowdb::lookup::{find_in_records, resolve_lookup, Lookup};
use flowdb::manifest::{BlockInfo, Manifest, ManifestEntry, SstInfo};
use flowdb::memtable::{MemTable, MemTables};
use flowdb::scan::{all_tombstones, covers, filter_sst_block, ScanIterator};
use flowdb::sort::{is_before, sort_records, SortOrder};
use flowdb::versions::{newest_rows, only_ranges, without_ranges};
use flowdb::text::{decimal, decimal_padded, hex, join, signed_decimal};
use flowdb::{InternalRecord, KeyFilter, Op, Query, Record};

fn row(key: &str, ts: i64, seq: u64) -> InternalRecord {
    let rec = Record::new(key.as_bytes().to_vec(), ts, vec![seq as u8]);
    InternalRecord::from_record(&rec, seq)
}

fn deletion(key: &str, ts: i64, seq: u64) -> InternalRecord {
    InternalRecord::delete(key.as_bytes().to_vec(), ts, seq)
}

fn range_deletion(start: &str, end: &str, seq: u64) -> InternalRecord {
    InternalRecord::delete_range(start.as_bytes().to_vec(), end.as_bytes().to_vec(), seq)
}

#[test]
fn sorting_is_stable() {
    let rows = vec![row("b", 1, 9), row("a", 2, 8), row("a", 1, 7), row("b", 1, 1), row("a", 2, 3)];
    let by_key: Vec<u64> = sort_records(&rows, SortOrder::KeyTs).iter().map(|r| r.seq).collect();
    assert_eq!(by_key, vec![7, 8, 3, 9, 1]);
    let all: Vec<u64> = sort_records(&rows, SortOrder::KeyTsSeq).iter().map(|r| r.seq).collect();
    assert_eq!(all, vec![7, 3, 8, 1, 9]);
    let by_seq: Vec<u64> = sort_records(&rows, SortOrder::Sequence).iter().map(|r| r.seq).collect();
    assert_eq!(by_seq, vec![1, 3, 7, 8, 9]);
    assert!(sort_records(&vec![], SortOrder::KeyTs).is_empty());
    assert!(is_before(SortOrder::KeyTs, &rows[2], &rows[1]));
    assert!(!is_before(SortOrder::KeyTs, &rows[0], &rows[3]));
}

#[test]
fn a_sorted_block_is_searched() {
    let rows = vec![row("a", 1, 0), row("a", 3, 0), deletion("b", 2, 0), row("c", 2, 0)];
    match find_in_records(&rows, b"a", 3, 0) {
        Lookup::Found(rec) => assert_eq!((rec.key, rec.ts), (b"a".to_vec(), 3)),
        _ => panic!("expected a record"),
    }
    assert!(matches!(find_in_records(&rows, b"b", 2, 0), Lookup::Deleted));
    assert!(matches!(find_in_records(&rows, b"a", 2, 0), Lookup::Absent));
    assert!(matches!(find_in_records(&rows, b"d", 2, 0), Lookup::Absent));
    assert!(matches!(find_in_records(&[], b"a", 1, 0), Lookup::Absent));
}

#[test]
fn the_newest_row_of_a_block_tells() {
    let twice = vec![row("a", 1, 0), row("k", 1, 0), deletion("k", 1, 0)];
    assert!(matches!(find_in_records(&twice, b"k", 1, 0), Lookup::Deleted));
    let numbered = vec![deletion("k", 1, 9), row("k", 1, 4)];
    assert!(matches!(find_in_records(&numbered, b"k", 1, 0), Lookup::Deleted));
    let range = vec![range_deletion("k", "m", 0)];
    assert!(matches!(find_in_records(&range, b"k", 0, 0), Lookup::Absent));
    let mut gone = row("k", 1, 0);
    gone.expire_at = 10;
    assert!(matches!(find_in_records(&[gone.clone()], b"k", 1, 9), Lookup::Found(_)));
    assert!(matches!(find_in_records(&[gone], b"k", 1, 10), Lookup::Absent));
}

#[test]
fn the_newest_version_of_each_place_is_kept() {
    let rows = vec![row("b", 1, 3), row("a", 2, 1), row("b", 1, 7), row("a", 1, 5), deletion("a", 2, 6)];
    let kept = newest_rows(&rows);
    let shown: Vec<(Vec<u8>, i64, u64)> = kept.into_iter().map(|r| (r.key, r.ts, r.seq)).collect();
    assert_eq!(shown, vec![(b"a".to_vec(), 1, 5), (b"a".to_vec(), 2, 6), (b"b".to_vec(), 1, 7)]);
    let mixed = vec![row("a", 0, 1), range_deletion("a", "c", 2)];
    assert_eq!(without_ranges(&mixed).len(), 1);
    assert_eq!(only_ranges(&mixed)[0].op, Op::DeleteRange);
    assert!(newest_rows(&vec![]).is_empty());
}

#[test]
fn keys_in_a_range_are_covered() {
    let mut mem = MemTables::new(2, 1 << 20);
    mem.insert(range_deletion("b", "d", 1));
    let block = vec![range_deletion("x", "y", 0), row("q", 1, 0)];
    let tombstones = all_tombstones(&mem, &vec![block], 0);
    assert_eq!(tombstones.len(), 2);
    assert!(covers(&tombstones, b"b") && covers(&tombstones, b"czz") && covers(&tombstones, b"x"));
    assert!(!covers(&tombstones, b"d") && !covers(&tombstones, b"a") && !covers(&tombstones, b"q"));
}

#[test]
fn what_a_memtable_finds_is_resolved() {
    assert!(matches!(resolve_lookup(Some(range_deletion("a", "b", 1))), Lookup::Deleted));
    assert!(matches!(resolve_lookup(Some(row("a", 1, 1))), Lookup::Found(_)));
    assert!(matches!(resolve_lookup(Some(deletion("a", 1, 1))), Lookup::Deleted));
    assert!(matches!(resolve_lookup(None), Lookup::Absent));
}

fn block(idx: u32, min_key: &str, max_key: &str, times: (i64, i64), max_expire: i64) -> BlockInfo {
    BlockInfo {
        block_idx: idx,
        min_key: min_key.as_bytes().to_vec(),
        max_key: max_key.as_bytes().to_vec(),
        min_ts: times.0,
        max_ts: times.1,
        min_expire: 0,
        max_expire,
    }
}

fn two_tables() -> Manifest {
    let mut manifest = Manifest::open(&vec![]);
    for id in [1u32, 2] {
        let sst = SstInfo {
            id,
            records: 4,
            bytes: 10,
            min_ts: 0,
            max_ts: 20,
            min_expire: 0,
            max_expire: 100,
            bloom: None,
        };
        let blocks =
            vec![block(0, "a", "c", (0, 9), 100), block(1, "c", "f", (10, 20), 50)];
        manifest.append(&ManifestEntry::Flush { seq: 1, sst, blocks });
    }
    manifest
}

#[test]
fn blocks_are_chosen_newest_table_first() {
    let manifest = two_tables();
    let state = manifest.state();
    assert_eq!(count_blocks(state), 4);
    let all = candidate_blocks(state, &KeyFilter::All, None, 0);
    assert_eq!(all, vec![(2, 0), (2, 1), (1, 0), (1, 1)]);
    let prefix = candidate_blocks(state, &KeyFilter::Prefix(b"c".to_vec()), None, 0);
    assert_eq!(prefix.len(), 4);
    let late = candidate_blocks(state, &KeyFilter::Prefix(b"d".to_vec()), None, 0);
    assert_eq!(late, vec![(2, 1), (1, 1)]);
    let range = KeyFilter::Range { start: b"a".to_vec(), end: b"b".to_vec() };
    assert_eq!(candidate_blocks(state, &range, None, 0), vec![(2, 0), (1, 0)]);
    assert_eq!(candidate_blocks(state, &KeyFilter::All, Some((10, 12)), 0), vec![(2, 1), (1, 1)]);
    assert_eq!(candidate_blocks(state, &KeyFilter::All, None, 50), vec![(2, 0), (1, 0)]);
    assert_eq!(point_blocks(state, b"e".to_vec(), 0), vec![(2, 1), (1, 1)]);
    assert!(point_blocks(state, b"z".to_vec(), 0).is_empty());
}

#[test]
fn a_block_is_filtered() {
    let rows =
        vec![row("a", 1, 5), range_deletion("b", "d", 6), deletion("b", 2, 7), row("b", 3, 8)];
    let filter = KeyFilter::Prefix(b"b".to_vec());
    let mut tombstones = Vec::new();
    let kept = filter_sst_block(&rows, &filter, Some((2, 3)), false, 0, &mut tombstones);
    assert_eq!(kept.iter().map(|r| (r.seq, r.op)).collect::<Vec<_>>(), vec![(0, Op::Delete), (0, Op::Put)]);
    assert_eq!(tombstones, vec![(b"b".to_vec(), b"d".to_vec())]);
    let all = filter_sst_block(&rows, &filter, None, true, 0, &mut tombstones);
    assert_eq!(all.iter().map(|r| (r.ts, r.op)).collect::<Vec<_>>(), vec![
        (1, Op::Put),
        (2, Op::Delete),
        (3, Op::Put)
    ]);
    assert_eq!(tombstones.len(), 2);
}

#[test]
fn a_scan_merges_its_sources() {
    let mut mem = MemTables::new(2, 1 << 20);
    mem.insert(row("a", 1, 10));
    mem.insert(deletion("c", 1, 11));
    let newer = vec![row("a", 1, 3), row("b", 1, 3)];
    let older = vec![row("b", 1, 2), row("c", 1, 2), row("d", 1, 2)];
    let query = Query { key_filter: KeyFilter::Range { start: b"a".to_vec(), end: b"z".to_vec() }, time_range: None };
    let found = ScanIterator::build(&query, &mem, &vec![newer, older], 0).collect();
    let shown: Vec<(Vec<u8>, Vec<u8>)> = found.into_iter().map(|r| (r.key, r.value)).collect();
    assert_eq!(
        shown,
        vec![(b"a".to_vec(), vec![10]), (b"b".to_vec(), vec![3]), (b"d".to_vec(), vec![2])]
    );
}

#[test]
fn freezing_keeps_what_is_newest() {
    let mut table = MemTable::new();
    table.insert(row("a", 1, 1));
    table.insert(row("a", 1, 2));
    table.insert(deletion("b", 1, 3));
    assert_eq!(table.get(b"a", 1).unwrap().seq, 2);
    table.convert_to_map();
    assert_eq!(table.get(b"a", 1).unwrap().seq, 2);
    assert_eq!(table.get(b"b", 1).unwrap().op, Op::Delete);
    assert_eq!(table.len(), 3);
}

#[test]
fn keys_of_stores_and_indexes_are_told_apart() {
    assert!(doc_key("s", b"k").starts_with(&doc_prefix("s")));
    assert!(!doc_key("ss", b"k").starts_with(&doc_prefix("s")));
    assert!(!idx_key("s", "i", b"v", b"k").starts_with(&doc_prefix("s")));
    let one = encode_index_value(&JsonValue::Int(1));
    let two = encode_index_value(&JsonValue::Int(2));
    let prefix = idx_value_prefix("s", "i", &one);
    assert!(idx_key("s", "i", &one, b"k").starts_with(&prefix));
    assert!(!idx_key("s", "i", &two, b"k").starts_with(&prefix));
}

#[test]
fn numbers_as_text() {
    assert_eq!(decimal(0), "0");
    assert_eq!(decimal(u64::MAX), "18446744073709551615");
    assert_eq!(signed_decimal(i64::MIN), "-9223372036854775808");
    assert_eq!(signed_decimal(7), "7");
    assert_eq!(hex(0), "0x0");
    assert_eq!(hex(0xabcd), "0xabcd");
    assert_eq!(decimal_padded(42, 9), "000000042");
    assert_eq!(decimal_padded(1234567890, 9), "1234567890");
    assert_eq!(join("ab", "cd"), "abcd");
}

#[test]
fn numbers_as_bytes() {
    let mut buf = Vec::new();
    push_be(&mut buf, 0x0102, 2);
    push_le(&mut buf, 0x0102, 2);
    assert_eq!(buf, vec![1, 2, 2, 1]);
    assert_eq!(read_be(&buf, 0, 2), 0x0102);
    assert_eq!(read_le(&buf, 2, 2), 0x0102);
    assert_eq!(i64_to_u64(-1), u64::MAX);
    assert_eq!(u64_to_i64(u64::MAX - 1), -2);
}

#[test]
fn byte_strings_are_compared() {
    assert_eq!(compare_bytes(b"a", b"ab"), KeyOrder::Less);
    assert_eq!(compare_bytes(b"b", b"ab"), KeyOrder::Greater);
    assert_eq!(compare_bytes(b"", b""), KeyOrder::Equal);
    assert!(bytes_lt(b"a", b"b") && !bytes_lt(b"a", b"a"));
    assert!(bytes_le(b"a", b"a") && !bytes_le(b"b", b"a"));
    assert!(bytes_eq(b"x", b"x") && !bytes_eq(b"x", b"y"));
    assert!(starts_with(b"abc", b"ab") && !starts_with(b"a", b"ab"));
    assert_eq!(copy_range(b"abcd", 1, 3), b"bc".to_vec());
    let mut buf = vec![1];
    append_bytes(&mut buf, &[2, 3]);
    assert_eq!(buf, vec![1, 2, 3]);
}
