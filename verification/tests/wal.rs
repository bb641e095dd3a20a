use flowdb::wal::{
    decode_record, encode_batch, encoded_size, find_max_seq_in_segment, read_i64, read_u16, read_u32, read_u64,
    seal_batch, segment_file_name, Wal,
};
use flowdb::{FlowError, InternalRecord, Record};

/// A log with its segments in memory.
struct Disk {
    wal: Wal,
    segments: Vec<(u64, Vec<u8>)>,
}

impl Disk {
    fn open(segments: Vec<(u64, Vec<u8>)>, size_mb: u64) -> Disk {
        let (wal, created) = Wal::open(&segments, size_mb);
        let mut disk = Disk { wal, segments };
        if let Some(id) = created {
            disk.segments.push((id, vec![]));
        }
        disk
    }

    fn write(&mut self, buf: &[u8]) {
        let sealed = sealed(buf);
        let done = self.wal.write_encoded(&sealed);
        let at = self.segments.iter().position(|s| s.0 == done.segment).unwrap();
        self.segments[at].1.extend_from_slice(&sealed);
        if let Some(id) = done.rollover {
            self.segments.push((id, vec![]));
        }
    }

    fn replay_from(&self, seq: u64) -> Vec<InternalRecord> {
        let ids = self.wal.segment_ids();
        let data: Vec<Vec<u8>> =
            ids.iter().map(|id| self.segments.iter().find(|s| s.0 == *id).unwrap().1.clone()).collect();
        Wal::replay_from(&data, seq)
    }
}

/// What is appended to a segment for an encoded batch.
fn sealed(buf: &[u8]) -> Vec<u8> {
    let mut records = Vec::new();
    let mut pos = 0;
    while let Some((rec, advance)) = decode_record(&buf[pos..]).unwrap() {
        records.push(rec);
        pos += advance;
    }
    seal_batch(buf, &records)
}

fn make_record(key: &str, ts: i64, seq: u64) -> InternalRecord {
    InternalRecord::from_record(
        &Record { key: key.as_bytes().to_vec(), ts, expire_at: i64::MAX, value: vec![1, 2, 3] },
        seq,
    )
}

#[test]
fn test_read_u64() {
    let n: u64 = 0x0102030405060708;
    let bytes = n.to_be_bytes();
    assert_eq!(read_u64(&bytes), n);
}

#[test]
fn test_read_i64() {
    let n: i64 = -0x0102030405060708;
    let bytes = n.to_be_bytes();
    assert_eq!(read_i64(&bytes), n);
}

#[test]
fn test_read_u32() {
    let n: u32 = 0x01020304;
    let bytes = n.to_be_bytes();
    assert_eq!(read_u32(&bytes), n);
}

#[test]
fn test_read_u16() {
    let n: u16 = 0x0102;
    let bytes = n.to_be_bytes();
    assert_eq!(read_u16(&bytes), n);
}

#[test]
fn test_wal_write_read_roundtrip() {
    let mut disk = Disk::open(vec![], 64);
    let recs = vec![make_record("key1", 100, 1), make_record("key2", 200, 2)];
    let (buf, _) = encode_batch(&recs);
    disk.write(&buf);

    let result = disk.replay_from(0);
    assert_eq!(result.len(), 2);
    assert_eq!(result[0].key, b"key1".as_slice());
    assert_eq!(result[1].key, b"key2".as_slice());
}

#[test]
fn test_wal_replay_from_seq() {
    let mut disk = Disk::open(vec![], 64);
    let recs = vec![make_record("key1", 100, 1), make_record("key2", 200, 2)];
    let (buf, _) = encode_batch(&recs);
    disk.write(&buf);

    let result = disk.replay_from(1);
    assert_eq!(result.len(), 1);
    assert_eq!(result[0].key, b"key2".as_slice());
}

#[test]
fn test_wal_truncation_detection() {
    let mut disk = Disk::open(vec![], 64);
    let recs = vec![make_record("key1", 100, 1)];
    let (buf, _) = encode_batch(&recs);
    disk.write(&buf);

    let data = disk.segments[0].1.clone();
    let truncated = data[..data.len() / 2].to_vec();
    let disk2 = Disk::open(vec![(1, truncated)], 64);
    let result = disk2.replay_from(0);
    assert!(result.is_empty());
}

#[test]
fn test_wal_recovery_after_restart() {
    let segments = {
        let mut disk = Disk::open(vec![], 64);
        let recs = vec![make_record("a", 1, 1), make_record("b", 2, 2), make_record("c", 3, 3)];
        let (buf, _) = encode_batch(&recs);
        disk.write(&buf);
        disk.segments
    };
    let disk = Disk::open(segments, 64);
    let result = disk.replay_from(0);
    assert_eq!(result.len(), 3);
    assert_eq!(result[0].key, b"a".as_slice());
    assert_eq!(result[2].key, b"c".as_slice());
}

#[test]
fn test_encode_batch_consistency() {
    let recs = vec![make_record("alpha", 100, 1), make_record("beta", 200, 2)];
    let (buf, _) = encode_batch(&recs);
    assert!(!buf.is_empty());

    let (rec1, adv1) = decode_record(&buf).unwrap().unwrap();
    assert_eq!(rec1.key, b"alpha");
    let (rec2, _) = decode_record(&buf[adv1..]).unwrap().unwrap();
    assert_eq!(rec2.key, b"beta");
}

#[test]
fn test_write_encoded() {
    let mut disk = Disk::open(vec![], 64);
    let recs = vec![make_record("k1", 10, 1)];
    let (buf, _) = encode_batch(&recs);
    let len = buf.len();
    disk.write(&buf);

    let result = disk.replay_from(0);
    assert_eq!(result.len(), 1);
    assert_eq!(result[0].key, b"k1");
    assert_eq!(len, 8 + 1 + 2 + 2 + 8 + 8 + 4 + 4 + 3);
}

#[test]
fn test_encoded_size() {
    let rec = make_record("hello", 100, 1);
    let size = encoded_size(&rec);
    assert_eq!(size, 8 + 1 + 2 + 5 + 8 + 8 + 4 + 4 + 3);
}

#[test]
fn test_wal_segment_rollover() {
    let mut disk = Disk::open(vec![], 1);
    let big_val = vec![0u8; 100_000];
    for i in 0..20 {
        let rec = InternalRecord::from_record(
            &Record {
                key: format!("key_{:04}", i).into_bytes(),
                ts: i as i64,
                expire_at: i64::MAX,
                value: big_val.clone(),
            },
            (i + 1) as u64,
        );
        let (buf, _) = encode_batch(&[rec]);
        disk.write(&buf);
    }
    let result = disk.replay_from(0);
    assert_eq!(result.len(), 20);
    assert_eq!(disk.wal.segment_ids().len(), 2);
}

#[test]
fn truncation_drops_flushed_segments_only() {
    let (one, _) = encode_batch(&[make_record("a", 1, 1), make_record("b", 1, 2)]);
    let (two, _) = encode_batch(&[make_record("c", 1, 3)]);
    let mut disk = Disk::open(vec![(2, sealed(&two)), (1, sealed(&one))], 64);
    assert_eq!(disk.wal.segment_ids(), vec![1, 2]);
    let none = disk.wal.truncate_before(1);
    assert!(none.deleted.is_empty());
    let first = disk.wal.truncate_before(2);
    assert_eq!(first.deleted, vec![1]);
    assert_eq!(first.created, None);
    let last = disk.wal.truncate_before(3);
    assert_eq!(last.deleted, vec![2]);
    assert_eq!(last.created, Some(3));
    assert_eq!(disk.wal.segment_ids(), vec![3]);
}

#[test]
fn truncation_tells_an_empty_segment_from_number_zero() {
    let (zero, _) = encode_batch(&[make_record("a", 1, 0), make_record("b", 1, 0)]);
    let mut disk = Disk::open(vec![(1, sealed(&zero)), (2, vec![])], 64);
    assert_eq!(find_max_seq_in_segment(&sealed(&zero)), Some(0));
    assert_eq!(find_max_seq_in_segment(&[]), None);
    let done = disk.wal.truncate_before(0);
    assert_eq!(done.deleted, vec![1]);
    assert_eq!(disk.wal.segment_ids(), vec![2]);
}

#[test]
fn a_changed_byte_is_detected() {
    let recs = vec![make_record("a", 1, 1), make_record("b", 2, 2), make_record("c", 3, 3)];
    let (buf, _) = encode_batch(&recs);
    let good = sealed(&buf);
    assert_eq!(good.len(), buf.len() + 3 * 8);
    let one = good.len() / 3;
    // The last byte of the second record's value stands before its checksum.
    let mut bad = good.clone();
    bad[2 * one - 9] ^= 0x40;
    let keys = |data: Vec<u8>| -> Vec<Vec<u8>> {
        Wal::replay_from(&vec![data], 0).into_iter().map(|r| r.key).collect()
    };
    assert_eq!(keys(good.clone()).len(), 3);
    assert_eq!(keys(bad), vec![b"a".to_vec(), b"c".to_vec()]);
    let mut sum = good.clone();
    sum[one - 1] ^= 1;
    assert_eq!(keys(sum.clone()), vec![b"b".to_vec(), b"c".to_vec()]);
    assert_eq!(find_max_seq_in_segment(&sum), Some(3));
    assert_eq!(keys(good[..2 * one + 20].to_vec()), vec![b"a".to_vec(), b"b".to_vec()]);
    assert_eq!(keys(good[..good.len() - 1].to_vec()).len(), 2);
}

#[test]
fn a_record_in_a_segment_ends_with_its_checksum() {
    let recs = vec![make_record("k", 1, 1)];
    let (buf, _) = encode_batch(&recs);
    let sum = flowdb::bloom::fxhash64(&buf, flowdb::wal::CHECK_SEED);
    let mut expected = buf.clone();
    expected.extend_from_slice(&sum.to_be_bytes());
    assert_eq!(seal_batch(&buf, &recs), expected);
}

#[test]
fn range_tombstones_are_read_back() {
    let range = InternalRecord::delete_range(b"a".to_vec(), b"c".to_vec(), 7);
    let (buf, charged) = encode_batch(&[range]);
    assert_eq!(charged, 31 + 1 + 2 + 1);
    let (back, used) = decode_record(&buf).unwrap().unwrap();
    assert_eq!(used, buf.len());
    assert_eq!(back.range_end, Some(b"c".to_vec()));
    assert_eq!(back.seq, 7);
    assert!(decode_record(&buf[..buf.len() - 1]).unwrap().is_none());
}

#[test]
fn segment_files_are_named_by_number() {
    assert_eq!(segment_file_name(7), "000000007.wal");
    assert_eq!(segment_file_name(12345678901), "12345678901.wal");
}

#[test]
fn errors_say_what_is_wrong() {
    assert_eq!(FlowError::Io("x".to_string()).message(), "IO error: x");
    let corrupt = FlowError::Corruption { file: "f".to_string(), msg: "m".to_string() };
    assert_eq!(corrupt.message(), "Corruption in f: m");
    assert_eq!(FlowError::Closed.message(), "Engine is closed");
    assert_eq!(FlowError::WriteBufferFull.message(), "Write buffer full");
    assert_eq!(FlowError::Config("c".to_string()).message(), "Config error: c");
    assert_eq!(FlowError::SstNotFound(9).message(), "SSTable not found: 9");
    let block = FlowError::BlockNotFound { sst_id: 1, block_idx: 20 };
    assert_eq!(block.message(), "Block not found: sst=1, block=20");
    let magic = FlowError::InvalidMagic { expected: 0x54534e42, actual: 0xff };
    assert_eq!(magic.message(), "Invalid magic: expected 0x54534e42, got 0xff");
    assert_eq!(FlowError::Json("j".to_string()).message(), "JSON error: j");
    assert_eq!(FlowError::JsonDb("d".to_string()).message(), "JsonDB: d");
    assert_eq!(FlowError::Other("o".to_string()).message(), "o");
}
