use flowdb::cache::BlockCache;
use flowdb::sstable::{
    decode_records, decompress_block, encode_records, table_file_name, time_span, BlockHeader, SstReader,
    SstWriter,
};
use flowdb::{FlowError, InternalRecord, Op, Record};

fn make_records(n: usize) -> Vec<InternalRecord> {
    (0..n)
        .map(|i| {
            InternalRecord::from_record(
                &Record {
                    key: format!("key_{:04}", i).into_bytes(),
                    ts: (i * 100) as i64,
                    expire_at: i64::MAX,
                    value: vec![1, 2, 3, 4],
                },
                i as u64,
            )
        })
        .collect()
}

#[test]
fn test_sst_write_read_roundtrip() {
    let records = make_records(100);
    let file = SstWriter::write(&records, 10, 3, 10, false).unwrap();
    assert!(file.total_bytes > 0);
    assert_eq!(file.blocks.len(), 10);

    let reader = SstReader::open(&file.bytes, 1, file.blocks.len()).unwrap();
    assert_eq!(reader.block_count(), 10);

    let block = reader.read_block(&file.bytes, 0, None).unwrap();
    assert_eq!(block.records.len(), 10);
    assert_eq!(block.records[0].key.as_slice(), b"key_0000");
}

#[test]
fn test_sst_all_blocks_readable() {
    let records = make_records(50);
    let file = SstWriter::write(&records, 10, 3, 10, false).unwrap();
    let reader = SstReader::open(&file.bytes, 1, file.blocks.len()).unwrap();

    let mut all_records = Vec::new();
    for i in 0..reader.block_count() {
        let block = reader.read_block(&file.bytes, i, None).unwrap();
        all_records.extend(block.records);
    }
    assert_eq!(all_records.len(), 50);
    for (i, rec) in all_records.iter().enumerate() {
        assert_eq!(rec.key, format!("key_{:04}", i).into_bytes());
    }
}

#[test]
fn test_sst_block_metadata() {
    let records = make_records(20);
    let file = SstWriter::write(&records, 10, 3, 10, false).unwrap();
    let block_infos = file.blocks;
    assert_eq!(block_infos.len(), 2);

    assert_eq!(block_infos[0].min_key, b"key_0000");
    assert_eq!(block_infos[0].max_key, b"key_0009");
    assert_eq!(block_infos[0].min_ts, 0);
    assert_eq!(block_infos[0].max_ts, 900);

    assert_eq!(block_infos[1].min_key, b"key_0010");
    assert_eq!(block_infos[1].max_key, b"key_0019");
}

#[test]
fn test_sst_compression() {
    let records: Vec<InternalRecord> = (0..100)
        .map(|i| {
            InternalRecord::from_record(
                &Record { key: b"same_key".to_vec(), ts: i, expire_at: i64::MAX, value: vec![0u8; 100] },
                i as u64,
            )
        })
        .collect();
    let file = SstWriter::write(&records, 100, 3, 10, false).unwrap();
    let raw_size: usize = records.iter().map(|r| r.estimated_size()).sum();
    assert!(file.total_bytes < raw_size as u64);
}

#[test]
fn zstandard_tables_are_read_back() {
    let records = make_records(25);
    let file = SstWriter::write(&records, 10, 3, 10, true).unwrap();
    let reader = SstReader::open(&file.bytes, 4, 3).unwrap();
    assert_eq!(reader.block_count(), 3);
    let (header, last) = reader.read_block_decompress(&file.bytes, 2).unwrap();
    assert!(header.is_zstd);
    assert_eq!(last.len(), 5);
    assert_eq!(last[4].key, b"key_0024");
    assert_eq!(last[4].value, vec![1, 2, 3, 4]);
    assert!(file.bloom.may_contain(b"key_0013"));
}

#[test]
fn reads_go_through_the_cache() {
    let records = make_records(10);
    let file = SstWriter::write(&records, 10, 3, 10, false).unwrap();
    let reader = SstReader::open(&file.bytes, 1, 1).unwrap();
    let mut cache = BlockCache::new(1);
    assert!(reader.read_block_cached(0, &mut cache).is_none());
    let block = reader.read_block_arc(&file.bytes, 0, &mut cache).unwrap();
    assert_eq!(block.len(), 10);
    // The file is not looked at again.
    let again = reader.read_block(&[], 0, Some(&mut cache)).unwrap();
    assert_eq!(again.records.len(), 10);
}

#[test]
fn block_errors() {
    let records = make_records(10);
    let file = SstWriter::write(&records, 10, 3, 10, false).unwrap();
    let reader = SstReader::open(&file.bytes, 6, 1).unwrap();
    let missing = reader.read_block(&file.bytes, 1, None).unwrap_err();
    assert_eq!(missing, FlowError::BlockNotFound { sst_id: 6, block_idx: 1 });
    assert!(reader.read_block(&file.bytes[..20], 0, None).is_err());
    assert!(reader.read_block(&file.bytes[..file.bytes.len() - 1], 0, None).is_err());
    let mut spoiled = file.bytes.clone();
    spoiled[0] ^= 1;
    assert!(matches!(reader.read_block(&spoiled, 0, None), Err(FlowError::InvalidMagic { .. })));
    assert!(matches!(SstReader::open(&spoiled, 6, 1), Err(FlowError::InvalidMagic { .. })));
}

#[test]
fn headers_round_trip() {
    let header = BlockHeader {
        num_records: 3,
        data_len: 40,
        compressed_len: 30,
        min_ts: -5,
        max_ts: 9,
        min_expire: i64::MIN,
        max_expire: i64::MAX,
        is_zstd: true,
    };
    let bytes = header.to_bytes();
    assert_eq!(bytes.len(), 48);
    let back = BlockHeader::from_bytes(&bytes).unwrap();
    assert_eq!(back.min_ts, -5);
    assert_eq!(back.max_expire, i64::MAX);
    assert_eq!(back.compressed_len, 30);
    assert!(back.is_zstd);
    assert!(BlockHeader::from_bytes(&bytes[..47]).is_err());
}

#[test]
fn rows_of_a_block_round_trip() {
    let mut records = make_records(2);
    records.push(InternalRecord::delete_range(b"x".to_vec(), b"z".to_vec(), 9));
    records.push(InternalRecord::delete(b"y".to_vec(), 4, 10));
    let raw = encode_records(&records);
    let back = decode_records(&raw, 4).unwrap();
    assert_eq!(back.len(), 4);
    assert_eq!(back[2].op, Op::DeleteRange);
    assert_eq!(back[2].range_end, Some(b"z".to_vec()));
    assert_eq!(back[3].op, Op::Delete);
    assert_eq!(back[3].seq, 0);
}

#[test]
fn spans_and_names() {
    let records = make_records(3);
    let span = time_span(&records);
    assert_eq!((span.min_ts, span.max_ts), (0, 200));
    assert_eq!((span.min_expire, span.max_expire), (i64::MAX, i64::MAX));
    assert_eq!(table_file_name(42), "000000042.sst");
}

#[test]
fn a_written_table_is_read_back_block_by_block() {
    for use_zstd in [false, true] {
        let records = make_records(25);
        let file = SstWriter::write(&records, 10, 1, 10, use_zstd).unwrap();
        let reader = SstReader::open(&file.bytes, 3, file.blocks.len()).unwrap();
        assert_eq!(reader.block_count() as usize, file.blocks.len());
        let mut back = Vec::new();
        for idx in 0..reader.block_count() {
            back.extend(reader.read_block(&file.bytes, idx, None).unwrap().records);
        }
        assert_eq!(back.len(), 25);
        for (a, b) in records.iter().zip(&back) {
            assert_eq!((&a.key, a.ts, &a.value, 0), (&b.key, b.ts, &b.value, b.seq));
        }
        assert!(matches!(
            reader.read_block(&file.bytes, 3, None),
            Err(FlowError::BlockNotFound { sst_id: 3, block_idx: 3 })
        ));
    }
}

#[test]
fn lengths_that_cannot_be_counted_are_refused() {
    let header = BlockHeader {
        num_records: 1,
        min_ts: 0,
        max_ts: 0,
        min_expire: 0,
        max_expire: 0,
        data_len: 100,
        compressed_len: 0,
        is_zstd: false,
    };
    let mut data = vec![0xF0u8];
    data.resize(16_843_012, 0xFF);
    let refused = decompress_block(&data, &header);
    assert_eq!(refused, Err(FlowError::Other("lz4 decompress: lengths cannot be counted".to_string())));
    data.truncate(1000);
    assert!(decompress_block(&data, &header).is_err());
}

#[test]
fn a_block_is_listed_with_all_that_its_range_tombstones_reach() {
    let mut records = make_records(2);
    records.insert(0, InternalRecord::delete_range(b"a".to_vec(), b"zz".to_vec(), 9));
    let file = SstWriter::write(&records, 10, 1, 10, false).unwrap();
    assert_eq!(file.blocks[0].min_key, b"a".to_vec());
    assert_eq!(file.blocks[0].max_key, b"zz".to_vec());
    assert_eq!((file.blocks[0].min_ts, file.blocks[0].max_ts), (i64::MIN, i64::MAX));
    let plain = SstWriter::write(&make_records(2), 10, 1, 10, false).unwrap();
    assert_eq!(plain.blocks[0].max_key, make_records(2)[1].key);
    assert_eq!((plain.blocks[0].min_ts, plain.blocks[0].max_ts), (0, 100));
}

#[test]
fn a_large_block_is_read_back() {
    let mut value = vec![0xFFu8; 9_000_000];
    for (i, b) in value.iter_mut().take(4_000_000).enumerate() {
        *b = (i as u32).wrapping_mul(2_654_435_761).to_be_bytes()[0];
    }
    let rows: Vec<InternalRecord> = (0..2)
        .map(|n| {
            let rec = Record { key: vec![n], ts: n as i64, expire_at: i64::MAX, value: value.clone() };
            InternalRecord::from_record(&rec, 7)
        })
        .collect();
    let file = SstWriter::write(&rows, 100, 1, 10, false).unwrap();
    assert_eq!(file.blocks.len(), 1);
    let reader = SstReader::open(&file.bytes, 1, 1).unwrap();
    let back = reader.read_block(&file.bytes, 0, None).unwrap().records;
    assert_eq!(back.len(), 2);
    assert_eq!(back[1].key, vec![1]);
    assert!(back[1].value == value);
}

#[test]
fn long_runs_in_literals_are_no_lengths() {
    // One sequence of literals, all of them 0xFF.
    let n: usize = 17_000_000;
    let mut block = vec![0xF0u8];
    block.extend(std::iter::repeat(0xFFu8).take((n - 15) / 255));
    block.push(((n - 15) % 255) as u8);
    block.extend(std::iter::repeat(0xFFu8).take(n));
    let header = BlockHeader {
        num_records: 1,
        min_ts: 0,
        max_ts: 0,
        min_expire: 0,
        max_expire: 0,
        data_len: n as u32,
        compressed_len: block.len() as u32,
        is_zstd: false,
    };
    let raw = decompress_block(&block, &header).unwrap();
    assert_eq!(raw.len(), n);
    assert!(raw.iter().all(|b| *b == 0xFF));
}
