use flowdb::bloom::BloomFilter;
use flowdb::manifest::{BlockInfo, Manifest, ManifestEntry, SstInfo};

fn table(id: u32, records: u64, bytes: u64, min_ts: i64, max_ts: i64) -> SstInfo {
    SstInfo { id, records, bytes, min_ts, max_ts, min_expire: i64::MAX, max_expire: i64::MAX, bloom: None }
}

#[test]
fn test_manifest_append_and_replay() {
    let entries = vec![
        ManifestEntry::Flush {
            seq: 100,
            sst: table(1, 100, 4096, 1000, 2000),
            blocks: vec![BlockInfo {
                block_idx: 0,
                min_key: b"a".to_vec(),
                max_key: b"b".to_vec(),
                min_ts: 1000,
                max_ts: 2000,
                min_expire: i64::MAX,
                max_expire: i64::MAX,
            }],
        },
        ManifestEntry::Flush { seq: 200, sst: table(2, 50, 2048, 2000, 3000), blocks: vec![] },
    ];
    let mut mf = Manifest::open(&vec![]);
    for entry in &entries {
        mf.append(entry);
    }
    assert_eq!(mf.state().sstables.len(), 2);
    assert_eq!(mf.state().last_flushed_seq, 200);
    assert_eq!(mf.next_sst_id(), 3);

    let mf2 = Manifest::open(&entries);
    assert_eq!(mf2.state().sstables.len(), 2);
    assert_eq!(mf2.state().last_flushed_seq, 200);
    assert_eq!(mf2.state().block_infos[&1][0].max_key, b"b");
}

#[test]
fn test_manifest_delete() {
    let mut mf = Manifest::open(&vec![]);
    mf.append(&ManifestEntry::Flush {
        seq: 100,
        sst: SstInfo {
            id: 1,
            records: 10,
            bytes: 100,
            min_ts: 0,
            max_ts: 0,
            min_expire: 0,
            max_expire: 0,
            bloom: None,
        },
        blocks: vec![],
    });
    mf.append(&ManifestEntry::DeleteSst { sst_id: 1 });
    assert!(!mf.state().sstables.contains_key(&1));
    assert!(mf.state().active_sst_ids.is_empty());
}

#[test]
fn compaction_replaces_tables() {
    let mut mf = Manifest::open(&vec![]);
    for id in 1..4 {
        mf.append(&ManifestEntry::Flush { seq: id as u64, sst: table(id, 1, 10, 0, 0), blocks: vec![] });
    }
    mf.append(&ManifestEntry::Compaction {
        removed: vec![1, 3],
        added: vec![table(4, 2, 15, 0, 0)],
        blocks: vec![(4, vec![])],
    });
    assert_eq!(mf.state().active_sst_ids, vec![2, 4]);
    assert_eq!(mf.max_sst_id(), 4);
    assert!(mf.state().block_infos.contains_key(&4));
    assert!(!mf.state().block_infos.contains_key(&1));
}

#[test]
fn a_checkpoint_does_not_go_back() {
    let mut mf = Manifest::open(&vec![]);
    mf.append(&ManifestEntry::Checkpoint { last_flushed_seq: 7 });
    mf.append(&ManifestEntry::Checkpoint { last_flushed_seq: 5 });
    assert_eq!(mf.state().last_flushed_seq, 7);
    assert_eq!(mf.next_sst_id(), 1);
}

#[test]
fn a_bloom_filter_is_kept() {
    let mut sst = table(9, 1, 1, 0, 0);
    sst.bloom = Some(BloomFilter::from_keys_with_bits(&[b"k".to_vec()], 10));
    let mf = Manifest::open(&vec![ManifestEntry::Flush { seq: 1, sst, blocks: vec![] }]);
    let bloom = mf.state().sstables[&9].bloom.as_ref().unwrap();
    assert!(bloom.may_contain(b"k"));
}
