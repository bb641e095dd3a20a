use flowdb::bloom::{BloomFilter, CURRENT_HASH_VERSION};

#[test]
fn test_bloom_no_false_negatives() {
    let keys: Vec<Vec<u8>> = (0..1000).map(|i| format!("key_{:06}", i).into_bytes()).collect();
    let bf = BloomFilter::from_keys_with_bits(&keys, 10);
    for key in &keys {
        assert!(bf.may_contain(key), "false negative");
    }
}

#[test]
fn test_bloom_version_is_current_after_build() {
    let bf = BloomFilter::from_keys_with_bits(&[b"k1".to_vec()], 10);
    assert_eq!(bf.hash_version(), CURRENT_HASH_VERSION);
}

#[test]
fn test_bloom_stale_version_returns_true_safely() {
    let mut bf = BloomFilter::with_bits_per_key(10, 10);
    bf.hash_version = 0;
    assert!(bf.may_contain(b"never-inserted"));
}

#[test]
fn test_bloom_mark_current_after_rebuild() {
    let keys: Vec<Vec<u8>> = (0..50).map(|i| format!("k{}", i).into_bytes()).collect();
    let mut bf = BloomFilter::from_keys_with_bits(&keys, 10);
    bf.hash_version = 0;
    bf.mark_current();
    assert_eq!(bf.hash_version(), CURRENT_HASH_VERSION);
    for k in &keys {
        assert!(bf.may_contain(k));
    }
}

#[test]
fn test_bloom_false_positive_rate_is_bounded() {
    let keys: Vec<Vec<u8>> = (0..10000).map(|i| format!("key_{:06}", i).into_bytes()).collect();
    let bf = BloomFilter::from_keys_with_bits(&keys, 10);
    let mut fp = 0usize;
    let test_count = 10000;
    for i in 0..test_count {
        let key = format!("other_{:06}", i).into_bytes();
        if bf.may_contain(&key) {
            fp += 1;
        }
    }
    let fp_rate = fp as f64 / test_count as f64;
    assert!(fp_rate < 0.05, "false positive rate too high: {}", fp_rate);
    assert!(fp_rate < 0.03, "expected improved FPR with optimal num_hashes, got {}", fp_rate);
}

#[test]
fn inserting_a_key_makes_the_filter_contain_it() {
    let mut bf = BloomFilter::with_bits_per_key(4, 10);
    assert!(!bf.may_contain(b"x"));
    bf.insert(b"x");
    bf.insert(b"y");
    assert!(bf.may_contain(b"x"));
    assert!(bf.may_contain(b"y"));
    assert!(bf.check(b"x"));
}

#[test]
fn a_filter_without_bits_lets_every_key_pass() {
    let bf = BloomFilter { bits: vec![], num_hashes: 7, hash_version: CURRENT_HASH_VERSION };
    assert!(bf.check(b"anything"));
}

#[test]
fn filter_size() {
    let bf = BloomFilter::with_bits_per_key(10, 10);
    assert_eq!(bf.bits.len(), 2);
    assert_eq!(bf.num_hashes, 7);
}

#[test]
fn a_fresh_filter_holds_nothing() {
    for (keys, bits) in [(0, 0), (0, 10), (10, 0), (100, 10)] {
        let bf = BloomFilter::with_bits_per_key(keys, bits);
        assert!(!bf.may_contain(b"") && !bf.may_contain(b"key"));
    }
    let bf = BloomFilter::from_keys_with_bits(&[b"a".to_vec(), b"b".to_vec()], 0);
    assert!(bf.may_contain(b"a") && bf.may_contain(b"b"));
}
