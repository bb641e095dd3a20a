use flowdb::cache::{BlockCache, CacheKey};
use flowdb::{InternalRecord, Record};
use lru::LruCache;
use std::num::NonZeroUsize;
use std::sync::Arc;

fn make_rec(key: &str) -> InternalRecord {
    InternalRecord::from_record(
        &Record { key: key.as_bytes().to_vec(), ts: 0, expire_at: i64::MAX, value: vec![1] },
        0,
    )
}

#[test]
fn test_cache_miss() {
    let mut cache = BlockCache::new(16);
    let key = CacheKey { sst_id: 1, block_idx: 0 };
    assert!(cache.get(&key).is_none());
}

#[test]
fn test_cache_insert_get_hit() {
    let mut cache = BlockCache::new(16);
    let key = CacheKey { sst_id: 1, block_idx: 0 };
    cache.insert(key.clone(), vec![make_rec("a")]);
    let result = cache.get(&key).unwrap();
    assert_eq!(result.len(), 1);
    assert_eq!(result[0].key, b"a".as_slice());
}

#[test]
fn test_cache_invalidate_sst() {
    let mut cache = BlockCache::new(16);
    let key1 = CacheKey { sst_id: 1, block_idx: 0 };
    let key2 = CacheKey { sst_id: 2, block_idx: 0 };
    cache.insert(key1.clone(), vec![make_rec("a")]);
    cache.insert(key2.clone(), vec![make_rec("b")]);
    cache.invalidate_sst(1);
    assert!(cache.get(&key1).is_none());
    assert!(cache.get(&key2).is_some());
}

#[test]
fn test_cache_overwrite() {
    let mut cache = BlockCache::new(16);
    let key = CacheKey { sst_id: 1, block_idx: 0 };
    cache.insert(key.clone(), vec![make_rec("a")]);
    cache.insert(key.clone(), vec![make_rec("b")]);
    let result = cache.get(&key).unwrap();
    assert_eq!(result[0].key, b"b".as_slice());
}

fn block(n: u32) -> CacheKey {
    CacheKey { sst_id: 1, block_idx: n }
}

#[test]
fn test_lru_eviction() {
    let cap = NonZeroUsize::new(3).unwrap();
    let mut lru: LruCache<CacheKey, Arc<Vec<InternalRecord>>> = LruCache::new(cap);
    lru.put(block(0), Arc::new(vec![make_rec("a")]));
    lru.put(block(1), Arc::new(vec![make_rec("b")]));
    lru.put(block(2), Arc::new(vec![make_rec("c")]));
    lru.put(block(3), Arc::new(vec![make_rec("d")]));
    assert!(lru.get(&block(0)).is_none(), "oldest should be evicted");
    assert!(lru.get(&block(3)).is_some(), "newest should survive");
    assert_eq!(lru.len(), 3);
}

#[test]
fn test_lru_access_promotes() {
    let cap = NonZeroUsize::new(3).unwrap();
    let mut lru: LruCache<CacheKey, Arc<Vec<InternalRecord>>> = LruCache::new(cap);
    lru.put(block(0), Arc::new(vec![make_rec("a")]));
    lru.put(block(1), Arc::new(vec![make_rec("b")]));
    lru.put(block(2), Arc::new(vec![make_rec("c")]));
    let _ = lru.get(&block(0));
    lru.put(block(3), Arc::new(vec![make_rec("d")]));
    assert!(lru.get(&block(0)).is_some(), "accessed entry should survive");
    assert!(lru.get(&block(1)).is_none(), "unaccessed LRU should be evicted");
}

/// Keys of one shard: with table 0 a block's shard is its number modulo 64.
fn same_shard(n: u32) -> CacheKey {
    CacheKey { sst_id: 0, block_idx: n * 64 }
}

#[test]
fn a_full_shard_drops_its_oldest_block() {
    // No capacity leaves one entry in each shard.
    let mut cache = BlockCache::new(0);
    cache.insert(same_shard(0), vec![make_rec("a")]);
    cache.insert(same_shard(1), vec![make_rec("b")]);
    assert!(cache.get(&same_shard(0)).is_none());
    assert!(cache.get(&same_shard(1)).is_some());
}

#[test]
fn a_block_that_was_read_stays_in_a_full_shard() {
    // One megabyte is 4096 blocks of 256 bytes, so 64 for each shard.
    let mut cache = BlockCache::new(1);
    for n in 0..64 {
        cache.insert(same_shard(n), vec![make_rec("x")]);
    }
    assert!(cache.get(&same_shard(0)).is_some());
    cache.insert(same_shard(64), vec![make_rec("d")]);
    assert!(cache.get(&same_shard(0)).is_some());
    assert!(cache.get(&same_shard(1)).is_none());
}

#[test]
fn hits_and_misses_are_counted() {
    let mut cache = BlockCache::new(16);
    let key = CacheKey { sst_id: 3, block_idx: 7 };
    assert!(cache.get(&key).is_none());
    cache.insert(key.clone(), vec![make_rec("a")]);
    assert!(cache.get(&key).is_some());
    assert!(cache.get(&key).is_some());
    assert_eq!(cache.hit_counts(), (2, 1));
}
