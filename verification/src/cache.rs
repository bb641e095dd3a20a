//! The cache of decoded blocks: shards, each of which drops what was used least
//! recently.

use vstd::prelude::*;
use std::num::NonZeroUsize;
use std::sync::Arc;
use crate::record;
use crate::record::{InternalRecord, InternalRecordView};

verus! {

/// The number of shards.
pub const NUM_SHARDS: usize = 64;

/// The hasher of `lru::LruCache`.
#[verifier::external_type_specification]
#[verifier::external_body]
pub struct ExLruHasher(lru::DefaultHasher);

/// `lru::LruCache`, a map that holds a limited number of entries.
#[verifier::external_type_specification]
#[verifier::external_body]
#[verifier::reject_recursive_types(K)]
#[verifier::reject_recursive_types(V)]
#[verifier::reject_recursive_types(S)]
pub struct ExLruCache<K, V, S>(lru::LruCache<K, V, S>);

/// The blocks of one shard, by table and block number.
pub type BlockLru = lru::LruCache<(u32, u32), Arc<Vec<InternalRecord>>>;

/// A cached block: its table and block number, and its rows.
pub type Entry = ((u32, u32), Seq<InternalRecordView>);

/// The entries of a shard, the one that was used last first.
pub uninterp spec fn entries(lru: BlockLru) -> Seq<((u32, u32), Seq<InternalRecordView>)>;

/// How many entries a shard holds at most.
pub uninterp spec fn capacity(lru: BlockLru) -> nat;

/// The entries with another key.
pub open spec fn other_key(key: (u32, u32)) -> spec_fn(Entry) -> bool {
    |e: Entry| e.0 != key
}

/// The entries without the one with the key.
pub open spec fn without(s: Seq<Entry>, key: (u32, u32)) -> Seq<Entry> {
    s.filter(other_key(key))
}

/// The rows of the entry with the key, if there is one.
pub open spec fn find(s: Seq<Entry>, key: (u32, u32)) -> Option<Seq<InternalRecordView>>
    decreases s.len(),
{
    if s.len() == 0 {
        None
    } else if s[0].0 == key {
        Some(s[0].1)
    } else {
        find(s.drop_first(), key)
    }
}

/// The entries after one was put first; where there are more than `cap`, the one
/// that was used least recently goes.
pub open spec fn put(s: Seq<Entry>, cap: nat, entry: Entry) -> Seq<Entry> {
    let rest = without(s, entry.0);
    seq![entry] + (if rest.len() < cap {
        rest
    } else {
        rest.take(cap - 1)
    })
}

/// The entries after the one with the key was used: it comes first.
pub open spec fn used(s: Seq<Entry>, key: (u32, u32)) -> Seq<Entry> {
    match find(s, key) {
        Some(rows) => seq![(key, rows)] + without(s, key),
        None => s,
    }
}

/// What an optional shared block holds.
pub open spec fn opt_block(r: Option<Arc<Vec<InternalRecord>>>) -> Option<Seq<InternalRecordView>> {
    match r {
        Some(block) => Some(record::views((*block)@)),
        None => None,
    }
}

/// Calls `LruCache::new`, which makes an empty map that holds at most `cap`
/// entries.
#[verifier::external_body]
fn lru_new(cap: usize) -> (r: BlockLru)
    requires
        cap > 0,
    ensures
        (entries(r) == Seq::<((u32, u32), Seq<InternalRecordView>)>::empty()),
        capacity(r) == cap,
{
    lru::LruCache::new(NonZeroUsize::new(cap).unwrap())
}

/// Calls `LruCache::put`, which puts an entry first in place of any with the same
/// key, and drops the last entry where there would be too many.
#[verifier::external_body]
fn lru_put(lru: &mut BlockLru, key: (u32, u32), block: Arc<Vec<InternalRecord>>)
    ensures
        entries(*final(lru)) == put(
            entries(*old(lru)),
            capacity(*old(lru)),
            (key, record::views((*block)@)),
        ),
        capacity(*final(lru)) == capacity(*old(lru)),
{
    lru.put(key, block);
}

/// Calls `LruCache::get`, which returns the value of a key and moves its entry to
/// the front.
#[verifier::external_body]
fn lru_get(lru: &mut BlockLru, key: (u32, u32)) -> (r: Option<Arc<Vec<InternalRecord>>>)
    ensures
        opt_block(r) == find(entries(*old(lru)), key),
        entries(*final(lru)) == used(entries(*old(lru)), key),
        capacity(*final(lru)) == capacity(*old(lru)),
{
    lru.get(&key).cloned()
}

/// Calls `LruCache::pop`, which removes the entry with the key.
#[verifier::external_body]
fn lru_pop(lru: &mut BlockLru, key: (u32, u32))
    ensures
        entries(*final(lru)) == without(entries(*old(lru)), key),
        capacity(*final(lru)) == capacity(*old(lru)),
{
    lru.pop(&key);
}

/// Calls `LruCache::iter`, which walks the entries, the one that was used last
/// first; here the keys are handed out.
#[verifier::external_body]
fn lru_keys(lru: &BlockLru) -> (r: Vec<(u32, u32)>)
    ensures
        r@.len() == entries(*lru).len(),
        forall|i: int| 0 <= i < r@.len() ==> #[trigger] r@[i] == entries(*lru)[i].0,
{
    lru.iter().map(|(key, _)| *key).collect()
}

/// A block of a table.
#[derive(Debug, Clone, Copy, PartialEq, Eq, Hash, Structural)]
pub struct CacheKey {
    pub sst_id: u32,
    pub block_idx: u32,
}

impl CacheKey {
    /// The table and block number.
    pub open spec fn pair(self) -> (u32, u32) {
        (self.sst_id, self.block_idx)
    }

    /// The shard that the block belongs to.
    pub open spec fn shard_index(self) -> int {
        (self.sst_id.wrapping_mul(0x9e3779b9) ^ self.block_idx) as int % NUM_SHARDS as int
    }

    fn shard(&self) -> (r: usize)
        ensures
            r == self.shard_index(),
    {
        let hash: u32 = self.sst_id.wrapping_mul(0x9e3779b9) ^ self.block_idx;
        (hash as usize) % NUM_SHARDS
    }
}

/// The cache of decoded blocks.
pub struct BlockCache {
    shards: Vec<BlockLru>,
    hits: u64,
    misses: u64,
}

/// The entries that each shard holds at most, for so many megabytes.
pub open spec fn shard_capacity(capacity_mb: int) -> nat {
    let n = capacity_mb * 1024 * 1024 / 256 / 64;
    if n < 1 {
        1
    } else {
        n as nat
    }
}

impl BlockCache {
    /// The entries of each shard.
    pub closed spec fn shards(self) -> Seq<Seq<Entry>> {
        Seq::new(self.shards@.len(), |i: int| entries(self.shards@[i]))
    }

    /// The entries that each shard holds at most.
    pub closed spec fn limits(self) -> Seq<nat> {
        Seq::new(self.shards@.len(), |i: int| capacity(self.shards@[i]))
    }

    /// How often a block was found.
    pub closed spec fn hits(self) -> u64 {
        self.hits
    }

    /// How often a block was not found.
    pub closed spec fn misses(self) -> u64 {
        self.misses
    }

    /// Every shard is there and holds at least one entry.
    pub open spec fn wf(self) -> bool {
        &&& self.shards().len() == NUM_SHARDS
        &&& self.limits().len() == NUM_SHARDS
        &&& forall|i: int| 0 <= i < NUM_SHARDS ==> #[trigger] self.limits()[i] > 0
    }

    /// The rows of a block, if it is cached.
    pub open spec fn cached(self, key: CacheKey) -> Option<Seq<InternalRecordView>> {
        find(self.shards()[key.shard_index()], key.pair())
    }

    /// An empty cache.
    pub fn new(capacity_mb: usize) -> (r: Self)
        requires
            capacity_mb * 1024 * 1024 <= usize::MAX,
        ensures
            r.wf(),
            forall|i: int| 0 <= i < NUM_SHARDS ==> #[trigger] r.shards()[i] == Seq::<Entry>::empty(),
            forall|i: int|
                0 <= i < NUM_SHARDS ==> #[trigger] r.limits()[i] == shard_capacity(
                    capacity_mb as int,
                ),
            r.hits() == 0,
            r.misses() == 0,
    {
        let blocks: usize = capacity_mb * 1024 * 1024 / 256;
        let per_shard: usize = if blocks < NUM_SHARDS {
            1
        } else {
            blocks / NUM_SHARDS
        };
        let mut shards: Vec<BlockLru> = Vec::new();
        let mut i: usize = 0;
        while i < NUM_SHARDS
            invariant
                i <= NUM_SHARDS,
                per_shard > 0,
                shards@.len() == i,
                forall|k: int| 0 <= k < i ==> entries(#[trigger] shards@[k]) == Seq::<Entry>::empty(),
                forall|k: int| 0 <= k < i ==> capacity(#[trigger] shards@[k]) == per_shard,
            decreases NUM_SHARDS - i,
        {
            shards.push(lru_new(per_shard));
            i += 1;
        }
        Self { shards, hits: 0, misses: 0 }
    }

    /// A cached block, which counts as used from now on.
    pub fn get(&mut self, key: &CacheKey) -> (r: Option<Arc<Vec<InternalRecord>>>)
        requires
            old(self).wf(),
        ensures
            final(self).wf(),
            opt_block(r) == old(self).cached(*key),
            final(self).shards() == old(self).shards().update(
                key.shard_index(),
                used(old(self).shards()[key.shard_index()], key.pair()),
            ),
            final(self).limits() == old(self).limits(),
            final(self).hits() == (if r is Some {
                old(self).hits().wrapping_add(1)
            } else {
                old(self).hits()
            }),
            final(self).misses() == (if r is Some {
                old(self).misses()
            } else {
                old(self).misses().wrapping_add(1)
            }),
    {
        let n: usize = key.shard();
        let result = lru_get(&mut self.shards[n], (key.sst_id, key.block_idx));
        if result.is_some() {
            self.hits = self.hits.wrapping_add(1);
        } else {
            self.misses = self.misses.wrapping_add(1);
        }
        assert(self.shards() =~= old(self).shards().update(
            key.shard_index(),
            used(old(self).shards()[key.shard_index()], key.pair()),
        ));
        assert(self.limits() =~= old(self).limits());
        result
    }

    /// Caches a block.
    pub fn insert(&mut self, key: CacheKey, records: Vec<InternalRecord>)
        requires
            old(self).wf(),
        ensures
            final(self).wf(),
            final(self).shards() == old(self).shards().update(
                key.shard_index(),
                put(
                    old(self).shards()[key.shard_index()],
                    old(self).limits()[key.shard_index()],
                    (key.pair(), record::views(records@)),
                ),
            ),
            final(self).limits() == old(self).limits(),
            final(self).hits() == old(self).hits(),
            final(self).misses() == old(self).misses(),
    {
        let n: usize = key.shard();
        let ghost rows = record::views(records@);
        lru_put(&mut self.shards[n], (key.sst_id, key.block_idx), Arc::new(records));
        assert(self.shards() =~= old(self).shards().update(
            key.shard_index(),
            put(
                old(self).shards()[key.shard_index()],
                old(self).limits()[key.shard_index()],
                (key.pair(), rows),
            ),
        ));
        assert(self.limits() =~= old(self).limits());
    }

    /// Drops every cached block of a table.
    pub fn invalidate_sst(&mut self, sst_id: u32)
        requires
            old(self).wf(),
        ensures
            final(self).wf(),
            final(self).shards() == Seq::new(
                NUM_SHARDS as nat,
                |i: int| evicted(old(self).shards()[i], sst_id),
            ),
            final(self).limits() == old(self).limits(),
            final(self).hits() == old(self).hits(),
            final(self).misses() == old(self).misses(),
    {
        let ghost before = self.shards();
        let mut n: usize = 0;
        while n < self.shards.len()
            invariant
                n <= self.shards@.len(),
                self.shards@.len() == NUM_SHARDS,
                before == old(self).shards(),
                before.len() == NUM_SHARDS,
                self.limits() == old(self).limits(),
                self.hits() == old(self).hits(),
                self.misses() == old(self).misses(),
                forall|i: int|
                    0 <= i < n ==> #[trigger] self.shards()[i] == evicted(before[i], sst_id),
                forall|i: int| n <= i < NUM_SHARDS ==> #[trigger] self.shards()[i] == before[i],
            decreases self.shards@.len() - n,
        {
            let ghost prior = *self;
            evict_table(&mut self.shards[n], sst_id);
            proof {
                assert(prior.shards()[n as int] == before[n as int]);
                assert(self.limits() =~= prior.limits());
                assert forall|i: int| 0 <= i < NUM_SHARDS implies #[trigger] self.shards()[i] == (if i
                    == n {
                    evicted(before[i], sst_id)
                } else {
                    prior.shards()[i]
                }) by {}
            }
            n += 1;
        }
        assert(self.shards() =~= Seq::new(
            NUM_SHARDS as nat,
            |i: int| evicted(before[i], sst_id),
        ));
    }

    /// How often a block was found, and how often not.
    pub fn hit_counts(&self) -> (r: (u64, u64))
        ensures
            r.0 == self.hits(),
            r.1 == self.misses(),
    {
        (self.hits, self.misses)
    }
}

/// The entries of another table.
pub open spec fn other_table(sst_id: u32) -> spec_fn(Entry) -> bool {
    |e: Entry| e.0.0 != sst_id
}

/// The entries that are not of the table.
pub open spec fn evicted(s: Seq<Entry>, sst_id: u32) -> Seq<Entry> {
    s.filter(other_table(sst_id))
}

/// The entries that are not of the table, or whose key is not among `keys`.
spec fn not_popped(keys: Seq<(u32, u32)>, sst_id: u32) -> spec_fn(Entry) -> bool {
    |e: Entry| !(e.0.0 == sst_id && keys.contains(e.0))
}

/// Drops the entries of a table from a shard.
fn evict_table(lru: &mut BlockLru, sst_id: u32)
    ensures
        entries(*final(lru)) == evicted(entries(*old(lru)), sst_id),
        capacity(*final(lru)) == capacity(*old(lru)),
{
    let ghost all = entries(*lru);
    let keys = lru_keys(lru);
    let mut i: usize = 0;
    proof {
        lemma_filter_all(all, not_popped(keys@.take(0), sst_id));
    }
    while i < keys.len()
        invariant
            i <= keys@.len(),
            keys@.len() == all.len(),
            forall|k: int| 0 <= k < keys@.len() ==> #[trigger] keys@[k] == all[k].0,
            capacity(*lru) == capacity(*old(lru)),
            entries(*lru) == all.filter(not_popped(keys@.take(i as int), sst_id)),
        decreases keys@.len() - i,
    {
        let key: (u32, u32) = keys[i];
        proof {
            let p = not_popped(keys@.take(i as int), sst_id);
            let q = other_key(key);
            let pq = not_popped(keys@.take(i + 1), sst_id);
            assert(keys@.take(i + 1) =~= keys@.take(i as int).push(key));
            assert forall|e: Entry| #[trigger] pq(e) == (p(e) && (key.0 != sst_id || q(e))) by {
                let t = keys@.take(i as int);
                if t.contains(e.0) {
                    let k = choose|k: int| 0 <= k < t.len() && t[k] == e.0;
                    assert(t.push(key)[k] == e.0);
                }
                if e.0 == key {
                    assert(t.push(key)[t.len() as int] == key);
                }
                if t.push(key).contains(e.0) && e.0 != key {
                    let k = choose|k: int| 0 <= k < t.push(key).len() && t.push(key)[k] == e.0;
                    assert(t[k] == e.0);
                }
            }
            if key.0 == sst_id {
                lemma_filter_filter(all, p, q, pq);
            } else {
                lemma_filter_same(all, p, pq);
            }
        }
        if key.0 == sst_id {
            lru_pop(lru, key);
        }
        i += 1;
    }
    proof {
        let p = not_popped(keys@.take(i as int), sst_id);
        let q = other_table(sst_id);
        assert(keys@.take(i as int) =~= keys@);
        assert forall|k: int| 0 <= k < all.len() implies p(all[k]) == q(#[trigger] all[k]) by {
            assert(keys@[k] == all[k].0);
            assert(keys@.contains(all[k].0));
        }
        lemma_filter_same_on(all, p, q);
    }
}

/// A filter that every entry passes leaves the list.
proof fn lemma_filter_all(s: Seq<Entry>, p: spec_fn(Entry) -> bool)
    requires
        forall|k: int| 0 <= k < s.len() ==> p(#[trigger] s[k]),
    ensures
        s.filter(p) == s,
    decreases s.len(),
{
    reveal(Seq::filter);
    if s.len() > 0 {
        lemma_filter_all(s.drop_last(), p);
        assert(p(s[s.len() - 1]));
        assert(s.drop_last().push(s.last()) =~= s);
    }
}

/// Filters that agree on a list leave the same entries.
proof fn lemma_filter_same_on(s: Seq<Entry>, p: spec_fn(Entry) -> bool, q: spec_fn(Entry) -> bool)
    requires
        forall|k: int| 0 <= k < s.len() ==> p(s[k]) == q(#[trigger] s[k]),
    ensures
        s.filter(p) == s.filter(q),
    decreases s.len(),
{
    reveal(Seq::filter);
    if s.len() > 0 {
        assert(p(s[s.len() - 1]) == q(s[s.len() - 1]));
        assert forall|k: int| 0 <= k < s.drop_last().len() implies p(s.drop_last()[k]) == q(
            #[trigger] s.drop_last()[k],
        ) by {
            assert(p(s[k]) == q(s[k]));
        }
        lemma_filter_same_on(s.drop_last(), p, q);
    }
}

proof fn lemma_filter_same(s: Seq<Entry>, p: spec_fn(Entry) -> bool, q: spec_fn(Entry) -> bool)
    requires
        forall|e: Entry| #[trigger] q(e) == p(e),
    ensures
        s.filter(p) == s.filter(q),
{
    lemma_filter_same_on(s, p, q);
}

/// Two filters, one after the other.
proof fn lemma_filter_filter(
    s: Seq<Entry>,
    p: spec_fn(Entry) -> bool,
    q: spec_fn(Entry) -> bool,
    both: spec_fn(Entry) -> bool,
)
    requires
        forall|e: Entry| #[trigger] both(e) == (p(e) && q(e)),
    ensures
        s.filter(p).filter(q) == s.filter(both),
    decreases s.len(),
{
    reveal(Seq::filter);
    if s.len() > 0 {
        lemma_filter_filter(s.drop_last(), p, q, both);
        let front = s.drop_last().filter(p);
        assert(both(s.last()) == (p(s.last()) && q(s.last())));
        if p(s.last()) {
            assert(front.push(s.last()).drop_last() =~= front);
        }
    }
}

/// What was put is found.
pub proof fn law_put_found(s: Seq<Entry>, cap: nat, entry: Entry)
    ensures
        find(put(s, cap, entry), entry.0) == Some(entry.1),
{
    let new = put(s, cap, entry);
    assert(new[0] == entry);
}

/// Putting an entry changes no other: what is found of another key was there.
pub proof fn law_put_keeps(s: Seq<Entry>, cap: nat, entry: Entry, other: (u32, u32))
    requires
        cap > 0,
        other != entry.0,
        find(put(s, cap, entry), other) is Some,
    ensures
        find(put(s, cap, entry), other) == find(s, other),
{
    let rest = without(s, entry.0);
    let new = put(s, cap, entry);
    let kept = if rest.len() < cap {
        rest
    } else {
        rest.take(cap - 1)
    };
    assert(new.drop_first() =~= kept);
    if rest.len() >= cap {
        lemma_find_take(rest, cap - 1, other);
    }
    lemma_find_without(s, entry.0, other);
}

proof fn lemma_find_take(s: Seq<Entry>, n: int, key: (u32, u32))
    requires
        0 <= n <= s.len(),
        find(s.take(n), key) is Some,
    ensures
        find(s, key) == find(s.take(n), key),
    decreases s.len(),
{
    if n > 0 && s[0].0 != key {
        assert(s.take(n).drop_first() =~= s.drop_first().take(n - 1));
        lemma_find_take(s.drop_first(), n - 1, key);
    }
}

/// A shard never holds more than its limit.
pub proof fn law_put_bounded(s: Seq<Entry>, cap: nat, entry: Entry)
    requires
        cap > 0,
    ensures
        put(s, cap, entry).len() <= cap,
{
}

/// Using an entry loses none and changes no rows.
pub proof fn law_used_keeps(s: Seq<Entry>, key: (u32, u32), other: (u32, u32))
    ensures
        find(used(s, key), other) == find(s, other),
{
    if find(s, key) is Some {
        let rows = find(s, key)->0;
        let new = used(s, key);
        assert(new[0] == (key, rows));
        assert(new.drop_first() =~= without(s, key));
        if other != key {
            lemma_find_without(s, key, other);
        }
    }
}

/// After the blocks of a table are dropped none of them is found, and every other
/// block is.
pub proof fn law_evicted(s: Seq<Entry>, sst_id: u32, key: (u32, u32))
    ensures
        find(evicted(s, sst_id), key) == (if key.0 == sst_id {
            None
        } else {
            find(s, key)
        }),
{
    lemma_find_filter(s, other_table(sst_id), key);
}

proof fn lemma_find_without(s: Seq<Entry>, key: (u32, u32), other: (u32, u32))
    requires
        other != key,
    ensures
        find(without(s, key), other) == find(s, other),
{
    lemma_find_filter(s, other_key(key), other);
}

/// A filter on keys loses the keys that do not pass, and no other.
proof fn lemma_find_filter(s: Seq<Entry>, p: spec_fn(Entry) -> bool, key: (u32, u32))
    requires
        forall|a: Entry, b: Entry| a.0 == b.0 ==> #[trigger] p(a) == #[trigger] p(b),
    ensures
        find(s.filter(p), key) == (if s.len() > 0 && !p((key, s[0].1)) {
            None
        } else {
            find(s, key)
        }),
    decreases s.len(),
{
    reveal(Seq::filter);
    if s.len() > 0 {
        let rest = s.drop_first();
        lemma_filter_first(s, p);
        lemma_find_filter(rest, p, key);
        let kept = rest.filter(p);
        assert(p(s[0]) == p((s[0].0, s[0].1)));
        if p(s[0]) {
            assert((seq![s[0]] + kept).drop_first() =~= kept);
        }
        if rest.len() > 0 {
            assert(p((key, s[0].1)) == p((key, rest[0].1)));
        }
    }
}

/// Filtering goes entry by entry from the front, too.
proof fn lemma_filter_first(s: Seq<Entry>, p: spec_fn(Entry) -> bool)
    requires
        s.len() > 0,
    ensures
        s.filter(p) == (if p(s[0]) {
            seq![s[0]] + s.drop_first().filter(p)
        } else {
            s.drop_first().filter(p)
        }),
    decreases s.len(),
{
    reveal(Seq::filter);
    if s.len() == 1 {
        assert(s.drop_last().filter(p) =~= Seq::<Entry>::empty());
        assert(s.drop_first().filter(p) =~= Seq::<Entry>::empty());
        if p(s[0]) {
            assert(Seq::<Entry>::empty().push(s[0]) =~= seq![s[0]] + Seq::<Entry>::empty());
        }
    } else {
        lemma_filter_first(s.drop_last(), p);
        assert(s.drop_last().drop_first() =~= s.drop_first().drop_last());
        let mid = s.drop_first().drop_last().filter(p);
        if p(s[0]) && p(s.last()) {
            assert((seq![s[0]] + mid).push(s.last()) =~= seq![s[0]] + mid.push(s.last()));
        }
    }
}

} // verus!
