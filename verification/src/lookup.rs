//! Lookups: what the memtables and the blocks of tables tell of a key and time.

use std::sync::Arc;
use vstd::prelude::*;
use crate::block_index::BlockId;
use crate::bytes::bytes_eq;
use crate::cache;
use crate::cache::{BlockCache, CacheKey};
use crate::record;
use crate::record::{InternalRecord, InternalRecordView, Op, Record, RecordView};
use crate::scan;
use crate::sstable::{clone_records, SstReader};
use crate::versions;

verus! {

/// What a lookup tells.
#[derive(Debug)]
pub enum Lookup {
    /// The record.
    Found(Record),
    /// The record was deleted, so nothing older needs to be read.
    Deleted,
    /// Nothing is known of the key and time.
    Absent,
}

/// What a [`Lookup`] holds.
pub enum LookupView {
    Found(RecordView),
    Deleted,
    Absent,
}

impl View for Lookup {
    type V = LookupView;

    open spec fn view(&self) -> LookupView {
        match self {
            Lookup::Found(rec) => LookupView::Found(rec@),
            Lookup::Deleted => LookupView::Deleted,
            Lookup::Absent => LookupView::Absent,
        }
    }
}

impl LookupView {
    /// The record, if there is one.
    pub open spec fn record(self) -> Option<RecordView> {
        match self {
            LookupView::Found(rec) => Some(rec),
            _ => None,
        }
    }
}

/// What a row tells of its key and time.
pub open spec fn told_by(row: InternalRecordView) -> LookupView {
    if row.op == Op::Put {
        LookupView::Found(row.record())
    } else {
        LookupView::Deleted
    }
}

/// What the row that a lookup in the memtables found tells.
pub fn resolve_lookup(found: Option<InternalRecord>) -> (r: Lookup)
    ensures
        r@ == match found {
            Some(rec) => told_by(rec@),
            None => LookupView::Absent,
        },
{
    match found {
        Some(rec) => {
            if rec.op == Op::Put {
                Lookup::Found(rec.into_record_owned())
            } else {
                Lookup::Deleted
            }
        },
        None => Lookup::Absent,
    }
}

/// What a block tells of a key and time: what the newest row with them tells that
/// has not expired. A range tombstone is no such row.
pub open spec fn told_in(rows: Seq<InternalRecordView>, key: Seq<u8>, ts: i64, now: i64) -> LookupView {
    match versions::current(versions::point_rows(scan::live(rows, now)), key, ts) {
        Some(row) => told_by(row),
        None => LookupView::Absent,
    }
}

/// Looks for a key and time in a block.
pub fn find_in_records(records: &[InternalRecord], key: &[u8], ts: i64, now_us: i64) -> (r: Lookup)
    ensures
        r@ == told_in(record::views(records@), key@, ts, now_us),
{
    let ghost rows = record::views(records@);
    let mut best: Option<usize> = None;
    let mut i: usize = 0;
    proof {
        reveal(Seq::filter);
        assert(scan::live(rows.take(0), now_us) =~= Seq::<InternalRecordView>::empty());
        assert(versions::point_rows(scan::live(rows.take(0), now_us)) =~= Seq::<
            InternalRecordView,
        >::empty());
    }
    while i < records.len()
        invariant
            i <= records@.len(),
            rows == record::views(records@),
            match best {
                Some(k) => k < i && versions::current(
                    versions::point_rows(scan::live(rows.take(i as int), now_us)),
                    key@,
                    ts,
                ) == Some(rows[k as int]),
                None => versions::current(
                    versions::point_rows(scan::live(rows.take(i as int), now_us)),
                    key@,
                    ts,
                ) is None,
            },
        decreases records@.len() - i,
    {
        let rec = &records[i];
        proof {
            reveal(Seq::filter);
            let part = rows.take(i + 1);
            let front = scan::live(rows.take(i as int), now_us);
            assert(part.drop_last() =~= rows.take(i as int));
            assert(part.last() == rec@);
            if rec@.expire_at > now_us {
                assert(scan::live(part, now_us) == front.push(rec@));
                assert(front.push(rec@).drop_last() =~= front);
                if rec@.op != Op::DeleteRange {
                    let points = versions::point_rows(front);
                    assert(versions::point_rows(scan::live(part, now_us)) == points.push(rec@));
                    assert(points.push(rec@).drop_last() =~= points);
                }
            }
        }
        if rec.expire_at > now_us && rec.op != Op::DeleteRange && rec.ts == ts && bytes_eq(
            &rec.key,
            key,
        ) {
            let newer: bool = match best {
                Some(k) => records[k].seq <= rec.seq,
                None => true,
            };
            if newer {
                best = Some(i);
            }
        }
        i += 1;
    }
    assert(rows.take(i as int) =~= rows);
    match best {
        Some(k) => {
            if records[k].op == Op::Put {
                Lookup::Found(records[k].to_record())
            } else {
                Lookup::Deleted
            }
        },
        None => Lookup::Absent,
    }
}

/// A table file that is open: its reader, and what the file holds.
pub struct Table<'a> {
    pub reader: &'a SstReader,
    pub data: &'a [u8],
}

/// Where the table with the id stands in the list.
pub open spec fn table_at(tables: Seq<Table>, sst_id: u32) -> Option<int>
    decreases tables.len(),
{
    if tables.len() == 0 {
        None
    } else {
        match table_at(tables.drop_last(), sst_id) {
            Some(i) => Some(i),
            None => if tables.last().reader.id() == sst_id {
                Some(tables.len() - 1)
            } else {
                None
            },
        }
    }
}

/// The rows of a block, where its table is open and the block can be read.
pub open spec fn rows_of(tables: Seq<Table>, block: BlockId) -> Option<Seq<InternalRecordView>> {
    match table_at(tables, block.0) {
        Some(i) => match tables[i].reader.block(tables[i].data@, block.1) {
            Ok((_, rows)) => Some(rows),
            Err(_) => None,
        },
        None => None,
    }
}

/// The cache holds of each open table what its file holds.
pub open spec fn coherent(cache: BlockCache, tables: Seq<Table>) -> bool {
    forall|key: CacheKey| #[trigger]
        cache.cached(key) is Some && table_at(tables, key.sst_id) is Some ==> rows_of(
            tables,
            (key.sst_id, key.block_idx),
        ) == cache.cached(key)
}

/// What a cache holds after blocks of the open tables were read through it: blocks
/// that it held, unchanged, and blocks of these tables.
pub open spec fn filled(before: BlockCache, after: BlockCache, tables: Seq<Table>) -> bool {
    forall|key: CacheKey| #[trigger]
        after.cached(key) is Some ==> after.cached(key) == before.cached(key) || table_at(
            tables,
            key.sst_id,
        ) is Some
}

/// Where the table with the id stands in the list.
pub fn find_table(tables: &[Table], sst_id: u32) -> (r: Option<usize>)
    ensures
        match r {
            Some(i) => table_at(tables@, sst_id) == Some(i as int) && i < tables@.len()
                && tables@[i as int].reader.id() == sst_id,
            None => table_at(tables@, sst_id) is None,
        },
{
    let mut i: usize = 0;
    while i < tables.len()
        invariant
            i <= tables@.len(),
            table_at(tables@.take(i as int), sst_id) is None,
        decreases tables@.len() - i,
    {
        proof {
            assert(tables@.take(i + 1).drop_last() =~= tables@.take(i as int));
        }
        if tables[i].reader.sst_id() == sst_id {
            proof {
                lemma_table_found(tables@, i + 1, sst_id);
            }
            return Some(i);
        }
        i += 1;
    }
    assert(tables@.take(i as int) =~= tables@);
    None
}

/// A table that is found in the front of a list is the one that is found.
proof fn lemma_table_found(tables: Seq<Table>, n: int, sst_id: u32)
    requires
        0 <= n <= tables.len(),
        table_at(tables.take(n), sst_id) is Some,
    ensures
        table_at(tables, sst_id) == table_at(tables.take(n), sst_id),
    decreases tables.len() - n,
{
    if n < tables.len() {
        assert(tables.take(n + 1).drop_last() =~= tables.take(n));
        lemma_table_found(tables, n + 1, sst_id);
    } else {
        assert(tables.take(n) =~= tables);
    }
}

/// What is cached after a block of a table was read: what was, or that block.
proof fn lemma_read_through(
    before: BlockCache,
    after: BlockCache,
    table: Table,
    idx: u32,
    key: CacheKey,
)
    requires
        before.wf(),
        table.reader.cache_after(table.data@, idx, before, after),
        after.cached(key) is Some,
    ensures
        after.cached(key) == before.cached(key) || (key == (CacheKey {
            sst_id: table.reader.id(),
            block_idx: idx,
        }) && (table.reader.block(table.data@, idx) matches Ok((_, rows)) && after.cached(key)
            == Some(rows))),
{
    let mine = CacheKey { sst_id: table.reader.id(), block_idx: idx };
    let at = mine.shard_index();
    let shard = before.shards()[at];
    assert(0 <= at < cache::NUM_SHARDS);
    assert(before.limits()[at] > 0);
    match before.cached(mine) {
        Some(rows) => {
            cache::law_used_keeps(shard, mine.pair(), key.pair());
        },
        None => if let Ok((header, rows)) = table.reader.block(table.data@, idx) {
            if key == mine {
                cache::law_put_found(shard, before.limits()[at], (mine.pair(), rows));
            } else if key.shard_index() == at {
                assert(key.pair() != mine.pair());
                cache::law_put_keeps(shard, before.limits()[at], (mine.pair(), rows), key.pair());
            }
        },
    }
}

/// A cache that is coherent stays so when a block is read through it.
proof fn lemma_stays_coherent(
    before: BlockCache,
    after: BlockCache,
    tables: Seq<Table>,
    i: int,
    idx: u32,
)
    requires
        before.wf(),
        coherent(before, tables),
        0 <= i < tables.len(),
        table_at(tables, tables[i].reader.id()) == Some(i),
        tables[i].reader.cache_after(tables[i].data@, idx, before, after),
    ensures
        coherent(after, tables),
        filled(before, after, tables),
{
    assert forall|key: CacheKey| #[trigger]
        after.cached(key) is Some && table_at(tables, key.sst_id) is Some implies rows_of(
        tables,
        (key.sst_id, key.block_idx),
    ) == after.cached(key) by {
        lemma_read_through(before, after, tables[i], idx, key);
    }
    assert forall|key: CacheKey| #[trigger] after.cached(key) is Some implies after.cached(key)
        == before.cached(key) || table_at(tables, key.sst_id) is Some by {
        lemma_read_through(before, after, tables[i], idx, key);
    }
}

/// Reads a block of an open table through the cache.
pub fn read_table_block(tables: &[Table], block: BlockId, cache: &mut BlockCache) -> (r: Option<
    Arc<Vec<InternalRecord>>,
>)
    requires
        old(cache).wf(),
        coherent(*old(cache), tables@),
    ensures
        final(cache).wf(),
        coherent(*final(cache), tables@),
        filled(*old(cache), *final(cache), tables@),
        cache::opt_block(r) == rows_of(tables@, block),
{
    match find_table(tables, block.0) {
        None => None,
        Some(i) => {
            let table = &tables[i];
            let ghost before = *cache;
            let read = table.reader.read_block_arc(table.data, block.1, cache);
            proof {
                lemma_stays_coherent(before, *cache, tables@, i as int, block.1);
                let key = CacheKey { sst_id: block.0, block_idx: block.1 };
                assert(before.cached(key) is Some ==> rows_of(tables@, block) == before.cached(key));
            }
            match read {
                Ok(records) => Some(records),
                Err(_) => None,
            }
        },
    }
}

/// A table that is opened leaves the cache right, where none of its blocks is
/// cached.
pub proof fn law_opened_table_coherent(cache: BlockCache, tables: Seq<Table>, opened: Table)
    requires
        coherent(cache, tables),
        forall|key: CacheKey|
            #[trigger] cache.cached(key) is Some ==> key.sst_id != opened.reader.id(),
    ensures
        coherent(cache, tables.push(opened)),
{
    let after = tables.push(opened);
    assert(after.drop_last() =~= tables);
    assert forall|key: CacheKey| #[trigger]
        cache.cached(key) is Some && table_at(after, key.sst_id) is Some implies rows_of(
        after,
        (key.sst_id, key.block_idx),
    ) == cache.cached(key) by {
        lemma_table_in_list(tables, key.sst_id);
        assert(table_at(after, key.sst_id) == table_at(tables, key.sst_id));
    }
}

/// A table that is found stands in the list.
pub proof fn lemma_table_in_list(tables: Seq<Table>, sst_id: u32)
    ensures
        table_at(tables, sst_id) matches Some(i) ==> 0 <= i < tables.len(),
    decreases tables.len(),
{
    if tables.len() > 0 {
        lemma_table_in_list(tables.drop_last(), sst_id);
    }
}

/// Looks for a key and time in a block of an open table. A block that cannot be
/// read tells nothing.
pub fn block_search(
    tables: &[Table],
    block: BlockId,
    key: &[u8],
    ts: i64,
    now_us: i64,
    cache: &mut BlockCache,
) -> (r: Lookup)
    requires
        old(cache).wf(),
        coherent(*old(cache), tables@),
    ensures
        final(cache).wf(),
        coherent(*final(cache), tables@),
        filled(*old(cache), *final(cache), tables@),
        match rows_of(tables@, block) {
            Some(rows) => r@ == told_in(rows, key@, ts, now_us),
            None => r is Absent,
        },
{
    match read_table_block(tables, block, cache) {
        Some(records) => find_in_records(&records, key, ts, now_us),
        None => Lookup::Absent,
    }
}

/// What the blocks, one after another, tell of a key and time: what the first block
/// tells that tells something.
pub open spec fn blocks_told(
    tables: Seq<Table>,
    blocks: Seq<BlockId>,
    key: Seq<u8>,
    ts: i64,
    now: i64,
) -> LookupView
    decreases blocks.len(),
{
    if blocks.len() == 0 {
        LookupView::Absent
    } else {
        let first = match rows_of(tables, blocks[0]) {
            Some(rows) => told_in(rows, key, ts, now),
            None => LookupView::Absent,
        };
        if first == LookupView::Absent {
            blocks_told(tables, blocks.drop_first(), key, ts, now)
        } else {
            first
        }
    }
}

/// A lookup sees what was written last: of the blocks, the first tells that holds a
/// row with the key and time which has not expired, and there the newest such row.
pub proof fn law_lookup_sees_first(
    tables: Seq<Table>,
    blocks: Seq<BlockId>,
    wanted: (Seq<u8>, i64),
    now: i64,
    i: int,
    row: InternalRecordView,
)
    requires
        0 <= i < blocks.len(),
        forall|j: int|
            0 <= j < i ==> (rows_of(tables, #[trigger] blocks[j]) matches Some(rows)
                ==> versions::current(
                versions::point_rows(scan::live(rows, now)),
                wanted.0,
                wanted.1,
            ) is None),
        rows_of(tables, blocks[i]) matches Some(rows) && versions::current(
            versions::point_rows(scan::live(rows, now)),
            wanted.0,
            wanted.1,
        ) == Some(row),
    ensures
        blocks_told(tables, blocks, wanted.0, wanted.1, now) == told_by(row),
    decreases i,
{
    let rest = blocks.drop_first();
    if i > 0 {
        assert forall|j: int| 0 <= j < i - 1 implies (rows_of(tables, #[trigger] rest[j]) matches Some(
            rows,
        ) ==> versions::current(
            versions::point_rows(scan::live(rows, now)),
            wanted.0,
            wanted.1,
        ) is None) by {
            assert(rest[j] == blocks[j + 1]);
        }
        assert(rest[i - 1] == blocks[i]);
        assert(rows_of(tables, blocks[0]) matches Some(rows) ==> versions::current(
            versions::point_rows(scan::live(rows, now)),
            wanted.0,
            wanted.1,
        ) is None);
        law_lookup_sees_first(tables, rest, wanted, now, i - 1, row);
    }
}

/// Looks for a key and time in the blocks, one after another.
pub fn search_blocks(
    tables: &[Table],
    blocks: &[BlockId],
    key: &[u8],
    ts: i64,
    now_us: i64,
    cache: &mut BlockCache,
) -> (r: Lookup)
    requires
        old(cache).wf(),
        coherent(*old(cache), tables@),
    ensures
        final(cache).wf(),
        coherent(*final(cache), tables@),
        filled(*old(cache), *final(cache), tables@),
        r@ == blocks_told(tables@, blocks@, key@, ts, now_us),
{
    let mut i: usize = 0;
    assert(blocks@.skip(0) =~= blocks@);
    while i < blocks.len()
        invariant
            i <= blocks@.len(),
            cache.wf(),
            coherent(*cache, tables@),
            filled(*old(cache), *cache, tables@),
            blocks_told(tables@, blocks@, key@, ts, now_us) == blocks_told(
                tables@,
                blocks@.skip(i as int),
                key@,
                ts,
                now_us,
            ),
        decreases blocks@.len() - i,
    {
        let found = block_search(tables, blocks[i], key, ts, now_us, cache);
        assert(blocks@.skip(i as int).drop_first() =~= blocks@.skip(i + 1));
        match found {
            Lookup::Absent => {},
            _ => {
                return found;
            },
        }
        i += 1;
    }
    Lookup::Absent
}

/// The rows of the blocks that can be read.
pub open spec fn readable_rows(tables: Seq<Table>, blocks: Seq<BlockId>) -> scan::Sources
    decreases blocks.len(),
{
    if blocks.len() == 0 {
        Seq::empty()
    } else {
        let front = readable_rows(tables, blocks.drop_last());
        match rows_of(tables, blocks.last()) {
            Some(rows) => front.push(rows),
            None => front,
        }
    }
}

/// Reads the blocks that can be read: for a full scan past the cache, else
/// through it.
pub fn load_blocks(
    tables: &[Table],
    blocks: &[BlockId],
    full_scan: bool,
    cache: &mut BlockCache,
) -> (r: Vec<Vec<InternalRecord>>)
    requires
        old(cache).wf(),
        coherent(*old(cache), tables@),
    ensures
        final(cache).wf(),
        coherent(*final(cache), tables@),
        filled(*old(cache), *final(cache), tables@),
        full_scan ==> *final(cache) == *old(cache),
        scan::block_contents(r@) == readable_rows(tables@, blocks@),
{
    let mut out: Vec<Vec<InternalRecord>> = Vec::new();
    let mut i: usize = 0;
    assert(scan::block_contents(out@) =~= readable_rows(tables@, blocks@.take(0)));
    while i < blocks.len()
        invariant
            i <= blocks@.len(),
            cache.wf(),
            coherent(*cache, tables@),
            filled(*old(cache), *cache, tables@),
            full_scan ==> *cache == *old(cache),
            scan::block_contents(out@) == readable_rows(tables@, blocks@.take(i as int)),
        decreases blocks@.len() - i,
    {
        assert(blocks@.take(i + 1).drop_last() =~= blocks@.take(i as int));
        let ghost before = scan::block_contents(out@);
        let block: BlockId = blocks[i];
        let records: Option<Vec<InternalRecord>> = if full_scan {
            match find_table(tables, block.0) {
                None => None,
                Some(t) => match tables[t].reader.read_block_decompress(tables[t].data, block.1) {
                    Ok((_, records)) => Some(records),
                    Err(_) => None,
                },
            }
        } else {
            match read_table_block(tables, block, cache) {
                Some(shared) => Some(clone_records(&shared)),
                None => None,
            }
        };
        if let Some(records) = records {
            out.push(records);
            assert(scan::block_contents(out@) =~= before.push(record::views(records@)));
        }
        i += 1;
    }
    assert(blocks@.take(i as int) =~= blocks@);
    out
}

/// An open table is found by its id: the first with the id, and none where none has it.
pub proof fn law_table_found(tables: Seq<Table>, sst_id: u32)
    ensures
        match table_at(tables, sst_id) {
            Some(i) => 0 <= i < tables.len() && tables[i].reader.id() == sst_id && forall|k: int|
                0 <= k < i ==> (#[trigger] tables[k]).reader.id() != sst_id,
            None => forall|k: int|
                0 <= k < tables.len() ==> (#[trigger] tables[k]).reader.id() != sst_id,
        },
    decreases tables.len(),
{
    if tables.len() > 0 {
        let front = tables.drop_last();
        law_table_found(front, sst_id);
        assert(tables[tables.len() - 1] == tables.last());
        assert forall|k: int| 0 <= k < front.len() implies #[trigger] tables[k] == front[k] by {}
    }
}

} // verus!
