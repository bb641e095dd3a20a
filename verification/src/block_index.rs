//! Which blocks a query has to read, as far as the manifest tells.

use vstd::prelude::*;
use crate::bytes;
use crate::bytes::{bytes_le, copy_bytes, starts_with};
use crate::manifest;
use crate::manifest::{BlockInfo, BlockInfoView, ManifestState, StateView};
use crate::memtable;
use crate::record;
use crate::record::{InternalRecordView, KeyFilter, KeyFilterView, Op};
use crate::sort;
use crate::sort::SortOrder;
use crate::sstable;

verus! {

broadcast use vstd::std_specs::hash::group_hash_axioms;

/// A block: the table's id and the block's number in it.
pub type BlockId = (u32, u32);

/// Whether a key that the filter asks for can stand between the block's keys.
pub open spec fn keys_meet(block: BlockInfoView, filter: KeyFilterView) -> bool {
    match filter {
        KeyFilterView::All => true,
        KeyFilterView::Prefix(p) => bytes::lex_le(p, block.max_key) && (bytes::lex_le(
            block.min_key,
            p,
        ) || bytes::has_prefix(block.min_key, p)),
        KeyFilterView::Range { start, end } => bytes::lex_le(start, block.max_key)
            && bytes::lex_le(block.min_key, end),
    }
}

/// Whether a time that the query asks for can stand between the block's times.
pub open spec fn times_meet(block: BlockInfoView, times: Option<(i64, i64)>) -> bool {
    match times {
        Some((start, end)) => start <= block.max_ts && block.min_ts <= end,
        None => true,
    }
}

/// Whether a query may find something in the block.
pub open spec fn may_hold(
    block: BlockInfoView,
    filter: KeyFilterView,
    times: Option<(i64, i64)>,
    now: i64,
) -> bool {
    block.max_expire > now && keys_meet(block, filter) && times_meet(block, times)
}

/// The blocks of a table in which a query may find something.
pub open spec fn table_candidates(
    sst_id: u32,
    blocks: Seq<BlockInfoView>,
    filter: KeyFilterView,
    times: Option<(i64, i64)>,
    now: i64,
) -> Seq<BlockId>
    decreases blocks.len(),
{
    if blocks.len() == 0 {
        Seq::empty()
    } else {
        let front = table_candidates(sst_id, blocks.drop_last(), filter, times, now);
        if may_hold(blocks.last(), filter, times, now) {
            front.push((sst_id, blocks.last().block_idx))
        } else {
            front
        }
    }
}

/// The blocks of the table as the manifest lists them.
pub open spec fn blocks_of(state: StateView, sst_id: u32) -> Seq<BlockInfoView> {
    if state.block_infos.contains_key(sst_id) {
        state.block_infos[sst_id]
    } else {
        Seq::empty()
    }
}

/// The blocks of the tables in which a query may find something, table by table
/// from the last to the first.
pub open spec fn candidates(
    state: StateView,
    ids: Seq<u32>,
    filter: KeyFilterView,
    times: Option<(i64, i64)>,
    now: i64,
) -> Seq<BlockId>
    decreases ids.len(),
{
    if ids.len() == 0 {
        Seq::empty()
    } else {
        table_candidates(ids.last(), blocks_of(state, ids.last()), filter, times, now) + candidates(
            state,
            ids.drop_last(),
            filter,
            times,
            now,
        )
    }
}

/// How many blocks the tables have.
pub open spec fn block_total(state: StateView, ids: Seq<u32>) -> usize
    decreases ids.len(),
{
    if ids.len() == 0 {
        0
    } else {
        block_total(state, ids.drop_last()).wrapping_add(
            blocks_of(state, ids.last()).len() as usize,
        )
    }
}

/// Counts the blocks of the tables.
pub fn count_blocks(state: &ManifestState) -> (r: usize)
    ensures
        r == block_total(state@, state@.active),
{
    let ids = &state.active_sst_ids;
    let mut total: usize = 0;
    let mut i: usize = 0;
    assert(ids@.take(0) =~= Seq::<u32>::empty());
    while i < ids.len()
        invariant
            i <= ids@.len(),
            ids@ == state@.active,
            total == block_total(state@, ids@.take(i as int)),
        decreases ids@.len() - i,
    {
        assert(ids@.take(i + 1).drop_last() =~= ids@.take(i as int));
        let count: usize = match state.block_infos.get(&ids[i]) {
            Some(blocks) => {
                assert(blocks_of(state@, ids@[i as int]) == manifest::block_views(blocks@));
                blocks.len()
            },
            None => 0,
        };
        total = total.wrapping_add(count);
        i += 1;
    }
    assert(ids@.take(i as int) =~= ids@);
    total
}

/// Whether the table's Bloom filter lets the key pass. A filter without bits
/// tells nothing.
pub open spec fn filter_passes(state: StateView, sst_id: u32, key: Seq<u8>) -> bool {
    if state.sstables.contains_key(sst_id) {
        match state.sstables[sst_id].bloom {
            Some(bloom) => bloom.passes(key),
            None => true,
        }
    } else {
        true
    }
}

/// The blocks that may hold the key, from the last table to the first.
pub open spec fn point_candidates(state: StateView, ids: Seq<u32>, key: Seq<u8>, now: i64) -> Seq<
    BlockId,
>
    decreases ids.len(),
{
    if ids.len() == 0 {
        Seq::empty()
    } else {
        let id = ids.last();
        let rest = point_candidates(state, ids.drop_last(), key, now);
        if filter_passes(state, id, key) {
            table_candidates(
                id,
                blocks_of(state, id),
                KeyFilterView::Range { start: key, end: key },
                None,
                now,
            ) + rest
        } else {
            rest
        }
    }
}

fn block_may_hold(block: &BlockInfo, filter: &KeyFilter, times: Option<(i64, i64)>, now_us: i64) -> (r:
    bool)
    ensures
        r == may_hold(block@, filter@, times, now_us),
{
    if block.max_expire <= now_us {
        return false;
    }
    let keys: bool = match filter {
        KeyFilter::All => true,
        KeyFilter::Prefix(p) => bytes_le(p, &block.max_key) && (bytes_le(&block.min_key, p)
            || starts_with(&block.min_key, p)),
        KeyFilter::Range { start, end } => bytes_le(start, &block.max_key) && bytes_le(
            &block.min_key,
            end,
        ),
    };
    let in_time: bool = match times {
        Some((start, end)) => start <= block.max_ts && block.min_ts <= end,
        None => true,
    };
    keys && in_time
}

/// Appends the blocks of a table in which the query may find something.
fn push_candidates(
    state: &ManifestState,
    sst_id: u32,
    filter: &KeyFilter,
    times: Option<(i64, i64)>,
    now_us: i64,
    out: &mut Vec<BlockId>,
)
    ensures
        final(out)@ == old(out)@ + table_candidates(
            sst_id,
            blocks_of(state@, sst_id),
            filter@,
            times,
            now_us,
        ),
{
    let ghost start = out@;
    match state.block_infos.get(&sst_id) {
        None => {
            assert(out@ =~= start + table_candidates(
                sst_id,
                blocks_of(state@, sst_id),
                filter@,
                times,
                now_us,
            ));
        },
        Some(blocks) => {
            let ghost list = manifest::block_views(blocks@);
            assert(blocks_of(state@, sst_id) == list);
            let mut i: usize = 0;
            assert(out@ =~= start + table_candidates(sst_id, list.take(0), filter@, times, now_us));
            while i < blocks.len()
                invariant
                    i <= blocks@.len(),
                    list == manifest::block_views(blocks@),
                    out@ == start + table_candidates(
                        sst_id,
                        list.take(i as int),
                        filter@,
                        times,
                        now_us,
                    ),
                decreases blocks@.len() - i,
            {
                assert(list.take(i + 1).drop_last() =~= list.take(i as int));
                let ghost before = out@;
                if block_may_hold(&blocks[i], filter, times, now_us) {
                    out.push((sst_id, blocks[i].block_idx));
                }
                assert(out@ =~= start + table_candidates(
                    sst_id,
                    list.take(i + 1),
                    filter@,
                    times,
                    now_us,
                ));
                i += 1;
            }
            assert(list.take(i as int) =~= list);
        },
    }
}

/// The blocks in which a query may find something, newest table first.
pub fn candidate_blocks(
    state: &ManifestState,
    filter: &KeyFilter,
    times: Option<(i64, i64)>,
    now_us: i64,
) -> (r: Vec<BlockId>)
    ensures
        r@ == candidates(state@, state@.active, filter@, times, now_us),
{
    let ids = &state.active_sst_ids;
    let mut out: Vec<BlockId> = Vec::new();
    let mut n: usize = ids.len();
    assert(ids@.take(n as int) =~= ids@);
    assert(out@ + candidates(state@, ids@, filter@, times, now_us) =~= candidates(
        state@,
        ids@,
        filter@,
        times,
        now_us,
    ));
    while n > 0
        invariant
            n <= ids@.len(),
            ids@ == state@.active,
            out@ + candidates(state@, ids@.take(n as int), filter@, times, now_us) == candidates(
                state@,
                ids@,
                filter@,
                times,
                now_us,
            ),
        decreases n,
    {
        let id: u32 = ids[n - 1];
        let ghost before = out@;
        assert(ids@.take(n as int).drop_last() =~= ids@.take(n - 1));
        push_candidates(state, id, filter, times, now_us, &mut out);
        proof {
            let mine = table_candidates(id, blocks_of(state@, id), filter@, times, now_us);
            let rest = candidates(state@, ids@.take(n - 1), filter@, times, now_us);
            assert(before + (mine + rest) =~= out@ + rest);
        }
        n -= 1;
    }
    assert(out@ + Seq::<BlockId>::empty() =~= out@);
    out
}

fn bloom_passes(state: &ManifestState, sst_id: u32, key: &Vec<u8>) -> (r: bool)
    ensures
        r == filter_passes(state@, sst_id, key@),
{
    match state.sstables.get(&sst_id) {
        None => true,
        Some(info) => {
            assert(state@.sstables[sst_id] == info@);
            match &info.bloom {
                None => true,
                Some(bloom) => bloom.check(key),
            }
        },
    }
}

/// The blocks that may hold the key, newest table first.
pub fn point_blocks(state: &ManifestState, key: Vec<u8>, now_us: i64) -> (r: Vec<BlockId>)
    ensures
        r@ == point_candidates(state@, state@.active, key@, now_us),
{
    let ids = &state.active_sst_ids;
    let filter = KeyFilter::Range { start: copy_bytes(&key), end: copy_bytes(&key) };
    let mut out: Vec<BlockId> = Vec::new();
    let mut n: usize = ids.len();
    assert(ids@.take(n as int) =~= ids@);
    while n > 0
        invariant
            n <= ids@.len(),
            ids@ == state@.active,
            (filter@ == KeyFilterView::Range { start: key@, end: key@ }),
            out@ + point_candidates(state@, ids@.take(n as int), key@, now_us) == point_candidates(
                state@,
                ids@,
                key@,
                now_us,
            ),
        decreases n,
    {
        let id: u32 = ids[n - 1];
        let ghost before = out@;
        let ghost rest = point_candidates(state@, ids@.take(n - 1), key@, now_us);
        assert(ids@.take(n as int).drop_last() =~= ids@.take(n - 1));
        if bloom_passes(state, id, &key) {
            push_candidates(state, id, &filter, None, now_us, &mut out);
            proof {
                let mine = table_candidates(
                    id,
                    blocks_of(state@, id),
                    KeyFilterView::Range { start: key@, end: key@ },
                    None,
                    now_us,
                );
                assert(before + (mine + rest) =~= out@ + rest);
            }
        }
        n -= 1;
    }
    assert(out@ + Seq::<BlockId>::empty() =~= out@);
    out
}

/// No block is passed over wrongly: a sorted block with a row that has not expired
/// and that the query asks for is one in which the query may find something.
pub proof fn law_no_block_missed(
    idx: u32,
    rows: Seq<InternalRecordView>,
    i: int,
    filter: KeyFilterView,
    times: Option<(i64, i64)>,
    now: i64,
)
    requires
        sort::sorted(SortOrder::KeyTs, rows),
        0 <= i < rows.len(),
        rows[i].expire_at > now,
        memtable::admits_key(filter, rows[i].key),
        memtable::admits_ts(times, rows[i].ts),
    ensures
        may_hold(sstable::block_info(idx, rows), filter, times, now),
{
    let o = SortOrder::KeyTs;
    let n = rows.len() - 1;
    let key = rows[i].key;
    let block = sstable::block_info(idx, rows);
    sstable::lemma_between(sstable::times(rows), i);
    sstable::lemma_between(sstable::expiries(rows), i);
    lemma_reach(rows, rows[n].key);
    assert(bytes::lex_le(rows[0].key, key)) by {
        bytes::lemma_lex_total(rows[0].key, key);
        if i > 0 {
            assert(!sort::before(o, rows[i], rows[0]));
        }
    }
    assert(bytes::lex_le(key, rows[n].key)) by {
        bytes::lemma_lex_total(key, rows[n].key);
        if i < n {
            assert(!sort::before(o, rows[n], rows[i]));
        }
    }
    bytes::lemma_lex_le_transitive(key, rows[n].key, block.max_key);
    lemma_keys_meet(block, filter, key);
}

/// A filter that admits a key meets a block with keys on both sides of it.
proof fn lemma_keys_meet(block: BlockInfoView, filter: KeyFilterView, key: Seq<u8>)
    requires
        memtable::admits_key(filter, key),
        bytes::lex_le(block.min_key, key),
        bytes::lex_le(key, block.max_key),
    ensures
        keys_meet(block, filter),
{
    match filter {
        KeyFilterView::All => {},
        KeyFilterView::Prefix(p) => {
            record::lemma_prefix_le(p, key);
            bytes::lemma_lex_le_transitive(p, key, block.max_key);
            bytes::lemma_lex_total(block.min_key, p);
            if bytes::lex_lt(p, block.min_key) {
                lemma_between_prefix(p, block.min_key, key);
            }
        },
        KeyFilterView::Range { start, end } => {
            bytes::lemma_lex_le_transitive(start, key, block.max_key);
            bytes::lemma_lex_le_transitive(block.min_key, key, end);
        },
    }
}

/// A block reaches as far as the key and as each range tombstone.
proof fn lemma_reach(rows: Seq<InternalRecordView>, key: Seq<u8>)
    ensures
        bytes::lex_le(key, sstable::reach(rows, key)),
        forall|i: int|
            0 <= i < rows.len() && (#[trigger] rows[i]).op == Op::DeleteRange && rows[i].range_end
                is Some ==> bytes::lex_le(rows[i].range_end->0, sstable::reach(rows, key)),
    decreases rows.len(),
{
    if rows.len() > 0 {
        let front = rows.drop_last();
        lemma_reach(front, key);
        let before = sstable::reach(front, key);
        let all = sstable::reach(rows, key);
        assert(bytes::lex_le(before, all));
        bytes::lemma_lex_le_transitive(key, before, all);
        assert forall|i: int|
            0 <= i < rows.len() && (#[trigger] rows[i]).op == Op::DeleteRange && rows[i].range_end
                is Some implies bytes::lex_le(rows[i].range_end->0, all) by {
            if i < front.len() {
                assert(front[i] == rows[i]);
                bytes::lemma_lex_le_transitive(rows[i].range_end->0, before, all);
            } else {
                bytes::lemma_lex_total(before, rows[i].range_end->0);
            }
        }
    }
}

/// No range tombstone is passed over: a sorted block with a range tombstone that has
/// not expired and that covers a key that a query asks for is one in which the query
/// may find something, whatever times it asks for.
pub proof fn law_no_tombstone_missed(
    idx: u32,
    rows: Seq<InternalRecordView>,
    i: int,
    key: Seq<u8>,
    filter: KeyFilterView,
    times: Option<(i64, i64)>,
    now: i64,
)
    requires
        sort::sorted(SortOrder::KeyTs, rows),
        0 <= i < rows.len(),
        rows[i].expire_at > now,
        rows[i].op == Op::DeleteRange,
        rows[i].range_end matches Some(end) && bytes::lex_le(rows[i].key, key) && bytes::lex_lt(
            key,
            end,
        ),
        memtable::admits_key(filter, key),
    ensures
        may_hold(sstable::block_info(idx, rows), filter, times, now),
{
    let o = SortOrder::KeyTs;
    let block = sstable::block_info(idx, rows);
    sstable::lemma_between(sstable::expiries(rows), i);
    lemma_reach(rows, rows.last().key);
    assert(sstable::has_range(rows));
    bytes::lemma_lex_total(rows[0].key, rows[i].key);
    if i > 0 {
        assert(!sort::before(o, rows[i], rows[0]));
    }
    bytes::lemma_lex_le_transitive(rows[0].key, rows[i].key, key);
    bytes::lemma_lex_le_transitive(key, rows[i].range_end->0, block.max_key);
    lemma_keys_meet(block, filter, key);
}

/// A string between a prefix and a string with that prefix has the prefix.
proof fn lemma_between_prefix(p: Seq<u8>, a: Seq<u8>, b: Seq<u8>)
    requires
        bytes::has_prefix(b, p),
        bytes::lex_lt(p, a),
        bytes::lex_le(a, b),
    ensures
        bytes::has_prefix(a, p),
    decreases p.len(),
{
    if p.len() == 0 {
        assert(a.subrange(0, 0) =~= p);
    } else {
        if a != b {
            assert(a.len() > 0);
            let n = p.len() as int;
            assert(b.subrange(0, n)[0] == p[0]);
            assert(b.drop_first().subrange(0, n - 1) =~= b.subrange(0, n).drop_first());
            lemma_between_prefix(p.drop_first(), a.drop_first(), b.drop_first());
            assert(a.subrange(0, n) =~= seq![a[0]] + a.drop_first().subrange(0, n - 1));
            assert(p =~= seq![p[0]] + p.drop_first());
        }
    }
}

/// The blocks of tables are counted table by table.
pub proof fn law_blocks_counted(state: StateView, ids: Seq<u32>, id: u32)
    requires
        blocks_of(state, id).len() <= usize::MAX,
    ensures
        block_total(state, Seq::empty()) == 0,
        block_total(state, ids.push(id)) == block_total(state, ids).wrapping_add(
            blocks_of(state, id).len() as usize,
        ),
        block_total(state, ids) + blocks_of(state, id).len() <= usize::MAX ==> block_total(
            state,
            ids.push(id),
        ) == block_total(state, ids) + blocks_of(state, id).len(),
{
    assert(ids.push(id).drop_last() =~= ids);
}

} // verus!
