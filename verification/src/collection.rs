//! A garbage collection changes no answer: what it deletes had expired.

use vstd::prelude::*;
use crate::block_index;
use crate::block_index::BlockId;
use crate::engine::{Engine, Wanted};
use crate::gc;
use crate::lookup;
use crate::lookup::Table;
use crate::manifest;
use crate::manifest::{BlockInfoView, StateView};
use crate::record::{InternalRecordView, KeyFilterView, Query, RecordView};
use crate::scan;
use crate::sstable;
use crate::write_worker;
use crate::write_worker::Flush;

verus! {

/// Whether no block of the table is known to hold a row that expires after all that the
/// table is known to hold.
pub open spec fn span_known(state: StateView, id: u32) -> bool {
    forall|j: int|
        0 <= j < block_index::blocks_of(state, id).len() ==> (#[trigger] block_index::blocks_of(
            state,
            id,
        )[j]).max_expire <= state.sstables[id].max_expire
}

/// Whether that holds of every table.
pub open spec fn spans_known(state: StateView) -> bool {
    forall|k: int| 0 <= k < state.active.len() ==> span_known(state, #[trigger] state.active[k])
}

/// A flush keeps the tables' expiries known: those of its blocks stand within the one
/// that it tells the manifest of its table.
pub proof fn law_flush_spans(
    before: StateView,
    flush: Flush,
    rows: Seq<InternalRecordView>,
    sst_id: u32,
    block_size: usize,
    bits_per_key: usize,
)
    requires
        spans_known(before),
        !before.active.contains(sst_id),
        flush.is_of(rows, sst_id, block_size, bits_per_key),
    ensures
        spans_known(before.applied(flush.entry())),
{
    let after = before.applied(flush.entry());
    let size = sstable::at_least_one(block_size);
    let parts = sstable::chunks(rows, size);
    let list = sstable::block_list(parts);
    assert(flush.info@.id == sst_id);
    assert(after.active == before.active.push(sst_id));
    assert(after.block_infos == before.block_infos.insert(sst_id, list));
    assert(after.sstables == before.sstables.insert(sst_id, flush.info@));
    sstable::law_span_bounds(rows);
    sstable::law_chunks_cover(rows, size);
    assert forall|k: int| 0 <= k < after.active.len() implies span_known(
        after,
        #[trigger] after.active[k],
    ) by {
        let id = after.active[k];
        if k < before.active.len() {
            assert(before.active[k] == id);
            assert(span_known(before, id));
            assert(id != sst_id);
            assert(block_index::blocks_of(after, id) == block_index::blocks_of(before, id));
        } else {
            assert(block_index::blocks_of(after, id) == list);
            assert forall|j: int| 0 <= j < list.len() implies (#[trigger] list[j]).max_expire
                <= after.sstables[id].max_expire by {
                let part = parts[j];
                assert(0 < part.len());
                sstable::lemma_chunk_rows(rows, size, j);
                sstable::law_span_bounds(part);
                let i = choose|i: int|
                    0 <= i < part.len() && (#[trigger] part[i]).expire_at == sstable::span(
                        part,
                    ).max_expire;
                assert(rows.contains(part[i]));
                let z = choose|z: int| 0 <= z < rows.len() && rows[z] == part[i];
                assert(rows[z].expire_at <= sstable::span(rows).max_expire);
                assert(list[j] == sstable::block_info(j as u32, part));
            }
        }
    }
}

/// A table that a collection deletes holds nothing that is still valid: once a flush
/// was entered, a collection deletes its table only where every row of it has expired.
pub proof fn law_deleted_had_expired(
    state: StateView,
    flush: Flush,
    rows: Seq<InternalRecordView>,
    sst_id: u32,
    block_size: usize,
    bits_per_key: usize,
    now: i64,
    i: int,
)
    requires
        flush.is_of(rows, sst_id, block_size, bits_per_key),
        0 < rows.len() <= u64::MAX,
        state.sstables.contains_key(sst_id),
        state.sstables[sst_id] == flush.info@,
        gc::expired(state, now).contains(sst_id),
        0 <= i < rows.len(),
    ensures
        rows[i].expire_at < now,
{
    broadcast use vstd::seq_lib::group_filter_ensures;

    write_worker::law_flush_told(flush, rows, sst_id, block_size, bits_per_key);
    let gone = gc::expired(state, now);
    let k = choose|k: int| 0 <= k < gone.len() && gone[k] == sst_id;
    assert(gc::is_expired(state, now)(gone[k]));
}

/// A table that holds a row which has not expired is not deleted.
pub proof fn law_valid_row_kept(
    state: StateView,
    flush: Flush,
    rows: Seq<InternalRecordView>,
    sst_id: u32,
    block_size: usize,
    bits_per_key: usize,
    now: i64,
    i: int,
)
    requires
        flush.is_of(rows, sst_id, block_size, bits_per_key),
        0 < rows.len() <= u64::MAX,
        state.wf(),
        state.sstables.contains_key(sst_id),
        state.sstables[sst_id] == flush.info@,
        0 <= i < rows.len(),
        rows[i].expire_at >= now,
    ensures
        ({
            let after = state.all_removed(gc::expired(state, now));
            after.active.contains(sst_id) && after.sstables.contains_key(sst_id)
                && after.sstables[sst_id] == flush.info@
        }),
{
    if gc::expired(state, now).contains(sst_id) {
        law_deleted_had_expired(
            state,
            flush,
            rows,
            sst_id,
            block_size,
            bits_per_key,
            now,
            i,
        );
    }
    let gone = gc::expired(state, now);
    gc::lemma_all_removed(state, gone);
    manifest::lemma_all_removed_wf(state, gone);
}

/// Blocks all of whose rows have expired are not searched.
proof fn lemma_not_searched(
    id: u32,
    blocks: Seq<BlockInfoView>,
    filter: KeyFilterView,
    times: Option<(i64, i64)>,
    now: i64,
)
    requires
        forall|j: int| 0 <= j < blocks.len() ==> (#[trigger] blocks[j]).max_expire <= now,
    ensures
        block_index::table_candidates(id, blocks, filter, times, now) == Seq::<BlockId>::empty(),
    decreases blocks.len(),
{
    if blocks.len() > 0 {
        let front = blocks.drop_last();
        assert forall|j: int| 0 <= j < front.len() implies (#[trigger] front[j]).max_expire <= now by {
            assert(front[j] == blocks[j]);
        }
        lemma_not_searched(id, front, filter, times, now);
        assert(blocks[blocks.len() - 1] == blocks.last());
    }
}

/// Without the tables whose rows have expired the same blocks are searched.
proof fn lemma_same_searched(
    before: StateView,
    gone: Seq<u32>,
    ids: Seq<u32>,
    filter: KeyFilterView,
    times: Option<(i64, i64)>,
    key: Seq<u8>,
    now: i64,
)
    requires
        forall|k: int| 0 <= k < ids.len() ==> span_known(before, #[trigger] ids[k]),
        forall|id: u32| #[trigger]
            gone.contains(id) ==> before.sstables[id].max_expire <= now,
    ensures
        ({
            let after = before.all_removed(gone);
            let left = ids.filter(|id: u32| !gone.contains(id));
            &&& block_index::candidates(after, left, filter, times, now) == block_index::candidates(
                before,
                ids,
                filter,
                times,
                now,
            )
            &&& block_index::point_candidates(after, left, key, now)
                == block_index::point_candidates(before, ids, key, now)
            &&& forall|k: int|
                0 <= k < block_index::candidates(before, ids, filter, times, now).len()
                    ==> !gone.contains(
                    (#[trigger] block_index::candidates(before, ids, filter, times, now)[k]).0,
                )
            &&& forall|k: int|
                0 <= k < block_index::point_candidates(before, ids, key, now).len()
                    ==> !gone.contains(
                    (#[trigger] block_index::point_candidates(before, ids, key, now)[k]).0,
                )
        }),
    decreases ids.len(),
{
    reveal(Seq::filter);
    let after = before.all_removed(gone);
    let keep = |id: u32| !gone.contains(id);
    let left = ids.filter(keep);
    let point = KeyFilterView::Range { start: key, end: key };
    if ids.len() > 0 {
        let front = ids.drop_last();
        let id = ids.last();
        assert(ids[ids.len() - 1] == id);
        assert forall|k: int| 0 <= k < front.len() implies span_known(
            before,
            #[trigger] front[k],
        ) by {
            assert(front[k] == ids[k]);
        }
        lemma_same_searched(before, gone, front, filter, times, key, now);
        gc::lemma_all_removed(before, gone);
        let blocks = block_index::blocks_of(before, id);
        let all = block_index::candidates(before, ids, filter, times, now);
        let all_points = block_index::point_candidates(before, ids, key, now);
        let rest = block_index::candidates(before, front, filter, times, now);
        let rest_points = block_index::point_candidates(before, front, key, now);
        let mine = block_index::table_candidates(id, blocks, filter, times, now);
        let mine_points = block_index::table_candidates(id, blocks, point, None, now);
        if keep(id) {
            assert(left == front.filter(keep).push(id));
            assert(left.drop_last() =~= front.filter(keep));
            assert(after.block_infos.contains_key(id) <==> before.block_infos.contains_key(id));
            assert(block_index::blocks_of(after, id) == blocks);
            assert(after.sstables.contains_key(id) <==> before.sstables.contains_key(id));
            assert(after.sstables.contains_key(id) ==> after.sstables[id] == before.sstables[id]);
            assert(block_index::filter_passes(after, id, key) == block_index::filter_passes(
                before,
                id,
                key,
            ));
            lemma_own_blocks(id, blocks, filter, times, now);
            lemma_own_blocks(id, blocks, point, None, now);
            assert forall|k: int| 0 <= k < all.len() implies !gone.contains((#[trigger] all[k]).0) by {
                if k < mine.len() {
                    assert(all[k] == mine[k]);
                } else {
                    assert(all[k] == rest[k - mine.len()]);
                }
            }
            assert forall|k: int| 0 <= k < all_points.len() implies !gone.contains(
                (#[trigger] all_points[k]).0,
            ) by {
                if block_index::filter_passes(before, id, key) {
                    if k < mine_points.len() {
                        assert(all_points[k] == mine_points[k]);
                    } else {
                        assert(all_points[k] == rest_points[k - mine_points.len()]);
                    }
                }
            }
        } else {
            assert(left == front.filter(keep));
            assert(span_known(before, id));
            lemma_not_searched(id, blocks, filter, times, now);
            lemma_not_searched(id, blocks, point, None, now);
            assert(all =~= rest);
            assert(all_points =~= rest_points);
        }
    }
}

proof fn lemma_own_blocks(
    id: u32,
    blocks: Seq<BlockInfoView>,
    filter: KeyFilterView,
    times: Option<(i64, i64)>,
    now: i64,
)
    ensures
        forall|k: int|
            0 <= k < block_index::table_candidates(id, blocks, filter, times, now).len() ==> (
            #[trigger] block_index::table_candidates(id, blocks, filter, times, now)[k]).0 == id,
    decreases blocks.len(),
{
    if blocks.len() > 0 {
        lemma_own_blocks(id, blocks.drop_last(), filter, times, now);
        let front = block_index::table_candidates(id, blocks.drop_last(), filter, times, now);
        let all = block_index::table_candidates(id, blocks, filter, times, now);
        assert forall|k: int| 0 <= k < all.len() implies (#[trigger] all[k]).0 == id by {
            if k < front.len() {
                assert(all[k] == front[k]);
            }
        }
    }
}

/// Whether the files that are left after a collection are open as before.
pub open spec fn still_open(tables: Seq<Table>, left: Seq<Table>, gone: Seq<u32>) -> bool {
    forall|block: BlockId|
        !gone.contains(block.0) ==> #[trigger] lookup::rows_of(left, block) == lookup::rows_of(
            tables,
            block,
        )
}

proof fn lemma_still_read(
    tables: Seq<Table>,
    left: Seq<Table>,
    gone: Seq<u32>,
    blocks: Seq<BlockId>,
)
    requires
        still_open(tables, left, gone),
        forall|k: int| 0 <= k < blocks.len() ==> !gone.contains((#[trigger] blocks[k]).0),
    ensures
        lookup::readable_rows(left, blocks) == lookup::readable_rows(tables, blocks),
    decreases blocks.len(),
{
    if blocks.len() > 0 {
        let front = blocks.drop_last();
        assert forall|k: int| 0 <= k < front.len() implies !gone.contains((#[trigger] front[k]).0) by {
            assert(front[k] == blocks[k]);
        }
        lemma_still_read(tables, left, gone, front);
        assert(!gone.contains(blocks[blocks.len() - 1].0));
        assert(lookup::rows_of(left, blocks.last()) == lookup::rows_of(tables, blocks.last()));
    }
}

proof fn lemma_still_told(
    tables: Seq<Table>,
    left: Seq<Table>,
    gone: Seq<u32>,
    blocks: Seq<BlockId>,
    wanted: Wanted,
)
    requires
        still_open(tables, left, gone),
        forall|k: int| 0 <= k < blocks.len() ==> !gone.contains((#[trigger] blocks[k]).0),
    ensures
        lookup::blocks_told(left, blocks, wanted.key, wanted.ts, wanted.now)
            == lookup::blocks_told(tables, blocks, wanted.key, wanted.ts, wanted.now),
    decreases blocks.len(),
{
    if blocks.len() > 0 {
        let rest = blocks.drop_first();
        assert forall|k: int| 0 <= k < rest.len() implies !gone.contains((#[trigger] rest[k]).0) by {
            assert(rest[k] == blocks[k + 1]);
        }
        lemma_still_told(tables, left, gone, rest, wanted);
        assert(!gone.contains(blocks[0].0));
        assert(lookup::rows_of(left, blocks[0]) == lookup::rows_of(tables, blocks[0]));
    }
}

/// What a collection deletes had expired, as far as the manifest knows.
proof fn lemma_gone_expired(state: StateView, gc_now: i64, now: i64)
    requires
        gc_now <= now,
    ensures
        forall|id: u32| #[trigger]
            gc::expired(state, gc_now).contains(id) ==> state.sstables[id].max_expire <= now,
{
    broadcast use vstd::seq_lib::group_filter_ensures;

    let gone = gc::expired(state, gc_now);
    assert forall|id: u32| #[trigger] gone.contains(id) implies state.sstables[id].max_expire
        <= now by {
        let k = choose|k: int| 0 <= k < gone.len() && gone[k] == id;
        assert(gc::is_expired(state, gc_now)(gone[k]));
    }
}

/// A collection changes no answer: every query returns at that time and later what it
/// returned before.
pub proof fn law_gc_answers(
    before: Engine,
    after: Engine,
    gc_now: i64,
    tables: Seq<Table>,
    left: Seq<Table>,
    query: Query,
    now: i64,
    records_before: Seq<RecordView>,
    records_after: Seq<RecordView>,
)
    requires
        spans_known(before.tables()),
        gc_now <= now,
        after.writer() == before.writer(),
        after.tables() == before.tables().all_removed(gc::expired(before.tables(), gc_now)),
        still_open(tables, left, gc::expired(before.tables(), gc_now)),
        before.is_answer(tables, query, now, records_before),
        after.is_answer(left, query, now, records_after),
    ensures
        records_after == records_before,
{
    let state = before.tables();
    let gone = gc::expired(state, gc_now);
    let mem = before.writer().mem();
    lemma_gone_expired(state, gc_now, now);
    lemma_same_searched(
        state,
        gone,
        state.active,
        query.key_filter@,
        query.time_range,
        Seq::empty(),
        now,
    );
    gc::lemma_all_removed(state, gone);
    lemma_still_read(
        tables,
        left,
        gone,
        block_index::candidates(state, state.active, query.key_filter@, query.time_range, now),
    );
    let blocks = before.query_blocks(tables, query, now);
    scan::law_answer_unique(
        scan::scan_lists(mem, blocks, query, now),
        scan::scan_tombstones(mem, blocks, now),
        records_before,
        records_after,
    );
}

/// A collection changes nothing that a lookup tells: at that time and later it tells what
/// it told before.
pub proof fn law_gc_lookup(
    before: Engine,
    after: Engine,
    gc_now: i64,
    tables: Seq<Table>,
    left: Seq<Table>,
    wanted: Wanted,
    h: u64,
)
    requires
        spans_known(before.tables()),
        gc_now <= wanted.now,
        after.writer() == before.writer(),
        after.tables() == before.tables().all_removed(gc::expired(before.tables(), gc_now)),
        still_open(tables, left, gc::expired(before.tables(), gc_now)),
    ensures
        after.told_with(left, wanted, h) == before.told_with(tables, wanted, h),
{
    let state = before.tables();
    let gone = gc::expired(state, gc_now);
    let point = KeyFilterView::Range { start: wanted.key, end: wanted.key };
    lemma_gone_expired(state, gc_now, wanted.now);
    lemma_same_searched(state, gone, state.active, point, None, wanted.key, wanted.now);
    gc::lemma_all_removed(state, gone);
    lemma_still_read(
        tables,
        left,
        gone,
        block_index::candidates(state, state.active, point, None, wanted.now),
    );
    lemma_still_told(
        tables,
        left,
        gone,
        block_index::point_candidates(state, state.active, wanted.key, wanted.now),
        wanted,
    );
}

} // verus!
