//! What was written stays: a flush and a restart leave every answer as it was.

use vstd::prelude::*;
use crate::block_index;
use crate::block_index::BlockId;
use crate::bytes;
use crate::codec;
use crate::engine;
use crate::engine::{Engine, StagedWrite};
use crate::lookup;
use crate::lookup::Table;
use crate::manifest;
use crate::manifest::{BlockInfoView, StateView};
use crate::memtable;
use crate::memtable::{MemQuery, MemTables};
use crate::record;
use crate::record::{InternalRecordView, KeyFilterView, Op, Query, RecordView};
use crate::scan;
use crate::sort;
use crate::sort::SortOrder;
use crate::sstable;
use crate::versions;
use crate::wal;
use crate::wal::WalWrite;
use crate::write_worker;
use crate::write_worker::Flush;

verus! {

/// The rows have ascending sequence numbers.
pub open spec fn numbered(rows: Seq<InternalRecordView>) -> bool {
    forall|i: int, j: int|
        0 <= i < j < rows.len() ==> (#[trigger] rows[i]).seq < (#[trigger] rows[j]).seq
}

/// The log holds what the memtable holds: the segments hold the rows `parts`, one
/// after another, and the memtable those of them that are not flushed.
pub open spec fn logged(engine: Engine, parts: Seq<Seq<InternalRecordView>>) -> bool {
    &&& parts.len() == engine.writer().log().segments().len()
    &&& engine.writer().mem().frozen().len() == 0
    &&& engine.writer().mem().active().rows() == engine::rows_above(
        parts,
        engine.tables().last_flushed_seq,
    )
    &&& numbered(engine.writer().mem().active().rows())
    &&& forall|p: int, i: int|
        0 <= p < parts.len() && 0 <= i < parts[p].len() ==> wal::encodable(#[trigger] parts[p][i])
}

/// The rows of the segments after more rows were appended to the last one, and a new
/// one was started, where that was due.
pub open spec fn more_logged(
    parts: Seq<Seq<InternalRecordView>>,
    rows: Seq<InternalRecordView>,
    rollover: bool,
) -> Seq<Seq<InternalRecordView>> {
    let written = parts.drop_last().push(parts.last() + rows);
    if rollover {
        written.push(Seq::empty())
    } else {
        written
    }
}

proof fn lemma_filter_all(
    a: Seq<InternalRecordView>,
    b: Seq<InternalRecordView>,
    keep: spec_fn(InternalRecordView) -> bool,
)
    requires
        forall|i: int| 0 <= i < b.len() ==> keep(#[trigger] b[i]),
    ensures
        (a + b).filter(keep) == a.filter(keep) + b,
    decreases b.len(),
{
    reveal(Seq::filter);
    if b.len() == 0 {
        assert(a + b =~= a);
        assert(a.filter(keep) + b =~= a.filter(keep));
    } else {
        let front = b.drop_last();
        assert forall|i: int| 0 <= i < front.len() implies keep(#[trigger] front[i]) by {
            assert(front[i] == b[i]);
        }
        lemma_filter_all(a, front, keep);
        assert((a + b).drop_last() =~= a + front);
        assert(keep(b[b.len() - 1]));
        assert((a + b).filter(keep) =~= a.filter(keep) + b);
    }
}

/// A write keeps the log and the memtable together: where the log held what the
/// memtable held, it does after the bytes of a batch were appended to the last
/// segment and the batch was taken over.
pub proof fn law_commit_logged(
    before: Engine,
    staged: StagedWrite,
    rows: Seq<InternalRecordView>,
    after: Engine,
    done: WalWrite,
    parts: Seq<Seq<InternalRecordView>>,
)
    requires
        before.wf(),
        logged(before, parts),
        staged.is_of(rows, before.writer().log()),
        forall|i: int| 0 <= i < rows.len() ==> wal::encodable(#[trigger] rows[i]),
        numbered(before.writer().mem().active().rows() + rows),
        forall|i: int|
            0 <= i < rows.len() ==> (#[trigger] rows[i]).seq > before.tables().last_flushed_seq,
        before.writer().log().appends(staged.wal_buf@, after.writer().log(), done),
        write_worker::takes_batch(
            before.writer().mem().active(),
            rows,
            after.writer().mem().active(),
        ),
        after.writer().mem().frozen() == before.writer().mem().frozen(),
        after.tables() == before.tables(),
    ensures
        logged(after, more_logged(parts, rows, done.rollover is Some)),
        ({
            let more = more_logged(parts, rows, done.rollover is Some);
            let last = parts.len() - 1;
            &&& wal::framed_all(more[last]) == wal::framed_all(parts[last]) + staged.wal_buf@
            &&& forall|p: int| 0 <= p < last ==> more[p] == parts[p]
            &&& done.rollover is Some ==> wal::framed_all(more[last + 1]) == Seq::<u8>::empty()
        }),
{
    let flushed = before.tables().last_flushed_seq;
    let keep = |r: InternalRecordView| r.seq > flushed;
    let more = more_logged(parts, rows, done.rollover is Some);
    let written = parts.drop_last().push(parts.last() + rows);
    let last = parts.len() - 1;
    codec::lemma_concat_append(|r: InternalRecordView| wal::framed(r), parts.last(), rows);
    lemma_filter_all(parts.last(), rows, keep);
    assert(written.drop_last() =~= parts.drop_last());
    let old_rows = engine::rows_above(parts, flushed);
    assert(engine::rows_above(written, flushed) =~= old_rows + rows);
    if done.rollover is Some {
        assert(more.drop_last() =~= written);
        assert(Seq::<InternalRecordView>::empty().filter(keep) =~= Seq::<
            InternalRecordView,
        >::empty()) by {
            reveal(Seq::filter);
        }
        assert(engine::rows_above(more, flushed) =~= engine::rows_above(written, flushed));
        assert(wal::framed_all(more[last + 1]) =~= Seq::<u8>::empty());
    }
    assert forall|p: int, i: int| 0 <= p < more.len() && 0 <= i < more[p].len() implies wal::encodable(
        #[trigger] more[p][i],
    ) by {
        if p < last {
            assert(more[p][i] == parts[p][i]);
        } else if p == last {
            if i < parts[last].len() {
                assert(more[p][i] == parts[last][i]);
            } else {
                assert(more[p][i] == rows[i - parts[last].len()]);
            }
        }
    }
}

/// Memtables with the same rows answer alike.
proof fn lemma_same_rows(a: MemTables, b: MemTables, query: MemQuery)
    requires
        a.active().rows() == b.active().rows(),
        a.frozen().len() == 0,
        b.frozen().len() == 0,
    ensures
        a.selected(query) == b.selected(query),
{
}

/// What was written before a restart is there after it: an engine that is opened over
/// the segments and the tables of another one, whose log held what its memtable held,
/// holds the same rows, and answers every query as that one did.
pub proof fn law_restart_answers(
    before: Engine,
    parts: Seq<Seq<InternalRecordView>>,
    after: Engine,
    tables: Seq<Table>,
    query: Query,
    now: i64,
    records_before: Seq<RecordView>,
    records_after: Seq<RecordView>,
)
    requires
        logged(before, parts),
        after.tables() == before.tables(),
        after.writer().mem().frozen().len() == 0,
        sort::stably_sorted(
            SortOrder::Sequence,
            wal::replay_rows(
                parts.map_values(|p: Seq<InternalRecordView>| wal::framed_all(p)),
                before.tables().last_flushed_seq,
            ),
            after.writer().mem().active().rows(),
        ),
        before.is_answer(tables, query, now, records_before),
        after.is_answer(tables, query, now, records_after),
    ensures
        after.writer().mem().active().rows() == before.writer().mem().active().rows(),
        records_after == records_before,
{
    let flushed = before.tables().last_flushed_seq;
    let rows = engine::rows_above(parts, flushed);
    let m1 = before.writer().mem();
    let m2 = after.writer().mem();
    assert forall|i: int, j: int| 0 <= i < j < rows.len() implies (#[trigger] rows[i]).seq <= (
    #[trigger] rows[j]).seq by {
        assert(rows[i].seq < rows[j].seq);
    }
    engine::law_recovery(parts, flushed, m2.active().rows());
    lemma_same_rows(m1, m2, scan::mem_query(query, now));
    lemma_same_rows(m1, m2, scan::all_rows(now));
    let blocks = before.query_blocks(tables, query, now);
    assert(scan::scan_lists(m1, blocks, query, now) =~= scan::scan_lists(m2, blocks, query, now));
    scan::law_answer_unique(
        scan::scan_lists(m1, blocks, query, now),
        scan::scan_tombstones(m1, blocks, now),
        records_before,
        records_after,
    );
}

/// The tables once another one was entered: its blocks are searched first, and those
/// of the others as before.
proof fn lemma_candidates_entered(
    before: StateView,
    after: StateView,
    id: u32,
    blocks: Seq<BlockInfoView>,
    filter: KeyFilterView,
    times: Option<(i64, i64)>,
    now: i64,
)
    requires
        !before.active.contains(id),
        after.active == before.active.push(id),
        after.block_infos == before.block_infos.insert(id, blocks),
    ensures
        block_index::candidates(after, after.active, filter, times, now)
            == block_index::table_candidates(id, blocks, filter, times, now)
            + block_index::candidates(before, before.active, filter, times, now),
{
    assert(after.active.drop_last() =~= before.active);
    assert(block_index::blocks_of(after, id) == blocks);
    lemma_candidates_same(before, after, id, before.active, filter, times, now);
}

proof fn lemma_candidates_same(
    before: StateView,
    after: StateView,
    id: u32,
    ids: Seq<u32>,
    filter: KeyFilterView,
    times: Option<(i64, i64)>,
    now: i64,
)
    requires
        !ids.contains(id),
        after.block_infos == before.block_infos.insert(id, block_index::blocks_of(after, id)),
    ensures
        block_index::candidates(after, ids, filter, times, now) == block_index::candidates(
            before,
            ids,
            filter,
            times,
            now,
        ),
        forall|k: int|
            0 <= k < block_index::candidates(before, ids, filter, times, now).len() ==> (
            #[trigger] block_index::candidates(before, ids, filter, times, now)[k]).0 != id,
    decreases ids.len(),
{
    if ids.len() > 0 {
        let front = ids.drop_last();
        let last = ids.last();
        assert(ids.contains(ids[ids.len() - 1]));
        assert(!front.contains(id)) by {
            if front.contains(id) {
                let i = choose|i: int| 0 <= i < front.len() && front[i] == id;
                assert(ids[i] == id);
            }
        }
        lemma_candidates_same(before, after, id, front, filter, times, now);
        assert(block_index::blocks_of(before, last) == block_index::blocks_of(after, last));
        let mine = block_index::table_candidates(
            last,
            block_index::blocks_of(before, last),
            filter,
            times,
            now,
        );
        let all = block_index::candidates(before, ids, filter, times, now);
        let rest = block_index::candidates(before, front, filter, times, now);
        lemma_table_candidates(last, block_index::blocks_of(before, last), filter, times, now);
        assert forall|k: int| 0 <= k < all.len() implies (#[trigger] all[k]).0 != id by {
            if k < mine.len() {
                assert(all[k] == mine[k]);
            } else {
                assert(all[k] == rest[k - mine.len()]);
            }
        }
    }
}

proof fn lemma_table_candidates(
    id: u32,
    blocks: Seq<BlockInfoView>,
    filter: KeyFilterView,
    times: Option<(i64, i64)>,
    now: i64,
)
    ensures
        forall|k: int|
            0 <= k < block_index::table_candidates(id, blocks, filter, times, now).len() ==> (
            #[trigger] block_index::table_candidates(id, blocks, filter, times, now)[k]).0 == id,
    decreases blocks.len(),
{
    if blocks.len() > 0 {
        lemma_table_candidates(id, blocks.drop_last(), filter, times, now);
        let front = block_index::table_candidates(id, blocks.drop_last(), filter, times, now);
        let all = block_index::table_candidates(id, blocks, filter, times, now);
        assert forall|k: int| 0 <= k < all.len() implies (#[trigger] all[k]).0 == id by {
            if k < front.len() {
                assert(all[k] == front[k]);
            }
        }
    }
}

pub proof fn lemma_readable_append(tables: Seq<Table>, a: Seq<BlockId>, b: Seq<BlockId>)
    ensures
        lookup::readable_rows(tables, a + b) == lookup::readable_rows(tables, a)
            + lookup::readable_rows(tables, b),
    decreases b.len(),
{
    if b.len() == 0 {
        assert(a + b =~= a);
        assert(lookup::readable_rows(tables, a) + lookup::readable_rows(tables, b)
            =~= lookup::readable_rows(tables, a));
    } else {
        lemma_readable_append(tables, a, b.drop_last());
        assert((a + b).drop_last() =~= a + b.drop_last());
        assert(lookup::readable_rows(tables, a + b) =~= lookup::readable_rows(tables, a)
            + lookup::readable_rows(tables, b));
    }
}

/// Blocks of other tables are read as before once a table is open.
pub proof fn lemma_readable_same(tables: Seq<Table>, opened: Table, blocks: Seq<BlockId>)
    requires
        forall|k: int| 0 <= k < blocks.len() ==> (#[trigger] blocks[k]).0 != opened.reader.id(),
    ensures
        lookup::readable_rows(tables.push(opened), blocks) == lookup::readable_rows(tables, blocks),
    decreases blocks.len(),
{
    if blocks.len() > 0 {
        let front = blocks.drop_last();
        assert forall|k: int| 0 <= k < front.len() implies (#[trigger] front[k]).0
            != opened.reader.id() by {
            assert(front[k] == blocks[k]);
        }
        lemma_readable_same(tables, opened, front);
        let block = blocks[blocks.len() - 1];
        assert(tables.push(opened).drop_last() =~= tables);
        lookup::lemma_table_in_list(tables, block.0);
        assert(lookup::table_at(tables.push(opened), block.0) == lookup::table_at(tables, block.0));
        assert(lookup::rows_of(tables.push(opened), block) == lookup::rows_of(tables, block));
    }
}

/// Whether a block holds one of the first `n` parts, without the numbers of its rows.
pub open spec fn is_part(parts: scan::Sources, n: int, block: Seq<InternalRecordView>) -> bool {
    exists|j: int| 0 <= j < n && block == sstable::unnumbered_rows(#[trigger] parts[j])
}

/// What is read of a table whose blocks are these parts: parts, and each in which the
/// query may find something.
pub proof fn lemma_parts_read(
    tables: Seq<Table>,
    id: u32,
    parts: scan::Sources,
    n: int,
    filter: KeyFilterView,
    times: Option<(i64, i64)>,
    now: i64,
)
    requires
        0 <= n <= parts.len() <= u32::MAX,
        forall|j: int|
            0 <= j < parts.len() ==> lookup::rows_of(tables, (id, j as u32)) == Some(
                sstable::unnumbered_rows(#[trigger] parts[j]),
            ),
    ensures
        ({
            let read = lookup::readable_rows(
                tables,
                block_index::table_candidates(
                    id,
                    sstable::block_list(parts).take(n),
                    filter,
                    times,
                    now,
                ),
            );
            &&& forall|c: int| 0 <= c < read.len() ==> is_part(parts, n, #[trigger] read[c])
            &&& forall|j: int|
                0 <= j < n && block_index::may_hold(
                    sstable::block_info(j as u32, #[trigger] parts[j]),
                    filter,
                    times,
                    now,
                ) ==> read.contains(sstable::unnumbered_rows(parts[j]))
        }),
    decreases n,
{
    let list = sstable::block_list(parts);
    let ids = block_index::table_candidates(id, list.take(n), filter, times, now);
    let read = lookup::readable_rows(tables, ids);
    if n > 0 {
        lemma_parts_read(tables, id, parts, n - 1, filter, times, now);
        assert(list.take(n).drop_last() =~= list.take(n - 1));
        let before_ids = block_index::table_candidates(id, list.take(n - 1), filter, times, now);
        let before = lookup::readable_rows(tables, before_ids);
        let info = sstable::block_info((n - 1) as u32, parts[n - 1]);
        assert(list.take(n).last() == info);
        let own = sstable::unnumbered_rows(parts[n - 1]);
        let holds = block_index::may_hold(info, filter, times, now);
        if holds {
            assert(ids == before_ids.push((id, (n - 1) as u32)));
            assert(ids.drop_last() =~= before_ids);
            assert(lookup::rows_of(tables, (id, (n - 1) as u32)) == Some(own));
            assert(read == before.push(own));
        } else {
            assert(ids == before_ids);
        }
        assert forall|c: int| 0 <= c < read.len() implies is_part(parts, n, #[trigger] read[c]) by {
            if c < before.len() {
                assert(is_part(parts, n - 1, before[c]));
            } else {
                assert(read[c] == sstable::unnumbered_rows(parts[n - 1]));
            }
        }
        assert forall|j: int|
            0 <= j < n && block_index::may_hold(
                sstable::block_info(j as u32, #[trigger] parts[j]),
                filter,
                times,
                now,
            ) implies read.contains(sstable::unnumbered_rows(parts[j])) by {
            if j < n - 1 {
                assert(before.contains(sstable::unnumbered_rows(parts[j])));
                let c = choose|c: int|
                    0 <= c < before.len() && before[c] == sstable::unnumbered_rows(parts[j]);
                assert(read[c] == before[c]);
            } else {
                assert(read[before.len() as int] == own);
            }
        }
    }
}

/// What a flush of these rows is about: the rows of the memtable, none of which has
/// expired at `now`, and the rows of the table.
pub open spec fn flush_of(
    mem: Seq<InternalRecordView>,
    rows: Seq<InternalRecordView>,
    now: i64,
) -> bool {
    &&& numbered(mem)
    &&& forall|i: int| 0 <= i < mem.len() ==> (#[trigger] mem[i]).expire_at > now
    &&& sort::sorted(SortOrder::KeyTs, rows)
    &&& forall|r: InternalRecordView|
        r.op == Op::DeleteRange ==> (#[trigger] rows.contains(r) <==> mem.contains(r))
    &&& forall|r: InternalRecordView|
        r.op != Op::DeleteRange ==> (#[trigger] rows.contains(r) <==> versions::current(
            versions::point_rows(mem),
            r.key,
            r.ts,
        ) == Some(r))
}

/// The rows that a flush writes of a memtable none of whose rows has expired.
pub proof fn lemma_flush_of(
    mem: MemTables,
    rows: Seq<InternalRecordView>,
    flush_now: i64,
    now: i64,
)
    requires
        mem.frozen().len() == 0,
        numbered(mem.active().rows()),
        forall|i: int|
            0 <= i < mem.active().rows().len() ==> (#[trigger] mem.active().rows()[i]).expire_at
                > now,
        flush_now <= now,
        write_worker::flushed_rows(mem, flush_now, rows),
    ensures
        flush_of(mem.active().rows(), rows, now),
{
    let log = mem.active().rows();
    let oldest = choose|oldest: Seq<InternalRecordView>| #[trigger]
        write_worker::oldest_rows(mem, oldest) && write_worker::table_rows(
            scan::live(oldest, flush_now),
            rows,
        );
    let live = scan::live(oldest, flush_now);
    let alive = |r: InternalRecordView| r.expire_at > flush_now;
    let point = |r: InternalRecordView| r.op != Op::DeleteRange;
    assert forall|r: InternalRecordView| #[trigger] live.contains(r) <==> log.contains(r) by {
        memtable::lemma_frozen_rows(log, oldest, r);
        write_worker::lemma_filtered(oldest, alive, r);
        if log.contains(r) {
            let i = choose|i: int| 0 <= i < log.len() && log[i] == r;
            assert(log[i].expire_at > now);
        }
    }
    assert forall|key: Seq<u8>, ts: i64| #[trigger]
        versions::current(versions::point_rows(live), key, ts) == versions::current(
            versions::point_rows(log),
            key,
            ts,
        ) by {
        let a = versions::point_rows(log);
        let b = versions::point_rows(live);
        assert forall|r: InternalRecordView| versions::at_place(r, key, ts) implies (
        #[trigger] a.contains(r) <==> b.contains(r)) by {
            write_worker::lemma_filtered(log, point, r);
            write_worker::lemma_filtered(live, point, r);
            assert(live.contains(r) <==> log.contains(r));
        }
        lemma_points_apart(log);
        versions::lemma_current_same(a, b, key, ts);
    }
    assert forall|r: InternalRecordView|
        r.op == Op::DeleteRange implies (#[trigger] rows.contains(r) <==> log.contains(r)) by {
        write_worker::law_flush_keeps_live(oldest, flush_now, rows, r);
        write_worker::lemma_filtered(oldest, alive, r);
        assert(live.contains(r) <==> log.contains(r));
    }
    assert forall|r: InternalRecordView|
        r.op != Op::DeleteRange implies (#[trigger] rows.contains(r) <==> versions::current(
        versions::point_rows(log),
        r.key,
        r.ts,
    ) == Some(r)) by {
        write_worker::law_flush_keeps_live(oldest, flush_now, rows, r);
        assert(versions::current(versions::point_rows(live), r.key, r.ts) == versions::current(
            versions::point_rows(log),
            r.key,
            r.ts,
        ));
    }
    assert(sort::sorted(SortOrder::KeyTs, rows)) by {
        if rows.len() > 0 {
            write_worker::law_flush_keeps_live(oldest, flush_now, rows, rows[0]);
        }
    }
}

/// Rows with ascending sequence numbers are told apart by them, and so are those of
/// them that are no range tombstones.
proof fn lemma_points_apart(rows: Seq<InternalRecordView>)
    requires
        numbered(rows),
    ensures
        forall|i: int, j: int|
            0 <= i < versions::point_rows(rows).len() && 0 <= j < versions::point_rows(rows).len()
                && (#[trigger] versions::point_rows(rows)[i]).seq == (
            #[trigger] versions::point_rows(rows)[j]).seq ==> versions::point_rows(rows)[i]
                == versions::point_rows(rows)[j],
{
    let points = versions::point_rows(rows);
    let point = |r: InternalRecordView| r.op != Op::DeleteRange;
    assert forall|i: int, j: int|
        0 <= i < points.len() && 0 <= j < points.len() && (#[trigger] points[i]).seq == (
        #[trigger] points[j]).seq implies points[i] == points[j] by {
        assert(points.contains(points[i]) && points.contains(points[j]));
        write_worker::lemma_filtered(rows, point, points[i]);
        write_worker::lemma_filtered(rows, point, points[j]);
        let a = choose|a: int| 0 <= a < rows.len() && rows[a] == points[i];
        let b = choose|b: int| 0 <= b < rows.len() && rows[b] == points[j];
        if a < b {
            assert(rows[a].seq < rows[b].seq);
        }
        if b < a {
            assert(rows[b].seq < rows[a].seq);
        }
    }
}

/// What the memtable tells of a place that the query asks for.
proof fn lemma_memtable_tells(
    mem: MemTables,
    query: Query,
    now: i64,
    key: Seq<u8>,
    ts: i64,
)
    requires
        mem.frozen().len() == 0,
        numbered(mem.active().rows()),
        forall|i: int|
            0 <= i < mem.active().rows().len() ==> (#[trigger] mem.active().rows()[i]).expire_at
                > now,
        memtable::admits_key(query.key_filter@, key),
        memtable::admits_ts(query.time_range, ts),
    ensures
        versions::current(
            versions::point_rows(mem.selected(scan::mem_query(query, now))),
            key,
            ts,
        ) == versions::current(versions::point_rows(mem.active().rows()), key, ts),
{
    let log = mem.active().rows();
    let q = scan::mem_query(query, now);
    let selected = mem.selected(q);
    let point = |r: InternalRecordView| r.op != Op::DeleteRange;
    let asked = |r: InternalRecordView| memtable::selects(q, r);
    assert(selected =~= log.filter(asked));
    let a = versions::point_rows(log);
    let b = versions::point_rows(selected);
    assert forall|r: InternalRecordView| versions::at_place(r, key, ts) implies (
    #[trigger] a.contains(r) <==> b.contains(r)) by {
        write_worker::lemma_filtered(log, point, r);
        write_worker::lemma_filtered(selected, point, r);
        write_worker::lemma_filtered(log, asked, r);
        if log.contains(r) {
            let i = choose|i: int| 0 <= i < log.len() && log[i] == r;
            assert(log[i].expire_at > now);
        }
    }
    lemma_points_apart(log);
    versions::lemma_current_same(a, b, key, ts);
}

/// What is read of a table of these parts for a query: parts, and each in which the
/// query may find something.
spec fn read_of_flush(
    parts: scan::Sources,
    read: scan::Sources,
    query: Query,
    now: i64,
) -> bool {
    &&& parts.len() <= u32::MAX
    &&& forall|c: int|
        0 <= c < read.len() ==> is_part(parts, parts.len() as int, #[trigger] read[c])
    &&& forall|j: int|
        0 <= j < parts.len() && block_index::may_hold(
            sstable::block_info(j as u32, #[trigger] parts[j]),
            query.key_filter@,
            query.time_range,
            now,
        ) ==> read.contains(sstable::unnumbered_rows(parts[j]))
}

/// The parts of a table, as they are read, tell of a place that the query asks for
/// what the memtable told.
proof fn lemma_table_tells(
    log: Seq<InternalRecordView>,
    rows: Seq<InternalRecordView>,
    size: nat,
    read: scan::Sources,
    query: Query,
    now: i64,
    key: Seq<u8>,
    ts: i64,
)
    requires
        size > 0,
        flush_of(log, rows, now),
        read_of_flush(sstable::chunks(rows, size), read, query, now),
        memtable::admits_key(query.key_filter@, key),
        memtable::admits_ts(query.time_range, ts),
    ensures
        scan::deciding(scan::block_lists(read, query, now), key, ts) == match versions::current(
            versions::point_rows(log),
            key,
            ts,
        ) {
            Some(row) => Some(sstable::unnumbered(row)),
            None => None,
        },
{
    let parts = sstable::chunks(rows, size);
    let lists = scan::block_lists(read, query, now);
    let full = scan::is_full(query);
    let x = versions::current(versions::point_rows(log), key, ts);
    let y = versions::lemma_current_found(versions::point_rows(log), key, ts);
    assert forall|c: int, k: int|
        0 <= c < lists.len() && 0 <= k < lists[c].len() && versions::at_place(
            #[trigger] lists[c][k],
            key,
            ts,
        ) implies (x matches Some(row) && lists[c][k] == sstable::unnumbered(row)) by {
        assert(is_part(parts, parts.len() as int, read[c]));
        let j = choose|j: int|
            0 <= j < parts.len() && read[c] == sstable::unnumbered_rows(#[trigger] parts[j]);
        let m = scan::lemma_taken_from(
            read[c],
            query.key_filter@,
            query.time_range,
            full,
            now,
            k,
        );
        let r = parts[j][m];
        assert(read[c][m] == sstable::unnumbered(r));
        sstable::lemma_chunk_rows(rows, size, j);
        assert(rows.contains(r));
        assert(x == Some(r));
    }
    if x is Some {
        let row = x->0;
        let bare = sstable::unnumbered(row);
        let points = versions::point_rows(log);
        assert(points[y] == row);
        assert(points.contains(row));
        write_worker::lemma_filtered(log, |r: InternalRecordView| r.op != Op::DeleteRange, row);
        let g = choose|g: int| 0 <= g < log.len() && log[g] == row;
        assert(log[g].expire_at > now);
        assert(rows.contains(row));
        let z = choose|z: int| 0 <= z < rows.len() && rows[z] == row;
        let at = sstable::lemma_row_in_chunk(rows, size, z);
        let part = parts[at.0];
        sstable::lemma_chunk_sorted(rows, size, at.0);
        block_index::law_no_block_missed(
            at.0 as u32,
            part,
            at.1,
            query.key_filter@,
            query.time_range,
            now,
        );
        assert(read.contains(sstable::unnumbered_rows(part)));
        let c = choose|c: int| 0 <= c < read.len() && read[c] == sstable::unnumbered_rows(part);
        assert(read[c][at.1] == bare);
        let k = scan::lemma_taken_to(
            read[c],
            query.key_filter@,
            query.time_range,
            full,
            now,
            at.1,
        );
        assert(lists[c][k] == bare);
        assert forall|j: int, i: int|
            0 <= j < lists.len() && 0 <= i < lists[j].len() && versions::same_place(
                #[trigger] lists[j][i],
                bare,
            ) implies lists[j][i] == bare by {
            assert(versions::at_place(lists[j][i], key, ts));
        }
        scan::lemma_deciding_only(lists, bare);
    } else {
        assert forall|c: int| 0 <= c < lists.len() implies versions::current(
            #[trigger] lists[c],
            key,
            ts,
        ) is None by {
            let k = versions::lemma_current_found(lists[c], key, ts);
            if versions::current(lists[c], key, ts) is Some {
                assert(versions::at_place(lists[c][k], key, ts));
            }
        }
        scan::lemma_deciding_none(lists, key, ts);
    }
}

/// The parts of a table, as they are read, cover a key that the query asks for where
/// the memtable covered it.
proof fn lemma_table_covers(
    log: Seq<InternalRecordView>,
    rows: Seq<InternalRecordView>,
    size: nat,
    read: scan::Sources,
    query: Query,
    now: i64,
    key: Seq<u8>,
)
    requires
        size > 0,
        flush_of(log, rows, now),
        read_of_flush(sstable::chunks(rows, size), read, query, now),
        memtable::admits_key(query.key_filter@, key),
    ensures
        scan::covered(scan::block_tombstones(read, now), key) <==> scan::covered(
            scan::row_tombstones(log),
            key,
        ),
{
    let parts = sstable::chunks(rows, size);
    scan::lemma_covered_rows(log, key);
    scan::lemma_covered_blocks(read, now, key);
    if scan::covered(scan::row_tombstones(log), key) {
        let g = choose|g: int| 0 <= g < log.len() && scan::row_covers(#[trigger] log[g], key);
        let row = log[g];
        assert(log.contains(row));
        assert(rows.contains(row));
        let z = choose|z: int| 0 <= z < rows.len() && rows[z] == row;
        let at = sstable::lemma_row_in_chunk(rows, size, z);
        let part = parts[at.0];
        sstable::lemma_chunk_sorted(rows, size, at.0);
        block_index::law_no_tombstone_missed(
            at.0 as u32,
            part,
            at.1,
            key,
            query.key_filter@,
            query.time_range,
            now,
        );
        assert(read.contains(sstable::unnumbered_rows(part)));
        let c = choose|c: int| 0 <= c < read.len() && read[c] == sstable::unnumbered_rows(part);
        assert(read[c][at.1] == sstable::unnumbered(row));
        assert(scan::row_covers(read[c][at.1], key));
    }
    if scan::covered(scan::block_tombstones(read, now), key) {
        let (c, i) = choose|c: int, i: int|
            0 <= c < read.len() && 0 <= i < read[c].len() && read[c][i].expire_at > now
                && scan::row_covers(#[trigger] read[c][i], key);
        assert(is_part(parts, parts.len() as int, read[c]));
        let j = choose|j: int|
            0 <= j < parts.len() && read[c] == sstable::unnumbered_rows(#[trigger] parts[j]);
        let r = parts[j][i];
        assert(read[c][i] == sstable::unnumbered(r));
        sstable::lemma_chunk_rows(rows, size, j);
        assert(rows.contains(r));
        assert(log.contains(r));
        let g = choose|g: int| 0 <= g < log.len() && log[g] == r;
        assert(scan::row_covers(log[g], key));
    }
}

/// Answers are alike where the rows that decide show the same records.
proof fn lemma_answers_alike(
    a: scan::Sources,
    s: Seq<scan::Tombstone>,
    b: scan::Sources,
    t: Seq<scan::Tombstone>,
    x: Seq<RecordView>,
    y: Seq<RecordView>,
)
    requires
        scan::is_answer(a, s, x),
        scan::is_answer(b, t, y),
        forall|key: Seq<u8>, ts: i64| #[trigger]
            scan::shown(a, s, key, ts) <==> scan::shown(b, t, key, ts),
        forall|key: Seq<u8>, ts: i64| #[trigger]
            scan::shown(a, s, key, ts) ==> (scan::deciding(a, key, ts)->0).record() == (
            scan::deciding(b, key, ts)->0).record(),
    ensures
        x == y,
{
    assert forall|i: int| 0 <= i < x.len() implies scan::shown(b, t, (#[trigger] x[i]).key, x[i].ts)
        && x[i] == (scan::deciding(b, x[i].key, x[i].ts)->0).record() by {
        assert(scan::shown(a, s, x[i].key, x[i].ts));
    }
    assert forall|key: Seq<u8>, ts: i64| #[trigger] scan::shown(b, t, key, ts) implies x.contains(
        (scan::deciding(b, key, ts)->0).record(),
    ) by {
        assert(scan::shown(a, s, key, ts));
    }
    scan::law_answer_unique(b, t, x, y);
}

/// The blocks that a query reads after a flush: those of the new table, then those that
/// it read before.
proof fn lemma_blocks_after(
    before: Engine,
    flush: Flush,
    rows: Seq<InternalRecordView>,
    after: Engine,
    tables: Seq<Table>,
    opened: Table,
    query: Query,
    now: i64,
) -> (read: scan::Sources)
    requires
        before.wf(),
        manifest::max_id(before.tables().active) < u32::MAX,
        flush.is_of(
            rows,
            (manifest::max_id(before.tables().active) + 1) as u32,
            before.writer().settings().block_size,
            before.writer().settings().bloom_bits_per_key,
        ),
        readable_flush(flush, rows, before.writer().settings().block_size),
        after.tables() == before.tables().applied(flush.entry()),
        opens(flush, opened),
        lookup::table_at(tables, flush.info.id) is None,
    ensures
        after.query_blocks(tables.push(opened), query, now) == read + before.query_blocks(
            tables,
            query,
            now,
        ),
        read_of_flush(
            sstable::chunks(rows, sstable::at_least_one(before.writer().settings().block_size)),
            read,
            query,
            now,
        ),
{
    let id = flush.info.id;
    let block_size = before.writer().settings().block_size;
    let bits = before.writer().settings().bloom_bits_per_key;
    let size = sstable::at_least_one(block_size);
    let parts = sstable::chunks(rows, size);
    let list = sstable::block_list(parts);
    let state = before.tables();
    let more = tables.push(opened);
    assert(flush.info@.id == id);
    assert(!state.active.contains(id)) by {
        if state.active.contains(id) {
            let k = choose|k: int| 0 <= k < state.active.len() && state.active[k] == id;
            manifest::lemma_max_id(state.active, k);
        }
    }
    assert(after.tables().active == state.active.push(id));
    assert(after.tables().block_infos == state.block_infos.insert(id, list));
    lemma_candidates_entered(
        state,
        after.tables(),
        id,
        list,
        query.key_filter@,
        query.time_range,
        now,
    );
    lemma_candidates_same(
        state,
        after.tables(),
        id,
        state.active,
        query.key_filter@,
        query.time_range,
        now,
    );
    let new_ids = block_index::table_candidates(id, list, query.key_filter@, query.time_range, now);
    let old_ids = block_index::candidates(
        state,
        state.active,
        query.key_filter@,
        query.time_range,
        now,
    );
    lemma_readable_append(more, new_ids, old_ids);
    lemma_readable_same(tables, opened, old_ids);
    let read = lookup::readable_rows(more, new_ids);
    engine::law_flush_read_back(flush, rows, id, block_size, bits, *opened.reader, 0);
    lemma_part_count(rows, size);
    assert(more.drop_last() =~= tables);
    assert(lookup::table_at(more, id) == Some(tables.len() as int));
    assert forall|j: int| 0 <= j < parts.len() implies lookup::rows_of(more, (id, j as u32)) == Some(
        sstable::unnumbered_rows(#[trigger] parts[j]),
    ) by {
        engine::law_flush_read_back(flush, rows, id, block_size, bits, *opened.reader, j as u32);
        assert(more[tables.len() as int] == opened);
    }
    assert(list.take(parts.len() as int) =~= list);
    lemma_parts_read(
        more,
        id,
        parts,
        parts.len() as int,
        query.key_filter@,
        query.time_range,
        now,
    );
    read
}

/// There are no more parts than rows.
pub proof fn lemma_part_count(rows: Seq<InternalRecordView>, size: nat)
    requires
        size > 0,
    ensures
        sstable::chunks(rows, size).len() <= rows.len(),
    decreases rows.len(),
{
    if rows.len() > size {
        lemma_part_count(rows.skip(size as int), size);
    }
}

/// Whether the table that a flush wrote of the rows can be read back: the rows fit
/// its fields, and its headers tell how long the blocks are.
pub open spec fn readable_flush(
    flush: Flush,
    rows: Seq<InternalRecordView>,
    block_size: usize,
) -> bool {
    &&& rows.len() <= u32::MAX
    &&& forall|i: int| 0 <= i < rows.len() ==> sstable::encodable_row(#[trigger] rows[i])
    &&& sstable::lengths_told(
        sstable::chunks(rows, sstable::at_least_one(block_size)),
        flush.file.bytes@,
        false,
    )
}

/// The table that a flush wrote is open.
pub open spec fn opens(flush: Flush, opened: Table) -> bool {
    &&& opened.reader.id() == flush.info.id
    &&& opened.data@ == flush.file.bytes@
    &&& sstable::offsets_from(flush.file.bytes@, 0) == Some(opened.reader.offsets())
}

/// Rows that decide alike show the same record, or both none.
spec fn decide_alike(a: Option<InternalRecordView>, b: Option<InternalRecordView>) -> bool {
    match a {
        Some(row) => b matches Some(other) && other.op == row.op && other.record() == row.record(),
        None => b is None,
    }
}

/// What decided before a flush decides after it.
proof fn lemma_flush_decides(
    m1: MemTables,
    m2: MemTables,
    rows: Seq<InternalRecordView>,
    size: nat,
    read: scan::Sources,
    old_blocks: scan::Sources,
    query: Query,
    now: i64,
    key: Seq<u8>,
    ts: i64,
)
    requires
        size > 0,
        m1.frozen().len() == 0,
        numbered(m1.active().rows()),
        forall|i: int|
            0 <= i < m1.active().rows().len() ==> (#[trigger] m1.active().rows()[i]).expire_at
                > now,
        flush_of(m1.active().rows(), rows, now),
        m2.frozen().len() == 0,
        m2.active().rows().len() == 0,
        read_of_flush(sstable::chunks(rows, size), read, query, now),
        memtable::admits_key(query.key_filter@, key),
        memtable::admits_ts(query.time_range, ts),
    ensures
        decide_alike(
            scan::deciding(scan::scan_lists(m1, old_blocks, query, now), key, ts),
            scan::deciding(scan::scan_lists(m2, read + old_blocks, query, now), key, ts),
        ),
{
    let old_lists = scan::block_lists(old_blocks, query, now);
    let read_lists = scan::block_lists(read, query, now);
    let mine = versions::point_rows(m1.selected(scan::mem_query(query, now)));
    let none = Seq::<InternalRecordView>::empty();
    lemma_emptied(m2, scan::mem_query(query, now));
    assert(versions::point_rows(none) =~= none) by {
        reveal(Seq::filter);
    }
    assert(scan::block_lists(read + old_blocks, query, now) =~= read_lists + old_lists);
    lemma_memtable_tells(m1, query, now, key, ts);
    lemma_table_tells(m1.active().rows(), rows, size, read, query, now, key, ts);
    lemma_one_list(mine, key, ts);
    lemma_one_list(none, key, ts);
    scan::lemma_deciding_append(seq![mine], old_lists, key, ts);
    scan::lemma_deciding_append(read_lists, old_lists, key, ts);
    scan::lemma_deciding_append(seq![none], read_lists + old_lists, key, ts);
}

/// What was covered before a flush is covered after it.
proof fn lemma_flush_covers(
    m1: MemTables,
    m2: MemTables,
    rows: Seq<InternalRecordView>,
    size: nat,
    read: scan::Sources,
    old_blocks: scan::Sources,
    query: Query,
    now: i64,
    key: Seq<u8>,
)
    requires
        size > 0,
        m1.frozen().len() == 0,
        forall|i: int|
            0 <= i < m1.active().rows().len() ==> (#[trigger] m1.active().rows()[i]).expire_at
                > now,
        flush_of(m1.active().rows(), rows, now),
        m2.frozen().len() == 0,
        m2.active().rows().len() == 0,
        read_of_flush(sstable::chunks(rows, size), read, query, now),
        memtable::admits_key(query.key_filter@, key),
    ensures
        scan::covered(scan::scan_tombstones(m1, old_blocks, now), key) <==> scan::covered(
            scan::scan_tombstones(m2, read + old_blocks, now),
            key,
        ),
{
    let log = m1.active().rows();
    let none = Seq::<InternalRecordView>::empty();
    lemma_emptied(m2, scan::all_rows(now));
    lemma_all_selected(m1, now);
    lemma_table_covers(log, rows, size, read, query, now, key);
    engine::lemma_covered_append(
        scan::row_tombstones(log),
        scan::block_tombstones(old_blocks, now),
        key,
    );
    engine::lemma_covered_append(
        scan::row_tombstones(none),
        scan::block_tombstones(read + old_blocks, now),
        key,
    );
    lemma_covered_both(read, old_blocks, now, key);
    assert(scan::row_tombstones(none).len() == 0);
    assert(!scan::covered(scan::row_tombstones(none), key));
}

/// A flush changes nothing that is shown: once a memtable none of whose rows has
/// expired was written to a table, and that table is entered and open, every query
/// shows what it showed before.
pub proof fn lemma_flush_shows(
    before: Engine,
    flush: Flush,
    rows: Seq<InternalRecordView>,
    flush_now: i64,
    after: Engine,
    tables: Seq<Table>,
    opened: Table,
    query: Query,
    now: i64,
)
    requires
        before.wf(),
        manifest::max_id(before.tables().active) < u32::MAX,
        before.writer().mem().frozen().len() == 0,
        numbered(before.writer().mem().active().rows()),
        forall|i: int|
            0 <= i < before.writer().mem().active().rows().len() ==> (
            #[trigger] before.writer().mem().active().rows()[i]).expire_at > now,
        flush_now <= now,
        write_worker::flushed_rows(before.writer().mem(), flush_now, rows),
        flush.is_of(
            rows,
            (manifest::max_id(before.tables().active) + 1) as u32,
            before.writer().settings().block_size,
            before.writer().settings().bloom_bits_per_key,
        ),
        readable_flush(flush, rows, before.writer().settings().block_size),
        after.writer().mem().frozen().len() == 0,
        after.writer().mem().active().rows().len() == 0,
        after.tables() == before.tables().applied(flush.entry()),
        opens(flush, opened),
        lookup::table_at(tables, flush.info.id) is None,
    ensures
        ({
            let old_blocks = before.query_blocks(tables, query, now);
            let new_blocks = after.query_blocks(tables.push(opened), query, now);
            let a = scan::scan_lists(before.writer().mem(), old_blocks, query, now);
            let b = scan::scan_lists(after.writer().mem(), new_blocks, query, now);
            let s = scan::scan_tombstones(before.writer().mem(), old_blocks, now);
            let t = scan::scan_tombstones(after.writer().mem(), new_blocks, now);
            &&& forall|key: Seq<u8>, ts: i64| #[trigger]
                scan::shown(a, s, key, ts) <==> scan::shown(b, t, key, ts)
            &&& forall|key: Seq<u8>, ts: i64| #[trigger]
                scan::shown(a, s, key, ts) ==> (scan::deciding(a, key, ts)->0).record() == (
                scan::deciding(b, key, ts)->0).record()
        }),
{
    let m1 = before.writer().mem();
    let m2 = after.writer().mem();
    let size = sstable::at_least_one(before.writer().settings().block_size);
    let old_blocks = before.query_blocks(tables, query, now);
    let read = lemma_blocks_after(before, flush, rows, after, tables, opened, query, now);
    let new_blocks = read + old_blocks;
    lemma_flush_of(m1, rows, flush_now, now);
    let a = scan::scan_lists(m1, old_blocks, query, now);
    let b = scan::scan_lists(m2, new_blocks, query, now);
    let s = scan::scan_tombstones(m1, old_blocks, now);
    let t = scan::scan_tombstones(m2, new_blocks, now);
    assert forall|key: Seq<u8>, ts: i64|
        #![trigger scan::shown(a, s, key, ts)]
        (scan::shown(a, s, key, ts) <==> scan::shown(b, t, key, ts)) && (scan::shown(a, s, key, ts)
            ==> (scan::deciding(a, key, ts)->0).record() == (scan::deciding(
            b,
            key,
            ts,
        )->0).record()) by {
        if scan::deciding(a, key, ts) is Some {
            scan::lemma_deciding_admitted(m1, old_blocks, query, now, key, ts);
        }
        if scan::deciding(b, key, ts) is Some {
            scan::lemma_deciding_admitted(m2, new_blocks, query, now, key, ts);
        }
        if memtable::admits_key(query.key_filter@, key) && memtable::admits_ts(
            query.time_range,
            ts,
        ) {
            lemma_flush_decides(m1, m2, rows, size, read, old_blocks, query, now, key, ts);
            lemma_flush_covers(m1, m2, rows, size, read, old_blocks, query, now, key);
        }
    }
}

/// A flush changes no answer: once a memtable none of whose rows has expired was
/// written to a table, and that table is entered and open, every query returns what it
/// returned before.
pub proof fn law_flush_answers(
    before: Engine,
    flush: Flush,
    rows: Seq<InternalRecordView>,
    flush_now: i64,
    after: Engine,
    tables: Seq<Table>,
    opened: Table,
    query: Query,
    now: i64,
    records_before: Seq<RecordView>,
    records_after: Seq<RecordView>,
)
    requires
        before.wf(),
        manifest::max_id(before.tables().active) < u32::MAX,
        before.writer().mem().frozen().len() == 0,
        numbered(before.writer().mem().active().rows()),
        forall|i: int|
            0 <= i < before.writer().mem().active().rows().len() ==> (
            #[trigger] before.writer().mem().active().rows()[i]).expire_at > now,
        flush_now <= now,
        write_worker::flushed_rows(before.writer().mem(), flush_now, rows),
        flush.is_of(
            rows,
            (manifest::max_id(before.tables().active) + 1) as u32,
            before.writer().settings().block_size,
            before.writer().settings().bloom_bits_per_key,
        ),
        readable_flush(flush, rows, before.writer().settings().block_size),
        after.writer().mem().frozen().len() == 0,
        after.writer().mem().active().rows().len() == 0,
        after.tables() == before.tables().applied(flush.entry()),
        opens(flush, opened),
        lookup::table_at(tables, flush.info.id) is None,
        before.is_answer(tables, query, now, records_before),
        after.is_answer(tables.push(opened), query, now, records_after),
    ensures
        records_after == records_before,
{
    let old_blocks = before.query_blocks(tables, query, now);
    let new_blocks = after.query_blocks(tables.push(opened), query, now);
    lemma_flush_shows(before, flush, rows, flush_now, after, tables, opened, query, now);
    lemma_answers_alike(
        scan::scan_lists(before.writer().mem(), old_blocks, query, now),
        scan::scan_tombstones(before.writer().mem(), old_blocks, now),
        scan::scan_lists(after.writer().mem(), new_blocks, query, now),
        scan::scan_tombstones(after.writer().mem(), new_blocks, now),
        records_before,
        records_after,
    );
}

/// Empty memtables select nothing.
proof fn lemma_emptied(mem: MemTables, query: MemQuery)
    requires
        mem.frozen().len() == 0,
        mem.active().rows().len() == 0,
    ensures
        mem.selected(query) == Seq::<InternalRecordView>::empty(),
{
    reveal(Seq::filter);
    assert(mem.selected(query) =~= Seq::<InternalRecordView>::empty());
}

/// Where no row has expired, all are selected.
proof fn lemma_all_selected(mem: MemTables, now: i64)
    requires
        mem.frozen().len() == 0,
        forall|i: int|
            0 <= i < mem.active().rows().len() ==> (#[trigger] mem.active().rows()[i]).expire_at
                > now,
    ensures
        mem.selected(scan::all_rows(now)) == mem.active().rows(),
{
    let rows = mem.active().rows();
    let keep = |r: InternalRecordView| memtable::selects(scan::all_rows(now), r);
    lemma_filter_all(Seq::empty(), rows, keep);
    assert(Seq::<InternalRecordView>::empty().filter(keep) =~= Seq::<InternalRecordView>::empty()) by {
        reveal(Seq::filter);
    }
    assert(Seq::<InternalRecordView>::empty() + rows =~= rows);
    assert(mem.selected(scan::all_rows(now)) =~= rows);
}

/// One list alone decides.
pub proof fn lemma_one_list(rows: Seq<InternalRecordView>, key: Seq<u8>, ts: i64)
    ensures
        scan::deciding(seq![rows], key, ts) == versions::current(rows, key, ts),
{
    let lists = seq![rows];
    assert(lists.drop_last() =~= Seq::<Seq<InternalRecordView>>::empty());
    assert(scan::deciding(lists.drop_last(), key, ts) is None);
    assert(lists.last() == rows);
}

/// Blocks of two lists cover what the blocks of one of them cover.
pub proof fn lemma_covered_both(a: scan::Sources, b: scan::Sources, now: i64, key: Seq<u8>)
    ensures
        scan::covered(scan::block_tombstones(a + b, now), key) <==> scan::covered(
            scan::block_tombstones(a, now),
            key,
        ) || scan::covered(scan::block_tombstones(b, now), key),
    decreases b.len(),
{
    if b.len() == 0 {
        assert(a + b =~= a);
        assert(scan::block_tombstones(b, now).len() == 0);
    } else {
        let front = b.drop_last();
        let last = scan::row_tombstones(scan::live(b.last(), now));
        lemma_covered_both(a, front, now, key);
        assert((a + b).drop_last() =~= a + front);
        assert((a + b).last() == b.last());
        engine::lemma_covered_append(scan::block_tombstones(a + front, now), last, key);
        engine::lemma_covered_append(scan::block_tombstones(front, now), last, key);
    }
}

/// No row has a greater number than the last.
proof fn lemma_last_seq(rows: Seq<InternalRecordView>, k: int)
    requires
        0 <= k < rows.len(),
    ensures
        rows[k].seq <= write_worker::last_seq(rows),
    decreases rows.len(),
{
    if k < rows.len() - 1 {
        lemma_last_seq(rows.drop_last(), k);
    }
}

/// A flush writes rows up to the last number of the memtable.
proof fn lemma_all_flushed(
    log: Seq<InternalRecordView>,
    rows: Seq<InternalRecordView>,
    now: i64,
    i: int,
)
    requires
        flush_of(log, rows, now),
        0 <= i < log.len(),
    ensures
        log[i].seq <= write_worker::last_seq(rows),
{
    let row = log[i];
    assert(log.contains(row));
    if row.op == Op::DeleteRange {
        assert(rows.contains(row));
        let k = choose|k: int| 0 <= k < rows.len() && rows[k] == row;
        lemma_last_seq(rows, k);
    } else {
        let point = |r: InternalRecordView| r.op != Op::DeleteRange;
        let points = versions::point_rows(log);
        write_worker::lemma_filtered(log, point, row);
        let x = choose|x: int| 0 <= x < points.len() && points[x] == row;
        let y = versions::lemma_current_found(points, row.key, row.ts);
        assert(versions::at_place(points[x], row.key, row.ts));
        let top = points[y];
        assert(points.contains(top));
        write_worker::lemma_filtered(log, point, top);
        assert(rows.contains(top));
        let k = choose|k: int| 0 <= k < rows.len() && rows[k] == top;
        lemma_last_seq(rows, k);
    }
}

/// A row of the segments is not above the flushed number, or in the memtable.
proof fn lemma_above(parts: Seq<Seq<InternalRecordView>>, after: u64, p: int, i: int)
    requires
        0 <= p < parts.len(),
        0 <= i < parts[p].len(),
        parts[p][i].seq > after,
    ensures
        engine::rows_above(parts, after).contains(parts[p][i]),
    decreases parts.len(),
{
    let front = parts.drop_last();
    let keep = |r: InternalRecordView| r.seq > after;
    let row = parts[p][i];
    engine::lemma_contains_append(
        engine::rows_above(front, after),
        parts.last().filter(keep),
        row,
    );
    if p < front.len() {
        assert(front[p][i] == row);
        lemma_above(front, after, p, i);
    } else {
        assert(parts.last()[i] == row);
        assert(parts.last().contains(row));
        write_worker::lemma_filtered(parts.last(), keep, row);
    }
}

/// Where every row of the segments is flushed, nothing is above the flushed number.
proof fn lemma_nothing_above(parts: Seq<Seq<InternalRecordView>>, after: u64)
    requires
        forall|p: int, i: int|
            0 <= p < parts.len() && 0 <= i < parts[p].len() ==> (#[trigger] parts[p][i]).seq
                <= after,
    ensures
        engine::rows_above(parts, after) == Seq::<InternalRecordView>::empty(),
    decreases parts.len(),
{
    if parts.len() > 0 {
        let front = parts.drop_last();
        let last = parts.last();
        let keep = |r: InternalRecordView| r.seq > after;
        assert forall|p: int, i: int| 0 <= p < front.len() && 0 <= i < front[p].len() implies (
        #[trigger] front[p][i]).seq <= after by {
            assert(front[p][i] == parts[p][i]);
        }
        lemma_nothing_above(front, after);
        assert forall|i: int| 0 <= i < last.len() implies !keep(#[trigger] last[i]) by {
            assert(parts[parts.len() - 1][i] == last[i]);
        }
        wal::lemma_filter_none(last, keep);
        assert(engine::rows_above(parts, after) =~= Seq::<InternalRecordView>::empty());
    }
}

/// After a flush nothing of the log is left to replay: an engine that is opened over
/// segments of it has an empty memtable.
pub proof fn lemma_nothing_left(
    before: Engine,
    parts: Seq<Seq<InternalRecordView>>,
    flush: Flush,
    rows: Seq<InternalRecordView>,
    flush_now: i64,
    left: Seq<Seq<InternalRecordView>>,
    after: Engine,
    now: i64,
)
    requires
        before.wf(),
        logged(before, parts),
        manifest::max_id(before.tables().active) < u32::MAX,
        forall|i: int|
            0 <= i < before.writer().mem().active().rows().len() ==> (
            #[trigger] before.writer().mem().active().rows()[i]).expire_at > now,
        flush_now <= now,
        write_worker::flushed_rows(before.writer().mem(), flush_now, rows),
        flush.is_of(
            rows,
            (manifest::max_id(before.tables().active) + 1) as u32,
            before.writer().settings().block_size,
            before.writer().settings().bloom_bits_per_key,
        ),
        forall|q: int| 0 <= q < left.len() ==> parts.contains(#[trigger] left[q]),
        after.tables() == before.tables().applied(flush.entry()),
        after.writer().mem().frozen().len() == 0,
        sort::stably_sorted(
            SortOrder::Sequence,
            wal::replay_rows(
                left.map_values(|p: Seq<InternalRecordView>| wal::framed_all(p)),
                after.tables().last_flushed_seq,
            ),
            after.writer().mem().active().rows(),
        ),
    ensures
        after.writer().mem().active().rows() == Seq::<InternalRecordView>::empty(),
{
    let log = before.writer().mem().active().rows();
    let old_flushed = before.tables().last_flushed_seq;
    let flushed = after.tables().last_flushed_seq;
    lemma_flush_of(before.writer().mem(), rows, flush_now, now);
    assert(flushed >= old_flushed && flushed >= write_worker::last_seq(rows));
    assert forall|q: int, i: int| 0 <= q < left.len() && 0 <= i < left[q].len() implies (
    #[trigger] left[q][i]).seq <= flushed && wal::encodable(left[q][i]) by {
        assert(parts.contains(left[q]));
        let p = choose|p: int| 0 <= p < parts.len() && parts[p] == left[q];
        let row = parts[p][i];
        assert(wal::encodable(parts[p][i]));
        if row.seq > old_flushed {
            lemma_above(parts, old_flushed, p, i);
            let k = choose|k: int| 0 <= k < log.len() && log[k] == row;
            lemma_all_flushed(log, rows, now, k);
        }
    }
    lemma_nothing_above(left, flushed);
    engine::law_recovery(left, flushed, after.writer().mem().active().rows());
}

/// What was written before a shutdown is there after the restart: an engine whose log
/// held what its memtable held is flushed, with the table entered in the manifest, and
/// another one is opened over the tables and over segments of the log that are left.
/// Every query returns then what it returned before, as long as nothing expires.
pub proof fn law_shutdown_restart(
    before: Engine,
    parts: Seq<Seq<InternalRecordView>>,
    flush: Flush,
    rows: Seq<InternalRecordView>,
    flush_now: i64,
    left: Seq<Seq<InternalRecordView>>,
    after: Engine,
    tables: Seq<Table>,
    opened: Table,
    query: Query,
    now: i64,
    records_before: Seq<RecordView>,
    records_after: Seq<RecordView>,
)
    requires
        before.wf(),
        logged(before, parts),
        manifest::max_id(before.tables().active) < u32::MAX,
        forall|i: int|
            0 <= i < before.writer().mem().active().rows().len() ==> (
            #[trigger] before.writer().mem().active().rows()[i]).expire_at > now,
        flush_now <= now,
        write_worker::flushed_rows(before.writer().mem(), flush_now, rows),
        flush.is_of(
            rows,
            (manifest::max_id(before.tables().active) + 1) as u32,
            before.writer().settings().block_size,
            before.writer().settings().bloom_bits_per_key,
        ),
        readable_flush(flush, rows, before.writer().settings().block_size),
        forall|q: int| 0 <= q < left.len() ==> parts.contains(#[trigger] left[q]),
        after.tables() == before.tables().applied(flush.entry()),
        after.writer().mem().frozen().len() == 0,
        sort::stably_sorted(
            SortOrder::Sequence,
            wal::replay_rows(
                left.map_values(|p: Seq<InternalRecordView>| wal::framed_all(p)),
                after.tables().last_flushed_seq,
            ),
            after.writer().mem().active().rows(),
        ),
        opens(flush, opened),
        lookup::table_at(tables, flush.info.id) is None,
        before.is_answer(tables, query, now, records_before),
        after.is_answer(tables.push(opened), query, now, records_after),
    ensures
        records_after == records_before,
{
    lemma_nothing_left(before, parts, flush, rows, flush_now, left, after, now);
    law_flush_answers(
        before,
        flush,
        rows,
        flush_now,
        after,
        tables,
        opened,
        query,
        now,
        records_before,
        records_after,
    );
}

} // verus!
