//! A lookup and a query agree: of a key and time, both give the same record.

use vstd::prelude::*;
use crate::block_index;
use crate::block_index::BlockId;
use crate::bloom;
use crate::bloom::{BloomFilter, BloomFilterView};
use crate::bytes;
use crate::durability;
use crate::engine;
use crate::engine::{Engine, Wanted};
use crate::lookup;
use crate::lookup::{LookupView, Table};
use crate::manifest;
use crate::manifest::StateView;
use crate::memtable;
use crate::memtable::{MemQuery, MemTable, MemTables};
use crate::record::{InternalRecordView, KeyFilterView, Op, Query, RecordView};
use crate::scan;
use crate::sort;
use crate::sort::SortOrder;
use crate::sstable;
use crate::versions;
use crate::wal;
use crate::write_worker;
use crate::write_worker::Flush;

verus! {

/// The rows of memtables, one table after another.
pub open spec fn tables_rows(tables: Seq<MemTable>) -> Seq<InternalRecordView>
    decreases tables.len(),
{
    if tables.len() == 0 {
        Seq::empty()
    } else {
        tables_rows(tables.drop_last()) + tables.last().rows()
    }
}

/// The rows of the memtables, the frozen ones first, oldest table first.
pub open spec fn history(mem: MemTables) -> Seq<InternalRecordView> {
    tables_rows(mem.frozen()) + mem.active().rows()
}

/// Of the rows with the key and time a later one has a greater number.
pub open spec fn ascending(rows: Seq<InternalRecordView>, wanted: Wanted) -> bool {
    forall|i: int, j: int|
        0 <= i < j < rows.len() && versions::at_place(#[trigger] rows[i], wanted.key, wanted.ts)
            && versions::at_place(#[trigger] rows[j], wanted.key, wanted.ts) ==> rows[i].seq
            < rows[j].seq
}

/// Of the rows of a table with the key and time none that has expired comes after one
/// that has not.
pub open spec fn settled(rows: Seq<InternalRecordView>, wanted: Wanted) -> bool {
    forall|i: int, j: int|
        0 <= i < j < rows.len() && versions::at_place(#[trigger] rows[i], wanted.key, wanted.ts)
            && versions::at_place(#[trigger] rows[j], wanted.key, wanted.ts) && rows[i].expire_at
            >= wanted.now ==> rows[j].expire_at >= wanted.now
}

/// The rows that have not expired.
pub open spec fn unexpired(rows: Seq<InternalRecordView>, now: i64) -> Seq<InternalRecordView> {
    rows.filter(|r: InternalRecordView| r.expire_at >= now)
}

/// The rows of the memtables with the key and time are in order: a later one has a
/// greater number, in no table does one that has expired come after one that has not,
/// and a range tombstone among them covers the key that it starts with.
pub open spec fn orderly(mem: MemTables, wanted: Wanted) -> bool {
    &&& ascending(history(mem), wanted)
    &&& settled(mem.active().rows(), wanted)
    &&& forall|k: int|
        0 <= k < mem.frozen().len() ==> settled((#[trigger] mem.frozen()[k]).rows(), wanted)
    &&& forall|i: int|
        0 <= i < history(mem).len() && versions::at_place(
            #[trigger] history(mem)[i],
            wanted.key,
            wanted.ts,
        ) && history(mem)[i].op == Op::DeleteRange ==> scan::row_covers(
            history(mem)[i],
            wanted.key,
        )
}

/// The newest row of two lists is that of the second, or else that of the first.
proof fn lemma_newest_append(
    a: Seq<InternalRecordView>,
    b: Seq<InternalRecordView>,
    key: Seq<u8>,
    ts: i64,
)
    ensures
        memtable::newest(a + b, key, ts) == match memtable::newest(b, key, ts) {
            Some(row) => Some(row),
            None => memtable::newest(a, key, ts),
        },
    decreases b.len(),
{
    if b.len() == 0 {
        assert(a + b =~= a);
    } else {
        assert((a + b).drop_last() =~= a + b.drop_last());
        lemma_newest_append(a, b.drop_last(), key, ts);
    }
}

/// The newest row is the last one with the key and time.
proof fn lemma_newest_found(rows: Seq<InternalRecordView>, key: Seq<u8>, ts: i64) -> (y: int)
    ensures
        match memtable::newest(rows, key, ts) {
            Some(row) => 0 <= y < rows.len() && rows[y] == row && versions::at_place(row, key, ts)
                && forall|x: int|
                y < x < rows.len() ==> !versions::at_place(#[trigger] rows[x], key, ts),
            None => forall|x: int|
                0 <= x < rows.len() ==> !versions::at_place(#[trigger] rows[x], key, ts),
        },
    decreases rows.len(),
{
    if rows.len() == 0 {
        0
    } else if versions::at_place(rows.last(), key, ts) {
        rows.len() - 1
    } else {
        let front = rows.drop_last();
        let y = lemma_newest_found(front, key, ts);
        assert forall|x: int|
            (memtable::newest(rows, key, ts) is Some ==> y < x) && 0 <= x < rows.len()
            implies !versions::at_place(#[trigger] rows[x], key, ts) by {
            if x < front.len() {
                assert(front[x] == rows[x]);
            }
        }
        y
    }
}

/// A table that is settled tells the newest row that has not expired, or none.
proof fn lemma_newest_unexpired(rows: Seq<InternalRecordView>, wanted: Wanted)
    requires
        settled(rows, wanted),
    ensures
        memtable::newest(unexpired(rows, wanted.now), wanted.key, wanted.ts)
            == match memtable::newest(rows, wanted.key, wanted.ts) {
            Some(row) if row.expire_at >= wanted.now => Some(row),
            _ => None,
        },
    decreases rows.len(),
{
    reveal(Seq::filter);
    let alive = |r: InternalRecordView| r.expire_at >= wanted.now;
    let rest = unexpired(rows, wanted.now);
    if rows.len() > 0 {
        let front = rows.drop_last();
        let last = rows.last();
        let before = unexpired(front, wanted.now);
        if versions::at_place(last, wanted.key, wanted.ts) && last.expire_at < wanted.now {
            let y = lemma_newest_found(rest, wanted.key, wanted.ts);
            if memtable::newest(rest, wanted.key, wanted.ts) is Some {
                let row = rest[y];
                assert(rest.contains(row));
                write_worker::lemma_filtered(rows, alive, row);
                let i = choose|i: int| 0 <= i < rows.len() && rows[i] == row;
                assert(rows[rows.len() - 1] == last);
                assert(versions::at_place(rows[i], wanted.key, wanted.ts));
                assert(i < rows.len() - 1);
            }
        } else {
            assert forall|i: int, j: int|
                0 <= i < j < front.len() && versions::at_place(
                    #[trigger] front[i],
                    wanted.key,
                    wanted.ts,
                ) && versions::at_place(#[trigger] front[j], wanted.key, wanted.ts)
                    && front[i].expire_at >= wanted.now implies front[j].expire_at
                >= wanted.now by {
                assert(front[i] == rows[i] && front[j] == rows[j]);
            }
            lemma_newest_unexpired(front, wanted);
            if last.expire_at >= wanted.now {
                assert(rest == before.push(last));
                assert(rest.drop_last() =~= before);
            }
        }
    }
}

/// The frozen tables tell the newest row that has not expired.
proof fn lemma_tables_newest(tables: Seq<MemTable>, wanted: Wanted)
    requires
        forall|k: int| 0 <= k < tables.len() ==> settled((#[trigger] tables[k]).rows(), wanted),
    ensures
        memtable::tables_newest(tables, wanted.key, wanted.ts, wanted.now) == memtable::newest(
            unexpired(tables_rows(tables), wanted.now),
            wanted.key,
            wanted.ts,
        ),
    decreases tables.len(),
{
    if tables.len() == 0 {
        reveal(Seq::filter);
        assert(unexpired(tables_rows(tables), wanted.now) =~= Seq::<InternalRecordView>::empty());
    } else {
        let rest = tables.drop_last();
        assert forall|k: int| 0 <= k < rest.len() implies settled(
            (#[trigger] rest[k]).rows(),
            wanted,
        ) by {
            assert(rest[k] == tables[k]);
        }
        lemma_tables_newest(rest, wanted);
        assert(settled(tables[tables.len() - 1].rows(), wanted));
        lemma_newest_unexpired(tables.last().rows(), wanted);
        lemma_unexpired_append(tables_rows(rest), tables.last().rows(), wanted);
    }
}

/// The newest row of two lists that has not expired is that of the second, or else
/// that of the first.
proof fn lemma_unexpired_append(
    a: Seq<InternalRecordView>,
    b: Seq<InternalRecordView>,
    wanted: Wanted,
)
    ensures
        memtable::newest(unexpired(a + b, wanted.now), wanted.key, wanted.ts)
            == match memtable::newest(unexpired(b, wanted.now), wanted.key, wanted.ts) {
            Some(row) => Some(row),
            None => memtable::newest(unexpired(a, wanted.now), wanted.key, wanted.ts),
        },
{
    engine::lemma_filter_append(a, b, |r: InternalRecordView| r.expire_at >= wanted.now);
    lemma_newest_append(
        unexpired(a, wanted.now),
        unexpired(b, wanted.now),
        wanted.key,
        wanted.ts,
    );
}

/// A lookup in the memtables under the hash of the key finds the newest row that has
/// not expired.
proof fn lemma_lookup_history(mem: MemTables, f: spec_fn(Seq<u8>) -> u64, wanted: Wanted)
    requires
        mem.active().indexed_by(f),
        orderly(mem, wanted),
    ensures
        mem.lookup(f(wanted.key), wanted.key, wanted.ts, wanted.now) == memtable::newest(
            unexpired(history(mem), wanted.now),
            wanted.key,
            wanted.ts,
        ),
{
    memtable::law_lookup_newest(mem.active(), f, wanted.key, wanted.ts);
    lemma_newest_unexpired(mem.active().rows(), wanted);
    lemma_tables_newest(mem.frozen(), wanted);
    lemma_unexpired_append(tables_rows(mem.frozen()), mem.active().rows(), wanted);
}

/// Rows that are in ascending order still are without those that have expired.
proof fn lemma_still_ascending(rows: Seq<InternalRecordView>, wanted: Wanted)
    requires
        ascending(rows, wanted),
    ensures
        ascending(unexpired(rows, wanted.now), wanted),
    decreases rows.len(),
{
    reveal(Seq::filter);
    let rest = unexpired(rows, wanted.now);
    if rows.len() > 0 {
        let front = rows.drop_last();
        let last = rows.last();
        let before = unexpired(front, wanted.now);
        assert forall|i: int, j: int|
            0 <= i < j < front.len() && versions::at_place(
                #[trigger] front[i],
                wanted.key,
                wanted.ts,
            ) && versions::at_place(#[trigger] front[j], wanted.key, wanted.ts)
            implies front[i].seq < front[j].seq by {
            assert(front[i] == rows[i] && front[j] == rows[j]);
        }
        lemma_still_ascending(front, wanted);
        if last.expire_at >= wanted.now {
            assert(rest == before.push(last));
            assert forall|i: int, j: int|
                0 <= i < j < rest.len() && versions::at_place(
                    #[trigger] rest[i],
                    wanted.key,
                    wanted.ts,
                ) && versions::at_place(#[trigger] rest[j], wanted.key, wanted.ts)
                implies rest[i].seq < rest[j].seq by {
                assert(rest[i] == before[i]);
                if j < before.len() {
                    assert(rest[j] == before[j]);
                } else {
                    assert(before.contains(before[i]));
                    write_worker::lemma_filtered(
                        front,
                        |r: InternalRecordView| r.expire_at >= wanted.now,
                        before[i],
                    );
                    let k = choose|k: int| 0 <= k < front.len() && front[k] == before[i];
                    assert(rows[k] == front[k]);
                    assert(rows[rows.len() - 1] == last);
                }
            }
        } else {
            assert(rest == before);
        }
    }
}

/// A query selects of the frozen tables the rows that it asks for.
proof fn lemma_tables_selected(tables: Seq<MemTable>, query: MemQuery, row: InternalRecordView)
    ensures
        memtable::tables_selection(tables, query).contains(row) <==> tables_rows(tables).contains(row)
            && memtable::selects(query, row),
    decreases tables.len(),
{
    if tables.len() > 0 {
        let rest = tables.drop_last();
        let last = tables.last().rows();
        lemma_tables_selected(rest, query, row);
        engine::lemma_contains_append(
            memtable::tables_selection(rest, query),
            memtable::selection(query, last),
            row,
        );
        engine::lemma_contains_append(tables_rows(rest), last, row);
        write_worker::lemma_filtered(
            last,
            |r: InternalRecordView| memtable::selects(query, r),
            row,
        );
    }
}

/// A query selects of the memtables the rows that it asks for.
proof fn lemma_history_selected(mem: MemTables, query: MemQuery, row: InternalRecordView)
    ensures
        mem.selected(query).contains(row) <==> history(mem).contains(row) && memtable::selects(
            query,
            row,
        ),
{
    let last = mem.active().rows();
    lemma_tables_selected(mem.frozen(), query, row);
    engine::lemma_contains_append(
        memtable::selection(query, last),
        memtable::tables_selection(mem.frozen(), query),
        row,
    );
    engine::lemma_contains_append(tables_rows(mem.frozen()), last, row);
    write_worker::lemma_filtered(last, |r: InternalRecordView| memtable::selects(query, r), row);
}

/// The query for one key and time.
pub open spec fn is_point(query: Query, wanted: Wanted) -> bool {
    &&& query.key_filter@ == KeyFilterView::Range { start: wanted.key, end: wanted.key }
    &&& query.time_range == Some((wanted.ts, wanted.ts))
}

/// What the memtables show to a query for a key and time, which no range tombstone of
/// theirs covers, is the newest row that has not expired.
proof fn lemma_history_current(mem: MemTables, query: Query, wanted: Wanted)
    requires
        is_point(query, wanted),
        orderly(mem, wanted),
        !scan::covered(
            scan::row_tombstones(mem.selected(scan::all_rows(wanted.now))),
            wanted.key,
        ),
    ensures
        versions::current(
            versions::point_rows(mem.selected(scan::mem_query(query, wanted.now))),
            wanted.key,
            wanted.ts,
        ) == memtable::newest(unexpired(history(mem), wanted.now), wanted.key, wanted.ts),
{
    let key = wanted.key;
    let ts = wanted.ts;
    let all = history(mem);
    let rows = unexpired(all, wanted.now);
    let every = mem.selected(scan::all_rows(wanted.now));
    let q = scan::mem_query(query, wanted.now);
    let points = versions::point_rows(mem.selected(q));
    scan::lemma_covered_rows(every, key);
    lemma_still_ascending(all, wanted);
    assert forall|r: InternalRecordView| versions::at_place(r, key, ts) implies (
    #[trigger] rows.contains(r) <==> points.contains(r)) by {
        write_worker::lemma_filtered(
            mem.selected(q),
            |x: InternalRecordView| x.op != Op::DeleteRange,
            r,
        );
        write_worker::lemma_filtered(
            all,
            |x: InternalRecordView| x.expire_at >= wanted.now,
            r,
        );
        lemma_history_selected(mem, q, r);
        lemma_history_selected(mem, scan::all_rows(wanted.now), r);
        if rows.contains(r) && r.op == Op::DeleteRange {
            let i = choose|i: int| 0 <= i < all.len() && all[i] == r;
            assert(versions::at_place(all[i], key, ts));
            let k = choose|k: int| 0 <= k < every.len() && every[k] == r;
            assert(scan::row_covers(every[k], key));
        }
    }
    assert forall|i: int, j: int|
        0 <= i < rows.len() && 0 <= j < rows.len() && versions::at_place(
            #[trigger] rows[i],
            key,
            ts,
        ) && versions::at_place(#[trigger] rows[j], key, ts) && rows[i].seq == rows[j].seq
        implies rows[i] == rows[j] by {
        if i < j {
            assert(rows[i].seq < rows[j].seq);
        }
        if j < i {
            assert(rows[j].seq < rows[i].seq);
        }
    }
    versions::lemma_current_same(rows, points, key, ts);
    let y = lemma_newest_found(rows, key, ts);
    let z = versions::lemma_current_found(rows, key, ts);
    if memtable::newest(rows, key, ts) is Some {
        assert(versions::at_place(rows[y], key, ts));
        assert forall|x: int| 0 <= x < rows.len() && versions::same_place(#[trigger] rows[x], rows[y])
            implies rows[x].seq < rows[y].seq || (rows[x].seq == rows[y].seq && x <= y) by {
            assert(versions::at_place(rows[x], key, ts));
            if x < y {
                assert(rows[x].seq < rows[y].seq);
            }
        }
        versions::lemma_current_at(rows, y);
    }
}

/// Whether a filter is one for the keys of the rows.
pub open spec fn made_from(
    filter: BloomFilterView,
    rows: Seq<InternalRecordView>,
    bits_per_key: int,
) -> bool {
    exists|made: BloomFilter| #[trigger]
        made@ == filter && made.wf() && made.built_from(sstable::key_runs(rows), bits_per_key)
}

/// Whether the table is open and holds the rows, `size` of them in a block, and the
/// manifest knows the blocks and, if any, the filter of these rows, or one of another
/// hash, which rules no key out.
pub open spec fn table_of(
    state: StateView,
    tables: Seq<Table>,
    id: u32,
    rows: Seq<InternalRecordView>,
    size: nat,
    bits_per_key: int,
) -> bool {
    let parts = sstable::chunks(rows, size);
    &&& size > 0
    &&& sort::sorted(SortOrder::KeyTs, rows)
    &&& parts.len() <= u32::MAX
    &&& block_index::blocks_of(state, id) == sstable::block_list(parts)
    &&& forall|j: int|
        0 <= j < parts.len() ==> lookup::rows_of(tables, (id, j as u32)) == Some(
            sstable::unnumbered_rows(#[trigger] parts[j]),
        )
    &&& state.sstables.contains_key(id) ==> (state.sstables[id].bloom matches Some(filter)
        ==> filter.hash_version != bloom::CURRENT_HASH_VERSION || made_from(
        filter,
        rows,
        bits_per_key,
    ))
}

/// Whether every one of the tables is open, and the manifest knows the blocks and the
/// filter that were made of its rows.
pub open spec fn kept(state: StateView, tables: Seq<Table>, ids: Seq<u32>) -> bool {
    forall|k: int| 0 <= k < ids.len() ==> is_kept(state, tables, #[trigger] ids[k])
}

/// Whether the table is open, and the manifest knows the blocks and the filter that
/// were made of its rows.
pub open spec fn is_kept(state: StateView, tables: Seq<Table>, id: u32) -> bool {
    exists|rows: Seq<InternalRecordView>, size: nat, bits_per_key: int| #[trigger]
        table_of(state, tables, id, rows, size, bits_per_key)
}

/// The filter of a table lets the key of each of its rows pass.
pub proof fn law_filter_lets_pass(
    state: StateView,
    tables: Seq<Table>,
    id: u32,
    rows: Seq<InternalRecordView>,
    size: nat,
    bits_per_key: int,
    i: int,
)
    requires
        table_of(state, tables, id, rows, size, bits_per_key),
        0 <= i < rows.len(),
    ensures
        block_index::filter_passes(state, id, rows[i].key),
{
    if state.sstables.contains_key(id) && state.sstables[id].bloom is Some
        && state.sstables[id].bloom->0.hash_version == bloom::CURRENT_HASH_VERSION {
        let filter = state.sstables[id].bloom->0;
        let made = choose|made: BloomFilter| #[trigger]
            made@ == filter && made.wf() && made.built_from(sstable::key_runs(rows), bits_per_key);
        let keys = sstable::key_runs(rows);
        sstable::lemma_key_run(rows, i);
        let j = choose|j: int| 0 <= j < keys.len() && keys[j] == rows[i].key;
        bloom::law_no_false_negatives(made, keys, bits_per_key, j);
        assert(made.num_bits() == 64int * filter.bits.len());
        assert(filter.passes(rows[i].key));
    }
}

/// The rows of a block that a lookup minds.
pub open spec fn minded(rows: Seq<InternalRecordView>, now: i64) -> Seq<InternalRecordView> {
    versions::point_rows(scan::live(rows, now))
}

/// A block that holds a row which a lookup minds holds it in its part of the table.
proof fn lemma_minded_row(part: Seq<InternalRecordView>, now: i64, key: Seq<u8>, ts: i64) -> (i: int)
    requires
        versions::current(minded(sstable::unnumbered_rows(part), now), key, ts) is Some,
    ensures
        0 <= i < part.len(),
        part[i].expire_at > now,
        part[i].key == key,
        part[i].ts == ts,
{
    let rows = sstable::unnumbered_rows(part);
    let alive = scan::live(rows, now);
    let points = minded(rows, now);
    let y = versions::lemma_current_found(points, key, ts);
    let row = points[y];
    assert(points.contains(row));
    write_worker::lemma_filtered(alive, |r: InternalRecordView| r.op != Op::DeleteRange, row);
    write_worker::lemma_filtered(rows, |r: InternalRecordView| r.expire_at > now, row);
    let i = choose|i: int| 0 <= i < rows.len() && rows[i] == row;
    assert(rows[i] == sstable::unnumbered(part[i]));
    i
}

/// A block that is passed over has nothing to tell of the key and time.
proof fn lemma_passed_over(
    idx: u32,
    part: Seq<InternalRecordView>,
    wanted: Wanted,
    times: Option<(i64, i64)>,
)
    requires
        sort::sorted(SortOrder::KeyTs, part),
        memtable::admits_ts(times, wanted.ts),
        !block_index::may_hold(
            sstable::block_info(idx, part),
            KeyFilterView::Range { start: wanted.key, end: wanted.key },
            times,
            wanted.now,
        ),
    ensures
        versions::current(
            minded(sstable::unnumbered_rows(part), wanted.now),
            wanted.key,
            wanted.ts,
        ) is None,
{
    if versions::current(
        minded(sstable::unnumbered_rows(part), wanted.now),
        wanted.key,
        wanted.ts,
    ) is Some {
        let i = lemma_minded_row(part, wanted.now, wanted.key, wanted.ts);
        block_index::law_no_block_missed(
            idx,
            part,
            i,
            KeyFilterView::Range { start: wanted.key, end: wanted.key },
            times,
            wanted.now,
        );
    }
}

/// Of the rows of a block, which have no numbers, a query for a key and time takes
/// what a lookup minds.
proof fn lemma_taken_minded(rows: Seq<InternalRecordView>, wanted: Wanted)
    requires
        forall|i: int| 0 <= i < rows.len() ==> (#[trigger] rows[i]).seq == 0,
    ensures
        versions::current(
            scan::taken_rows(
                rows,
                KeyFilterView::Range { start: wanted.key, end: wanted.key },
                Some((wanted.ts, wanted.ts)),
                false,
                wanted.now,
            ),
            wanted.key,
            wanted.ts,
        ) == versions::current(minded(rows, wanted.now), wanted.key, wanted.ts),
    decreases rows.len(),
{
    reveal(Seq::filter);
    let filter = KeyFilterView::Range { start: wanted.key, end: wanted.key };
    let times = Some((wanted.ts, wanted.ts));
    let now = wanted.now;
    if rows.len() == 0 {
        assert(scan::live(rows, now) =~= Seq::<InternalRecordView>::empty());
        assert(minded(rows, now) =~= Seq::<InternalRecordView>::empty());
    } else {
        let front = rows.drop_last();
        let last = rows.last();
        assert forall|i: int| 0 <= i < front.len() implies (#[trigger] front[i]).seq == 0 by {
            assert(front[i] == rows[i]);
        }
        lemma_taken_minded(front, wanted);
        let before = scan::live(front, now);
        let taken = scan::taken_rows(front, filter, times, false, now);
        assert(rows[rows.len() - 1].seq == 0);
        if last.expire_at > now {
            assert(scan::live(rows, now) == before.push(last));
            assert(before.push(last).drop_last() =~= before);
            if last.op != Op::DeleteRange {
                let points = versions::point_rows(before);
                assert(minded(rows, now) == points.push(last));
                assert(points.push(last).drop_last() =~= points);
                assert(taken.push(last).drop_last() =~= taken);
                assert(InternalRecordView { seq: 0, ..last } == last);
            }
        }
    }
}

/// What a row tells, if there is one.
pub open spec fn told_of(row: Option<InternalRecordView>) -> LookupView {
    match row {
        Some(r) => lookup::told_by(r),
        None => LookupView::Absent,
    }
}

/// What blocks of two lists tell: what those of the first tell, or else what those of
/// the second do.
proof fn lemma_told_append(tables: Seq<Table>, a: Seq<BlockId>, b: Seq<BlockId>, wanted: Wanted)
    ensures
        lookup::blocks_told(tables, a + b, wanted.key, wanted.ts, wanted.now) == {
            let first = lookup::blocks_told(tables, a, wanted.key, wanted.ts, wanted.now);
            if first == LookupView::Absent {
                lookup::blocks_told(tables, b, wanted.key, wanted.ts, wanted.now)
            } else {
                first
            }
        },
    decreases a.len(),
{
    if a.len() == 0 {
        assert(a + b =~= b);
    } else {
        assert((a + b).drop_first() =~= a.drop_first() + b);
        lemma_told_append(tables, a.drop_first(), b, wanted);
    }
}

/// What the first parts of a table hold that a lookup minds, part by part.
pub open spec fn minded_parts(parts: scan::Sources, n: int, now: i64) -> scan::Sources {
    Seq::new(n as nat, |j: int| minded(sstable::unnumbered_rows(parts[j]), now))
}

/// Whether the parts are sorted, and are what is read of the table.
spec fn parts_of(tables: Seq<Table>, id: u32, parts: scan::Sources) -> bool {
    &&& parts.len() <= u32::MAX
    &&& forall|j: int|
        0 <= j < parts.len() ==> sort::sorted(SortOrder::KeyTs, #[trigger] parts[j])
            && lookup::rows_of(tables, (id, j as u32)) == Some(sstable::unnumbered_rows(parts[j]))
}

/// The blocks of a table that may hold a key tell of it what all its parts tell.
proof fn lemma_table_told(
    tables: Seq<Table>,
    id: u32,
    parts: scan::Sources,
    n: int,
    wanted: Wanted,
)
    requires
        parts_of(tables, id, parts),
        0 <= n <= parts.len(),
    ensures
        lookup::blocks_told(
            tables,
            block_index::table_candidates(
                id,
                sstable::block_list(parts).take(n),
                KeyFilterView::Range { start: wanted.key, end: wanted.key },
                None,
                wanted.now,
            ),
            wanted.key,
            wanted.ts,
            wanted.now,
        ) == told_of(
            scan::deciding(minded_parts(parts, n, wanted.now), wanted.key, wanted.ts),
        ),
    decreases n,
{
    let filter = KeyFilterView::Range { start: wanted.key, end: wanted.key };
    let list = sstable::block_list(parts);
    if n > 0 {
        lemma_table_told(tables, id, parts, n - 1, wanted);
        let before = block_index::table_candidates(id, list.take(n - 1), filter, None, wanted.now);
        let all = minded_parts(parts, n, wanted.now);
        let part = parts[n - 1];
        let info = sstable::block_info((n - 1) as u32, part);
        assert(list.take(n).drop_last() =~= list.take(n - 1));
        assert(list.take(n).last() == info);
        assert(all.drop_last() =~= minded_parts(parts, n - 1, wanted.now));
        if block_index::may_hold(info, filter, None, wanted.now) {
            let own = seq![(id, (n - 1) as u32)];
            lemma_told_append(tables, before, own, wanted);
            assert(before + own =~= before.push((id, (n - 1) as u32)));
            assert(own.drop_first() =~= Seq::<BlockId>::empty());
            assert(own[0] == (id, (n - 1) as u32));
            assert(lookup::blocks_told(
                tables,
                own.drop_first(),
                wanted.key,
                wanted.ts,
                wanted.now,
            ) == LookupView::Absent);
        } else {
            lemma_passed_over((n - 1) as u32, part, wanted, None);
        }
    }
}

/// The blocks of a table in which a query for a key and time may find something decide
/// on it as all its parts do.
proof fn lemma_table_decides(
    tables: Seq<Table>,
    id: u32,
    parts: scan::Sources,
    n: int,
    query: Query,
    wanted: Wanted,
)
    requires
        is_point(query, wanted),
        parts_of(tables, id, parts),
        0 <= n <= parts.len(),
    ensures
        scan::deciding(
            scan::block_lists(
                lookup::readable_rows(
                    tables,
                    block_index::table_candidates(
                        id,
                        sstable::block_list(parts).take(n),
                        query.key_filter@,
                        query.time_range,
                        wanted.now,
                    ),
                ),
                query,
                wanted.now,
            ),
            wanted.key,
            wanted.ts,
        ) == scan::deciding(minded_parts(parts, n, wanted.now), wanted.key, wanted.ts),
    decreases n,
{
    let filter = query.key_filter@;
    let times = query.time_range;
    let now = wanted.now;
    let list = sstable::block_list(parts);
    let ids = block_index::table_candidates(id, list.take(n), filter, times, now);
    if n > 0 {
        lemma_table_decides(tables, id, parts, n - 1, query, wanted);
        let before = block_index::table_candidates(id, list.take(n - 1), filter, times, now);
        let read = lookup::readable_rows(tables, before);
        let all = minded_parts(parts, n, now);
        let part = parts[n - 1];
        let own = sstable::unnumbered_rows(part);
        let info = sstable::block_info((n - 1) as u32, part);
        assert(list.take(n).drop_last() =~= list.take(n - 1));
        assert(list.take(n).last() == info);
        assert(all.drop_last() =~= minded_parts(parts, n - 1, now));
        if block_index::may_hold(info, filter, times, now) {
            assert(ids.drop_last() =~= before);
            assert(ids.last() == (id, (n - 1) as u32));
            assert(lookup::readable_rows(tables, ids) == read.push(own));
            let lists = scan::block_lists(read.push(own), query, now);
            assert(lists.drop_last() =~= scan::block_lists(read, query, now));
            assert forall|i: int| 0 <= i < own.len() implies (#[trigger] own[i]).seq == 0 by {
                assert(own[i] == sstable::unnumbered(part[i]));
            }
            lemma_taken_minded(own, wanted);
            assert(lists.last() == scan::taken_rows(own, filter, times, false, now));
        } else {
            lemma_passed_over((n - 1) as u32, part, wanted, times);
        }
    } else {
        assert(list.take(n) =~= Seq::<manifest::BlockInfoView>::empty());
        assert(lookup::readable_rows(tables, ids) =~= Seq::<Seq<InternalRecordView>>::empty());
    }
}

/// The parts of a table that is kept.
proof fn lemma_parts_of(
    state: StateView,
    tables: Seq<Table>,
    id: u32,
    rows: Seq<InternalRecordView>,
    size: nat,
    bits_per_key: int,
)
    requires
        table_of(state, tables, id, rows, size, bits_per_key),
    ensures
        parts_of(tables, id, sstable::chunks(rows, size)),
{
    let parts = sstable::chunks(rows, size);
    assert forall|j: int| 0 <= j < parts.len() implies sort::sorted(
        SortOrder::KeyTs,
        #[trigger] parts[j],
    ) && lookup::rows_of(tables, (id, j as u32)) == Some(sstable::unnumbered_rows(parts[j])) by {
        sstable::lemma_chunk_sorted(rows, size, j);
    }
}

/// A table whose filter does not let a key pass has nothing to tell of it.
proof fn lemma_filtered_out(
    state: StateView,
    tables: Seq<Table>,
    id: u32,
    rows: Seq<InternalRecordView>,
    size: nat,
    bits_per_key: int,
    wanted: Wanted,
)
    requires
        table_of(state, tables, id, rows, size, bits_per_key),
        !block_index::filter_passes(state, id, wanted.key),
    ensures
        ({
            let parts = sstable::chunks(rows, size);
            scan::deciding(
                minded_parts(parts, parts.len() as int, wanted.now),
                wanted.key,
                wanted.ts,
            ) is None
        }),
{
    let parts = sstable::chunks(rows, size);
    let all = minded_parts(parts, parts.len() as int, wanted.now);
    assert forall|j: int| 0 <= j < all.len() implies versions::current(
        #[trigger] all[j],
        wanted.key,
        wanted.ts,
    ) is None by {
        if versions::current(all[j], wanted.key, wanted.ts) is Some {
            let i = lemma_minded_row(parts[j], wanted.now, wanted.key, wanted.ts);
            sstable::lemma_chunk_rows(rows, size, j);
            assert(rows.contains(parts[j][i]));
            let z = choose|z: int| 0 <= z < rows.len() && rows[z] == parts[j][i];
            law_filter_lets_pass(state, tables, id, rows, size, bits_per_key, z);
        }
    }
    scan::lemma_deciding_none(all, wanted.key, wanted.ts);
}

/// The blocks that a lookup reads tell of a key and time what those that a query reads
/// decide.
proof fn lemma_blocks_agree(
    state: StateView,
    tables: Seq<Table>,
    ids: Seq<u32>,
    query: Query,
    wanted: Wanted,
)
    requires
        is_point(query, wanted),
        kept(state, tables, ids),
    ensures
        lookup::blocks_told(
            tables,
            block_index::point_candidates(state, ids, wanted.key, wanted.now),
            wanted.key,
            wanted.ts,
            wanted.now,
        ) == told_of(
            scan::deciding(
                scan::block_lists(
                    lookup::readable_rows(
                        tables,
                        block_index::candidates(
                            state,
                            ids,
                            query.key_filter@,
                            query.time_range,
                            wanted.now,
                        ),
                    ),
                    query,
                    wanted.now,
                ),
                wanted.key,
                wanted.ts,
            ),
        ),
    decreases ids.len(),
{
    let now = wanted.now;
    if ids.len() == 0 {
        let none = block_index::candidates(state, ids, query.key_filter@, query.time_range, now);
        assert(none =~= Seq::<BlockId>::empty());
        assert(scan::block_lists(lookup::readable_rows(tables, none), query, now) =~= Seq::<
            Seq<InternalRecordView>,
        >::empty());
    } else {
        let id = ids.last();
        let front = ids.drop_last();
        assert(ids[ids.len() - 1] == id);
        assert forall|k: int| 0 <= k < front.len() implies is_kept(
            state,
            tables,
            #[trigger] front[k],
        ) by {
            assert(front[k] == ids[k]);
        }
        lemma_blocks_agree(state, tables, front, query, wanted);
        let (rows, size, bits) = choose|
            rows: Seq<InternalRecordView>,
            size: nat,
            bits_per_key: int,
        | #[trigger] table_of(state, tables, id, rows, size, bits_per_key);
        let parts = sstable::chunks(rows, size);
        let n = parts.len() as int;
        let list = sstable::block_list(parts);
        assert(list.take(n) =~= list);
        lemma_parts_of(state, tables, id, rows, size, bits);
        lemma_table_told(tables, id, parts, n, wanted);
        lemma_table_decides(tables, id, parts, n, query, wanted);
        let own = block_index::table_candidates(
            id,
            list,
            query.key_filter@,
            query.time_range,
            now,
        );
        let rest = block_index::candidates(state, front, query.key_filter@, query.time_range, now);
        let own_rows = lookup::readable_rows(tables, own);
        let rest_rows = lookup::readable_rows(tables, rest);
        durability::lemma_readable_append(tables, own, rest);
        assert(scan::block_lists(own_rows + rest_rows, query, now) =~= scan::block_lists(
            own_rows,
            query,
            now,
        ) + scan::block_lists(rest_rows, query, now));
        scan::lemma_deciding_append(
            scan::block_lists(own_rows, query, now),
            scan::block_lists(rest_rows, query, now),
            wanted.key,
            wanted.ts,
        );
        if block_index::filter_passes(state, id, wanted.key) {
            lemma_told_append(
                tables,
                block_index::table_candidates(
                    id,
                    list,
                    KeyFilterView::Range { start: wanted.key, end: wanted.key },
                    None,
                    now,
                ),
                block_index::point_candidates(state, front, wanted.key, now),
                wanted,
            );
        } else {
            lemma_filtered_out(state, tables, id, rows, size, bits, wanted);
        }
    }
}

/// Where the blocks of a table that one search reads cover a key, so do those that
/// another one reads, if both ask for the key.
proof fn lemma_table_covered(
    tables: Seq<Table>,
    id: u32,
    parts: scan::Sources,
    key: Seq<u8>,
    filter: KeyFilterView,
    one: Option<(i64, i64)>,
    other: Option<(i64, i64)>,
    now: i64,
)
    requires
        parts_of(tables, id, parts),
        memtable::admits_key(filter, key),
    ensures
        ({
            let list = sstable::block_list(parts);
            let a = block_index::table_candidates(id, list, filter, one, now);
            let b = block_index::table_candidates(id, list, filter, other, now);
            scan::covered(
                scan::block_tombstones(lookup::readable_rows(tables, a), now),
                key,
            ) ==> scan::covered(
                scan::block_tombstones(lookup::readable_rows(tables, b), now),
                key,
            )
        }),
{
    let n = parts.len() as int;
    let list = sstable::block_list(parts);
    let a = lookup::readable_rows(
        tables,
        block_index::table_candidates(id, list, filter, one, now),
    );
    let b = lookup::readable_rows(
        tables,
        block_index::table_candidates(id, list, filter, other, now),
    );
    assert(list.take(n) =~= list);
    assert forall|j: int| 0 <= j < parts.len() implies lookup::rows_of(tables, (id, j as u32)) == Some(
        sstable::unnumbered_rows(#[trigger] parts[j]),
    ) by {
        assert(sort::sorted(SortOrder::KeyTs, parts[j]));
    }
    durability::lemma_parts_read(tables, id, parts, n, filter, one, now);
    durability::lemma_parts_read(tables, id, parts, n, filter, other, now);
    scan::lemma_covered_blocks(a, now, key);
    scan::lemma_covered_blocks(b, now, key);
    if scan::covered(scan::block_tombstones(a, now), key) {
        let (c, i) = choose|c: int, i: int|
            0 <= c < a.len() && 0 <= i < a[c].len() && a[c][i].expire_at > now && scan::row_covers(
                #[trigger] a[c][i],
                key,
            );
        assert(durability::is_part(parts, n, a[c]));
        let j = choose|j: int|
            0 <= j < parts.len() && a[c] == sstable::unnumbered_rows(#[trigger] parts[j]);
        assert(a[c][i] == sstable::unnumbered(parts[j][i]));
        assert(sort::sorted(SortOrder::KeyTs, parts[j]));
        block_index::law_no_tombstone_missed(j as u32, parts[j], i, key, filter, other, now);
        assert(b.contains(sstable::unnumbered_rows(parts[j])));
        let d = choose|d: int| 0 <= d < b.len() && b[d] == sstable::unnumbered_rows(parts[j]);
        assert(scan::row_covers(b[d][i], key));
    }
}

/// Where the blocks that one search reads cover a key, so do those that another one
/// reads, if both ask for the key.
proof fn lemma_blocks_covered(
    state: StateView,
    tables: Seq<Table>,
    ids: Seq<u32>,
    key: Seq<u8>,
    filter: KeyFilterView,
    one: Option<(i64, i64)>,
    other: Option<(i64, i64)>,
    now: i64,
)
    requires
        kept(state, tables, ids),
        memtable::admits_key(filter, key),
    ensures
        ({
            let a = block_index::candidates(state, ids, filter, one, now);
            let b = block_index::candidates(state, ids, filter, other, now);
            scan::covered(
                scan::block_tombstones(lookup::readable_rows(tables, a), now),
                key,
            ) ==> scan::covered(
                scan::block_tombstones(lookup::readable_rows(tables, b), now),
                key,
            )
        }),
    decreases ids.len(),
{
    if ids.len() > 0 {
        let id = ids.last();
        let front = ids.drop_last();
        assert(ids[ids.len() - 1] == id);
        assert forall|k: int| 0 <= k < front.len() implies is_kept(
            state,
            tables,
            #[trigger] front[k],
        ) by {
            assert(front[k] == ids[k]);
        }
        lemma_blocks_covered(state, tables, front, key, filter, one, other, now);
        let (rows, size, bits) = choose|
            rows: Seq<InternalRecordView>,
            size: nat,
            bits_per_key: int,
        | #[trigger] table_of(state, tables, id, rows, size, bits_per_key);
        let parts = sstable::chunks(rows, size);
        let list = sstable::block_list(parts);
        lemma_parts_of(state, tables, id, rows, size, bits);
        lemma_table_covered(tables, id, parts, key, filter, one, other, now);
        let own_a = block_index::table_candidates(id, list, filter, one, now);
        let own_b = block_index::table_candidates(id, list, filter, other, now);
        let rest_a = block_index::candidates(state, front, filter, one, now);
        let rest_b = block_index::candidates(state, front, filter, other, now);
        durability::lemma_readable_append(tables, own_a, rest_a);
        durability::lemma_readable_append(tables, own_b, rest_b);
        durability::lemma_covered_both(
            lookup::readable_rows(tables, own_a),
            lookup::readable_rows(tables, rest_a),
            now,
            key,
        );
        durability::lemma_covered_both(
            lookup::readable_rows(tables, own_b),
            lookup::readable_rows(tables, rest_b),
            now,
            key,
        );
    }
}

/// A lookup minds a range tombstone over the key where a query for the key and time
/// does.
proof fn lemma_covered_alike(engine: Engine, tables: Seq<Table>, query: Query, wanted: Wanted)
    requires
        is_point(query, wanted),
        kept(engine.tables(), tables, engine.tables().active),
    ensures
        scan::covered(engine.key_tombstones(tables, wanted.key, wanted.now), wanted.key)
            <==> scan::covered(
            scan::scan_tombstones(
                engine.writer().mem(),
                engine.query_blocks(tables, query, wanted.now),
                wanted.now,
            ),
            wanted.key,
        ),
{
    let state = engine.tables();
    let key = wanted.key;
    let now = wanted.now;
    let filter = KeyFilterView::Range { start: key, end: key };
    let mine = scan::row_tombstones(engine.writer().mem().selected(scan::all_rows(now)));
    let a = lookup::readable_rows(
        tables,
        block_index::candidates(state, state.active, filter, None, now),
    );
    let b = engine.query_blocks(tables, query, now);
    lemma_blocks_covered(
        state,
        tables,
        state.active,
        key,
        filter,
        None,
        query.time_range,
        now,
    );
    lemma_blocks_covered(
        state,
        tables,
        state.active,
        key,
        filter,
        query.time_range,
        None,
        now,
    );
    engine::lemma_covered_append(mine, scan::block_tombstones(a, now), key);
    engine::lemma_covered_append(mine, scan::block_tombstones(b, now), key);
}

/// Whether lookups can be held against queries: the index of the active memtable was
/// built with the hashes that `f` gives, the rows with the key and time are in order,
/// and every table is open and as the manifest knows it.
pub open spec fn comparable(
    engine: Engine,
    f: spec_fn(Seq<u8>) -> u64,
    tables: Seq<Table>,
    wanted: Wanted,
) -> bool {
    &&& engine.writer().mem().active().indexed_by(f)
    &&& orderly(engine.writer().mem(), wanted)
    &&& kept(engine.tables(), tables, engine.tables().active)
}

/// The record that a query for the key and time shows, if any.
pub open spec fn point_shown(
    engine: Engine,
    tables: Seq<Table>,
    query: Query,
    wanted: Wanted,
) -> Option<RecordView> {
    let blocks = engine.query_blocks(tables, query, wanted.now);
    let lists = scan::scan_lists(engine.writer().mem(), blocks, query, wanted.now);
    let tombstones = scan::scan_tombstones(engine.writer().mem(), blocks, wanted.now);
    if scan::shown(lists, tombstones, wanted.key, wanted.ts) {
        Some((scan::deciding(lists, wanted.key, wanted.ts)->0).record())
    } else {
        None
    }
}

/// A lookup that finds the newest row of the memtables that has not expired tells the
/// record that a query for the key and time shows.
proof fn lemma_told_shown(
    engine: Engine,
    h: u64,
    tables: Seq<Table>,
    query: Query,
    wanted: Wanted,
)
    requires
        is_point(query, wanted),
        orderly(engine.writer().mem(), wanted),
        kept(engine.tables(), tables, engine.tables().active),
        engine.writer().mem().lookup(h, wanted.key, wanted.ts, wanted.now) == memtable::newest(
            unexpired(history(engine.writer().mem()), wanted.now),
            wanted.key,
            wanted.ts,
        ),
    ensures
        engine.told_with(tables, wanted, h).record() == point_shown(
            engine,
            tables,
            query,
            wanted,
        ),
{
    let mem = engine.writer().mem();
    let key = wanted.key;
    let ts = wanted.ts;
    let now = wanted.now;
    let blocks = engine.query_blocks(tables, query, now);
    let mine = versions::point_rows(mem.selected(scan::mem_query(query, now)));
    lemma_covered_alike(engine, tables, query, wanted);
    if !scan::covered(engine.key_tombstones(tables, key, now), key) {
        engine::lemma_covered_append(
            scan::row_tombstones(mem.selected(scan::all_rows(now))),
            scan::block_tombstones(
                lookup::readable_rows(
                    tables,
                    block_index::candidates(
                        engine.tables(),
                        engine.tables().active,
                        KeyFilterView::Range { start: key, end: key },
                        None,
                        now,
                    ),
                ),
                now,
            ),
            key,
        );
        lemma_history_current(mem, query, wanted);
        lemma_blocks_agree(engine.tables(), tables, engine.tables().active, query, wanted);
        durability::lemma_one_list(mine, key, ts);
        scan::lemma_deciding_append(
            seq![mine],
            scan::block_lists(blocks, query, now),
            key,
            ts,
        );
    }
}

/// A lookup tells the record that a query for the key and time shows.
proof fn lemma_lookup_shown(
    engine: Engine,
    f: spec_fn(Seq<u8>) -> u64,
    tables: Seq<Table>,
    query: Query,
    wanted: Wanted,
)
    requires
        is_point(query, wanted),
        comparable(engine, f, tables, wanted),
    ensures
        engine.told_with(tables, wanted, f(wanted.key)).record() == point_shown(
            engine,
            tables,
            query,
            wanted,
        ),
{
    lemma_lookup_history(engine.writer().mem(), f, wanted);
    lemma_told_shown(engine, f(wanted.key), tables, query, wanted);
}

/// A lookup and a query agree: a lookup tells the record that a query for the range of
/// keys from the key to the key and of times from the time to the time returns, and
/// none where that returns none.
pub proof fn law_lookup_agrees(
    engine: Engine,
    f: spec_fn(Seq<u8>) -> u64,
    tables: Seq<Table>,
    query: Query,
    wanted: Wanted,
    records: Seq<RecordView>,
)
    requires
        is_point(query, wanted),
        comparable(engine, f, tables, wanted),
        engine.is_answer(tables, query, wanted.now, records),
    ensures
        match engine.told_with(tables, wanted, f(wanted.key)).record() {
            Some(rec) => records == seq![rec],
            None => records == Seq::<RecordView>::empty(),
        },
{
    let mem = engine.writer().mem();
    let blocks = engine.query_blocks(tables, query, wanted.now);
    let lists = scan::scan_lists(mem, blocks, query, wanted.now);
    let tombstones = scan::scan_tombstones(mem, blocks, wanted.now);
    lemma_lookup_shown(engine, f, tables, query, wanted);
    assert forall|i: int| 0 <= i < records.len() implies (#[trigger] records[i]).key == wanted.key
        && records[i].ts == wanted.ts by {
        assert(scan::shown(lists, tombstones, records[i].key, records[i].ts));
        scan::lemma_deciding_admitted(
            mem,
            blocks,
            query,
            wanted.now,
            records[i].key,
            records[i].ts,
        );
        bytes::lemma_lex_total(wanted.key, records[i].key);
    }
    if records.len() > 1 {
        assert(scan::record_lt(records[0], records[1]));
        bytes::lemma_lex_irreflexive(wanted.key);
        assert(records[0].key == wanted.key && records[1].key == wanted.key);
    }
    if records.len() > 0 {
        assert(records[0].key == wanted.key && records[0].ts == wanted.ts);
        assert(scan::shown(lists, tombstones, wanted.key, wanted.ts));
        assert(records =~= seq![records[0]]);
    } else {
        if scan::shown(lists, tombstones, wanted.key, wanted.ts) {
            assert(records.contains(
                (scan::deciding(lists, wanted.key, wanted.ts)->0).record(),
            ));
        }
        assert(records =~= Seq::<RecordView>::empty());
    }
}

/// A table that is kept stays so once another one is entered and open.
proof fn lemma_stays_kept(
    before: StateView,
    after: StateView,
    tables: Seq<Table>,
    opened: Table,
    id: u32,
)
    requires
        id != opened.reader.id(),
        block_index::blocks_of(after, id) == block_index::blocks_of(before, id),
        after.sstables.contains_key(id) ==> before.sstables.contains_key(id) && after.sstables[id]
            == before.sstables[id],
        is_kept(before, tables, id),
    ensures
        is_kept(after, tables.push(opened), id),
{
    let more = tables.push(opened);
    let (rows, size, bits) = choose|rows: Seq<InternalRecordView>, size: nat, bits_per_key: int|
        #[trigger] table_of(before, tables, id, rows, size, bits_per_key);
    let parts = sstable::chunks(rows, size);
    assert(more.drop_last() =~= tables);
    lookup::lemma_table_in_list(tables, id);
    assert(lookup::table_at(more, id) == lookup::table_at(tables, id));
    assert forall|j: int| 0 <= j < parts.len() implies lookup::rows_of(more, (id, j as u32)) == Some(
        sstable::unnumbered_rows(#[trigger] parts[j]),
    ) by {
        assert(lookup::rows_of(tables, (id, j as u32)) == Some(sstable::unnumbered_rows(parts[j])));
    }
    assert(table_of(after, more, id, rows, size, bits));
}

/// Where every table is open and as the manifest knows it, that is so once a flush was
/// written, entered and opened.
pub proof fn law_flush_kept(
    before: Engine,
    flush: Flush,
    rows: Seq<InternalRecordView>,
    after: Engine,
    tables: Seq<Table>,
    opened: Table,
)
    requires
        before.wf(),
        manifest::max_id(before.tables().active) < u32::MAX,
        sort::sorted(SortOrder::KeyTs, rows),
        flush.is_of(
            rows,
            (manifest::max_id(before.tables().active) + 1) as u32,
            before.writer().settings().block_size,
            before.writer().settings().bloom_bits_per_key,
        ),
        durability::readable_flush(flush, rows, before.writer().settings().block_size),
        after.tables() == before.tables().applied(flush.entry()),
        durability::opens(flush, opened),
        lookup::table_at(tables, flush.info.id) is None,
        kept(before.tables(), tables, before.tables().active),
    ensures
        kept(after.tables(), tables.push(opened), after.tables().active),
{
    let id = flush.info.id;
    let block_size = before.writer().settings().block_size;
    let bits = before.writer().settings().bloom_bits_per_key;
    let size = sstable::at_least_one(block_size);
    let parts = sstable::chunks(rows, size);
    let list = sstable::block_list(parts);
    let old = before.tables();
    let new = after.tables();
    let more = tables.push(opened);
    assert(flush.info@.id == id);
    assert forall|k: int| 0 <= k < old.active.len() implies #[trigger] old.active[k] != id by {
        manifest::lemma_max_id(old.active, k);
    }
    assert(!old.active.contains(id));
    assert(new.active == old.active.push(id));
    assert(new.block_infos == old.block_infos.insert(id, list));
    assert(new.sstables == old.sstables.insert(id, flush.info@));
    engine::law_flush_read_back(flush, rows, id, block_size, bits, *opened.reader, 0);
    durability::lemma_part_count(rows, size);
    assert(more.drop_last() =~= tables);
    assert(lookup::table_at(more, id) == Some(tables.len() as int));
    assert forall|j: int| 0 <= j < parts.len() implies lookup::rows_of(more, (id, j as u32)) == Some(
        sstable::unnumbered_rows(#[trigger] parts[j]),
    ) by {
        engine::law_flush_read_back(flush, rows, id, block_size, bits, *opened.reader, j as u32);
        assert(more[tables.len() as int] == opened);
    }
    assert(made_from(flush.file.bloom@, rows, bits as int)) by {
        assert(flush.file.bloom@ == flush.file.bloom@);
    }
    assert(table_of(new, more, id, rows, size, bits as int));
    assert forall|k: int| 0 <= k < new.active.len() implies is_kept(
        new,
        more,
        #[trigger] new.active[k],
    ) by {
        if k < old.active.len() {
            let other = old.active[k];
            assert(new.active[k] == other);
            assert(is_kept(old, tables, other));
            lemma_stays_kept(old, new, tables, opened, other);
        }
    }
}

/// A flush changes nothing that a lookup tells: once a memtable none of whose rows has
/// expired was written to a table, and that table is entered and open, a lookup gives
/// the record that it gave before, or none as before. `query` is the query for the key
/// and time.
pub proof fn law_flush_lookup(
    before: Engine,
    f: spec_fn(Seq<u8>) -> u64,
    flush: Flush,
    rows: Seq<InternalRecordView>,
    flush_now: i64,
    after: Engine,
    tables: Seq<Table>,
    opened: Table,
    query: Query,
    wanted: Wanted,
    told: LookupView,
)
    requires
        before.wf(),
        is_point(query, wanted),
        comparable(before, f, tables, wanted),
        manifest::max_id(before.tables().active) < u32::MAX,
        before.writer().mem().frozen().len() == 0,
        durability::numbered(before.writer().mem().active().rows()),
        forall|i: int|
            0 <= i < before.writer().mem().active().rows().len() ==> (
            #[trigger] before.writer().mem().active().rows()[i]).expire_at > wanted.now,
        flush_now <= wanted.now,
        write_worker::flushed_rows(before.writer().mem(), flush_now, rows),
        flush.is_of(
            rows,
            (manifest::max_id(before.tables().active) + 1) as u32,
            before.writer().settings().block_size,
            before.writer().settings().bloom_bits_per_key,
        ),
        durability::readable_flush(flush, rows, before.writer().settings().block_size),
        after.writer().mem().frozen().len() == 0,
        after.writer().mem().active().rows().len() == 0,
        after.tables() == before.tables().applied(flush.entry()),
        durability::opens(flush, opened),
        lookup::table_at(tables, flush.info.id) is None,
        after.tells(tables.push(opened), wanted, told),
    ensures
        told.record() == before.told_with(tables, wanted, f(wanted.key)).record(),
{
    let more = tables.push(opened);
    let mem = after.writer().mem();
    let h = choose|h: u64| told == #[trigger] after.told_with(more, wanted, h);
    durability::lemma_flush_of(before.writer().mem(), rows, flush_now, wanted.now);
    law_flush_kept(before, flush, rows, after, tables, opened);
    assert(history(mem) =~= Seq::<InternalRecordView>::empty());
    assert(unexpired(history(mem), wanted.now) =~= Seq::<InternalRecordView>::empty()) by {
        reveal(Seq::filter);
    }
    assert(mem.lookup(h, wanted.key, wanted.ts, wanted.now) is None);
    lemma_told_shown(after, h, more, query, wanted);
    lemma_lookup_shown(before, f, tables, query, wanted);
    durability::lemma_flush_shows(
        before,
        flush,
        rows,
        flush_now,
        after,
        tables,
        opened,
        query,
        wanted.now,
    );
}

/// A restart changes nothing that a lookup tells: an engine that is opened over the
/// segments and the tables of another one, whose log held what its memtable held, tells
/// what that one told, whatever hashes each of them indexes with.
pub proof fn law_restart_lookup(
    before: Engine,
    f: spec_fn(Seq<u8>) -> u64,
    parts: Seq<Seq<InternalRecordView>>,
    after: Engine,
    g: spec_fn(Seq<u8>) -> u64,
    tables: Seq<Table>,
    wanted: Wanted,
)
    requires
        before.writer().mem().active().indexed_by(f),
        after.writer().mem().active().indexed_by(g),
        durability::logged(before, parts),
        after.tables() == before.tables(),
        after.writer().mem().frozen().len() == 0,
        sort::stably_sorted(
            SortOrder::Sequence,
            wal::replay_rows(
                parts.map_values(|p: Seq<InternalRecordView>| wal::framed_all(p)),
                before.tables().last_flushed_seq,
            ),
            after.writer().mem().active().rows(),
        ),
    ensures
        after.told_with(tables, wanted, g(wanted.key)) == before.told_with(
            tables,
            wanted,
            f(wanted.key),
        ),
{
    let flushed = before.tables().last_flushed_seq;
    let rows = engine::rows_above(parts, flushed);
    let m1 = before.writer().mem();
    let m2 = after.writer().mem();
    assert forall|i: int, j: int| 0 <= i < j < rows.len() implies (#[trigger] rows[i]).seq <= (
    #[trigger] rows[j]).seq by {
        assert(rows[i].seq < rows[j].seq);
    }
    engine::law_recovery(parts, flushed, m2.active().rows());
    memtable::law_lookup_newest(m1.active(), f, wanted.key, wanted.ts);
    memtable::law_lookup_newest(m2.active(), g, wanted.key, wanted.ts);
    assert(m1.frozen() =~= m2.frozen());
}

/// A lookup gives after a shutdown and a restart what it gave before: an engine whose
/// log held what its memtable held is flushed, with the table entered in the manifest,
/// and another one is opened over the tables and over segments of the log that are left.
/// `query` is the query for the key and time.
pub proof fn law_shutdown_lookup(
    before: Engine,
    f: spec_fn(Seq<u8>) -> u64,
    parts: Seq<Seq<InternalRecordView>>,
    flush: Flush,
    rows: Seq<InternalRecordView>,
    flush_now: i64,
    left: Seq<Seq<InternalRecordView>>,
    after: Engine,
    tables: Seq<Table>,
    opened: Table,
    query: Query,
    wanted: Wanted,
    told: LookupView,
)
    requires
        before.wf(),
        is_point(query, wanted),
        comparable(before, f, tables, wanted),
        durability::logged(before, parts),
        manifest::max_id(before.tables().active) < u32::MAX,
        forall|i: int|
            0 <= i < before.writer().mem().active().rows().len() ==> (
            #[trigger] before.writer().mem().active().rows()[i]).expire_at > wanted.now,
        flush_now <= wanted.now,
        write_worker::flushed_rows(before.writer().mem(), flush_now, rows),
        flush.is_of(
            rows,
            (manifest::max_id(before.tables().active) + 1) as u32,
            before.writer().settings().block_size,
            before.writer().settings().bloom_bits_per_key,
        ),
        durability::readable_flush(flush, rows, before.writer().settings().block_size),
        forall|q: int| 0 <= q < left.len() ==> parts.contains(#[trigger] left[q]),
        after.tables() == before.tables().applied(flush.entry()),
        after.writer().mem().frozen().len() == 0,
        sort::stably_sorted(
            SortOrder::Sequence,
            wal::replay_rows(
                left.map_values(|p: Seq<InternalRecordView>| wal::framed_all(p)),
                after.tables().last_flushed_seq,
            ),
            after.writer().mem().active().rows(),
        ),
        durability::opens(flush, opened),
        lookup::table_at(tables, flush.info.id) is None,
        after.tells(tables.push(opened), wanted, told),
    ensures
        told.record() == before.told_with(tables, wanted, f(wanted.key)).record(),
{
    durability::lemma_nothing_left(
        before,
        parts,
        flush,
        rows,
        flush_now,
        left,
        after,
        wanted.now,
    );
    law_flush_lookup(
        before,
        f,
        flush,
        rows,
        flush_now,
        after,
        tables,
        opened,
        query,
        wanted,
        told,
    );
}

} // verus!
