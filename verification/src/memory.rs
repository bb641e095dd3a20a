//! What the calls on records, on the memtables and on the manifest promise: what a table
//! in memory selects, what comes of freezing it, and which change touches which table.

use vstd::prelude::*;
use vstd::string::*;
use crate::bloom::BloomFilter;
use crate::bytes;
use crate::error::FlowError;
use crate::manifest;
use crate::manifest::{Manifest, ManifestEntry};
use crate::memtable;
use crate::memtable::{MemQuery, MemTable, MemTables};
use crate::record;
use crate::record::{
    Config, InternalRecord, InternalRecordView, KeyFilter, KeyFilterView, Op, Record,
};
use crate::scan;
use crate::scan::ScanIterator;
use crate::sort;
use crate::sort::SortOrder;

verus! {

/// Whether one of the memtables holds the row.
pub open spec fn held(mem: MemTables, row: InternalRecordView) -> bool {
    mem.active().rows().contains(row) || exists|k: int|
        0 <= k < mem.frozen().len() && (#[trigger] mem.frozen()[k]).rows().contains(row)
}

proof fn lemma_selection(query: MemQuery, rows: Seq<InternalRecordView>, row: InternalRecordView)
    ensures
        memtable::selection(query, rows).contains(row) <==> rows.contains(row)
            && memtable::selects(query, row),
{
    broadcast use vstd::seq_lib::group_filter_ensures;

    let p = |row: InternalRecordView| memtable::selects(query, row);
    if memtable::selection(query, rows).contains(row) {
        rows.lemma_filter_contains_rev(p, row);
        assert(p(row));
    }
    if rows.contains(row) && memtable::selects(query, row) {
        assert(p(row));
    }
}

proof fn lemma_contains_joined(
    a: Seq<InternalRecordView>,
    b: Seq<InternalRecordView>,
    row: InternalRecordView,
)
    ensures
        (a + b).contains(row) <==> a.contains(row) || b.contains(row),
{
    if a.contains(row) {
        let k = choose|k: int| 0 <= k < a.len() && a[k] == row;
        assert((a + b)[k] == row);
    }
    if b.contains(row) {
        let k = choose|k: int| 0 <= k < b.len() && b[k] == row;
        assert((a + b)[a.len() + k] == row);
    }
}

proof fn lemma_tables_selection(tables: Seq<MemTable>, query: MemQuery, row: InternalRecordView)
    ensures
        memtable::tables_selection(tables, query).contains(row) <==> memtable::selects(query, row)
            && exists|k: int|
            0 <= k < tables.len() && (#[trigger] tables[k]).rows().contains(row),
    decreases tables.len(),
{
    if tables.len() > 0 {
        let front = tables.drop_last();
        lemma_tables_selection(front, query, row);
        lemma_selection(query, tables.last().rows(), row);
        lemma_contains_joined(
            memtable::tables_selection(front, query),
            memtable::selection(query, tables.last().rows()),
            row,
        );
        if exists|k: int| 0 <= k < front.len() && (#[trigger] front[k]).rows().contains(row) {
            let k = choose|k: int| 0 <= k < front.len()
                && (#[trigger] front[k]).rows().contains(row);
            assert(tables[k].rows().contains(row));
        }
        if exists|k: int| 0 <= k < tables.len() && (#[trigger] tables[k]).rows().contains(row) {
            let k = choose|k: int|
                0 <= k < tables.len() && (#[trigger] tables[k]).rows().contains(row);
            if k < front.len() {
                assert(front[k].rows().contains(row));
            }
        }
        assert(tables[tables.len() - 1] == tables.last());
    }
}

proof fn lemma_selected(mem: MemTables, query: MemQuery, row: InternalRecordView)
    ensures
        mem.selected(query).contains(row) <==> held(mem, row) && memtable::selects(query, row),
{
    lemma_selection(query, mem.active().rows(), row);
    lemma_tables_selection(mem.frozen(), query, row);
    lemma_contains_joined(
        memtable::selection(query, mem.active().rows()),
        memtable::tables_selection(mem.frozen(), query),
        row,
    );
}

/// A query by the beginning of the key in a memtable selects exactly the rows with a
/// key that begins so that have not expired.
pub proof fn law_table_query_prefix(
    table: &MemTable,
    key: &[u8],
    now: i64,
    r: Vec<&InternalRecord>,
    row: InternalRecordView,
)
    requires
        call_ensures(MemTable::query_prefix, (table, key, now), r),
    ensures
        memtable::ref_views(r@).contains(row) <==> table.rows().contains(row)
            && key@.is_prefix_of(row.key) && row.expire_at >= now,
{
    let query = MemQuery {
        key: KeyFilterView::Prefix(key@),
        times: None,
        now,
    };
    lemma_selection(query, table.rows(), row);
}

/// A query by the beginning of the key in the memtables selects exactly the rows with a
/// key that begins so that have not expired.
pub proof fn law_tables_query_prefix(
    table: &MemTables,
    key: &[u8],
    now: i64,
    r: Vec<InternalRecord>,
    row: InternalRecordView,
)
    requires
        call_ensures(MemTables::query_prefix, (table, key, now), r),
    ensures
        record::views(r@).contains(row) <==> held(*table, row) && key@.is_prefix_of(row.key)
            && row.expire_at >= now,
{
    let query = MemQuery {
        key: KeyFilterView::Prefix(key@),
        times: None,
        now,
    };
    lemma_selected(*table, query, row);
}

/// A query by a range of keys in a memtable selects exactly the rows with a key in the
/// range that have not expired.
pub proof fn law_table_query_key_range(
    table: &MemTable,
    start: &[u8],
    end: &[u8],
    now: i64,
    r: Vec<&InternalRecord>,
    row: InternalRecordView,
)
    requires
        call_ensures(MemTable::query_key_range, (table, start, end, now), r),
    ensures
        memtable::ref_views(r@).contains(row) <==> table.rows().contains(row)
            && bytes::lex_le(start@, row.key) && bytes::lex_le(row.key, end@)
            && row.expire_at >= now,
{
    let query = MemQuery {
        key: KeyFilterView::Range { start: start@, end: end@ },
        times: None,
        now,
    };
    lemma_selection(query, table.rows(), row);
}

/// A query by a range of keys in the memtables selects exactly the rows with a key in
/// the range that have not expired.
pub proof fn law_tables_query_key_range(
    table: &MemTables,
    start: &[u8],
    end: &[u8],
    now: i64,
    r: Vec<InternalRecord>,
    row: InternalRecordView,
)
    requires
        call_ensures(MemTables::query_key_range, (table, start, end, now), r),
    ensures
        record::views(r@).contains(row) <==> held(*table, row) && bytes::lex_le(start@, row.key)
            && bytes::lex_le(row.key, end@) && row.expire_at >= now,
{
    let query = MemQuery {
        key: KeyFilterView::Range { start: start@, end: end@ },
        times: None,
        now,
    };
    lemma_selected(*table, query, row);
}

/// A query by a range of times in a memtable selects exactly the rows with a time in
/// the range that have not expired.
pub proof fn law_table_query_time_range(
    table: &MemTable,
    from: i64,
    until: i64,
    now: i64,
    r: Vec<&InternalRecord>,
    row: InternalRecordView,
)
    requires
        call_ensures(MemTable::query_time_range, (table, from, until, now), r),
    ensures
        memtable::ref_views(r@).contains(row) <==> table.rows().contains(row)
            && from <= row.ts <= until && row.expire_at >= now,
{
    let query = MemQuery {
        key: KeyFilterView::All,
        times: Some((from, until)),
        now,
    };
    lemma_selection(query, table.rows(), row);
}

/// A query by a range of times in the memtables selects exactly the rows with a time in
/// the range that have not expired.
pub proof fn law_tables_query_time_range(
    table: &MemTables,
    from: i64,
    until: i64,
    now: i64,
    r: Vec<InternalRecord>,
    row: InternalRecordView,
)
    requires
        call_ensures(MemTables::query_time_range, (table, from, until, now), r),
    ensures
        record::views(r@).contains(row) <==> held(*table, row) && from <= row.ts <= until
            && row.expire_at >= now,
{
    let query = MemQuery {
        key: KeyFilterView::All,
        times: Some((from, until)),
        now,
    };
    lemma_selected(*table, query, row);
}

/// A query by the beginning of the key and a range of times in a memtable selects
/// exactly the rows with a key that begins so and a time in the range that have not
/// expired.
pub proof fn law_table_query_prefix_time_range(
    table: &MemTable,
    key: &[u8],
    from: i64,
    until: i64,
    now: i64,
    r: Vec<&InternalRecord>,
    row: InternalRecordView,
)
    requires
        call_ensures(MemTable::query_prefix_time_range, (table, key, from, until, now), r),
    ensures
        memtable::ref_views(r@).contains(row) <==> table.rows().contains(row)
            && key@.is_prefix_of(row.key) && from <= row.ts <= until && row.expire_at >= now,
{
    let query = MemQuery {
        key: KeyFilterView::Prefix(key@),
        times: Some((from, until)),
        now,
    };
    lemma_selection(query, table.rows(), row);
}

/// A query by the beginning of the key and a range of times in the memtables selects
/// exactly the rows with a key that begins so and a time in the range that have not
/// expired.
pub proof fn law_tables_query_prefix_time_range(
    table: &MemTables,
    key: &[u8],
    from: i64,
    until: i64,
    now: i64,
    r: Vec<InternalRecord>,
    row: InternalRecordView,
)
    requires
        call_ensures(MemTables::query_prefix_time_range, (table, key, from, until, now), r),
    ensures
        record::views(r@).contains(row) <==> held(*table, row) && key@.is_prefix_of(row.key)
            && from <= row.ts <= until && row.expire_at >= now,
{
    let query = MemQuery {
        key: KeyFilterView::Prefix(key@),
        times: Some((from, until)),
        now,
    };
    lemma_selected(*table, query, row);
}

/// A query by ranges of keys and times in a memtable selects exactly the rows with a
/// key and a time in the ranges that have not expired.
pub proof fn law_table_query_key_time_range(
    table: &MemTable,
    start: &[u8],
    end: &[u8],
    from: i64,
    until: i64,
    now: i64,
    r: Vec<&InternalRecord>,
    row: InternalRecordView,
)
    requires
        call_ensures(MemTable::query_key_time_range, (table, start, end, from, until, now), r),
    ensures
        memtable::ref_views(r@).contains(row) <==> table.rows().contains(row)
            && bytes::lex_le(start@, row.key) && bytes::lex_le(row.key, end@)
            && from <= row.ts <= until && row.expire_at >= now,
{
    let query = MemQuery {
        key: KeyFilterView::Range { start: start@, end: end@ },
        times: Some((from, until)),
        now,
    };
    lemma_selection(query, table.rows(), row);
}

/// A query by ranges of keys and times in the memtables selects exactly the rows with a
/// key and a time in the ranges that have not expired.
pub proof fn law_tables_query_key_time_range(
    table: &MemTables,
    start: &[u8],
    end: &[u8],
    from: i64,
    until: i64,
    now: i64,
    r: Vec<InternalRecord>,
    row: InternalRecordView,
)
    requires
        call_ensures(MemTables::query_key_time_range, (table, start, end, from, until, now), r),
    ensures
        record::views(r@).contains(row) <==> held(*table, row) && bytes::lex_le(start@, row.key)
            && bytes::lex_le(row.key, end@) && from <= row.ts <= until && row.expire_at >= now,
{
    let query = MemQuery {
        key: KeyFilterView::Range { start: start@, end: end@ },
        times: Some((from, until)),
        now,
    };
    lemma_selected(*table, query, row);
}

/// A query for everything in a memtable selects exactly the rows at all that
/// have not expired.
pub proof fn law_table_query_all(
    table: &MemTable,
    now: i64,
    r: Vec<&InternalRecord>,
    row: InternalRecordView,
)
    requires
        call_ensures(MemTable::query_all, (table, now), r),
    ensures
        memtable::ref_views(r@).contains(row) <==> table.rows().contains(row)
            && row.expire_at >= now,
{
    let query = MemQuery {
        key: KeyFilterView::All,
        times: None,
        now,
    };
    lemma_selection(query, table.rows(), row);
}

/// A query for everything in the memtables selects exactly the rows at all that
/// have not expired.
pub proof fn law_tables_query_all(
    table: &MemTables,
    now: i64,
    r: Vec<InternalRecord>,
    row: InternalRecordView,
)
    requires
        call_ensures(MemTables::query_all, (table, now), r),
    ensures
        record::views(r@).contains(row) <==> held(*table, row) && row.expire_at >= now,
{
    let query = MemQuery {
        key: KeyFilterView::All,
        times: None,
        now,
    };
    lemma_selected(*table, query, row);
}

/// What a lookup in a memtable finds is a row of it with the key and the time.
pub proof fn law_table_get(
    table: &MemTable,
    key: &[u8],
    ts: i64,
    h: u64,
    r: Option<&InternalRecord>,
    q: Option<&InternalRecord>,
)
    requires
        call_ensures(MemTable::get, (table, key, ts), r),
        call_ensures(MemTable::get_hashed, (table, h, key, ts), q),
    ensures
        r matches Some(rec) ==> table.rows().contains(rec@) && rec@.key == key@ && rec@.ts == ts,
        q matches Some(rec) ==> table.rows().contains(rec@) && rec@.key == key@ && rec@.ts == ts,
        r is None || q is None ==> forall|k: int|
            0 <= k < table.rows().len() ==> !((#[trigger] table.rows()[k]).key == key@
                && table.rows()[k].ts == ts),
{
    lemma_newest_in(table.rows(), key@, ts);
}

proof fn lemma_newest_in(rows: Seq<InternalRecordView>, key: Seq<u8>, ts: i64)
    ensures
        memtable::newest(rows, key, ts) matches Some(row) ==> rows.contains(row) && row.key == key
            && row.ts == ts,
        memtable::newest(rows, key, ts) is None ==> forall|k: int|
            0 <= k < rows.len() ==> !((#[trigger] rows[k]).key == key && rows[k].ts == ts),
    decreases rows.len(),
{
    if rows.len() > 0 {
        let front = rows.drop_last();
        lemma_newest_in(front, key, ts);
        assert(rows[rows.len() - 1] == rows.last());
        assert forall|k: int| 0 <= k < front.len() implies #[trigger] rows[k] == front[k] by {}
        if memtable::newest(front, key, ts) is Some {
            let row = memtable::newest(front, key, ts)->0;
            let k = choose|k: int| 0 <= k < front.len() && front[k] == row;
            assert(rows[k] == row);
        }
    }
}

proof fn lemma_tables_newest_in(tables: Seq<MemTable>, key: Seq<u8>, ts: i64, now: i64)
    ensures
        memtable::tables_newest(tables, key, ts, now) matches Some(row) ==> row.key == key && row.ts
            == ts && row.expire_at >= now && exists|k: int|
            0 <= k < tables.len() && (#[trigger] tables[k]).rows().contains(row),
    decreases tables.len(),
{
    if tables.len() > 0 {
        let front = tables.drop_last();
        lemma_newest_in(tables.last().rows(), key, ts);
        lemma_tables_newest_in(front, key, ts, now);
        assert(tables[tables.len() - 1] == tables.last());
        if let Some(row) = memtable::tables_newest(front, key, ts, now) {
            let k = choose|k: int| 0 <= k < front.len()
                && (#[trigger] front[k]).rows().contains(row);
            assert(tables[k].rows().contains(row));
        }
    }
}

/// What a lookup in the memtables finds is a row of one of them with the key and the time
/// that has not expired.
pub proof fn law_tables_get(
    mem: &MemTables,
    key: &[u8],
    ts: i64,
    now: i64,
    h: u64,
    r: Option<InternalRecord>,
    q: Option<InternalRecord>,
)
    requires
        call_ensures(MemTables::get, (mem, key, ts, now), r),
        call_ensures(MemTables::get_hashed, (mem, h, key, ts, now), q),
    ensures
        r matches Some(rec) ==> held(*mem, rec@) && rec@.key == key@ && rec@.ts == ts
            && rec@.expire_at >= now,
        q matches Some(rec) ==> held(*mem, rec@) && rec@.key == key@ && rec@.ts == ts
            && rec@.expire_at >= now,
{
    lemma_newest_in(mem.active().rows(), key@, ts);
    lemma_tables_newest_in(mem.frozen(), key@, ts, now);
}

/// A row that is put into the memtables is held there behind the others, and is charged
/// its size.
pub proof fn law_row_inserted(
    mem: &mut MemTables,
    rec: InternalRecord,
    row: InternalRecordView,
    before: (usize, usize),
    after: (usize, usize),
    size: usize,
)
    requires
        call_ensures(MemTables::active_stats, (old(mem),), before),
        call_ensures(MemTables::insert, (mem, rec), ()),
        call_ensures(MemTables::active_stats, (final(mem),), after),
        call_ensures(InternalRecord::estimated_size, (&rec,), size),
    ensures
        held(*final(mem), row) <==> held(*old(mem), row) || row == rec@,
        final(mem).active().rows().last() == rec@,
        after.0 == before.0 + 1,
        after.1 == before.1 + size,
        final(mem).frozen() == old(mem).frozen(),
{
    let rows = old(mem).active().rows();
    if rows.contains(row) {
        let k = choose|k: int| 0 <= k < rows.len() && rows[k] == row;
        assert(rows.push(rec@)[k] == row);
    }
    assert(rows.push(rec@)[rows.len() as int] == rec@);
}

/// The size of a row grows with its key, its value and the end of its range, byte by byte.
pub proof fn law_size_told(a: &InternalRecord, b: &InternalRecord, x: usize, y: usize)
    requires
        call_ensures(InternalRecord::estimated_size, (a,), x),
        call_ensures(InternalRecord::estimated_size, (b,), y),
        a@.range_end is None,
        b@.range_end is None,
    ensures
        x >= a@.key.len() + a@.value.len(),
        x - y == a@.key.len() + a@.value.len() - b@.key.len() - b@.value.len(),
{
}

/// Freezing takes the active table to the frozen ones and leaves an empty one; where there
/// is nothing to freeze, nothing changes. What was frozen before stays.
pub proof fn law_frozen(
    mem: &mut MemTables,
    r: bool,
    before: usize,
    after: usize,
    stats: (usize, usize),
)
    requires
        call_ensures(MemTables::frozen_count, (old(mem),), before),
        call_ensures(MemTables::freeze, (mem,), r),
        call_ensures(MemTables::frozen_count, (final(mem),), after),
        call_ensures(MemTables::active_stats, (old(mem),), stats),
    ensures
        r <==> stats.0 > 0,
        after == before + (if r {
            1int
        } else {
            0int
        }),
        final(mem).active().rows().len() == 0,
        forall|k: int| 0 <= k < before ==> final(mem).frozen()[k]
            == #[trigger] old(mem).frozen()[k],
        r ==> final(mem).frozen().last().charged() == stats.1,
        final(mem).max_frozen() == old(mem).max_frozen(),
        final(mem).size_limit() == old(mem).size_limit(),
{
    assert forall|k: int| 0 <= k < before implies final(mem).frozen()[k]
        == #[trigger] old(mem).frozen()[k] by {
        if r {
            assert(final(mem).frozen().drop_last()[k] == final(mem).frozen()[k]);
        }
    }
}

/// The table that was frozen first leaves first, and the others stay in their order.
pub proof fn law_frozen_popped(mem: &mut MemTables, r: Option<MemTable>, k: int)
    requires
        call_ensures(MemTables::pop_frozen, (mem,), r),
    ensures
        r is Some <==> old(mem).frozen().len() > 0,
        r matches Some(table) ==> table == old(mem).frozen()[0] && final(mem).frozen().len() + 1
            == old(mem).frozen().len(),
        r is Some && 0 <= k < final(mem).frozen().len() ==> final(mem).frozen()[k]
            == old(mem).frozen()[k + 1],
        r is None ==> final(mem).frozen() == old(mem).frozen(),
        final(mem).active() == old(mem).active(),
{
}

/// New memtables hold nothing; they are full where the limits are reached.
pub proof fn law_limits_told(
    max_frozen: usize,
    limit: usize,
    fresh: &MemTables,
    mem: &MemTables,
    full: bool,
    due: bool,
    stats: (usize, usize),
    frozen: usize,
    row: InternalRecordView,
)
    requires
        call_ensures(MemTables::new, (max_frozen, limit), *fresh),
        mem.max_frozen() == fresh.max_frozen(),
        mem.size_limit() == fresh.size_limit(),
        call_ensures(MemTables::frozen_is_full, (mem,), full),
        call_ensures(MemTables::should_flush, (mem,), due),
        call_ensures(MemTables::active_stats, (mem,), stats),
        call_ensures(MemTables::frozen_count, (mem,), frozen),
    ensures
        !held(*fresh, row),
        full <==> frozen >= max_frozen,
        due <==> stats.1 >= limit,
{
}

/// A deleted range covers the keys from its start up to but not including its end.
pub proof fn law_covers(
    tombstones: &Vec<(Vec<u8>, Vec<u8>)>,
    key: &[u8],
    r: bool,
    i: int,
)
    requires
        call_ensures(scan::covers, (tombstones, key), r),
    ensures
        tombstones.len() == 0 ==> !r,
        0 <= i < tombstones.len() && bytes::lex_le(tombstones@[i].0@, key@) && bytes::lex_lt(
            key@,
            tombstones@[i].1@,
        ) ==> r,
        r ==> exists|k: int|
            0 <= k < tombstones.len() && bytes::lex_le((#[trigger] tombstones@[k]).0@, key@)
                && bytes::lex_lt(key@, tombstones@[k].1@),
{
    let views = scan::tombstone_views(tombstones@);
    if 0 <= i < tombstones.len() {
        assert(views[i] == (tombstones@[i].0@, tombstones@[i].1@));
    }
    if r {
        let k = choose|k: int|
            0 <= k < views.len() && bytes::lex_le((#[trigger] views[k]).0, key@) && bytes::lex_lt(
                key@,
                views[k].1,
            );
        assert(views[k] == (tombstones@[k].0@, tombstones@[k].1@));
    }
}

proof fn lemma_taken(
    rows: Seq<InternalRecordView>,
    filter: KeyFilterView,
    times: Option<(i64, i64)>,
    full: bool,
    now: i64,
    row: InternalRecordView,
)
    ensures
        scan::taken_rows(rows, filter, times, full, now).contains(row) <==> exists|k: int|
            0 <= k < rows.len() && (#[trigger] rows[k]).expire_at > now && scan::taken(
                rows[k],
                filter,
                times,
                full,
            ) == Some(row),
    decreases rows.len(),
{
    if rows.len() > 0 {
        let front = rows.drop_last();
        lemma_taken(front, filter, times, full, now, row);
        assert forall|k: int| 0 <= k < front.len() implies #[trigger] rows[k] == front[k] by {}
        assert(rows[rows.len() - 1] == rows.last());
        let before = scan::taken_rows(front, filter, times, full, now);
        let after = scan::taken_rows(rows, filter, times, full, now);
        if before.contains(row) {
            let k = choose|k: int| 0 <= k < before.len() && before[k] == row;
            assert(after[k] == row);
            let y = choose|k: int|
                0 <= k < front.len() && (#[trigger] front[k]).expire_at > now && scan::taken(
                    front[k],
                    filter,
                    times,
                    full,
                ) == Some(row);
            assert(rows[y].expire_at > now);
        }
        if after.contains(row) {
            let k = choose|k: int| 0 <= k < after.len() && after[k] == row;
            if k < before.len() {
                assert(before[k] == row);
            }
        }
        if rows.last().expire_at > now && scan::taken(rows.last(), filter, times, full)
            == Some(row) {
            assert(after.last() == row);
        }
        if exists|k: int|
            0 <= k < rows.len() && (#[trigger] rows[k]).expire_at > now && scan::taken(
                rows[k],
                filter,
                times,
                full,
            ) == Some(row) {
            let y = choose|k: int|
                0 <= k < rows.len() && (#[trigger] rows[k]).expire_at > now && scan::taken(
                    rows[k],
                    filter,
                    times,
                    full,
                ) == Some(row);
            if y < front.len() {
                assert(front[y].expire_at > now);
            }
        }
    }
}

/// A scan takes of a block the rows that have not expired, are asked for and delete no
/// range; it takes all keys and times where everything is asked for.
pub proof fn law_block_filtered(
    records: &[InternalRecord],
    filter: &KeyFilter,
    times: Option<(i64, i64)>,
    full: bool,
    now: i64,
    tombstones: &mut Vec<(Vec<u8>, Vec<u8>)>,
    r: Vec<InternalRecord>,
    i: int,
    j: int,
)
    requires
        call_ensures(
            scan::filter_sst_block,
            (records, filter, times, full, now, tombstones),
            r,
        ),
    ensures
        0 <= i < r.len() ==> exists|k: int| {
            &&& 0 <= k < records@.len()
            &&& (#[trigger] records@[k])@.record() == r@[i]@.record()
            &&& records@[k]@.op == r@[i]@.op
            &&& r@[i]@.op != Op::DeleteRange
            &&& r@[i]@.expire_at > now
            &&& full || memtable::admits_key(filter@, r@[i]@.key) && memtable::admits_ts(
                times,
                r@[i]@.ts,
            )
        },
        0 <= j < records@.len() && records@[j]@.expire_at > now && records@[j]@.op
            != Op::DeleteRange && (full || memtable::admits_key(filter@, records@[j]@.key)
            && memtable::admits_ts(times, records@[j]@.ts)) ==> record::views(r@).contains(
            InternalRecordView { seq: 0, ..records@[j]@ },
        ),
{
    let rows = record::views(records@);
    let out = record::views(r@);
    if 0 <= i < r.len() {
        assert(out[i] == r@[i]@);
        assert(out.contains(out[i]));
        lemma_taken(rows, filter@, times, full, now, out[i]);
        let k = choose|k: int|
            0 <= k < rows.len() && (#[trigger] rows[k]).expire_at > now && scan::taken(
                rows[k],
                filter@,
                times,
                full,
            ) == Some(out[i]);
        assert(rows[k] == records@[k]@);
    }
    if 0 <= j < records@.len() {
        let row = InternalRecordView { seq: 0, ..records@[j]@ };
        lemma_taken(rows, filter@, times, full, now, row);
        assert(rows[j] == records@[j]@);
    }
}

/// What a scan yields one by one is what it yields at once.
pub proof fn law_scan_steps(
    a: &mut ScanIterator,
    b: &mut ScanIterator,
    c: &mut ScanIterator,
    first: Option<Record>,
    rest: Vec<Record>,
    all: Vec<Record>,
)
    requires
        call_ensures(ScanIterator::next, (a,), first),
        *old(b) == *final(a),
        call_ensures(ScanIterator::collect, (b,), rest),
        *old(c) == *old(a),
        call_ensures(ScanIterator::collect, (c,), all),
    ensures
        first is None <==> all.len() == 0,
        first matches Some(rec) ==> record::record_views(all@) == seq![rec@]
            + record::record_views(rest@),
        first is None ==> rest.len() == 0,
{
    let list = record::record_views(all@);
    let tail = record::record_views(rest@);
    assert(list.len() == all.len() && tail.len() == rest.len());
    if let Some(rec) = first {
        assert(list =~= seq![rec@] + tail);
    }
}

/// A manifest that is opened again after a change is the one that was changed.
pub proof fn law_manifest_reopened(
    entries: &Vec<ManifestEntry>,
    m: &mut Manifest,
    entry: &ManifestEntry,
    more: &Vec<ManifestEntry>,
    again: Manifest,
)
    requires
        call_ensures(Manifest::open, (entries,), *old(m)),
        call_ensures(Manifest::append, (m, entry), ()),
        manifest::entry_views(more@) == manifest::entry_views(entries@).push(entry@),
        call_ensures(Manifest::open, (more,), again),
    ensures
        again@ == final(m)@,
{
    manifest::law_reopen(manifest::entry_views(entries@), entry@);
}

/// A table has another filter once that is replaced; all else that is listed stays.
pub proof fn law_filter_replaced(m: &mut Manifest, id: u32, bloom: BloomFilter, other: u32)
    requires
        call_ensures(Manifest::replace_filter, (m, id, bloom), ()),
    ensures
        final(m)@.active == old(m)@.active,
        final(m)@.block_infos == old(m)@.block_infos,
        final(m)@.last_flushed_seq == old(m)@.last_flushed_seq,
        final(m)@.sstables.contains_key(other) <==> old(m)@.sstables.contains_key(other),
        other != id ==> final(m)@.sstables[other] == old(m)@.sstables[other],
        old(m)@.sstables.contains_key(id) ==> {
            let info = final(m)@.sstables[id];
            let before = old(m)@.sstables[id];
            &&& info.bloom == Some(bloom@)
            &&& info.min_ts == before.min_ts && info.max_ts == before.max_ts
            &&& info.min_expire == before.min_expire && info.max_expire == before.max_expire
            &&& info.records == before.records && info.bytes == before.bytes
        },
{
}

/// The id for the next table is none of those in use, and greater than them.
pub proof fn law_next_id_unused(m: &Manifest, greatest: u32, r: u32, id: u32)
    requires
        call_ensures(Manifest::max_sst_id, (m,), greatest),
        call_ensures(Manifest::next_sst_id, (m,), r),
        m@.active.contains(id),
    ensures
        id <= greatest < r,
        m@.active.contains(greatest),
{
    manifest::law_greatest_id(m@.active, id);
}

/// A new record never expires, and is stored as a put that gives it back.
pub proof fn law_record_stored(
    key: Vec<u8>,
    ts: i64,
    value: Vec<u8>,
    rec: &Record,
    seq: u64,
    row: InternalRecord,
    back: Record,
    owned: Record,
)
    requires
        call_ensures(Record::new, (key, ts, value), *rec),
        call_ensures(InternalRecord::from_record, (rec, seq), row),
        call_ensures(InternalRecord::to_record, (&row,), back),
        call_ensures(InternalRecord::into_record_owned, (row,), owned),
    ensures
        rec@.key == key@ && rec@.ts == ts && rec@.value == value@ && rec@.expire_at == i64::MAX,
        row@.op == Op::Put && row@.seq == seq,
        back@ == rec@,
        owned@ == rec@,
{
    record::law_record_round_trip(rec@, seq);
}

/// A configuration is accepted where every size, interval and limit is above zero, and
/// only there.
pub proof fn law_config_accepted(config: &Config, r: Result<(), FlowError>)
    requires
        call_ensures(Config::validate, (config,), r),
    ensures
        r is Ok <==> config.gc_interval_secs > 0 && config.memtable_size_mb > 0
            && config.max_frozen_memtables > 0 && config.block_size > 0 && config.flush_interval_ms
            > 0 && config.time_bucket_secs > 0 && config.index_memory_budget_mb > 0
            && config.block_cache_capacity_mb > 0 && config.wal_segment_size_mb > 0
            && config.compaction_threshold > 0,
        r matches Err(e) ==> e is Config,
{
    record::law_valid_config(*config);
}

/// What is asked of a memtable tells how many rows it holds and what they are charged.
pub proof fn law_table_told(
    table: &MemTable,
    len: usize,
    empty: bool,
    copy: Vec<InternalRecord>,
    row: InternalRecordView,
)
    requires
        table.wf(),
        table.is_frozen(),
        call_ensures(MemTable::len, (table,), len),
        call_ensures(MemTable::is_empty, (table,), empty),
        call_ensures(MemTable::sorted_copy, (table,), copy),
    ensures
        empty <==> len == 0,
        copy.len() == len,
        record::views(copy@).contains(row) <==> table.rows().contains(row),
        forall|i: int, j: int|
            0 <= i < j < copy.len() ==> bytes::lex_le(
                (#[trigger] copy@[i])@.key,
                (#[trigger] copy@[j])@.key,
            ),
{
    let rows = record::views(copy@);
    assert(rows.len() == copy.len());
    assert forall|i: int, j: int| 0 <= i < j < copy.len() implies bytes::lex_le(
        (#[trigger] copy@[i])@.key,
        (#[trigger] copy@[j])@.key,
    ) by {
        assert(rows[i] == copy@[i]@ && rows[j] == copy@[j]@);
        assert(sort::before(SortOrder::KeyTsSeq, rows[i], rows[j]));
    }
}

/// The tombstone of a record has its key and its time, and that of a range covers exactly
/// the keys from the start up to but not including the end; neither expires.
pub proof fn law_tombstones_made(
    key: Vec<u8>,
    ts: i64,
    end: Vec<u8>,
    seq: u64,
    one: InternalRecord,
    range: InternalRecord,
    other: Seq<u8>,
)
    requires
        call_ensures(InternalRecord::delete, (key, ts, seq), one),
        call_ensures(InternalRecord::delete_range, (key, end, seq), range),
    ensures
        one@.op == Op::Delete && one@.key == key@ && one@.ts == ts && one@.seq == seq,
        one@.expire_at == i64::MAX && range@.expire_at == i64::MAX && range@.seq == seq,
        one@.value.len() == 0 && range@.value.len() == 0,
        scan::row_covers(range@, other) <==> bytes::lex_le(key@, other) && bytes::lex_lt(
            other,
            end@,
        ),
        !scan::row_covers(one@, other),
{
}

} // verus!
