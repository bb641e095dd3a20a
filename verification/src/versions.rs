//! Versions: of the rows with one key and time the newest one counts.

use vstd::prelude::*;
use crate::bytes;
use crate::bytes::bytes_eq;
use crate::record;
use crate::record::{InternalRecord, InternalRecordView, Op};
use crate::sort;
use crate::sort::{sort_records, SortOrder};

verus! {

/// Whether a row has the key and the time.
pub open spec fn at_place(row: InternalRecordView, key: Seq<u8>, ts: i64) -> bool {
    row.key == key && row.ts == ts
}

/// Two rows have the same key and time.
pub open spec fn same_place(a: InternalRecordView, b: InternalRecordView) -> bool {
    a.key == b.key && a.ts == b.ts
}

/// The newest row with the key and the time: the one with the greatest sequence
/// number, the last of several such.
pub open spec fn current(rows: Seq<InternalRecordView>, key: Seq<u8>, ts: i64) -> Option<
    InternalRecordView,
>
    decreases rows.len(),
{
    if rows.len() == 0 {
        None
    } else {
        let front = current(rows.drop_last(), key, ts);
        if !at_place(rows.last(), key, ts) {
            front
        } else {
            match front {
                Some(row) if row.seq > rows.last().seq => front,
                _ => Some(rows.last()),
            }
        }
    }
}

/// The rows that are not range tombstones.
pub open spec fn point_rows(rows: Seq<InternalRecordView>) -> Seq<InternalRecordView> {
    rows.filter(|r: InternalRecordView| r.op != Op::DeleteRange)
}

/// The range tombstones among the rows.
pub open spec fn range_rows(rows: Seq<InternalRecordView>) -> Seq<InternalRecordView> {
    rows.filter(|r: InternalRecordView| r.op == Op::DeleteRange)
}

/// Some row of the list has the key and time of `row`.
pub open spec fn has_place(list: Seq<InternalRecordView>, row: InternalRecordView) -> bool {
    exists|i: int| 0 <= i < list.len() && same_place(#[trigger] list[i], row)
}

/// `out` holds the newest row for each key and time of the rows, in their order.
pub open spec fn condensed(rows: Seq<InternalRecordView>, out: Seq<InternalRecordView>) -> bool {
    &&& sort::strictly_sorted(SortOrder::KeyTs, out)
    &&& forall|i: int|
        0 <= i < out.len() ==> current(rows, (#[trigger] out[i]).key, out[i].ts) == Some(out[i])
    &&& forall|k: int| 0 <= k < rows.len() ==> has_place(out, #[trigger] rows[k])
}

/// A row than which none with its key and time is newer is the newest.
pub proof fn lemma_current_at(rows: Seq<InternalRecordView>, y: int)
    requires
        0 <= y < rows.len(),
        forall|x: int|
            0 <= x < rows.len() && same_place(#[trigger] rows[x], rows[y]) ==> rows[x].seq
                < rows[y].seq || (rows[x].seq == rows[y].seq && x <= y),
    ensures
        current(rows, rows[y].key, rows[y].ts) == Some(rows[y]),
    decreases rows.len(),
{
    let key = rows[y].key;
    let ts = rows[y].ts;
    let front = rows.drop_last();
    if y < front.len() {
        assert forall|x: int|
            0 <= x < front.len() && same_place(#[trigger] front[x], front[y]) implies front[x].seq
            < front[y].seq || (front[x].seq == front[y].seq && x <= y) by {
            assert(same_place(rows[x], rows[y]));
        }
        lemma_current_at(front, y);
        if at_place(rows.last(), key, ts) {
            assert(same_place(rows[rows.len() - 1], rows[y]));
        }
    } else {
        let k = lemma_current_found(front, key, ts);
        if current(front, key, ts) is Some {
            assert(same_place(rows[k], rows[y]));
        }
    }
}

/// Where the newest row with a key and a time stands.
pub proof fn lemma_current_found(rows: Seq<InternalRecordView>, key: Seq<u8>, ts: i64) -> (y: int)
    ensures
        current(rows, key, ts) is Some ==> {
            &&& 0 <= y < rows.len()
            &&& current(rows, key, ts) == Some(rows[y])
            &&& at_place(rows[y], key, ts)
            &&& forall|x: int|
                0 <= x < rows.len() && at_place(#[trigger] rows[x], key, ts) ==> rows[x].seq
                    < rows[y].seq || (rows[x].seq == rows[y].seq && x <= y)
        },
        current(rows, key, ts) is None ==> forall|x: int|
            0 <= x < rows.len() ==> !at_place(#[trigger] rows[x], key, ts),
    decreases rows.len(),
{
    if rows.len() == 0 {
        0
    } else {
        let front = rows.drop_last();
        let k = lemma_current_found(front, key, ts);
        let y: int = if current(rows, key, ts) == current(front, key, ts) && current(front, key, ts)
            is Some && (!at_place(rows.last(), key, ts) || rows[k].seq > rows.last().seq) {
            k
        } else {
            rows.len() - 1
        };
        assert forall|x: int| 0 <= x < rows.len() && at_place(#[trigger] rows[x], key, ts) implies (
        current(rows, key, ts) is Some && (rows[x].seq < rows[y].seq || (rows[x].seq == rows[y].seq
            && x <= y))) by {
            if x < front.len() {
                assert(at_place(front[x], key, ts));
            }
        }
        y
    }
}

/// Condensing rows keeps the newest row of each key and time.
pub proof fn lemma_condensed(
    rows: Seq<InternalRecordView>,
    out: Seq<InternalRecordView>,
    key: Seq<u8>,
    ts: i64,
)
    requires
        condensed(rows, out),
    ensures
        current(out, key, ts) == current(rows, key, ts),
{
    let y = lemma_current_found(rows, key, ts);
    let z = lemma_current_found(out, key, ts);
    if current(rows, key, ts) is Some {
        let i = choose|i: int| 0 <= i < out.len() && same_place(#[trigger] out[i], rows[y]);
        assert(at_place(out[i], key, ts));
        assert(current(rows, out[z].key, out[z].ts) == Some(out[z]));
    } else if current(out, key, ts) is Some {
        assert(current(rows, out[z].key, out[z].ts) == Some(out[z]));
    }
}

/// The list that rows are condensed to is the only one.
pub proof fn law_condensed_unique(
    rows: Seq<InternalRecordView>,
    a: Seq<InternalRecordView>,
    b: Seq<InternalRecordView>,
)
    requires
        condensed(rows, a),
        condensed(rows, b),
    ensures
        a == b,
{
    lemma_contained(rows, a, b);
    lemma_contained(rows, b, a);
    sort::lemma_strict_unique(SortOrder::KeyTs, a, b);
}

proof fn lemma_contained(
    rows: Seq<InternalRecordView>,
    a: Seq<InternalRecordView>,
    b: Seq<InternalRecordView>,
)
    requires
        condensed(rows, a),
        condensed(rows, b),
    ensures
        forall|i: int| 0 <= i < a.len() ==> b.contains(#[trigger] a[i]),
{
    assert forall|i: int| 0 <= i < a.len() implies b.contains(#[trigger] a[i]) by {
        let row = a[i];
        assert(current(rows, a[i].key, a[i].ts) == Some(a[i]));
        let y = lemma_current_found(rows, row.key, row.ts);
        let j = choose|j: int| 0 <= j < b.len() && same_place(#[trigger] b[j], rows[y]);
        assert(current(rows, b[j].key, b[j].ts) == Some(b[j]));
    }
}

/// Where rows came in the order of their sequence numbers, the newest row with a
/// key and time is the last one.
pub proof fn law_current_is_last(rows: Seq<InternalRecordView>, y: int)
    requires
        forall|i: int, j: int|
            0 <= i < j < rows.len() ==> (#[trigger] rows[i]).seq <= (#[trigger] rows[j]).seq,
        0 <= y < rows.len(),
        forall|x: int| y < x < rows.len() ==> !same_place(#[trigger] rows[x], rows[y]),
    ensures
        current(rows, rows[y].key, rows[y].ts) == Some(rows[y]),
{
    lemma_current_at(rows, y);
}

/// Lists that hold the same rows with a key and time have the same newest one, where
/// sequence numbers tell these rows apart.
pub proof fn lemma_current_same(
    a: Seq<InternalRecordView>,
    b: Seq<InternalRecordView>,
    key: Seq<u8>,
    ts: i64,
)
    requires
        forall|r: InternalRecordView|
            at_place(r, key, ts) ==> (#[trigger] a.contains(r) <==> b.contains(r)),
        forall|i: int, j: int|
            0 <= i < a.len() && 0 <= j < a.len() && at_place(#[trigger] a[i], key, ts) && at_place(
                #[trigger] a[j],
                key,
                ts,
            ) && a[i].seq == a[j].seq ==> a[i] == a[j],
    ensures
        current(a, key, ts) == current(b, key, ts),
{
    let y = lemma_current_found(a, key, ts);
    let z = lemma_current_found(b, key, ts);
    if current(a, key, ts) is Some {
        let row = a[y];
        assert(a.contains(row));
        assert(b.contains(row));
        let w = choose|w: int| 0 <= w < b.len() && b[w] == row;
        assert(at_place(b[w], key, ts));
        let top = b[z];
        assert(b.contains(top));
        assert(a.contains(top));
        let x = choose|x: int| 0 <= x < a.len() && a[x] == top;
        assert(at_place(a[x], key, ts));
        assert(a[x].seq == a[y].seq);
    } else if current(b, key, ts) is Some {
        let top = b[z];
        assert(b.contains(top));
        assert(a.contains(top));
        let x = choose|x: int| 0 <= x < a.len() && a[x] == top;
        assert(at_place(a[x], key, ts));
    }
}

fn in_same_place(a: &InternalRecord, b: &InternalRecord) -> (r: bool)
    ensures
        r == same_place(a@, b@),
{
    a.ts == b.ts && bytes_eq(&a.key, &b.key)
}

/// In a list sorted by key, time and sequence number, a row that differs from the
/// next one in key or time is the newest of its key and time.
proof fn lemma_last_of_group(
    rows: Seq<InternalRecordView>,
    sorted: Seq<InternalRecordView>,
    i: int,
)
    requires
        sort::stably_sorted(SortOrder::KeyTsSeq, rows, sorted),
        0 <= i < sorted.len(),
        i + 1 < sorted.len() ==> !same_place(sorted[i], sorted[i + 1]),
    ensures
        current(rows, sorted[i].key, sorted[i].ts) == Some(sorted[i]),
{
    let o = SortOrder::KeyTsSeq;
    let p = choose|p: Seq<int>| #[trigger]
        sort::lists_in_order(o, rows, p, 0, rows.len() as int) && sort::permuted(rows, p, sorted);
    let y = p[i];
    assert(sorted[i] == rows[y]);
    assert forall|x: int| 0 <= x < rows.len() && same_place(#[trigger] rows[x], rows[y]) implies (
    rows[x].seq < rows[y].seq || (rows[x].seq == rows[y].seq && x <= y)) by {
        assert(p.contains(x));
        let j = choose|j: int| 0 <= j < p.len() && p[j] == x;
        bytes::lemma_lex_irreflexive(rows[x].key);
        if j < i {
            assert(sort::row_before(o, rows, p[j], p[i]));
        }
        if j > i {
            assert(sort::row_before(o, rows, p[i], p[i + 1]));
            if j > i + 1 {
                assert(sort::row_before(o, rows, p[i + 1], p[j]));
            }
            let next = rows[p[i + 1]];
            assert(sorted[i + 1] == next);
            bytes::lemma_lex_total(rows[y].key, next.key);
            bytes::lemma_lex_total(next.key, rows[x].key);
            if bytes::lex_lt(rows[y].key, next.key) && bytes::lex_lt(next.key, rows[x].key) {
                bytes::lemma_lex_transitive(rows[y].key, next.key, rows[x].key);
            }
        }
    }
    lemma_current_at(rows, y);
}

/// The newest row for each key and time of the records, in the order of key and
/// time.
pub fn newest_rows(records: &Vec<InternalRecord>) -> (out: Vec<InternalRecord>)
    ensures
        condensed(record::views(records@), record::views(out@)),
{
    let ghost rows = record::views(records@);
    let o = SortOrder::KeyTsSeq;
    let sorted = sort_records(records, o);
    let ghost all = record::views(sorted@);
    proof {
        sort::law_sort_sorts(o, rows, all);
    }
    let mut out: Vec<InternalRecord> = Vec::new();
    let mut i: usize = 0;
    while i < sorted.len()
        invariant
            i <= sorted@.len(),
            o == SortOrder::KeyTsSeq,
            rows == record::views(records@),
            all == record::views(sorted@),
            sort::stably_sorted(o, rows, all),
            sort::sorted(o, all),
            sort::strictly_sorted(SortOrder::KeyTs, record::views(out@)),
            forall|k: int|
                0 <= k < out@.len() ==> current(
                    rows,
                    (#[trigger] record::views(out@)[k]).key,
                    record::views(out@)[k].ts,
                ) == Some(record::views(out@)[k]),
            forall|k: int|
                0 <= k < i ==> (i < all.len() && same_place(#[trigger] all[k], all[i as int]))
                    || has_place(record::views(out@), all[k]),
            forall|k: int|
                0 <= k < out@.len() && i < all.len() ==> sort::key_ts_lt(
                    #[trigger] record::views(out@)[k],
                    all[i as int],
                ),
        decreases sorted@.len() - i,
    {
        let ghost before = record::views(out@);
        let ghost at = i as int;
        let last: bool = if i + 1 < sorted.len() {
            !in_same_place(&sorted[i], &sorted[i + 1])
        } else {
            true
        };
        if last {
            proof {
                lemma_last_of_group(rows, all, at);
            }
            out.push(sorted[i].clone());
            assert(record::views(out@) =~= before.push(all[at]));
        }
        i += 1;
        proof {
            let now = record::views(out@);
            if at + 1 < all.len() {
                assert(!sort::before(o, all[at + 1], all[at]));
                bytes::lemma_lex_total(all[at].key, all[at + 1].key);
                assert forall|k: int| 0 <= k < now.len() implies sort::key_ts_lt(
                    #[trigger] now[k],
                    all[at + 1],
                ) by {
                    if k < before.len() {
                        assert(now[k] == before[k]);
                        sort::lemma_before(SortOrder::KeyTs, before[k], all[at], all[at + 1]);
                        assert(!sort::before(SortOrder::KeyTs, all[at + 1], all[at]));
                    }
                }
            }
            assert forall|k: int| 0 <= k < i implies (i < all.len() && same_place(
                #[trigger] all[k],
                all[i as int],
            )) || has_place(now, all[k]) by {
                if last {
                    if k == at || same_place(all[k], all[at]) {
                        assert(same_place(now[before.len() as int], all[k]));
                    } else {
                        let m = choose|m: int|
                            0 <= m < before.len() && same_place(#[trigger] before[m], all[k]);
                        assert(now[m] == before[m]);
                    }
                } else {
                    if k < at && !same_place(all[k], all[at]) {
                        let m = choose|m: int|
                            0 <= m < before.len() && same_place(#[trigger] before[m], all[k]);
                        assert(same_place(now[m], all[k]));
                    }
                }
            }
            assert forall|a: int, b: int| 0 <= a < b < now.len() implies sort::before(
                SortOrder::KeyTs,
                #[trigger] now[a],
                #[trigger] now[b],
            ) by {
                assert(now[a] == before[a]);
                if b < before.len() {
                    assert(now[b] == before[b]);
                }
            }
        }
    }
    proof {
        let end = record::views(out@);
        assert forall|k: int| 0 <= k < end.len() implies current(
            rows,
            (#[trigger] end[k]).key,
            end[k].ts,
        ) == Some(end[k]) by {
            assert(current(rows, record::views(out@)[k].key, record::views(out@)[k].ts) == Some(
                record::views(out@)[k],
            ));
        }
        assert forall|k: int| 0 <= k < rows.len() implies has_place(end, #[trigger] rows[k]) by {
            assert(rows.contains(rows[k]));
            sort::law_sort_keeps_rows(o, rows, all, rows[k]);
            let j = choose|j: int| 0 <= j < all.len() && all[j] == rows[k];
            assert(has_place(end, all[j]));
        }
        assert(condensed(rows, end));
    }
    out
}

/// Copies of the records that are not range tombstones.
pub fn without_ranges(records: &Vec<InternalRecord>) -> (out: Vec<InternalRecord>)
    ensures
        record::views(out@) == point_rows(record::views(records@)),
{
    let ghost rows = record::views(records@);
    let mut out: Vec<InternalRecord> = Vec::new();
    let mut i: usize = 0;
    proof {
        reveal(Seq::filter);
        assert(record::views(out@) =~= point_rows(rows.take(0)));
    }
    while i < records.len()
        invariant
            i <= records@.len(),
            rows == record::views(records@),
            record::views(out@) == point_rows(rows.take(i as int)),
        decreases records@.len() - i,
    {
        let ghost before = record::views(out@);
        proof {
            reveal(Seq::filter);
            assert(rows.take(i + 1).drop_last() =~= rows.take(i as int));
            assert(rows.take(i + 1).last() == rows[i as int]);
        }
        if records[i].op != Op::DeleteRange {
            out.push(records[i].clone());
            assert(record::views(out@) =~= before.push(rows[i as int]));
        }
        i += 1;
    }
    assert(rows.take(i as int) =~= rows);
    out
}

/// Copies of the range tombstones among the records.
pub fn only_ranges(records: &Vec<InternalRecord>) -> (out: Vec<InternalRecord>)
    ensures
        record::views(out@) == range_rows(record::views(records@)),
{
    let ghost rows = record::views(records@);
    let mut out: Vec<InternalRecord> = Vec::new();
    let mut i: usize = 0;
    proof {
        reveal(Seq::filter);
        assert(record::views(out@) =~= range_rows(rows.take(0)));
    }
    while i < records.len()
        invariant
            i <= records@.len(),
            rows == record::views(records@),
            record::views(out@) == range_rows(rows.take(i as int)),
        decreases records@.len() - i,
    {
        let ghost before = record::views(out@);
        proof {
            reveal(Seq::filter);
            assert(rows.take(i + 1).drop_last() =~= rows.take(i as int));
            assert(rows.take(i + 1).last() == rows[i as int]);
        }
        if records[i].op == Op::DeleteRange {
            out.push(records[i].clone());
            assert(record::views(out@) =~= before.push(rows[i as int]));
        }
        i += 1;
    }
    assert(rows.take(i as int) =~= rows);
    out
}

} // verus!
