//! What calls of the library's functions promise: what holds of their results, and how
//! the results of two calls relate.

use vstd::prelude::*;
use vstd::string::*;
use crate::block_index;
use crate::block_index::BlockId;
use crate::bytes;
use crate::engine::{latest, law_latest, law_latest_none, opt_record, Engine, Wanted};
use crate::lookup;
use crate::lookup::{LookupView, Table};
use crate::memtable;
use crate::memtable::MemTable;
use crate::record;
use crate::record::{
    InternalRecordView, KeyFilter, KeyFilterView, Op, Query, ReadOptions, Record, RecordView,
    ScanRange,
};
use crate::scan;
use crate::scan::ScanIterator;
use crate::versions;

verus! {

/// Whether the key and the time are asked for.
pub open spec fn asks(
    filter: KeyFilterView,
    times: Option<(i64, i64)>,
    key: Seq<u8>,
    ts: i64,
) -> bool {
    memtable::admits_key(filter, key) && memtable::admits_ts(times, ts)
}

/// Two queries that ask for the same have the same answers.
pub proof fn lemma_same_asked(
    e: Engine,
    tables: Seq<Table>,
    p: Query,
    q: Query,
    now: i64,
    out: Seq<RecordView>,
)
    requires
        p.key_filter@ == q.key_filter@,
        p.time_range == q.time_range,
        e.is_answer(tables, p, now, out),
    ensures
        e.is_answer(tables, q, now, out),
{
    assert(scan::mem_query(p, now) == scan::mem_query(q, now));
}

/// What an answer holds was asked for.
proof fn lemma_asked(
    e: Engine,
    tables: Seq<Table>,
    query: Query,
    now: i64,
    out: Seq<RecordView>,
    i: int,
)
    requires
        e.is_answer(tables, query, now, out),
        0 <= i < out.len(),
    ensures
        memtable::admits_key(query.key_filter@, out[i].key),
        memtable::admits_ts(query.time_range, out[i].ts),
        out[i].expire_at >= now,
{
    let blocks = e.query_blocks(tables, query, now);
    scan::law_answer_asked(e.writer().mem(), blocks, query, now, out, i);
}

/// A query has one answer.
pub proof fn lemma_one_answer(
    e: Engine,
    tables: Seq<Table>,
    query: Query,
    now: i64,
    a: Seq<RecordView>,
    b: Seq<RecordView>,
)
    requires
        e.is_answer(tables, query, now, a),
        e.is_answer(tables, query, now, b),
    ensures
        a == b,
{
    let mem = e.writer().mem();
    let blocks = e.query_blocks(tables, query, now);
    scan::law_answer_unique(
        scan::scan_lists(mem, blocks, query, now),
        scan::scan_tombstones(mem, blocks, now),
        a,
        b,
    );
}

/// A query by the beginning of the key returns only records whose key begins so, and that
/// have not expired. It changes neither what is stored nor the tables.
pub proof fn law_prefix_returned(
    e: &mut Engine,
    key: &str,
    now: i64,
    tables: &[Table],
    r: Vec<Record>,
    i: int,
)
    requires
        call_ensures(Engine::query_by_prefix, (e, key, now, tables), r),
        0 <= i < r.len(),
    ensures
        key.spec_bytes().is_prefix_of(r@[i]@.key),
        r@[i]@.expire_at >= now,
        final(e).writer() == old(e).writer(),
        final(e).tables() == old(e).tables(),
{
    let out = record::record_views(r@);
    let query = choose|query: Query|
        query.key_filter@ == (KeyFilterView::Prefix(key.spec_bytes())) && query.time_range
            == None::<(i64, i64)> && #[trigger] old(e).returns_records(
            *final(e),
            tables@,
            query,
            now,
            out,
        );
    lemma_asked(*old(e), tables@, query, now, out, i);
    assert(out[i] == r@[i]@);
}

/// A query by the beginning of the key returns what the query made for it returns.
pub proof fn law_prefix_queried(
    e: &mut Engine,
    g: &mut Engine,
    key: &str,
    now: i64,
    tables: &[Table],
    q: &Query,
    r: Vec<Record>,
    s: Vec<Record>,
)
    requires
        call_ensures(Query::prefix, (key,), *q),
        call_ensures(Engine::query_by_prefix, (e, key, now, tables), r),
        call_ensures(Engine::query, (g, q, now, tables), s),
        *old(e) == *old(g),
    ensures
        record::record_views(r@) == record::record_views(s@),
{
    let out = record::record_views(r@);
    let query = choose|query: Query|
        query.key_filter@ == (KeyFilterView::Prefix(key.spec_bytes())) && query.time_range
            == None::<(i64, i64)> && #[trigger] old(e).returns_records(
            *final(e),
            tables@,
            query,
            now,
            out,
        );
    lemma_same_asked(*old(e), tables@, query, *q, now, out);
    lemma_one_answer(*old(e), tables@, *q, now, out, record::record_views(s@));
}

/// A query by a range of keys returns only records whose key lies in the range, its
/// ends among them, and that have not expired. It changes neither what is stored nor
/// the tables.
pub proof fn law_key_range_returned(
    e: &mut Engine,
    start: &str,
    end: &str,
    now: i64,
    tables: &[Table],
    r: Vec<Record>,
    i: int,
)
    requires
        call_ensures(Engine::query_by_key_range, (e, start, end, now, tables), r),
        0 <= i < r.len(),
    ensures
        bytes::lex_le(start.spec_bytes(), r@[i]@.key),
        bytes::lex_le(r@[i]@.key, end.spec_bytes()),
        r@[i]@.expire_at >= now,
        final(e).writer() == old(e).writer(),
        final(e).tables() == old(e).tables(),
{
    let out = record::record_views(r@);
    let query = choose|query: Query|
        query.key_filter@
            == (KeyFilterView::Range { start: start.spec_bytes(), end: end.spec_bytes() })
            && query.time_range
            == None::<(i64, i64)> && #[trigger] old(e).returns_records(
            *final(e),
            tables@,
            query,
            now,
            out,
        );
    lemma_asked(*old(e), tables@, query, now, out, i);
    assert(out[i] == r@[i]@);
}

/// A query by a range of keys returns what the query made for it returns.
pub proof fn law_key_range_queried(
    e: &mut Engine,
    g: &mut Engine,
    start: &str,
    end: &str,
    now: i64,
    tables: &[Table],
    q: &Query,
    r: Vec<Record>,
    s: Vec<Record>,
)
    requires
        call_ensures(Query::key_range, (start, end), *q),
        call_ensures(Engine::query_by_key_range, (e, start, end, now, tables), r),
        call_ensures(Engine::query, (g, q, now, tables), s),
        *old(e) == *old(g),
    ensures
        record::record_views(r@) == record::record_views(s@),
{
    let out = record::record_views(r@);
    let query = choose|query: Query|
        query.key_filter@
            == (KeyFilterView::Range { start: start.spec_bytes(), end: end.spec_bytes() })
            && query.time_range
            == None::<(i64, i64)> && #[trigger] old(e).returns_records(
            *final(e),
            tables@,
            query,
            now,
            out,
        );
    lemma_same_asked(*old(e), tables@, query, *q, now, out);
    lemma_one_answer(*old(e), tables@, *q, now, out, record::record_views(s@));
}

/// A query by a range of times returns only records whose time lies in the range, its
/// ends among them, and that have not expired. It changes neither what is stored nor
/// the tables.
pub proof fn law_time_range_returned(
    e: &mut Engine,
    from: i64,
    until: i64,
    now: i64,
    tables: &[Table],
    r: Vec<Record>,
    i: int,
)
    requires
        call_ensures(Engine::query_time_range, (e, from, until, now, tables), r),
        0 <= i < r.len(),
    ensures
        from <= r@[i]@.ts <= until,
        r@[i]@.expire_at >= now,
        final(e).writer() == old(e).writer(),
        final(e).tables() == old(e).tables(),
{
    let out = record::record_views(r@);
    let query = choose|query: Query|
        query.key_filter@ == (KeyFilterView::All) && query.time_range
            == Some((from, until)) && #[trigger] old(e).returns_records(
            *final(e),
            tables@,
            query,
            now,
            out,
        );
    lemma_asked(*old(e), tables@, query, now, out, i);
    assert(out[i] == r@[i]@);
}

/// A query by a range of times returns what the query made for it returns.
pub proof fn law_time_range_queried(
    e: &mut Engine,
    g: &mut Engine,
    from: i64,
    until: i64,
    now: i64,
    tables: &[Table],
    q: &Query,
    r: Vec<Record>,
    s: Vec<Record>,
)
    requires
        call_ensures(Query::time_range, (from, until), *q),
        call_ensures(Engine::query_time_range, (e, from, until, now, tables), r),
        call_ensures(Engine::query, (g, q, now, tables), s),
        *old(e) == *old(g),
    ensures
        record::record_views(r@) == record::record_views(s@),
{
    let out = record::record_views(r@);
    let query = choose|query: Query|
        query.key_filter@ == (KeyFilterView::All) && query.time_range
            == Some((from, until)) && #[trigger] old(e).returns_records(
            *final(e),
            tables@,
            query,
            now,
            out,
        );
    lemma_same_asked(*old(e), tables@, query, *q, now, out);
    lemma_one_answer(*old(e), tables@, *q, now, out, record::record_views(s@));
}

/// A query by the beginning of the key and a range of times returns only records whose
/// key begins so and whose time lies in the range, and that have not expired. It
/// changes neither what is stored nor the tables.
pub proof fn law_prefix_time_range_returned(
    e: &mut Engine,
    key: &str,
    from: i64,
    until: i64,
    now: i64,
    tables: &[Table],
    r: Vec<Record>,
    i: int,
)
    requires
        call_ensures(Engine::query_prefix_time_range, (e, key, from, until, now, tables), r),
        0 <= i < r.len(),
    ensures
        key.spec_bytes().is_prefix_of(r@[i]@.key),
        from <= r@[i]@.ts <= until,
        r@[i]@.expire_at >= now,
        final(e).writer() == old(e).writer(),
        final(e).tables() == old(e).tables(),
{
    let out = record::record_views(r@);
    let query = choose|query: Query|
        query.key_filter@ == (KeyFilterView::Prefix(key.spec_bytes())) && query.time_range
            == Some((from, until)) && #[trigger] old(e).returns_records(
            *final(e),
            tables@,
            query,
            now,
            out,
        );
    lemma_asked(*old(e), tables@, query, now, out, i);
    assert(out[i] == r@[i]@);
}

/// A query by the beginning of the key and a range of times returns what the query made
/// for it returns.
pub proof fn law_prefix_time_range_queried(
    e: &mut Engine,
    g: &mut Engine,
    key: &str,
    from: i64,
    until: i64,
    now: i64,
    tables: &[Table],
    q: &Query,
    r: Vec<Record>,
    s: Vec<Record>,
)
    requires
        call_ensures(Query::prefix_time_range, (key, from, until), *q),
        call_ensures(Engine::query_prefix_time_range, (e, key, from, until, now, tables), r),
        call_ensures(Engine::query, (g, q, now, tables), s),
        *old(e) == *old(g),
    ensures
        record::record_views(r@) == record::record_views(s@),
{
    let out = record::record_views(r@);
    let query = choose|query: Query|
        query.key_filter@ == (KeyFilterView::Prefix(key.spec_bytes())) && query.time_range
            == Some((from, until)) && #[trigger] old(e).returns_records(
            *final(e),
            tables@,
            query,
            now,
            out,
        );
    lemma_same_asked(*old(e), tables@, query, *q, now, out);
    lemma_one_answer(*old(e), tables@, *q, now, out, record::record_views(s@));
}

/// A query by a range of keys and one of times returns only records whose key and time
/// lie in the ranges, and that have not expired. It changes neither what is stored nor
/// the tables.
pub proof fn law_key_time_range_returned(
    e: &mut Engine,
    start: &str,
    end: &str,
    from: i64,
    until: i64,
    now: i64,
    tables: &[Table],
    r: Vec<Record>,
    i: int,
)
    requires
        call_ensures(Engine::query_key_time_range, (e, start, end, from, until, now, tables), r),
        0 <= i < r.len(),
    ensures
        bytes::lex_le(start.spec_bytes(), r@[i]@.key),
        bytes::lex_le(r@[i]@.key, end.spec_bytes()),
        from <= r@[i]@.ts <= until,
        r@[i]@.expire_at >= now,
        final(e).writer() == old(e).writer(),
        final(e).tables() == old(e).tables(),
{
    let out = record::record_views(r@);
    let query = choose|query: Query|
        query.key_filter@
            == (KeyFilterView::Range { start: start.spec_bytes(), end: end.spec_bytes() })
            && query.time_range
            == Some((from, until)) && #[trigger] old(e).returns_records(
            *final(e),
            tables@,
            query,
            now,
            out,
        );
    lemma_asked(*old(e), tables@, query, now, out, i);
    assert(out[i] == r@[i]@);
}

/// A query by a range of keys and one of times returns what the query made for it returns.
pub proof fn law_key_time_range_queried(
    e: &mut Engine,
    g: &mut Engine,
    start: &str,
    end: &str,
    from: i64,
    until: i64,
    now: i64,
    tables: &[Table],
    q: &Query,
    r: Vec<Record>,
    s: Vec<Record>,
)
    requires
        call_ensures(Query::key_time_range, (start, end, from, until), *q),
        call_ensures(Engine::query_key_time_range, (e, start, end, from, until, now, tables), r),
        call_ensures(Engine::query, (g, q, now, tables), s),
        *old(e) == *old(g),
    ensures
        record::record_views(r@) == record::record_views(s@),
{
    let out = record::record_views(r@);
    let query = choose|query: Query|
        query.key_filter@
            == (KeyFilterView::Range { start: start.spec_bytes(), end: end.spec_bytes() })
            && query.time_range
            == Some((from, until)) && #[trigger] old(e).returns_records(
            *final(e),
            tables@,
            query,
            now,
            out,
        );
    lemma_same_asked(*old(e), tables@, query, *q, now, out);
    lemma_one_answer(*old(e), tables@, *q, now, out, record::record_views(s@));
}

/// A query and a scan made for records whose key begins so, ask
/// for exactly those.
pub proof fn law_prefix_asks(
    key: &str,
    q: Query,
    s: &ScanRange,
    p: (KeyFilter, Option<(i64, i64)>),
    at: Seq<u8>,
    ts: i64,
)
    requires
        call_ensures(Query::prefix, (key,), q),
        call_ensures(ScanRange::prefix, (key,), *s),
        call_ensures(ScanRange::to_query_params, (s,), p),
    ensures
        asks(q.key_filter@, q.time_range, at, ts) <==> key.spec_bytes().is_prefix_of(at),
        asks(p.0@, p.1, at, ts) <==> key.spec_bytes().is_prefix_of(at),
{
}

/// A query and a scan made for records whose key lies in the range, its ends among
/// them, ask for exactly those.
pub proof fn law_key_range_asks(
    start: &str,
    end: &str,
    q: Query,
    s: &ScanRange,
    p: (KeyFilter, Option<(i64, i64)>),
    at: Seq<u8>,
    ts: i64,
)
    requires
        call_ensures(Query::key_range, (start, end), q),
        call_ensures(ScanRange::key_range, (start, end), *s),
        call_ensures(ScanRange::to_query_params, (s,), p),
    ensures
        asks(q.key_filter@, q.time_range, at, ts) <==> bytes::lex_le(start.spec_bytes(), at)
            && bytes::lex_le(at, end.spec_bytes()),
        asks(p.0@, p.1, at, ts) <==> bytes::lex_le(start.spec_bytes(), at)
            && bytes::lex_le(at, end.spec_bytes()),
{
}

/// A query and a scan made for records whose time lies in the range, its ends among
/// them, ask for exactly those.
pub proof fn law_time_range_asks(
    from: i64,
    until: i64,
    q: Query,
    s: &ScanRange,
    p: (KeyFilter, Option<(i64, i64)>),
    at: Seq<u8>,
    ts: i64,
)
    requires
        call_ensures(Query::time_range, (from, until), q),
        call_ensures(ScanRange::time_range, (from, until), *s),
        call_ensures(ScanRange::to_query_params, (s,), p),
    ensures
        asks(q.key_filter@, q.time_range, at, ts) <==> from <= ts <= until,
        asks(p.0@, p.1, at, ts) <==> from <= ts <= until,
{
}

/// A query and a scan made for records whose key begins so and whose time lies in the
/// range, ask for exactly those.
pub proof fn law_prefix_time_range_asks(
    key: &str,
    from: i64,
    until: i64,
    q: Query,
    s: &ScanRange,
    p: (KeyFilter, Option<(i64, i64)>),
    at: Seq<u8>,
    ts: i64,
)
    requires
        call_ensures(Query::prefix_time_range, (key, from, until), q),
        call_ensures(ScanRange::prefix_time_range, (key, from, until), *s),
        call_ensures(ScanRange::to_query_params, (s,), p),
    ensures
        asks(q.key_filter@, q.time_range, at, ts) <==> key.spec_bytes().is_prefix_of(at)
            && from <= ts <= until,
        asks(p.0@, p.1, at, ts) <==> key.spec_bytes().is_prefix_of(at) && from <= ts <= until,
{
}

/// A query and a scan made for records whose key and time lie in the ranges, ask
/// for exactly those.
pub proof fn law_key_time_range_asks(
    start: &str,
    end: &str,
    from: i64,
    until: i64,
    q: Query,
    s: &ScanRange,
    p: (KeyFilter, Option<(i64, i64)>),
    at: Seq<u8>,
    ts: i64,
)
    requires
        call_ensures(Query::key_time_range, (start, end, from, until), q),
        call_ensures(ScanRange::key_time_range, (start, end, from, until), *s),
        call_ensures(ScanRange::to_query_params, (s,), p),
    ensures
        asks(q.key_filter@, q.time_range, at, ts) <==> bytes::lex_le(start.spec_bytes(), at)
            && bytes::lex_le(at, end.spec_bytes()) && from <= ts <= until,
        asks(p.0@, p.1, at, ts) <==> bytes::lex_le(start.spec_bytes(), at)
            && bytes::lex_le(at, end.spec_bytes()) && from <= ts <= until,
{
}

/// A scan of everything asks for every key and time.
pub proof fn law_all_asks(
    s: &ScanRange,
    p: (KeyFilter, Option<(i64, i64)>),
    at: Seq<u8>,
    ts: i64,
)
    requires
        call_ensures(ScanRange::all, (), *s),
        call_ensures(ScanRange::to_query_params, (s,), p),
    ensures
        asks(p.0@, p.1, at, ts),
{
}

/// A scan by the beginning of the key yields what the query for it returns, and counts
/// nothing as read.
pub proof fn law_prefix_scanned(
    e: &mut Engine,
    g: &mut Engine,
    key: &str,
    now: i64,
    tables: &[Table],
    r: ScanIterator,
    q: &Query,
    s: Vec<Record>,
)
    requires
        call_ensures(Engine::scan_prefix, (e, key, now, tables), r),
        call_ensures(Query::prefix, (key,), *q),
        call_ensures(Engine::query, (g, q, now, tables), s),
        *old(e) == *old(g),
    ensures
        r.output() == record::record_views(s@),
        final(e).counters() == old(e).counters(),
        final(e).writer() == old(e).writer(),
{
    let query = choose|query: Query|
        query.key_filter@ == KeyFilterView::Prefix(key.spec_bytes()) && query.time_range
            == None::<(i64, i64)> && #[trigger] old(e).scans(tables@, query, now, r);
    lemma_same_asked(*old(e), tables@, query, *q, now, r.output());
    lemma_one_answer(*old(e), tables@, *q, now, r.output(), record::record_views(s@));
}

/// A scan by the beginning of the key and a range of times yields what the query for
/// them returns.
pub proof fn law_prefix_times_scanned(
    e: &mut Engine,
    g: &mut Engine,
    key: &str,
    from: i64,
    until: i64,
    now: i64,
    tables: &[Table],
    r: ScanIterator,
    q: &Query,
    s: Vec<Record>,
)
    requires
        call_ensures(Engine::scan_prefix_time_range, (e, key, from, until, now, tables), r),
        call_ensures(Query::prefix_time_range, (key, from, until), *q),
        call_ensures(Engine::query, (g, q, now, tables), s),
        *old(e) == *old(g),
    ensures
        r.output() == record::record_views(s@),
        final(e).counters() == old(e).counters(),
        final(e).writer() == old(e).writer(),
{
    let query = choose|query: Query|
        query.key_filter@ == KeyFilterView::Prefix(key.spec_bytes()) && query.time_range
            == Some((from, until)) && #[trigger] old(e).scans(tables@, query, now, r);
    lemma_same_asked(*old(e), tables@, query, *q, now, r.output());
    lemma_one_answer(*old(e), tables@, *q, now, r.output(), record::record_views(s@));
}

/// A scan of a range yields what the query for the filter and times that the range stands
/// for returns.
pub proof fn law_range_scanned(
    e: &mut Engine,
    g: &mut Engine,
    range: &ScanRange,
    now: i64,
    tables: &[Table],
    r: ScanIterator,
    q: &Query,
    s: Vec<Record>,
)
    requires
        call_ensures(Engine::scan, (e, range, now, tables), r),
        call_ensures(ScanRange::to_query_params, (range,), (q.key_filter, q.time_range)),
        call_ensures(Engine::query, (g, q, now, tables), s),
        *old(e) == *old(g),
    ensures
        r.output() == record::record_views(s@),
        final(e).counters() == old(e).counters(),
        final(e).writer() == old(e).writer(),
{
    let query = choose|query: Query|
        query.key_filter@ == range.key_filter() && query.time_range == range.times()
            && #[trigger] old(e).scans(tables@, query, now, r);
    lemma_same_asked(*old(e), tables@, query, *q, now, r.output());
    lemma_one_answer(*old(e), tables@, *q, now, r.output(), record::record_views(s@));
}

/// A scan of a range yields what the query for the filter and times that the range stands
/// for returns, whatever the options.
pub proof fn law_range_scanned_with_options(
    e: &mut Engine,
    g: &mut Engine,
    range: &ScanRange,
    opts: &ReadOptions,
    now: i64,
    tables: &[Table],
    r: ScanIterator,
    q: &Query,
    s: Vec<Record>,
)
    requires
        call_ensures(Engine::scan_opt, (e, range, opts, now, tables), r),
        call_ensures(ScanRange::to_query_params, (range,), (q.key_filter, q.time_range)),
        call_ensures(Engine::query, (g, q, now, tables), s),
        *old(e) == *old(g),
    ensures
        r.output() == record::record_views(s@),
        final(e).counters() == old(e).counters(),
        final(e).writer() == old(e).writer(),
{
    let query = choose|query: Query|
        query.key_filter@ == range.key_filter() && query.time_range == range.times()
            && #[trigger] old(e).scans(tables@, query, now, r);
    lemma_same_asked(*old(e), tables@, query, *q, now, r.output());
    lemma_one_answer(*old(e), tables@, *q, now, r.output(), record::record_views(s@));
}

/// The latest record with a key is one that a query by the beginning of the key returns,
/// has the key, and no record returned with that key has a later time. There is none only
/// where the query returns none with the key.
pub proof fn law_latest_returned(
    e: &mut Engine,
    g: &mut Engine,
    key: &str,
    now: i64,
    tables: &[Table],
    r: Option<Record>,
    s: Vec<Record>,
    i: int,
)
    requires
        call_ensures(Engine::get_latest, (e, key, now, tables), r),
        call_ensures(Engine::query_by_prefix, (g, key, now, tables), s),
        *old(e) == *old(g),
    ensures
        r matches Some(rec) ==> {
            &&& rec@.key == key.spec_bytes()
            &&& rec@.expire_at >= now
            &&& record::record_views(s@).contains(rec@)
        },
        0 <= i < s.len() && s@[i]@.key == key.spec_bytes() ==> {
            &&& r is Some
            &&& (r->0)@.ts >= s@[i]@.ts
        },
{
    let out = record::record_views(s@);
    let p = choose|query: Query|
        query.key_filter@ == (KeyFilterView::Prefix(key.spec_bytes())) && query.time_range
            == None::<(i64, i64)> && #[trigger] old(g).returns_records(
            *final(g),
            tables@,
            query,
            now,
            out,
        );
    let (q, iter) = choose|query: Query, iter: ScanIterator|
        query.key_filter@ == KeyFilterView::Prefix(key.spec_bytes()) && query.time_range is None
            && #[trigger] old(e).scans(tables@, query, now, iter) && opt_record(r) == latest(
            iter.output(),
            key.spec_bytes(),
        );
    lemma_same_asked(*old(e), tables@, q, p, now, iter.output());
    lemma_one_answer(*old(e), tables@, p, now, iter.output(), out);
    if 0 <= i < s.len() && s@[i]@.key == key.spec_bytes() {
        assert(out[i] == s@[i]@);
        law_latest(out, key.spec_bytes(), i);
    }
    if r is Some {
        if forall|k: int| 0 <= k < out.len() ==> (#[trigger] out[k]).key != key.spec_bytes() {
            law_latest_none(out, key.spec_bytes());
        }
        let k = choose|k: int| 0 <= k < out.len() && (#[trigger] out[k]).key == key.spec_bytes();
        law_latest(out, key.spec_bytes(), k);
        let best = choose|b: int| 0 <= b < out.len() && out[b] == (r->0)@;
        lemma_asked(*old(e), tables@, p, now, out, best);
    }
}

proof fn lemma_newest_place(rows: Seq<InternalRecordView>, key: Seq<u8>, ts: i64)
    ensures
        memtable::newest(rows, key, ts) matches Some(row) ==> row.key == key && row.ts == ts,
    decreases rows.len(),
{
    if rows.len() > 0 {
        lemma_newest_place(rows.drop_last(), key, ts);
    }
}

proof fn lemma_tables_place(tables: Seq<MemTable>, key: Seq<u8>, ts: i64, now: i64)
    ensures
        memtable::tables_newest(tables, key, ts, now) matches Some(row) ==> row.key == key
            && row.ts == ts && row.expire_at >= now,
    decreases tables.len(),
{
    if tables.len() > 0 {
        lemma_newest_place(tables.last().rows(), key, ts);
        lemma_tables_place(tables.drop_last(), key, ts, now);
    }
}

proof fn lemma_told_place(
    tables: Seq<Table>,
    blocks: Seq<BlockId>,
    key: Seq<u8>,
    ts: i64,
    now: i64,
)
    ensures
        lookup::blocks_told(tables, blocks, key, ts, now).record() matches Some(rec) ==> rec.key
            == key && rec.ts == ts && rec.expire_at >= now,
    decreases blocks.len(),
{
    broadcast use vstd::seq_lib::group_filter_ensures;

    if blocks.len() > 0 {
        lemma_told_place(tables, blocks.drop_first(), key, ts, now);
        if let Some(rows) = lookup::rows_of(tables, blocks[0]) {
            let live = scan::live(rows, now);
            let points = versions::point_rows(live);
            let y = versions::lemma_current_found(points, key, ts);
            if versions::current(points, key, ts) is Some {
                live.lemma_filter_contains_rev(
                    |r: InternalRecordView| r.op != Op::DeleteRange,
                    points[y],
                );
                rows.lemma_filter_contains_rev(
                    |r: InternalRecordView| r.expire_at > now,
                    points[y],
                );
            }
        }
    }
}

/// What a lookup finds has the key and the time, has not expired, and is not in a deleted
/// range.
pub proof fn lemma_found_place(e: Engine, tables: Seq<Table>, wanted: Wanted, told: LookupView)
    requires
        e.tells(tables, wanted, told),
    ensures
        told.record() matches Some(rec) ==> {
            &&& rec.key == wanted.key
            &&& rec.ts == wanted.ts
            &&& rec.expire_at >= wanted.now
            &&& !scan::covered(e.key_tombstones(tables, wanted.key, wanted.now), wanted.key)
        },
{
    let h = choose|h: u64| told == #[trigger] e.told_with(tables, wanted, h);
    let mem = e.writer().mem();
    lemma_newest_place(mem.active().rows(), wanted.key, wanted.ts);
    lemma_tables_place(mem.frozen(), wanted.key, wanted.ts, wanted.now);
    lemma_told_place(
        tables,
        block_index::point_candidates(
            e.tables(),
            e.tables().active,
            wanted.key,
            wanted.now,
        ),
        wanted.key,
        wanted.ts,
        wanted.now,
    );
}

/// A lookup by bytes gives a record with the key and the time, which has not expired
/// and is in no deleted range. It changes neither what is stored nor what is counted.
pub proof fn law_get_bytes_found(
    e: &mut Engine,
    key: &[u8],
    ts: i64,
    now: i64,
    tables: &[Table],
    r: Option<Record>,
)
    requires
        call_ensures(Engine::get_bytes, (e, key, ts, now, tables), r),
    ensures
        r matches Some(rec) ==> {
            &&& rec@.key == key@
            &&& rec@.ts == ts
            &&& rec@.expire_at >= now
            &&& !scan::covered(old(e).key_tombstones(tables@, key@, now), key@)
        },
        final(e).writer() == old(e).writer(),
        final(e).tables() == old(e).tables(),
        final(e).counters() == old(e).counters(),
{
    let wanted = Wanted { key: key@, ts, now };
    let told = choose|told: LookupView| #[trigger]
        old(e).tells(tables@, wanted, told) && opt_record(r) == told.record();
    lemma_found_place(*old(e), tables@, wanted, told);
}

/// A lookup gives a record with the key and the time, which has not expired and is in no
/// deleted range. It changes neither what is stored nor what is counted.
pub proof fn law_get_sync_found(
    e: &mut Engine,
    key: &str,
    ts: i64,
    now: i64,
    tables: &[Table],
    r: Option<Record>,
)
    requires
        call_ensures(Engine::get_sync, (e, key, ts, now, tables), r),
    ensures
        r matches Some(rec) ==> {
            &&& rec@.key == key.spec_bytes()
            &&& rec@.ts == ts
            &&& rec@.expire_at >= now
            &&& !scan::covered(old(e).key_tombstones(tables@, key.spec_bytes(), now), key.spec_bytes())
        },
        final(e).writer() == old(e).writer(),
        final(e).tables() == old(e).tables(),
        final(e).counters() == old(e).counters(),
{
    let wanted = Wanted { key: key.spec_bytes(), ts, now };
    let told = choose|told: LookupView| #[trigger]
        old(e).tells(tables@, wanted, told) && opt_record(r) == told.record();
    lemma_found_place(*old(e), tables@, wanted, told);
}

/// A lookup gives a record with the key and the time, which has not expired and is in no
/// deleted range. It changes neither what is stored nor what is counted.
pub proof fn law_get_found(
    e: &mut Engine,
    key: &str,
    ts: i64,
    now: i64,
    tables: &[Table],
    r: Option<Record>,
)
    requires
        call_ensures(Engine::get, (e, key, ts, now, tables), r),
    ensures
        r matches Some(rec) ==> {
            &&& rec@.key == key.spec_bytes()
            &&& rec@.ts == ts
            &&& rec@.expire_at >= now
            &&& !scan::covered(old(e).key_tombstones(tables@, key.spec_bytes(), now), key.spec_bytes())
        },
        final(e).writer() == old(e).writer(),
        final(e).tables() == old(e).tables(),
        final(e).counters() == old(e).counters(),
{
    let wanted = Wanted { key: key.spec_bytes(), ts, now };
    let told = choose|told: LookupView| #[trigger]
        old(e).tells(tables@, wanted, told) && opt_record(r) == told.record();
    lemma_found_place(*old(e), tables@, wanted, told);
}

/// A query counts what it returns as read, and changes no other count.
pub proof fn law_read_counted(
    e: &mut Engine,
    query: &Query,
    now: i64,
    tables: &[Table],
    r: Vec<Record>,
    i: int,
)
    requires
        call_ensures(Engine::query, (e, query, now, tables), r),
    ensures
        (final(e).counters().total_records_read - old(e).counters().total_records_read - r.len())
            % 0x1_0000_0000_0000_0000int == 0,
        final(e).counters().total_records_written == old(e).counters().total_records_written,
        final(e).counters().total_flushes == old(e).counters().total_flushes,
        final(e).counters().total_gc_runs == old(e).counters().total_gc_runs,
        0 <= i < r.len() ==> asks(query.key_filter@, query.time_range, r@[i]@.key, r@[i]@.ts)
            && r@[i]@.expire_at >= now,
        forall|a: int, b: int|
            0 <= a < b < r.len() ==> bytes::lex_le((#[trigger] r@[a])@.key, (#[trigger] r@[b])@.key)
                && (r@[a]@.key == r@[b]@.key ==> r@[a]@.ts < r@[b]@.ts),
{
    let out = record::record_views(r@);
    assert(out.len() == r.len());
    if 0 <= i < r.len() {
        assert(out[i] == r@[i]@);
        lemma_asked(*old(e), tables@, *query, now, out, i);
    }
    assert forall|a: int, b: int| 0 <= a < b < r.len() implies bytes::lex_le(
        (#[trigger] r@[a])@.key,
        (#[trigger] r@[b])@.key,
    ) && (r@[a]@.key == r@[b]@.key ==> r@[a]@.ts < r@[b]@.ts) by {
        assert(out[a] == r@[a]@ && out[b] == r@[b]@);
        assert(scan::record_lt(out[a], out[b]));
        bytes::lemma_lex_irreflexive(out[a].key);
    }
}

} // verus!
