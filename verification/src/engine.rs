//! The engine: how batches become stored records, what a lookup finds, what a
//! query returns, and what is done to the files.

use vstd::prelude::*;
use vstd::string::*;
use crate::block_index;
use crate::block_index::{candidate_blocks, count_blocks, point_blocks};
use crate::bloom::{BloomFilter, BloomFilterView, CURRENT_HASH_VERSION};
use crate::bytes;
use crate::bytes::{bytes_eq, copy_bytes, u64_to_i64};
use crate::cache;
use crate::cache::{BlockCache, CacheKey, NUM_SHARDS};
use crate::error::FlowError;
use crate::gc;
use crate::gc::{plan, remove_table, table_totals, GcPlan};
use crate::lookup;
use crate::lookup::{find_table, load_blocks, resolve_lookup, search_blocks, Lookup, Table};
use crate::manifest;
use crate::manifest::{Manifest, ManifestEntry, ManifestState, SstInfoView, StateView};
use crate::memtable;
use crate::memtable::{MemTable, MemTables};
use crate::record;
use crate::record::{
    Config, InternalRecord, InternalRecordView, KeyFilter, Op, Query, ReadOptions, Record, RecordView, ScanRange,
};
use crate::scan;
use crate::scan::{all_tombstones, covers, ScanIterator};
use crate::sort;
use crate::sort::SortOrder;
use crate::sstable;
use crate::sstable::SstReader;
use crate::stats::StatsCounters;
use crate::text;
use crate::text::{join, signed_decimal};
use crate::versions;
use crate::wal;
use crate::wal::{encode_batch, seal_batch, Wal, WalSegment};
use crate::write_worker;
use crate::write_worker::{insert_batch, Flush, FlushEffect, WriteEffect, WriteWorker};

verus! {

broadcast use vstd::std_specs::hash::group_hash_axioms;

/// The time `ttl_secs` after `ts`, in microseconds, modulo 2^64.
pub open spec fn expiry(ts: i64, ttl_secs: u64) -> i64 {
    bytes::untwos(((ts + ttl_secs * 1_000_000) % 0x1_0000_0000_0000_0000) as nat) as i64
}

/// A time that can be told is the time told.
pub proof fn lemma_expiry(ts: i64, ttl_secs: u64)
    requires
        ts + ttl_secs * 1_000_000 <= i64::MAX,
    ensures
        expiry(ts, ttl_secs) == ts + ttl_secs * 1_000_000,
{
    let total = ts + ttl_secs * 1_000_000;
    lemma_same_modulo(total);
    bytes::lemma_twos_round_trip(total as i64);
}

/// The time `ttl_secs` after `ts`, in microseconds.
pub fn expire_after(ts: i64, ttl_secs: u64) -> (r: i64)
    ensures
        r == expiry(ts, ttl_secs),
        ts + ttl_secs * 1_000_000 <= i64::MAX ==> r == ts + ttl_secs * 1_000_000,
{
    let total: i128 = ts as i128 + ttl_secs as i128 * 1_000_000i128;
    let whole: u128 = (total + 0x1_0000_0000_0000_0000i128) as u128;
    let low: u64 = (whole % 0x1_0000_0000_0000_0000u128) as u64;
    proof {
        lemma_same_modulo(total as int);
        assert(low == total as int % 0x1_0000_0000_0000_0000int);
        if total <= i64::MAX {
            lemma_expiry(ts, ttl_secs);
        }
    }
    u64_to_i64(low)
}

proof fn lemma_same_modulo(x: int)
    ensures
        (x + 0x1_0000_0000_0000_0000int) % 0x1_0000_0000_0000_0000int == x
            % 0x1_0000_0000_0000_0000int,
{
    vstd::arithmetic::div_mod::lemma_mod_add_multiples_vanish(x, 0x1_0000_0000_0000_0000int);
}

/// The time to live of a batch: its own, or the default.
pub open spec fn batch_ttl(ttl_secs: Option<u64>, default_ttl_secs: Option<u64>) -> Option<u64> {
    match ttl_secs {
        Some(t) => Some(t),
        None => default_ttl_secs,
    }
}

/// A record of a batch as it is stored.
pub open spec fn stored(rec: RecordView, ttl: Option<u64>, seq: u64) -> InternalRecordView {
    InternalRecordView {
        expire_at: match ttl {
            Some(t) => expiry(rec.ts, t),
            None => rec.expire_at,
        },
        ..rec.put(seq)
    }
}

/// The records of a batch as they are stored, numbered from `base` on. A time to
/// live, of the batch or the default one, sets when they expire.
pub fn convert_records(
    batch: &[Record],
    ttl_secs: Option<u64>,
    default_ttl_secs: Option<u64>,
    base: u64,
) -> (r: Vec<InternalRecord>)
    requires
        base + batch@.len() <= u64::MAX,
    ensures
        r@.len() == batch@.len(),
        forall|i: int|
            0 <= i < r@.len() ==> #[trigger] r@[i]@ == stored(
                batch@[i]@,
                batch_ttl(ttl_secs, default_ttl_secs),
                (base + i) as u64,
            ),
{
    let ttl: Option<u64> = match ttl_secs {
        Some(t) => Some(t),
        None => default_ttl_secs,
    };
    let mut out: Vec<InternalRecord> = Vec::new();
    let mut i: usize = 0;
    while i < batch.len()
        invariant
            i <= batch@.len(),
            base + batch@.len() <= u64::MAX,
            ttl == batch_ttl(ttl_secs, default_ttl_secs),
            out@.len() == i,
            forall|k: int|
                0 <= k < i ==> #[trigger] out@[k]@ == stored(batch@[k]@, ttl, (base + k) as u64),
        decreases batch@.len() - i,
    {
        let rec = &batch[i];
        let mut stored_rec = InternalRecord::from_record(rec, base + i as u64);
        if let Some(t) = ttl {
            stored_rec.expire_at = expire_after(rec.ts, t);
        }
        assert(stored_rec@ =~= stored(rec@, ttl, (base + i) as u64));
        out.push(stored_rec);
        i += 1;
    }
    out
}

/// The tombstones for some keys and times, numbered from `base` on.
pub fn delete_records(keys_ts: &[(Vec<u8>, i64)], base: u64) -> (r: Vec<InternalRecord>)
    requires
        base + keys_ts@.len() <= u64::MAX,
    ensures
        r@.len() == keys_ts@.len(),
        forall|i: int|
            0 <= i < r@.len() ==> #[trigger] r@[i]@ == (InternalRecordView {
                seq: (base + i) as u64,
                op: Op::Delete,
                key: keys_ts@[i].0@,
                ts: keys_ts@[i].1,
                expire_at: i64::MAX,
                value: Seq::empty(),
                range_end: None,
            }),
{
    let mut out: Vec<InternalRecord> = Vec::new();
    let mut i: usize = 0;
    while i < keys_ts.len()
        invariant
            i <= keys_ts@.len(),
            base + keys_ts@.len() <= u64::MAX,
            out@.len() == i,
            forall|k: int|
                0 <= k < i ==> #[trigger] out@[k]@ == (InternalRecordView {
                    seq: (base + k) as u64,
                    op: Op::Delete,
                    key: keys_ts@[k].0@,
                    ts: keys_ts@[k].1,
                    expire_at: i64::MAX,
                    value: Seq::empty(),
                    range_end: None,
                }),
        decreases keys_ts@.len() - i,
    {
        let item = &keys_ts[i];
        out.push(InternalRecord::delete(copy_bytes(&item.0), item.1, base + i as u64));
        i += 1;
    }
    out
}

/// The first sequence number that an engine gives out: a million for each table up to
/// the greatest id, or more, where the log or the tables hold greater numbers.
pub open spec fn first_number(max_sst_id: u32, log_next: u64, flushed: u64) -> int {
    let counted = (max_sst_id + 1) * 1_000_000;
    let behind = if log_next > flushed {
        log_next as int
    } else {
        flushed + 1
    };
    if counted > behind {
        counted
    } else {
        behind
    }
}

/// The first sequence number that an engine gives out. `log_next` follows the
/// numbers in the log, and those up to `flushed` are in tables.
pub fn first_seq(max_sst_id: u32, log_next: u64, flushed: u64) -> (r: u64)
    requires
        flushed < u64::MAX,
    ensures
        r == first_number(max_sst_id, log_next, flushed),
        r >= log_next,
        r > flushed,
{
    let counted: u64 = (max_sst_id as u64 + 1) * 1_000_000;
    let behind: u64 = if log_next > flushed {
        log_next
    } else {
        flushed + 1
    };
    if counted > behind {
        counted
    } else {
        behind
    }
}

/// What an optional record holds.
pub open spec fn opt_record(r: Option<Record>) -> Option<RecordView> {
    match r {
        Some(rec) => Some(rec@),
        None => None,
    }
}

/// A record with a new value, a new time to live, or both.
pub open spec fn patched(
    rec: RecordView,
    new_value: Option<Seq<u8>>,
    new_ttl_secs: Option<u64>,
) -> RecordView {
    RecordView {
        value: match new_value {
            Some(v) => v,
            None => rec.value,
        },
        expire_at: match new_ttl_secs {
            Some(ttl) => expiry(rec.ts, ttl),
            None => rec.expire_at,
        },
        ..rec
    }
}

/// A patch changes what it is asked to change and nothing else: the key and the time
/// stay, the value stays where no new one is given, and the expiry where no new time to
/// live is; a new time to live counts from the record's time. Patching again with
/// nothing new changes nothing.
pub proof fn law_patch_keeps(
    rec: RecordView,
    new_value: Option<Seq<u8>>,
    new_ttl_secs: Option<u64>,
)
    ensures
        ({
            let out = patched(rec, new_value, new_ttl_secs);
            &&& out.key == rec.key && out.ts == rec.ts
            &&& new_value is None ==> out.value == rec.value
            &&& new_value matches Some(v) ==> out.value == v
            &&& new_ttl_secs is None ==> out.expire_at == rec.expire_at
            &&& new_ttl_secs matches Some(ttl) ==> (out.expire_at - rec.ts - ttl * 1_000_000)
                % 0x1_0000_0000_0000_0000int == 0
            &&& new_ttl_secs matches Some(ttl) ==> rec.ts + ttl * 1_000_000 <= i64::MAX
                ==> out.expire_at == rec.ts + ttl * 1_000_000
            &&& patched(out, None, None) == out
        }),
{
    if let Some(ttl) = new_ttl_secs {
        law_expiry_counts(rec.ts, ttl);
    }
}

/// An expiry is the time to live after the time, as far as 64 bits can tell.
pub proof fn law_expiry_counts(ts: i64, ttl_secs: u64)
    ensures
        (expiry(ts, ttl_secs) - ts - ttl_secs * 1_000_000) % 0x1_0000_0000_0000_0000int == 0,
        ts + ttl_secs * 1_000_000 <= i64::MAX ==> expiry(ts, ttl_secs) == ts + ttl_secs * 1_000_000,
{
    let m = 0x1_0000_0000_0000_0000int;
    let total = ts + ttl_secs * 1_000_000;
    let low = total % m;
    if total <= i64::MAX {
        lemma_expiry(ts, ttl_secs);
    }
    let wrapped = expiry(ts, ttl_secs) as int;
    assert(wrapped == low || wrapped == low - m);
    assert((wrapped - total) % m == 0) by (nonlinear_arith)
        requires
            m == 0x1_0000_0000_0000_0000int,
            low == total % m,
            wrapped == low || wrapped == low - m,
    ;
}

/// The record that a patch writes, from the record that a lookup of `key` and
/// `ts` found.
pub fn apply_patch(
    existing: Option<Record>,
    key: &str,
    ts: i64,
    new_value: Option<Vec<u8>>,
    new_ttl_secs: Option<u64>,
) -> (r: Result<Record, FlowError>)
    ensures
        match existing {
            Some(rec) => r matches Ok(out) && out@ == patched(
                rec@,
                record::opt_view(new_value),
                new_ttl_secs,
            ),
            None => r matches Err(FlowError::Other(msg)) && msg@ == "record not found: key="@ + key@
                + ", ts="@ + text::signed_text(ts as int),
        },
        r matches Ok(out) ==> existing matches Some(rec) && {
            &&& out.key@ == rec.key@ && out.ts == rec.ts
            &&& new_value is None ==> out.value@ == rec.value@
            &&& new_value matches Some(v) ==> out.value@ == v@
            &&& new_ttl_secs is None ==> out.expire_at == rec.expire_at
            &&& new_ttl_secs matches Some(ttl) ==> rec.ts + ttl * 1_000_000 <= i64::MAX
                ==> out.expire_at == rec.ts + ttl * 1_000_000
        },
{
    match existing {
        Some(rec) => {
            let mut out = rec;
            if let Some(v) = new_value {
                out.value = v;
            }
            if let Some(ttl) = new_ttl_secs {
                out.expire_at = expire_after(out.ts, ttl);
            }
            Ok(out)
        },
        None => {
            let front = join("record not found: key=", key);
            let middle = join(front.as_str(), ", ts=");
            let number = signed_decimal(ts);
            Err(FlowError::Other(join(middle.as_str(), number.as_str())))
        },
    }
}

/// The record with the key and the greatest time; of several such the last one.
pub open spec fn latest(records: Seq<RecordView>, key: Seq<u8>) -> Option<RecordView>
    decreases records.len(),
{
    if records.len() == 0 {
        None
    } else {
        let front = latest(records.drop_last(), key);
        let last = records.last();
        if last.key != key {
            front
        } else {
            match front {
                Some(best) if best.ts > last.ts => front,
                _ => Some(last),
            }
        }
    }
}

/// The latest record with the key among the records of a scan.
pub fn latest_of(records: &Vec<Record>, key: &[u8]) -> (r: Option<Record>)
    ensures
        opt_record(r) == latest(record::record_views(records@), key@),
{
    let ghost rows = record::record_views(records@);
    let mut best: Option<usize> = None;
    let mut i: usize = 0;
    while i < records.len()
        invariant
            i <= records@.len(),
            rows == record::record_views(records@),
            match best {
                Some(k) => k < i && latest(rows.take(i as int), key@) == Some(rows[k as int]),
                None => latest(rows.take(i as int), key@) is None,
            },
        decreases records@.len() - i,
    {
        assert(rows.take(i + 1).drop_last() =~= rows.take(i as int));
        if bytes_eq(&records[i].key, key) {
            let newer: bool = match best {
                Some(k) => records[k].ts <= records[i].ts,
                None => true,
            };
            if newer {
                best = Some(i);
            }
        }
        i += 1;
    }
    assert(rows.take(i as int) =~= rows);
    match best {
        Some(k) => Some(records[k].clone()),
        None => None,
    }
}

/// The latest record is one with the key, and none with the key has a greater
/// time.
pub proof fn law_latest(records: Seq<RecordView>, key: Seq<u8>, i: int)
    requires
        0 <= i < records.len(),
        records[i].key == key,
    ensures
        latest(records, key) matches Some(best) && best.key == key && best.ts >= records[i].ts
            && records.contains(best),
    decreases records.len(),
{
    let front = records.drop_last();
    let last = records.last();
    if i < front.len() {
        law_latest(front, key, i);
        let best = latest(front, key)->0;
        let k = choose|k: int| 0 <= k < front.len() && front[k] == best;
        assert(records[k] == best);
    } else if latest(front, key) is Some {
        lemma_latest_in(front, key);
        let best = latest(front, key)->0;
        let k = choose|k: int| 0 <= k < front.len() && front[k] == best;
        assert(records[k] == best);
    }
    assert(records[records.len() - 1] == last);
}

/// Where no record has the key, there is no latest one.
pub proof fn law_latest_none(records: Seq<RecordView>, key: Seq<u8>)
    requires
        forall|i: int| 0 <= i < records.len() ==> (#[trigger] records[i]).key != key,
    ensures
        latest(records, key) is None,
    decreases records.len(),
{
    if records.len() > 0 {
        let front = records.drop_last();
        assert forall|i: int| 0 <= i < front.len() implies (#[trigger] front[i]).key != key by {
            assert(front[i] == records[i]);
        }
        law_latest_none(front, key);
        assert(records[records.len() - 1] == records.last());
    }
}

proof fn lemma_latest_in(records: Seq<RecordView>, key: Seq<u8>)
    requires
        latest(records, key) is Some,
    ensures
        records.contains(latest(records, key)->0),
        (latest(records, key)->0).key == key,
    decreases records.len(),
{
    let front = records.drop_last();
    assert(records[records.len() - 1] == records.last());
    if latest(front, key) is Some {
        lemma_latest_in(front, key);
        let best = latest(front, key)->0;
        let k = choose|k: int| 0 <= k < front.len() && front[k] == best;
        assert(records[k] == best);
    }
}

/// A batch that is to be appended to the log.
#[derive(Debug)]
pub struct StagedWrite {
    /// The records, numbered.
    pub records: Vec<InternalRecord>,
    /// The records as the log holds them.
    pub wal_buf: Vec<u8>,
    /// The memory that the records are charged.
    pub mem_bytes: u64,
    /// The segment of the log that the bytes are appended to.
    pub segment: u64,
}

impl StagedWrite {
    /// The batch is one of these rows.
    pub open spec fn is_of(self, rows: Seq<InternalRecordView>, log: Wal) -> bool {
        &&& record::views(self.records@) == rows
        &&& self.wal_buf@ == wal::framed_all(rows)
        &&& self.mem_bytes == memtable::total_size(rows)
        &&& self.segment == log.segments().last().id
    }
}

/// The rows of a batch of records, numbered from `base` on.
pub open spec fn batch_rows(batch: Seq<Record>, ttl: Option<u64>, base: u64) -> Seq<
    InternalRecordView,
> {
    Seq::new(batch.len(), |i: int| stored(batch[i]@, ttl, (base + i) as u64))
}

/// The tombstones for keys and times, numbered from `base` on.
pub open spec fn delete_rows(keys_ts: Seq<(Vec<u8>, i64)>, base: u64) -> Seq<InternalRecordView> {
    Seq::new(
        keys_ts.len(),
        |i: int|
            InternalRecordView {
                seq: (base + i) as u64,
                op: Op::Delete,
                key: keys_ts[i].0@,
                ts: keys_ts[i].1,
                expire_at: i64::MAX,
                value: Seq::empty(),
                range_end: None,
            },
    )
}

/// The row that deletes the keys from `start` up to but not including `end`.
pub open spec fn delete_range_row(start: Seq<u8>, end: Seq<u8>, seq: u64) -> InternalRecordView {
    InternalRecordView {
        seq,
        op: Op::DeleteRange,
        key: start,
        ts: 0,
        expire_at: i64::MAX,
        value: Seq::empty(),
        range_end: Some(end),
    }
}

/// What is written of a batch is the batch: one put for each record, in order and with
/// consecutive numbers, with its key, time and value. A record expires when it says,
/// unless the batch or the configuration sets a time to live; then so long after its
/// time. The time to live of the batch comes before that of the configuration.
pub proof fn law_batch_written(
    batch: Seq<Record>,
    own: Option<u64>,
    default: Option<u64>,
    base: u64,
    i: int,
)
    requires
        0 <= i < batch.len(),
        base + batch.len() <= u64::MAX,
    ensures
        ({
            let rows = batch_rows(batch, batch_ttl(own, default), base);
            let row = rows[i];
            &&& rows.len() == batch.len()
            &&& row.op == Op::Put
            &&& row.seq == base + i
            &&& row.key == batch[i].key@ && row.ts == batch[i].ts && row.value == batch[i].value@
            &&& row.range_end is None
            &&& own is None && default is None ==> row.expire_at == batch[i].expire_at
            &&& own matches Some(ttl) ==> (row.expire_at - row.ts - ttl * 1_000_000)
                % 0x1_0000_0000_0000_0000int == 0
            &&& own is None ==> (default matches Some(ttl) ==> (row.expire_at - row.ts - ttl
                * 1_000_000) % 0x1_0000_0000_0000_0000int == 0)
        }),
{
    if let Some(ttl) = own {
        law_expiry_counts(batch[i].ts, ttl);
    } else if let Some(ttl) = default {
        law_expiry_counts(batch[i].ts, ttl);
    }
}

/// A deletion writes one tombstone for each key and time, in order and with consecutive
/// numbers, which never expires and holds no value.
pub proof fn law_deletions_written(keys_ts: Seq<(Vec<u8>, i64)>, base: u64, i: int)
    requires
        0 <= i < keys_ts.len(),
        base + keys_ts.len() <= u64::MAX,
    ensures
        ({
            let rows = delete_rows(keys_ts, base);
            let row = rows[i];
            &&& rows.len() == keys_ts.len()
            &&& row.op == Op::Delete
            &&& row.seq == base + i
            &&& row.key == keys_ts[i].0@ && row.ts == keys_ts[i].1
            &&& row.value.len() == 0
            &&& forall|now: i64| now < i64::MAX ==> #[trigger] memtable::selects(
                scan::all_rows(now),
                row,
            )
            &&& forall|key: Seq<u8>| !(#[trigger] scan::row_covers(row, key))
        }),
{
}

/// The deletion of a range covers the keys from the start up to but not including the
/// end, and no others, for good.
pub proof fn law_range_covered(start: Seq<u8>, end: Seq<u8>, seq: u64, key: Seq<u8>)
    ensures
        scan::row_covers(delete_range_row(start, end, seq), key) <==> bytes::lex_le(start, key)
            && bytes::lex_lt(key, end),
        delete_range_row(start, end, seq).seq == seq,
        forall|now: i64| now < i64::MAX ==> #[trigger] memtable::selects(
            scan::all_rows(now),
            delete_range_row(start, end, seq),
        ),
{
}

/// The first number that an engine gives out is above every number in its log and in its
/// tables, and those of an engine with more tables are greater.
pub proof fn law_first_number_above(max_sst_id: u32, log_next: u64, flushed: u64)
    ensures
        first_number(max_sst_id, log_next, flushed) >= log_next,
        first_number(max_sst_id, log_next, flushed) > flushed,
        first_number(max_sst_id, log_next, flushed) >= (max_sst_id + 1) * 1_000_000,
        first_number(max_sst_id, log_next, flushed) == log_next || first_number(
            max_sst_id,
            log_next,
            flushed,
        ) == flushed + 1 || first_number(max_sst_id, log_next, flushed) == (max_sst_id + 1)
            * 1_000_000,
{
}

/// The rows fit the memory counters.
pub open spec fn countable(rows: Seq<InternalRecordView>) -> bool {
    memtable::total_size(rows) <= usize::MAX
}

/// What the segment with the number holds, as it was found.
pub open spec fn segment_content(found: Seq<(u64, Vec<u8>)>, id: u64) -> Seq<u8>
    decreases found.len(),
{
    if found.len() == 0 {
        Seq::empty()
    } else if found[0].0 == id {
        found[0].1@
    } else {
        segment_content(found.drop_first(), id)
    }
}

/// What the segments hold, in their order.
pub open spec fn log_contents(found: Seq<(u64, Vec<u8>)>, segments: Seq<WalSegment>) -> Seq<
    Seq<u8>,
> {
    segments.map_values(|s: WalSegment| segment_content(found, s.id))
}

fn find_segment(found: &Vec<(u64, Vec<u8>)>, id: u64) -> (r: Vec<u8>)
    ensures
        r@ == segment_content(found@, id),
{
    let mut i: usize = 0;
    assert(found@.skip(0) =~= found@);
    while i < found.len()
        invariant
            i <= found@.len(),
            segment_content(found@, id) == segment_content(found@.skip(i as int), id),
        decreases found@.len() - i,
    {
        if found[i].0 == id {
            return copy_bytes(&found[i].1);
        }
        assert(found@.skip(i as int).drop_first() =~= found@.skip(i + 1));
        i += 1;
    }
    Vec::new()
}

fn log_data(found: &Vec<(u64, Vec<u8>)>, wal: &Wal) -> (r: Vec<Vec<u8>>)
    ensures
        wal::datas(r@) == log_contents(found@, wal.segments()),
{
    let ids = wal.segment_ids();
    let mut out: Vec<Vec<u8>> = Vec::new();
    let mut i: usize = 0;
    while i < ids.len()
        invariant
            i <= ids@.len(),
            ids@ == wal.segments().map_values(|s: WalSegment| s.id),
            out@.len() == i,
            forall|k: int| 0 <= k < i ==> (#[trigger] out@[k])@ == segment_content(found@, ids@[k]),
        decreases ids@.len() - i,
    {
        out.push(find_segment(found, ids[i]));
        i += 1;
    }
    assert(wal::datas(out@) =~= log_contents(found@, wal.segments()));
    out
}

/// The engine: the log, the memtables, the manifest and the block cache. Files
/// are read and written by whoever holds it.
pub struct Engine {
    worker: WriteWorker,
    manifest: Manifest,
    cache: BlockCache,
    stats: StatsCounters,
    seq_counter: u64,
}

impl Engine {
    /// The log and the memtables.
    pub closed spec fn writer(self) -> WriteWorker {
        self.worker
    }

    /// The tables that there are.
    pub closed spec fn tables(self) -> StateView {
        self.manifest@
    }

    /// The block cache.
    pub closed spec fn block_cache(self) -> BlockCache {
        self.cache
    }

    /// The counters.
    pub closed spec fn counters(self) -> StatsCounters {
        self.stats
    }

    /// The sequence number that the next record gets.
    pub closed spec fn next_seq(self) -> u64 {
        self.seq_counter
    }

    pub open spec fn wf(self) -> bool {
        self.writer().wf() && self.tables().wf() && self.block_cache().wf()
    }

    /// The engine over what was found: the segments of the log, and the changes
    /// that the manifest's file lists. The records of the log that are in no
    /// table go to the memtable. Besides the engine, the number of the segment
    /// of the log that is to be created, if any. An invalid configuration is
    /// rejected, and without a directory there is no engine, unless it may be
    /// created.
    pub fn open(
        config: Config,
        dir_exists: bool,
        found: &Vec<(u64, Vec<u8>)>,
        entries: &Vec<ManifestEntry>,
    ) -> (r: Result<(Self, Option<u64>), FlowError>)
        requires
            config.wal_segment_size_mb * 1024 * 1024 <= u64::MAX,
            config.memtable_size_mb * 1024 * 1024 <= usize::MAX,
            config.block_cache_capacity_mb * 1024 * 1024 <= usize::MAX,
            wal::found_max_id(found@) < u64::MAX - 1,
            wal::found_max_seq(found@) < u64::MAX,
            ({
                let state = StateView::empty().replayed(manifest::entry_views(entries@));
                &&& gc::bytes_of(state, state.active) <= u64::MAX
                &&& state.last_flushed_seq < u64::MAX
                &&& forall|rows: Seq<InternalRecordView>| #[trigger]
                    sort::stably_sorted(
                        SortOrder::Sequence,
                        wal::replay_rows(
                            log_contents(found@, wal::found_segments(found@)),
                            state.last_flushed_seq,
                        ),
                        rows,
                    ) ==> countable(rows)
            }),
        ensures
            config.zero_field() matches Some(name) ==> (r matches Err(FlowError::Config(msg))
                && msg@ == name + " must be greater than 0"@),
            config.is_valid() && !dir_exists && !config.create_if_missing ==> (r matches Err(
                FlowError::Io(msg),
            ) && msg@ == "data directory does not exist: "@ + config.data_dir@),
            config.is_valid() && (dir_exists || config.create_if_missing) ==> {
                let state = StateView::empty().replayed(manifest::entry_views(entries@));
                let log = log_contents(found@, wal::found_segments(found@));
                &&& r matches Ok((engine, created))
                &&& engine.wf()
                &&& engine.writer().settings() == config
                &&& engine.tables() == state
                &&& created == (if found@.len() == 0 {
                    Some(1u64)
                } else {
                    None
                })
                &&& wal::opened(found@, config.wal_segment_size_mb, engine.writer().log())
                &&& engine.writer().mem().frozen().len() == 0
                &&& engine.writer().mem().max_frozen() == config.max_frozen_memtables
                &&& engine.writer().mem().size_limit() == config.memtable_size_mb * 1024 * 1024
                &&& sort::stably_sorted(
                    SortOrder::Sequence,
                    wal::replay_rows(log, state.last_flushed_seq),
                    engine.writer().mem().active().rows(),
                )
                &&& exists|empty: MemTable|
                    empty.rows().len() == 0 && (empty.index() == Map::<(u64, i64), usize>::empty())
                        && empty.charged() == 0 && #[trigger] write_worker::takes_batch(
                        empty,
                        engine.writer().mem().active().rows(),
                        engine.writer().mem().active(),
                    )
                &&& engine.next_seq() == first_number(
                    manifest::max_id(state.active),
                    (wal::found_max_seq(found@) + 1) as u64,
                    state.last_flushed_seq,
                )
                &&& engine.next_seq() > state.last_flushed_seq
                &&& forall|i: int|
                    0 <= i < engine.writer().mem().active().rows().len() ==> (
                    #[trigger] engine.writer().mem().active().rows()[i]).seq < engine.next_seq()
                &&& forall|key: CacheKey| #[trigger] engine.block_cache().cached(key) is None
                &&& (engine.counters() == StatsCounters {
                    sstable_count: state.active.len() as usize,
                    sstable_bytes: gc::bytes_of(state, state.active) as u64,
                    block_meta_index_entries: block_index::block_total(state, state.active),
                    ..StatsCounters::zero()
                })
            },
    {
        if let Err(e) = config.validate() {
            return Err(e);
        }
        if !dir_exists && !config.create_if_missing {
            return Err(
                FlowError::Io(join("data directory does not exist: ", config.data_dir.as_str())),
            );
        }
        let (wal, created) = Wal::open(found, config.wal_segment_size_mb);
        let manifest = Manifest::open(entries);
        let ghost state = manifest@;
        let data = log_data(found, &wal);
        let records = Wal::replay_from(&data, manifest.state().last_flushed_seq);
        let ghost rows = record::views(records@);
        proof {
            if found@.len() == 0 {
                lemma_nothing_replayed(found@, wal.segments(), state.last_flushed_seq);
                lemma_nothing_replayed(found@, wal::found_segments(found@), state.last_flushed_seq);
            }
            assert(sort::stably_sorted(
                SortOrder::Sequence,
                wal::replay_rows(
                    log_contents(found@, wal::found_segments(found@)),
                    state.last_flushed_seq,
                ),
                rows,
            ));
            assert(countable(rows));
        }
        let mut memtables = MemTables::new(
            config.max_frozen_memtables,
            config.memtable_size_mb * 1024 * 1024,
        );
        let ghost empty = memtables.active();
        insert_batch(memtables.active_for_batch(), &records);
        assert(memtables.active().rows() =~= rows);
        let cache = BlockCache::new(config.block_cache_capacity_mb);
        let mut stats = StatsCounters::new();
        let (count, bytes) = table_totals(manifest.state());
        stats.set_sstable(count, bytes);
        stats.set_index_stats(count_blocks(manifest.state()), 0);
        let seq_counter: u64 = first_seq(
            manifest.max_sst_id(),
            wal.following_seq(),
            manifest.state().last_flushed_seq,
        );
        let worker = WriteWorker::new(config, wal, memtables);
        let engine = Self { worker, manifest, cache, stats, seq_counter };
        proof {
            assert(write_worker::takes_batch(empty, rows, engine.writer().mem().active()));
            lemma_replayed_below(found@, state.last_flushed_seq, rows);
            assert forall|key: CacheKey| #[trigger] engine.block_cache().cached(key) is None by {
                assert(0 <= key.shard_index() < NUM_SHARDS);
            }
        }
        Ok((engine, created))
    }

    /// Whether a write has to wait until a memtable is flushed: writes stall when
    /// flushing cannot keep up.
    pub fn must_stall(&self) -> (r: bool)
        ensures
            r == self.writer().mem().stalls(),
    {
        self.worker.must_stall()
    }

    /// Makes a batch of numbered records ready for the log.
    fn stage(&self, records: Vec<InternalRecord>) -> (r: StagedWrite)
        requires
            self.wf(),
            countable(record::views(records@)),
        ensures
            r.is_of(record::views(records@), self.writer().log()),
    {
        let (encoded, mem_bytes) = encode_batch(&records);
        let wal_buf = seal_batch(&encoded, &records);
        let segment: u64 = self.worker.wal().last_segment();
        StagedWrite { records, wal_buf, mem_bytes, segment }
    }

    /// Whether `after` differs from the engine in the next sequence number alone.
    pub open spec fn only_numbered(self, after: Engine, count: nat) -> bool {
        &&& after.writer() == self.writer()
        &&& after.tables() == self.tables()
        &&& after.block_cache() == self.block_cache()
        &&& after.counters() == self.counters()
        &&& after.next_seq() == self.next_seq() + count
    }

    /// Makes a batch ready to be written. An empty batch is nothing to write.
    pub fn write_batch(&mut self, batch: &[Record]) -> (r: Option<StagedWrite>)
        requires
            old(self).wf(),
            old(self).next_seq() + batch@.len() <= u64::MAX,
            countable(
                batch_rows(
                    batch@,
                    old(self).writer().settings().default_ttl_secs,
                    old(self).next_seq(),
                ),
            ),
        ensures
            final(self).wf(),
            old(self).only_numbered(*final(self), batch@.len()),
            match r {
                Some(staged) => batch@.len() > 0 && staged.is_of(
                    batch_rows(
                        batch@,
                        old(self).writer().settings().default_ttl_secs,
                        old(self).next_seq(),
                    ),
                    old(self).writer().log(),
                ),
                None => batch@.len() == 0,
            },
    {
        self.write_batch_ttl(batch, None)
    }

    /// Makes a batch that is handed over ready to be written.
    pub fn write_batch_owned(&mut self, batch: Vec<Record>) -> (r: Option<StagedWrite>)
        requires
            old(self).wf(),
            old(self).next_seq() + batch@.len() <= u64::MAX,
            countable(
                batch_rows(
                    batch@,
                    old(self).writer().settings().default_ttl_secs,
                    old(self).next_seq(),
                ),
            ),
        ensures
            final(self).wf(),
            old(self).only_numbered(*final(self), batch@.len()),
            match r {
                Some(staged) => batch@.len() > 0 && staged.is_of(
                    batch_rows(
                        batch@,
                        old(self).writer().settings().default_ttl_secs,
                        old(self).next_seq(),
                    ),
                    old(self).writer().log(),
                ),
                None => batch@.len() == 0,
            },
    {
        self.write_batch(batch.as_slice())
    }

    /// Makes a batch that is handed over ready to be written.
    pub fn write_batch_sync(&mut self, batch: Vec<Record>) -> (r: Option<StagedWrite>)
        requires
            old(self).wf(),
            old(self).next_seq() + batch@.len() <= u64::MAX,
            countable(
                batch_rows(
                    batch@,
                    old(self).writer().settings().default_ttl_secs,
                    old(self).next_seq(),
                ),
            ),
        ensures
            final(self).wf(),
            old(self).only_numbered(*final(self), batch@.len()),
            match r {
                Some(staged) => batch@.len() > 0 && staged.is_of(
                    batch_rows(
                        batch@,
                        old(self).writer().settings().default_ttl_secs,
                        old(self).next_seq(),
                    ),
                    old(self).writer().log(),
                ),
                None => batch@.len() == 0,
            },
    {
        self.write_batch_owned(batch)
    }

    /// Makes a batch with a time to live ready to be written.
    pub fn write_batch_ttl(&mut self, batch: &[Record], ttl_secs: Option<u64>) -> (r: Option<
        StagedWrite,
    >)
        requires
            old(self).wf(),
            old(self).next_seq() + batch@.len() <= u64::MAX,
            countable(
                batch_rows(
                    batch@,
                    batch_ttl(ttl_secs, old(self).writer().settings().default_ttl_secs),
                    old(self).next_seq(),
                ),
            ),
        ensures
            final(self).wf(),
            old(self).only_numbered(*final(self), batch@.len()),
            match r {
                Some(staged) => batch@.len() > 0 && staged.is_of(
                    batch_rows(
                        batch@,
                        batch_ttl(ttl_secs, old(self).writer().settings().default_ttl_secs),
                        old(self).next_seq(),
                    ),
                    old(self).writer().log(),
                ),
                None => batch@.len() == 0,
            },
    {
        if batch.len() == 0 {
            return None;
        }
        let base: u64 = self.seq_counter;
        let default_ttl: Option<u64> = self.worker.config().default_ttl_secs;
        let records = convert_records(batch, ttl_secs, default_ttl, base);
        assert(record::views(records@) =~= batch_rows(batch@, batch_ttl(ttl_secs, default_ttl), base));
        let staged = self.stage(records);
        self.seq_counter = base + batch.len() as u64;
        Some(staged)
    }

    /// Makes the deletion of records ready to be written.
    pub fn delete_batch(&mut self, keys_ts: &[(Vec<u8>, i64)]) -> (r: Option<StagedWrite>)
        requires
            old(self).wf(),
            old(self).next_seq() + keys_ts@.len() <= u64::MAX,
            countable(delete_rows(keys_ts@, old(self).next_seq())),
        ensures
            final(self).wf(),
            old(self).only_numbered(*final(self), keys_ts@.len()),
            match r {
                Some(staged) => keys_ts@.len() > 0 && staged.is_of(
                    delete_rows(keys_ts@, old(self).next_seq()),
                    old(self).writer().log(),
                ),
                None => keys_ts@.len() == 0,
            },
    {
        if keys_ts.len() == 0 {
            return None;
        }
        let base: u64 = self.seq_counter;
        let records = delete_records(keys_ts, base);
        assert(record::views(records@) =~= delete_rows(keys_ts@, base));
        let staged = self.stage(records);
        self.seq_counter = base + keys_ts.len() as u64;
        Some(staged)
    }

    /// Makes the deletion of the keys from `start_key` up to but not including
    /// `end_key` ready to be written.
    pub fn delete_range(&mut self, start_key: &str, end_key: &str) -> (r: StagedWrite)
        requires
            old(self).wf(),
            old(self).next_seq() < u64::MAX,
            countable(
                seq![
                    delete_range_row(
                        start_key.spec_bytes(),
                        end_key.spec_bytes(),
                        old(self).next_seq(),
                    ),
                ],
            ),
        ensures
            final(self).wf(),
            old(self).only_numbered(*final(self), 1),
            r.is_of(
                seq![
                    delete_range_row(
                        start_key.spec_bytes(),
                        end_key.spec_bytes(),
                        old(self).next_seq(),
                    ),
                ],
                old(self).writer().log(),
            ),
    {
        let seq: u64 = self.seq_counter;
        let mut records: Vec<InternalRecord> = Vec::new();
        records.push(
            InternalRecord::delete_range(
                copy_bytes(start_key.as_bytes()),
                copy_bytes(end_key.as_bytes()),
                seq,
            ),
        );
        assert(record::views(records@) =~= seq![
            delete_range_row(start_key.spec_bytes(), end_key.spec_bytes(), seq),
        ]);
        let staged = self.stage(records);
        self.seq_counter = seq + 1;
        staged
    }

    /// Takes a batch that was appended to the log into the memtable.
    pub fn commit(&mut self, staged: &StagedWrite) -> (r: WriteEffect)
        requires
            old(self).wf(),
            old(self).writer().log().segments().last().written_bytes + staged.wal_buf@.len()
                <= u64::MAX,
            old(self).writer().log().next_id() < u64::MAX,
            old(self).writer().mem().active().charged() + memtable::total_size(
                record::views(staged.records@),
            ) <= usize::MAX,
        ensures
            final(self).wf(),
            final(self).writer().settings() == old(self).writer().settings(),
            old(self).writer().log().appends(staged.wal_buf@, final(self).writer().log(), r.wal),
            write_worker::takes_batch(
                old(self).writer().mem().active(),
                record::views(staged.records@),
                final(self).writer().mem().active(),
            ),
            final(self).writer().mem().frozen() == old(self).writer().mem().frozen(),
            final(self).writer().mem().same_limits(old(self).writer().mem()),
            r.flush_due == (final(self).writer().mem().active().charged()
                >= final(self).writer().mem().size_limit()
                && final(self).writer().mem().frozen().len()
                < final(self).writer().mem().max_frozen()),
            final(self).tables() == old(self).tables(),
            final(self).block_cache() == old(self).block_cache(),
            final(self).next_seq() == old(self).next_seq(),
            (final(self).counters() == StatsCounters {
                wal_bytes: old(self).counters().wal_bytes.wrapping_add(staged.mem_bytes),
                memtable_records: final(self).writer().mem().active().rows().len() as usize,
                memtable_bytes: final(self).writer().mem().active().charged() as usize,
                frozen_memtable_count: final(self).writer().mem().frozen().len() as usize,
                total_records_written: old(self).counters().total_records_written.wrapping_add(
                    staged.records@.len() as u64,
                ),
                total_bytes_written: old(self).counters().total_bytes_written.wrapping_add(
                    staged.mem_bytes,
                ),
                ..old(self).counters()
            }),
    {
        self.worker.process_batch_encoded(
            &staged.records,
            &staged.wal_buf,
            staged.mem_bytes,
            staged.records.len() as u64,
            &mut self.stats,
        )
    }
}

/// The size of a row with a key and a value of these lengths on top of others, if it
/// can be told.
fn with_row(total: usize, key_len: usize, value_len: usize) -> (r: Option<usize>)
    ensures
        match r {
            Some(n) => n == total + 31 + key_len + value_len,
            None => total + 31 + key_len + value_len > usize::MAX,
        },
{
    let sum: u128 = total as u128 + 31u128 + key_len as u128 + value_len as u128;
    if sum <= usize::MAX as u128 {
        Some(sum as usize)
    } else {
        None
    }
}

impl Engine {
    /// Whether the batch can be written: there are numbers for its records, and their
    /// sizes can be told.
    pub fn can_write(&self, batch: &[Record]) -> (r: bool)
        ensures
            r == (self.next_seq() + batch@.len() <= u64::MAX && countable(
                batch_rows(batch@, self.writer().settings().default_ttl_secs, self.next_seq()),
            )),
    {
        let ghost ttl = self.writer().settings().default_ttl_secs;
        let ghost rows = batch_rows(batch@, ttl, self.next_seq());
        if batch.len() as u64 > u64::MAX - self.seq_counter {
            return false;
        }
        let mut total: usize = 0;
        let mut i: usize = 0;
        while i < batch.len()
            invariant
                i <= batch@.len(),
                ttl == self.writer().settings().default_ttl_secs,
                rows == batch_rows(batch@, ttl, self.next_seq()),
                total == memtable::total_size(rows.take(i as int)),
            decreases batch@.len() - i,
        {
            proof {
                let part = rows.take(i + 1);
                assert(part.drop_last() =~= rows.take(i as int));
                assert(rows =~= part + rows.skip(i + 1));
                memtable::lemma_total_append(part, rows.skip(i + 1));
                assert(part.last() == rows[i as int]);
            }
            match with_row(total, batch[i].key.len(), batch[i].value.len()) {
                Some(sum) => {
                    total = sum;
                },
                None => {
                    return false;
                },
            }
            i += 1;
        }
        assert(rows.take(i as int) =~= rows);
        true
    }

    /// Whether the deletions can be written: there are numbers for them, and their
    /// sizes can be told.
    pub fn can_delete(&self, keys_ts: &[(Vec<u8>, i64)]) -> (r: bool)
        ensures
            r == (self.next_seq() + keys_ts@.len() <= u64::MAX && countable(
                delete_rows(keys_ts@, self.next_seq()),
            )),
    {
        let ghost rows = delete_rows(keys_ts@, self.next_seq());
        if keys_ts.len() as u64 > u64::MAX - self.seq_counter {
            return false;
        }
        let mut total: usize = 0;
        let mut i: usize = 0;
        while i < keys_ts.len()
            invariant
                i <= keys_ts@.len(),
                rows == delete_rows(keys_ts@, self.next_seq()),
                total == memtable::total_size(rows.take(i as int)),
            decreases keys_ts@.len() - i,
        {
            proof {
                let part = rows.take(i + 1);
                assert(part.drop_last() =~= rows.take(i as int));
                assert(rows =~= part + rows.skip(i + 1));
                memtable::lemma_total_append(part, rows.skip(i + 1));
                assert(part.last() == rows[i as int]);
            }
            match with_row(total, keys_ts[i].0.len(), 0) {
                Some(sum) => {
                    total = sum;
                },
                None => {
                    return false;
                },
            }
            i += 1;
        }
        assert(rows.take(i as int) =~= rows);
        true
    }

    /// Whether a batch that was made ready can be taken over: the log and the
    /// memtable can count it.
    pub fn can_commit(&self, staged: &StagedWrite) -> (r: bool)
        requires
            self.wf(),
            staged.mem_bytes == memtable::total_size(record::views(staged.records@)),
        ensures
            r == (self.writer().log().segments().last().written_bytes + staged.wal_buf@.len()
                <= u64::MAX && self.writer().log().next_id() < u64::MAX
                && self.writer().mem().active().charged() + memtable::total_size(
                record::views(staged.records@),
            ) <= usize::MAX),
    {
        let (_, charged) = self.worker.memtables().active_stats();
        let sum: u128 = charged as u128 + staged.mem_bytes as u128;
        self.worker.wal().has_room(staged.wal_buf.len()) && sum <= usize::MAX as u128
    }

    /// Whether a memtable can be flushed and a table for it entered: there are numbers
    /// for the table and for a segment, and a table of its rows can be written.
    pub fn can_flush(&self, now_us: i64) -> (r: bool)
        requires
            self.wf(),
        ensures
            r <==> {
                &&& manifest::max_id(self.tables().active) < u32::MAX
                &&& self.writer().log().next_id() < u64::MAX
                &&& forall|rows: Seq<InternalRecordView>| #[trigger]
                    write_worker::flushed_rows(self.writer().mem(), now_us, rows)
                        ==> write_worker::writable(
                        rows,
                        self.writer().settings().block_size,
                        self.writer().settings().bloom_bits_per_key,
                    )
            },
    {
        if self.manifest.max_sst_id() == u32::MAX || !self.worker.wal().has_room(0) {
            return false;
        }
        self.worker.can_write_table(now_us)
    }

    /// Whether a table that was written can be entered: there is a number for a
    /// segment, and the bytes of the tables can be counted.
    pub fn can_enter(&self, flush: &Flush) -> (r: bool)
        requires
            self.wf(),
        ensures
            r == (self.writer().log().next_id() < u64::MAX && gc::bytes_of(
                self.tables(),
                self.tables().active,
            ) + flush.info.bytes <= u64::MAX),
            r ==> ({
                let after = self.tables().applied(flush.entry());
                gc::bytes_of(after, after.active) <= u64::MAX
            }),
    {
        let (_, bytes) = gc::record_totals(self.manifest.state());
        if !self.worker.wal().has_room(0) {
            return false;
        }
        proof {
            let state = self.tables();
            let sst = flush.info@;
            let after = state.applied(flush.entry());
            gc::lemma_added_bytes(state, after, sst, state.active);
            if !state.active.contains(sst.id) {
                assert(after.active.drop_last() =~= state.active);
                assert(after.sstables[sst.id] == sst);
            }
        }
        bytes <= u64::MAX as u128 - flush.info.bytes as u128
    }

    /// Whether garbage can be collected: the records and the bytes of the tables can
    /// be counted.
    pub fn can_collect(&self) -> (r: bool)
        requires
            self.wf(),
        ensures
            r == (gc::records_of(self.tables(), self.tables().active) <= u64::MAX && gc::bytes_of(
                self.tables(),
                self.tables().active,
            ) <= u64::MAX),
            r ==> forall|now: i64|
                ({
                    let gone = #[trigger] gc::expired(self.tables(), now);
                    let after = self.tables().all_removed(gone);
                    gc::records_of(self.tables(), gone) <= u64::MAX && gc::bytes_of(
                        after,
                        after.active,
                    ) <= u64::MAX
                }),
    {
        let (records, bytes) = gc::record_totals(self.manifest.state());
        proof {
            let state = self.tables();
            assert forall|now: i64|
                ({
                    let gone = #[trigger] gc::expired(state, now);
                    let after = state.all_removed(gone);
                    gc::records_of(state, gone) <= gc::records_of(state, state.active)
                        && gc::bytes_of(after, after.active) <= gc::bytes_of(state, state.active)
                }) by {
                gc::lemma_fewer_records(state, state.active, gc::is_expired(state, now));
                gc::lemma_removed_bytes(state, gc::expired(state, now));
            }
        }
        records <= u64::MAX as u128 && bytes <= u64::MAX as u128
    }
}

/// Whether a table's filter is of another hash, so that it rules no key out.
pub open spec fn is_stale(filter: Option<BloomFilterView>) -> bool {
    filter matches Some(bloom) && bloom.hash_version != CURRENT_HASH_VERSION
}

/// The filter of a table after filters were refreshed: a new one, with the keys of
/// the table, for one of another hash, where the table is open and can be read; else
/// the one it had.
pub open spec fn refreshed_filter(
    before: Option<BloomFilterView>,
    rows: Option<Seq<InternalRecordView>>,
    bits_per_key: usize,
    after: Option<BloomFilterView>,
) -> bool {
    match rows {
        Some(rows) if is_stale(before) && sstable::key_runs(rows).len() * bits_per_key
            <= usize::MAX => exists|f: BloomFilter|
            f.wf() && after == Some(f@) && #[trigger] f.built_from(
                sstable::key_runs(rows),
                bits_per_key as int,
            ),
        _ => after == before,
    }
}

/// The rows of a table, if it is open and can be read.
pub open spec fn open_rows(tables: Seq<Table>, id: u32) -> Option<Seq<InternalRecordView>> {
    match lookup::table_at(tables, id) {
        Some(i) => tables[i].reader.all_rows(tables[i].data@),
        None => None,
    }
}

/// The tables after the filters of those with the ids were refreshed.
pub open spec fn filters_refreshed(
    before: StateView,
    ids: Seq<u32>,
    tables: Seq<Table>,
    bits_per_key: usize,
    after: StateView,
) -> bool {
    &&& after.last_flushed_seq == before.last_flushed_seq
    &&& after.block_infos == before.block_infos
    &&& after.active == before.active
    &&& after.sstables.dom() == before.sstables.dom()
    &&& forall|id: u32| #[trigger]
        before.sstables.contains_key(id) ==> {
            &&& after.sstables[id] == (SstInfoView {
                bloom: after.sstables[id].bloom,
                ..before.sstables[id]
            })
            &&& if ids.contains(id) {
                refreshed_filter(
                    before.sstables[id].bloom,
                    open_rows(tables, id),
                    bits_per_key,
                    after.sstables[id].bloom,
                )
            } else {
                after.sstables[id].bloom == before.sstables[id].bloom
            }
        }
}

impl Engine {
    /// Rebuilds the filters of the tables that were built with another hash. To be
    /// called once the tables of an engine are open.
    pub fn refresh_filters(&mut self, tables: &[Table])
        requires
            old(self).wf(),
        ensures
            final(self).wf(),
            final(self).writer() == old(self).writer(),
            final(self).block_cache() == old(self).block_cache(),
            final(self).counters() == old(self).counters(),
            final(self).next_seq() == old(self).next_seq(),
            filters_refreshed(
                old(self).tables(),
                old(self).tables().active,
                tables@,
                old(self).writer().settings().bloom_bits_per_key,
                final(self).tables(),
            ),
    {
        let bits: usize = self.worker.config().bloom_bits_per_key;
        let ids = copy_ids(&self.manifest.state().active_sst_ids);
        let ghost start = self.tables();
        let mut i: usize = 0;
        while i < ids.len()
            invariant
                i <= ids@.len(),
                start == old(self).tables(),
                start.wf(),
                ids@ == start.active,
                bits == old(self).writer().settings().bloom_bits_per_key,
                self.worker == old(self).worker,
                self.cache == old(self).cache,
                self.stats == old(self).stats,
                self.seq_counter == old(self).seq_counter,
                filters_refreshed(start, ids@.take(i as int), tables@, bits, self.tables()),
            decreases ids@.len() - i,
        {
            let id: u32 = ids[i];
            let ghost before = self.tables();
            let rebuilt = self.rebuilt_filter(id, tables, bits);
            proof {
                assert(start.active.contains(id));
                assert(start.sstables.contains_key(id));
                assert(!ids@.take(i as int).contains(id));
            }
            if let Some(filter) = rebuilt {
                self.manifest.replace_filter(id, filter);
            }
            proof {
                let after = self.tables();
                let done = ids@.take(i as int);
                let more = ids@.take(i + 1);
                assert(more =~= done.push(id));
                assert(after.sstables.dom() =~= start.sstables.dom());
                assert forall|x: u32| #[trigger] start.sstables.contains_key(x) implies ({
                    &&& after.sstables[x] == (SstInfoView {
                        bloom: after.sstables[x].bloom,
                        ..start.sstables[x]
                    })
                    &&& if more.contains(x) {
                        refreshed_filter(
                            start.sstables[x].bloom,
                            open_rows(tables@, x),
                            bits,
                            after.sstables[x].bloom,
                        )
                    } else {
                        after.sstables[x].bloom == start.sstables[x].bloom
                    }
                }) by {
                    if x != id {
                        assert(done.contains(x) == more.contains(x)) by {
                            if done.contains(x) {
                                let k = choose|k: int| 0 <= k < done.len() && done[k] == x;
                                assert(more[k] == x);
                            }
                            if more.contains(x) {
                                let k = choose|k: int| 0 <= k < more.len() && more[k] == x;
                                assert(done[k] == x);
                            }
                        }
                        assert(after.sstables[x] == before.sstables[x]);
                    } else {
                        assert(more[i as int] == id);
                        assert(more.contains(id));
                    }
                }
            }
            i += 1;
        }
        proof {
            assert(ids@.take(i as int) =~= ids@);
            assert forall|id: u32| self.tables().active.contains(id)
                <==> #[trigger] self.tables().sstables.contains_key(id) by {
                assert(start.active.contains(id) <==> start.sstables.contains_key(id));
                assert(self.tables().sstables.dom().contains(id) == start.sstables.dom().contains(id));
            }
        }
    }

    /// A new filter for a table whose filter was built with another hash, where the
    /// table is open and can be read.
    fn rebuilt_filter(&self, id: u32, tables: &[Table], bits: usize) -> (r: Option<BloomFilter>)
        requires
            self.tables().sstables.contains_key(id),
        ensures
            match r {
                Some(f) => refreshed_filter(
                    self.tables().sstables[id].bloom,
                    open_rows(tables@, id),
                    bits,
                    Some(f@),
                ),
                None => refreshed_filter(
                    self.tables().sstables[id].bloom,
                    open_rows(tables@, id),
                    bits,
                    self.tables().sstables[id].bloom,
                ),
            },
    {
        let stale: bool = has_stale_filter(self.manifest.state(), id);
        if !stale {
            return None;
        }
        match find_table(tables, id) {
            Some(at) => {
                let r = tables[at].reader.rebuild_filter(tables[at].data, bits);
                proof {
                    if r is Some {
                        let rows = open_rows(tables@, id)->0;
                        assert((r->0).built_from(sstable::key_runs(rows), bits as int));
                    }
                }
                r
            },
            None => None,
        }
    }
}

/// The key and time that a lookup asks for, and when.
pub struct Wanted {
    pub key: Seq<u8>,
    pub ts: i64,
    pub now: i64,
}

impl Engine {
    /// The range tombstones that may cover a key: those of the memtables, and those
    /// of the blocks that may hold the key.
    pub open spec fn key_tombstones(self, tables: Seq<Table>, key: Seq<u8>, now: i64) -> Seq<
        scan::Tombstone,
    > {
        scan::scan_tombstones(
            self.writer().mem(),
            lookup::readable_rows(
                tables,
                block_index::candidates(
                    self.tables(),
                    self.tables().active,
                    record::KeyFilterView::Range { start: key, end: key },
                    None,
                    now,
                ),
            ),
            now,
        )
    }

    /// What a lookup tells whose hash of the key is `h`: that the record was deleted,
    /// where a range tombstone covers the key; else what the memtables tell, or, where
    /// they tell nothing, what the blocks tell that may hold the key, newest table
    /// first.
    pub open spec fn told_with(self, tables: Seq<Table>, wanted: Wanted, h: u64) -> lookup::LookupView {
        if scan::covered(self.key_tombstones(tables, wanted.key, wanted.now), wanted.key) {
            lookup::LookupView::Deleted
        } else {
            match self.writer().mem().lookup(h, wanted.key, wanted.ts, wanted.now) {
                Some(row) => lookup::told_by(row),
                None => lookup::blocks_told(
                    tables,
                    block_index::point_candidates(
                        self.tables(),
                        self.tables().active,
                        wanted.key,
                        wanted.now,
                    ),
                    wanted.key,
                    wanted.ts,
                    wanted.now,
                ),
            }
        }
    }

    /// Whether a lookup may tell this, whatever the hash of the key is.
    pub open spec fn tells(
        self,
        tables: Seq<Table>,
        wanted: Wanted,
        told: lookup::LookupView,
    ) -> bool {
        exists|h: u64| told == #[trigger] self.told_with(tables, wanted, h)
    }

    /// Whether `after` differs from the engine in its block cache alone, that cache
    /// is right for the tables, and only blocks of theirs have come to it.
    pub open spec fn only_cached(self, after: Engine, tables: Seq<Table>) -> bool {
        &&& after.writer() == self.writer()
        &&& after.tables() == self.tables()
        &&& after.block_cache().wf()
        &&& lookup::coherent(after.block_cache(), tables)
        &&& lookup::filled(self.block_cache(), after.block_cache(), tables)
        &&& after.counters() == self.counters()
        &&& after.next_seq() == self.next_seq()
    }

    /// The record with the key and the time. `tables` are the open tables.
    pub fn get_bytes(&mut self, key: &[u8], ts: i64, now_us: i64, tables: &[Table]) -> (r: Option<
        Record,
    >)
        requires
            old(self).wf(),
            lookup::coherent(old(self).block_cache(), tables@),
        ensures
            final(self).wf(),
            old(self).only_cached(*final(self), tables@),
            exists|told: lookup::LookupView| #[trigger]
                old(self).tells(
                    tables@,
                    (Wanted { key: key@, ts, now: now_us }),
                    told,
                ) && opt_record(r) == told.record(),
    {
        let ghost wanted = Wanted { key: key@, ts, now: now_us };
        let found = self.worker.memtables().get(key, ts, now_us);
        let ghost h = choose|h: u64|
            memtable::opt_row(found) == #[trigger] self.writer().mem().lookup(h, key@, ts, now_us);
        let told = match resolve_lookup(found) {
            Lookup::Absent => {
                let blocks = point_blocks(self.manifest.state(), copy_bytes(key), now_us);
                search_blocks(tables, &blocks, key, ts, now_us, &mut self.cache)
            },
            other => other,
        };
        assert(old(self).only_cached(*self, tables@));
        proof {
            if scan::covered(old(self).key_tombstones(tables@, key@, now_us), key@) {
                assert(old(self).told_with(tables@, wanted, h) == lookup::LookupView::Deleted);
                assert(old(self).tells(tables@, wanted, lookup::LookupView::Deleted));
            } else {
                assert(old(self).writer().mem().lookup(h, key@, ts, now_us) == memtable::opt_row(
                    found,
                ));
                assert(old(self).told_with(tables@, wanted, h) == told@);
                assert(old(self).tells(tables@, wanted, told@));
            }
        }
        match told {
            Lookup::Found(rec) => {
                if self.range_deleted(key, now_us, tables) {
                    None
                } else {
                    Some(rec)
                }
            },
            _ => None,
        }
    }

    /// Whether a range tombstone covers the key.
    fn range_deleted(&mut self, key: &[u8], now_us: i64, tables: &[Table]) -> (r: bool)
        requires
            old(self).wf(),
            lookup::coherent(old(self).block_cache(), tables@),
        ensures
            final(self).wf(),
            old(self).only_cached(*final(self), tables@),
            r == scan::covered(old(self).key_tombstones(tables@, key@, now_us), key@),
    {
        let filter = KeyFilter::Range { start: copy_bytes(key), end: copy_bytes(key) };
        let blocks = candidate_blocks(self.manifest.state(), &filter, None, now_us);
        let contents = load_blocks(tables, &blocks, false, &mut self.cache);
        let tombstones = all_tombstones(self.worker.memtables(), &contents, now_us);
        covers(&tombstones, key)
    }

    /// The record with the key and the time.
    pub fn get_sync(&mut self, key: &str, ts: i64, now_us: i64, tables: &[Table]) -> (r: Option<
        Record,
    >)
        requires
            old(self).wf(),
            lookup::coherent(old(self).block_cache(), tables@),
        ensures
            final(self).wf(),
            old(self).only_cached(*final(self), tables@),
            exists|told: lookup::LookupView| #[trigger]
                old(self).tells(
                    tables@,
                    (Wanted { key: key.spec_bytes(), ts, now: now_us }),
                    told,
                ) && opt_record(r) == told.record(),
    {
        self.get_bytes(key.as_bytes(), ts, now_us, tables)
    }

    /// The record with the key and the time.
    pub fn get(&mut self, key: &str, ts: i64, now_us: i64, tables: &[Table]) -> (r: Option<Record>)
        requires
            old(self).wf(),
            lookup::coherent(old(self).block_cache(), tables@),
        ensures
            final(self).wf(),
            old(self).only_cached(*final(self), tables@),
            exists|told: lookup::LookupView| #[trigger]
                old(self).tells(
                    tables@,
                    (Wanted { key: key.spec_bytes(), ts, now: now_us }),
                    told,
                ) && opt_record(r) == told.record(),
    {
        self.get_sync(key, ts, now_us, tables)
    }

    /// The rows of the blocks in which the query may find something, newest table
    /// first.
    pub open spec fn query_blocks(self, tables: Seq<Table>, query: Query, now: i64) -> scan::Sources {
        lookup::readable_rows(
            tables,
            block_index::candidates(
                self.tables(),
                self.tables().active,
                query.key_filter@,
                query.time_range,
                now,
            ),
        )
    }

    /// Whether `records` answer the query, over the memtables and the blocks in which
    /// it may find something.
    pub open spec fn is_answer(
        self,
        tables: Seq<Table>,
        query: Query,
        now: i64,
        records: Seq<RecordView>,
    ) -> bool {
        let blocks = self.query_blocks(tables, query, now);
        scan::is_answer(
            scan::scan_lists(self.writer().mem(), blocks, query, now),
            scan::scan_tombstones(self.writer().mem(), blocks, now),
            records,
        )
    }

    /// Whether this is the scan for the query: it has yet to yield the answer.
    pub open spec fn scans(
        self,
        tables: Seq<Table>,
        query: Query,
        now: i64,
        iter: ScanIterator,
    ) -> bool {
        iter.wf() && self.is_answer(tables, query, now, iter.output())
    }

    /// Whether frozen memtables can answer the query: a range of keys without
    /// times must not be upside down.
    pub open spec fn answers(self, query: Query) -> bool {
        query.key_filter@ matches record::KeyFilterView::Range { start, end } ==> query.time_range
            is None && self.writer().mem().frozen().len() > 0 ==> bytes::lex_le(start, end)
    }

    /// A scan for the query.
    fn start_scan(&mut self, query: &Query, now_us: i64, tables: &[Table]) -> (r: ScanIterator)
        requires
            old(self).wf(),
            lookup::coherent(old(self).block_cache(), tables@),
            old(self).answers(*query),
        ensures
            final(self).wf(),
            old(self).only_cached(*final(self), tables@),
            old(self).scans(tables@, *query, now_us, r),
    {
        let full: bool = match (&query.key_filter, query.time_range) {
            (KeyFilter::All, None) => true,
            (KeyFilter::Prefix(p), None) => p.len() == 0,
            _ => false,
        };
        let blocks = candidate_blocks(
            self.manifest.state(),
            &query.key_filter,
            query.time_range,
            now_us,
        );
        let contents = load_blocks(tables, &blocks, full, &mut self.cache);
        ScanIterator::build(query, self.worker.memtables(), &contents, now_us)
    }

    /// Whether `records` are what the query returns, and `after` is the engine
    /// then: it has counted them, and may have cached blocks.
    pub open spec fn returns_records(
        self,
        after: Engine,
        tables: Seq<Table>,
        query: Query,
        now: i64,
        records: Seq<RecordView>,
    ) -> bool {
        &&& after.wf()
        &&& lookup::coherent(after.block_cache(), tables)
        &&& lookup::filled(self.block_cache(), after.block_cache(), tables)
        &&& after.writer() == self.writer()
        &&& after.tables() == self.tables()
        &&& after.next_seq() == self.next_seq()
        &&& after.counters() == (StatsCounters {
            total_records_read: self.counters().total_records_read.wrapping_add(
                records.len() as u64,
            ),
            ..self.counters()
        })
        &&& self.is_answer(tables, query, now, records)
    }

    /// The records that the query asks for.
    pub fn query(&mut self, query: &Query, now_us: i64, tables: &[Table]) -> (r: Vec<Record>)
        requires
            old(self).wf(),
            lookup::coherent(old(self).block_cache(), tables@),
            old(self).answers(*query),
        ensures
            old(self).returns_records(
                *final(self),
                tables@,
                *query,
                now_us,
                record::record_views(r@),
            ),
    {
        let mut iter = self.start_scan(query, now_us, tables);
        let ghost started = iter;
        let records = iter.collect();
        self.stats.records_read(records.len() as u64);
        assert(old(self).scans(tables@, *query, now_us, started));
        records
    }

    /// The records whose key begins with `key`.
    pub fn query_by_prefix(&mut self, key: &str, now_us: i64, tables: &[Table]) -> (r: Vec<Record>)
        requires
            old(self).wf(),
            lookup::coherent(old(self).block_cache(), tables@),
        ensures
            exists|query: Query|
                query.key_filter@ == (record::KeyFilterView::Prefix(key.spec_bytes())) && query.time_range == None::<(i64, i64)>
                    && #[trigger] old(self).returns_records(
                    *final(self),
                    tables@,
                    query,
                    now_us,
                    record::record_views(r@),
                ),
    {
        self.query(&Query::prefix(key), now_us, tables)
    }

    /// The records with a key from `start` to `end`. The range must not be upside
    /// down while frozen memtables wait.
    pub fn query_by_key_range(&mut self, start: &str, end: &str, now_us: i64, tables: &[Table]) -> (r: Vec<Record>)
        requires
            old(self).wf(),
            lookup::coherent(old(self).block_cache(), tables@),
            old(self).writer().mem().frozen().len() > 0 ==> bytes::lex_le(
                start.spec_bytes(),
                end.spec_bytes(),
            ),
        ensures
            exists|query: Query|
                query.key_filter@ == (record::KeyFilterView::Range { start: start.spec_bytes(), end: end.spec_bytes() }) && query.time_range == None::<(i64, i64)>
                    && #[trigger] old(self).returns_records(
                    *final(self),
                    tables@,
                    query,
                    now_us,
                    record::record_views(r@),
                ),
    {
        self.query(&Query::key_range(start, end), now_us, tables)
    }

    /// The records with a time from `start` to `end`.
    pub fn query_time_range(&mut self, start: i64, end: i64, now_us: i64, tables: &[Table]) -> (r: Vec<Record>)
        requires
            old(self).wf(),
            lookup::coherent(old(self).block_cache(), tables@),
        ensures
            exists|query: Query|
                query.key_filter@ == (record::KeyFilterView::All) && query.time_range == Some((start, end))
                    && #[trigger] old(self).returns_records(
                    *final(self),
                    tables@,
                    query,
                    now_us,
                    record::record_views(r@),
                ),
    {
        self.query(&Query::time_range(start, end), now_us, tables)
    }

    /// The records whose key begins with `key` and whose time is from `start` to
    /// `end`.
    pub fn query_prefix_time_range(&mut self, key: &str, start: i64, end: i64, now_us: i64, tables: &[Table]) -> (r: Vec<Record>)
        requires
            old(self).wf(),
            lookup::coherent(old(self).block_cache(), tables@),
        ensures
            exists|query: Query|
                query.key_filter@ == (record::KeyFilterView::Prefix(key.spec_bytes())) && query.time_range == Some((start, end))
                    && #[trigger] old(self).returns_records(
                    *final(self),
                    tables@,
                    query,
                    now_us,
                    record::record_views(r@),
                ),
    {
        self.query(&Query::prefix_time_range(key, start, end), now_us, tables)
    }

    /// The records with a key from `start_key` to `end_key` and a time from
    /// `start` to `end`.
    pub fn query_key_time_range(&mut self, start_key: &str, end_key: &str, start: i64, end: i64, now_us: i64, tables: &[Table]) -> (r: Vec<Record>)
        requires
            old(self).wf(),
            lookup::coherent(old(self).block_cache(), tables@),
        ensures
            exists|query: Query|
                query.key_filter@ == (record::KeyFilterView::Range {
                    start: start_key.spec_bytes(),
                    end: end_key.spec_bytes(),
                }) && query.time_range == Some((start, end))
                    && #[trigger] old(self).returns_records(
                    *final(self),
                    tables@,
                    query,
                    now_us,
                    record::record_views(r@),
                ),
    {
        self.query(&Query::key_time_range(start_key, end_key, start, end), now_us, tables)
    }

    /// A scan of the range, with the default options.
    pub fn scan(&mut self, range: &ScanRange, now_us: i64, tables: &[Table]) -> (r: ScanIterator)
        requires
            old(self).wf(),
            lookup::coherent(old(self).block_cache(), tables@),
            forall|query: Query|
                query.key_filter@ == range.key_filter() && query.time_range == range.times()
                    ==> #[trigger] old(self).answers(query),
        ensures
            final(self).wf(),
            old(self).only_cached(*final(self), tables@),
            exists|query: Query|
                query.key_filter@ == range.key_filter() && query.time_range == range.times()
                    && #[trigger] old(self).scans(tables@, query, now_us, r),
    {
        self.scan_opt(range, &ReadOptions::default(), now_us, tables)
    }

    /// A scan of the range. The options change nothing.
    pub fn scan_opt(
        &mut self,
        range: &ScanRange,
        _opts: &ReadOptions,
        now_us: i64,
        tables: &[Table],
    ) -> (r: ScanIterator)
        requires
            old(self).wf(),
            lookup::coherent(old(self).block_cache(), tables@),
            forall|query: Query|
                query.key_filter@ == range.key_filter() && query.time_range == range.times()
                    ==> #[trigger] old(self).answers(query),
        ensures
            final(self).wf(),
            old(self).only_cached(*final(self), tables@),
            exists|query: Query|
                query.key_filter@ == range.key_filter() && query.time_range == range.times()
                    && #[trigger] old(self).scans(tables@, query, now_us, r),
    {
        let (key_filter, time_range) = range.to_query_params();
        let query = Query { key_filter, time_range };
        assert(self.answers(query));
        let iter = self.start_scan(&query, now_us, tables);
        assert(old(self).scans(tables@, query, now_us, iter));
        iter
    }

    /// A scan of the keys that begin with `prefix`.
    pub fn scan_prefix(&mut self, prefix: &str, now_us: i64, tables: &[Table]) -> (r: ScanIterator)
        requires
            old(self).wf(),
            lookup::coherent(old(self).block_cache(), tables@),
        ensures
            final(self).wf(),
            old(self).only_cached(*final(self), tables@),
            exists|query: Query|
                query.key_filter@ == record::KeyFilterView::Prefix(
                    prefix.spec_bytes(),
                ) && query.time_range
                    is None && #[trigger] old(self).scans(tables@, query, now_us, r),
    {
        let range = ScanRange::prefix(prefix);
        self.scan(&range, now_us, tables)
    }

    /// A scan of the keys that begin with `prefix`, with times from `ts_start` to
    /// `ts_end`.
    pub fn scan_prefix_time_range(
        &mut self,
        prefix: &str,
        ts_start: i64,
        ts_end: i64,
        now_us: i64,
        tables: &[Table],
    ) -> (r: ScanIterator)
        requires
            old(self).wf(),
            lookup::coherent(old(self).block_cache(), tables@),
        ensures
            final(self).wf(),
            old(self).only_cached(*final(self), tables@),
            exists|query: Query|
                query.key_filter@ == record::KeyFilterView::Prefix(
                    prefix.spec_bytes(),
                ) && query.time_range
                    == Some((ts_start, ts_end)) && #[trigger] old(self).scans(
                    tables@,
                    query,
                    now_us,
                    r,
                ),
    {
        let range = ScanRange::prefix_time_range(prefix, ts_start, ts_end);
        self.scan(&range, now_us, tables)
    }

    /// The latest record with the key: the one with the greatest time.
    pub fn get_latest(&mut self, key: &str, now_us: i64, tables: &[Table]) -> (r: Option<Record>)
        requires
            old(self).wf(),
            lookup::coherent(old(self).block_cache(), tables@),
        ensures
            final(self).wf(),
            old(self).only_cached(*final(self), tables@),
            exists|query: Query, iter: ScanIterator|
                query.key_filter@ == record::KeyFilterView::Prefix(key.spec_bytes())
                    && query.time_range is None && #[trigger] old(self).scans(
                    tables@,
                    query,
                    now_us,
                    iter,
                ) && opt_record(r) == latest(iter.output(), key.spec_bytes()),
    {
        let mut iter = self.scan_prefix(key, now_us, tables);
        let ghost started = iter;
        let records = iter.collect();
        let r = latest_of(&records, key.as_bytes());
        proof {
            let query = choose|query: Query|
                query.key_filter@ == record::KeyFilterView::Prefix(key.spec_bytes())
                    && query.time_range is None && #[trigger] old(self).scans(
                    tables@,
                    query,
                    now_us,
                    started,
                );
            assert(old(self).scans(tables@, query, now_us, started));
        }
        r
    }

    /// Makes the change of a record's value, time to live or both ready to be
    /// written. Besides that, the changed record. The default time to live
    /// applies to what is written, as to every batch.
    pub fn patch_record(
        &mut self,
        key: &str,
        ts: i64,
        new_value: Option<Vec<u8>>,
        new_ttl_secs: Option<u64>,
        now_us: i64,
        tables: &[Table],
    ) -> (r: Result<(Record, StagedWrite), FlowError>)
        requires
            old(self).wf(),
            lookup::coherent(old(self).block_cache(), tables@),
            old(self).next_seq() < u64::MAX,
            forall|told: lookup::LookupView| #[trigger]
                old(self).tells(
                    tables@,
                    (Wanted { key: key.spec_bytes(), ts, now: now_us }),
                    told,
                ) ==> (told.record() matches Some(rec) ==> countable(
                    seq![
                        stored(
                            patched(rec, record::opt_view(new_value), new_ttl_secs),
                            old(self).writer().settings().default_ttl_secs,
                            old(self).next_seq(),
                        ),
                    ],
                )),
        ensures
            final(self).wf(),
            lookup::coherent(final(self).block_cache(), tables@),
            final(self).writer() == old(self).writer(),
            final(self).tables() == old(self).tables(),
            final(self).counters() == old(self).counters(),
            final(self).next_seq() == old(self).next_seq() + (if r is Ok {
                1int
            } else {
                0int
            }),
            exists|told: lookup::LookupView| #[trigger]
                old(self).tells(
                    tables@,
                    (Wanted { key: key.spec_bytes(), ts, now: now_us }),
                    told,
                ) && match told.record() {
                    Some(rec) => {
                        &&& r matches Ok((out, staged))
                        &&& out@ == patched(rec, record::opt_view(new_value), new_ttl_secs)
                        &&& staged.is_of(
                            seq![
                                stored(
                                    out@,
                                    old(self).writer().settings().default_ttl_secs,
                                    old(self).next_seq(),
                                ),
                            ],
                            old(self).writer().log(),
                        )
                    },
                    None => r matches Err(FlowError::Other(msg)) && msg@ == "record not found: key="@
                        + key@ + ", ts="@ + text::signed_text(ts as int),
                },
    {
        let existing = self.get_sync(key, ts, now_us, tables);
        let ghost wanted = Wanted { key: key.spec_bytes(), ts, now: now_us };
        let ghost told = choose|told: lookup::LookupView| #[trigger]
            old(self).tells(tables@, wanted, told) && opt_record(existing) == told.record();
        assert(old(self).tells(tables@, wanted, told));
        match apply_patch(existing, key, ts, new_value, new_ttl_secs) {
            Err(e) => Err(e),
            Ok(rec) => {
                let mut batch: Vec<Record> = Vec::new();
                batch.push(rec.clone());
                let ghost row = stored(
                    rec@,
                    self.writer().settings().default_ttl_secs,
                    self.next_seq(),
                );
                assert(batch_rows(
                    batch@,
                    self.writer().settings().default_ttl_secs,
                    self.next_seq(),
                ) =~= seq![row]);
                match self.write_batch(&batch) {
                    Some(staged) => Ok((rec, staged)),
                    None => Err(FlowError::Closed),
                }
            },
        }
    }

    /// Starts a flush: the table to write, if any. It is to be entered with
    /// [`Engine::finish_flush`] once it is written.
    pub fn flush(&mut self, now_us: i64) -> (r: Option<Flush>)
        requires
            old(self).wf(),
            manifest::max_id(old(self).tables().active) < u32::MAX,
            forall|rows: Seq<InternalRecordView>| #[trigger]
                write_worker::flushed_rows(old(self).writer().mem(), now_us, rows)
                    ==> write_worker::writable(
                    rows,
                    old(self).writer().settings().block_size,
                    old(self).writer().settings().bloom_bits_per_key,
                ),
        ensures
            final(self).wf(),
            final(self).tables() == old(self).tables(),
            final(self).block_cache() == old(self).block_cache(),
            final(self).next_seq() == old(self).next_seq(),
            (final(self).counters() == StatsCounters {
                frozen_memtable_count: final(self).writer().mem().frozen().len() as usize,
                ..old(self).counters()
            }),
            old(self).writer().flushes(
                (manifest::max_id(old(self).tables().active) + 1) as u32,
                now_us,
                final(self).writer(),
                r,
            ),
    {
        let sst_id: u32 = self.manifest.next_sst_id();
        let flush = self.worker.do_flush(sst_id, now_us);
        self.stats.set_frozen_count(self.worker.memtables().frozen_count());
        flush
    }

    /// Enters a table that was written: what the manifest's file is to list, and
    /// what is done to the log.
    pub fn finish_flush(&mut self, flush: &Flush, now_secs: i64) -> (r: FlushEffect)
        requires
            old(self).wf(),
            old(self).writer().log().next_id() < u64::MAX,
            ({
                let after = old(self).tables().applied(flush.entry());
                gc::bytes_of(after, after.active) <= u64::MAX
            }),
        ensures
            final(self).wf(),
            final(self).writer().settings() == old(self).writer().settings(),
            final(self).writer().mem() == old(self).writer().mem(),
            old(self).writer().log().drops(flush.last_seq, final(self).writer().log(), r.wal),
            r.entries@.len() == 2,
            r.entries@[0]@ == flush.entry(),
            (r.entries@[1]@ == manifest::EntryView::Checkpoint {
                last_flushed_seq: flush.last_seq,
            }),
            final(self).tables() == old(self).tables().applied(flush.entry()),
            final(self).block_cache() == old(self).block_cache(),
            final(self).next_seq() == old(self).next_seq(),
            (final(self).counters() == StatsCounters {
                total_flushes: old(self).counters().total_flushes.wrapping_add(1),
                last_flush_at: now_secs,
                memtable_records: old(self).writer().mem().active().rows().len() as usize,
                memtable_bytes: old(self).writer().mem().active().charged() as usize,
                frozen_memtable_count: old(self).writer().mem().frozen().len() as usize,
                sstable_count: final(self).tables().active.len() as usize,
                sstable_bytes: gc::bytes_of(
                    final(self).tables(),
                    final(self).tables().active,
                ) as u64,
                block_meta_index_entries: block_index::block_total(
                    final(self).tables(),
                    final(self).tables().active,
                ),
                time_index_buckets: 0,
                ..old(self).counters()
            }),
    {
        let effect = self.worker.finish_flush(
            &mut self.manifest,
            flush,
            &mut self.stats,
            now_secs,
        );
        let (count, bytes) = table_totals(self.manifest.state());
        self.stats.set_sstable(count, bytes);
        self.stats.set_index_stats(count_blocks(self.manifest.state()), 0);
        effect
    }

    /// Takes an expired table out of the manifest and the cache.
    fn remove_table(&mut self, sst_id: u32)
        requires
            old(self).wf(),
        ensures
            final(self).wf(),
            final(self).writer() == old(self).writer(),
            final(self).tables() == old(self).tables().removed(sst_id),
            forall|key: CacheKey| #[trigger]
                final(self).block_cache().cached(key) == (if key.sst_id == sst_id {
                    None
                } else {
                    old(self).block_cache().cached(key)
                }),
            final(self).counters() == old(self).counters(),
            final(self).next_seq() == old(self).next_seq(),
    {
        let ghost before = self.cache;
        remove_table(&mut self.manifest, &mut self.cache, sst_id);
        proof {
            assert forall|key: CacheKey| #[trigger]
                self.block_cache().cached(key) == (if key.sst_id == sst_id {
                    None
                } else {
                    before.cached(key)
                }) by {
                assert(0 <= key.shard_index() < NUM_SHARDS);
                cache::law_evicted(before.shards()[key.shard_index()], sst_id, key.pair());
            }
        }
    }

    /// Collects garbage: takes the tables all of whose records have expired out of
    /// the manifest and the cache, and counts that. Their files are to be deleted.
    pub fn trigger_gc(&mut self, now_us: i64, now_secs: i64) -> (r: GcPlan)
        requires
            old(self).wf(),
            gc::records_of(old(self).tables(), gc::expired(old(self).tables(), now_us)) <= u64::MAX,
            ({
                let after = old(self).tables().all_removed(gc::expired(old(self).tables(), now_us));
                gc::bytes_of(after, after.active) <= u64::MAX
            }),
        ensures
            final(self).wf(),
            final(self).writer() == old(self).writer(),
            final(self).next_seq() == old(self).next_seq(),
            r.to_delete@ == gc::expired(old(self).tables(), now_us),
            r.purged == gc::records_of(old(self).tables(), r.to_delete@),
            final(self).tables() == old(self).tables().all_removed(r.to_delete@),
            forall|key: CacheKey| #[trigger]
                final(self).block_cache().cached(key) == (if r.to_delete@.contains(key.sst_id) {
                    None
                } else {
                    old(self).block_cache().cached(key)
                }),
            (final(self).counters() == StatsCounters {
                total_gc_runs: old(self).counters().total_gc_runs.wrapping_add(1),
                records_purged_by_gc: old(self).counters().records_purged_by_gc.wrapping_add(
                    r.purged,
                ),
                last_gc_at: now_secs,
                sstable_count: final(self).tables().active.len() as usize,
                sstable_bytes: gc::bytes_of(
                    final(self).tables(),
                    final(self).tables().active,
                ) as u64,
                block_meta_index_entries: block_index::block_total(
                    final(self).tables(),
                    final(self).tables().active,
                ),
                time_index_buckets: 0,
                ..old(self).counters()
            }),
    {
        let found = plan(self.manifest.state(), now_us);
        let ghost before = *self;
        let ids = &found.to_delete;
        let mut i: usize = 0;
        assert(ids@.take(0) =~= Seq::<u32>::empty());
        while i < ids.len()
            invariant
                i <= ids@.len(),
                self.wf(),
                self.writer() == before.writer(),
                self.next_seq() == before.next_seq(),
                self.counters() == before.counters(),
                self.tables() == before.tables().all_removed(ids@.take(i as int)),
                forall|key: CacheKey| #[trigger]
                    self.block_cache().cached(key) == (if ids@.take(i as int).contains(key.sst_id) {
                        None
                    } else {
                        before.block_cache().cached(key)
                    }),
            decreases ids@.len() - i,
        {
            let ghost done = ids@.take(i as int);
            let id: u32 = ids[i];
            self.remove_table(id);
            proof {
                let more = ids@.take(i + 1);
                assert(more.drop_last() =~= done);
                assert(more =~= done.push(id));
                assert forall|x: u32| #[trigger] more.contains(x) <==> done.contains(x) || x == id by {
                    if done.contains(x) {
                        let k = choose|k: int| 0 <= k < done.len() && done[k] == x;
                        assert(more[k] == x);
                    }
                    assert(more[i as int] == id);
                }
            }
            i += 1;
        }
        assert(ids@.take(i as int) =~= ids@);
        self.stats.gc_done(found.purged, now_secs);
        let (count, bytes) = table_totals(self.manifest.state());
        self.stats.set_sstable(count, bytes);
        self.stats.set_index_stats(count_blocks(self.manifest.state()), 0);
        found
    }

    /// The counters.
    pub fn stats(&self) -> (r: StatsCounters)
        ensures
            r == self.counters(),
    {
        self.stats
    }

    /// How often a block was found in the cache, and how often not.
    pub fn cache_counts(&self) -> (r: (u64, u64))
        ensures
            r.0 == self.block_cache().hits(),
            r.1 == self.block_cache().misses(),
    {
        self.cache.hit_counts()
    }

    /// The ids of the tables that there are.
    pub fn active_tables(&self) -> (r: Vec<u32>)
        ensures
            r@ == self.tables().active,
    {
        copy_ids(&self.manifest.state().active_sst_ids)
    }

    /// The configuration.
    pub fn config(&self) -> (r: &Config)
        ensures
            *r == self.writer().settings(),
    {
        self.worker.config()
    }
}

fn has_stale_filter(state: &ManifestState, id: u32) -> (r: bool)
    requires
        state@.sstables.contains_key(id),
    ensures
        r == is_stale(state@.sstables[id].bloom),
{
    match state.sstables.get(&id) {
        Some(info) => {
            assert(state@.sstables[id] == info@);
            match &info.bloom {
                Some(bloom) => bloom.hash_version() != CURRENT_HASH_VERSION,
                None => false,
            }
        },
        None => false,
    }
}

fn copy_ids(ids: &Vec<u32>) -> (r: Vec<u32>)
    ensures
        r@ == ids@,
{
    let mut out: Vec<u32> = Vec::new();
    let mut i: usize = 0;
    while i < ids.len()
        invariant
            i <= ids@.len(),
            out@ == ids@.take(i as int),
        decreases ids@.len() - i,
    {
        out.push(ids[i]);
        assert(out@ =~= ids@.take(i + 1));
        i += 1;
    }
    assert(ids@.take(i as int) =~= ids@);
    out
}

/// What a segment was found to hold has no greater number than the log.
proof fn lemma_content_below(found: Seq<(u64, Vec<u8>)>, id: u64)
    ensures
        wal::max_seq(segment_content(found, id)) matches Some(top) ==> top <= wal::found_max_seq(
            found,
        ),
    decreases found.len(),
{
    if found.len() == 0 {
        assert(wal::replayed(Seq::<u8>::empty()) =~= Seq::<InternalRecordView>::empty());
    } else if found[0].0 == id {
        lemma_found_below(found, 0);
    } else {
        let rest = found.drop_first();
        lemma_content_below(rest, id);
        lemma_front_below(found);
    }
}

/// No segment has a greater number than the log.
proof fn lemma_found_below(found: Seq<(u64, Vec<u8>)>, k: int)
    requires
        0 <= k < found.len(),
    ensures
        wal::max_seq(found[k].1@) matches Some(top) ==> top <= wal::found_max_seq(found),
    decreases found.len(),
{
    if k < found.len() - 1 {
        lemma_found_below(found.drop_last(), k);
    }
}

/// Fewer segments have no greater number.
proof fn lemma_front_below(found: Seq<(u64, Vec<u8>)>)
    requires
        found.len() > 0,
    ensures
        wal::found_max_seq(found.drop_first()) <= wal::found_max_seq(found),
    decreases found.len(),
{
    if found.len() > 1 {
        lemma_front_below(found.drop_last());
        assert(found.drop_first().drop_last() =~= found.drop_last().drop_first());
        assert(found.drop_first().last() == found.last());
    } else {
        assert(found.drop_first() =~= Seq::<(u64, Vec<u8>)>::empty());
    }
}

/// What is replayed has no greater number than the log.
proof fn lemma_replayed_below(
    found: Seq<(u64, Vec<u8>)>,
    after: u64,
    rows: Seq<InternalRecordView>,
)
    requires
        sort::stably_sorted(
            SortOrder::Sequence,
            wal::replay_rows(log_contents(found, wal::found_segments(found)), after),
            rows,
        ),
    ensures
        forall|i: int|
            0 <= i < rows.len() ==> (#[trigger] rows[i]).seq <= wal::found_max_seq(found),
{
    let contents = log_contents(found, wal::found_segments(found));
    let all = wal::replay_rows(contents, after);
    assert forall|j: int| 0 <= j < contents.len() implies (wal::max_seq(#[trigger] contents[j])
        matches Some(top) ==> top <= wal::found_max_seq(found)) by {
        lemma_content_below(found, wal::found_segments(found)[j].id);
    }
    wal::lemma_replay_below(contents, after, wal::found_max_seq(found));
    assert forall|i: int| 0 <= i < rows.len() implies (#[trigger] rows[i]).seq
        <= wal::found_max_seq(found) by {
        assert(rows.contains(rows[i]));
        sort::law_sort_keeps_rows(SortOrder::Sequence, all, rows, rows[i]);
        let k = choose|k: int| 0 <= k < all.len() && all[k] == rows[i];
        assert(all[k].seq <= wal::found_max_seq(found));
    }
}

/// Without segments nothing is replayed.
proof fn lemma_nothing_replayed(
    found: Seq<(u64, Vec<u8>)>,
    segments: Seq<WalSegment>,
    after: u64,
)
    requires
        found.len() == 0,
    ensures
        wal::replay_rows(log_contents(found, segments), after) == Seq::<InternalRecordView>::empty(),
    decreases segments.len(),
{
    reveal(Seq::filter);
    if segments.len() > 0 {
        lemma_nothing_replayed(found, segments.drop_last(), after);
        assert(log_contents(found, segments).drop_last() =~= log_contents(
            found,
            segments.drop_last(),
        ));
        assert(wal::replayed(Seq::<u8>::empty()) =~= Seq::<InternalRecordView>::empty());
        assert(log_contents(found, segments).last() == Seq::<u8>::empty());
        assert(wal::replay_rows(log_contents(found, segments), after) =~= Seq::<
            InternalRecordView,
        >::empty());
    }
}

/// The hashes of the rows' keys.
pub open spec fn key_hashes(rows: Seq<InternalRecordView>, f: spec_fn(Seq<u8>) -> u64) -> Seq<u64> {
    rows.map_values(|r: InternalRecordView| f(r.key))
}

/// A memtable that is indexed by a hash function stays so when it takes a batch
/// under the hashes of its keys.
pub proof fn law_batch_keeps_index(
    before: MemTable,
    after: MemTable,
    rows: Seq<InternalRecordView>,
    f: spec_fn(Seq<u8>) -> u64,
)
    requires
        before.indexed_by(f),
        !before.is_frozen(),
        !after.is_frozen(),
        before.rows().len() + rows.len() <= usize::MAX,
        after.rows() == before.rows() + rows,
        after.index() == write_worker::index_after(
            before.index(),
            before.rows().len(),
            rows,
            key_hashes(rows, f),
        ),
    ensures
        after.indexed_by(f),
{
    lemma_index_after(before, rows, f);
    let start = before.rows().len();
    let all = before.rows() + rows;
    let index = after.index();
    assert(after.rows() == all);
    assert(index_fits(index, all, f));
}

/// The index leads to rows with the hash and the time, and to the last such row.
spec fn index_fits(
    index: Map<(u64, i64), usize>,
    rows: Seq<InternalRecordView>,
    f: spec_fn(Seq<u8>) -> u64,
) -> bool {
    &&& forall|h: u64, ts: i64| #[trigger]
        index.contains_key((h, ts)) ==> {
            let pos = index[(h, ts)] as int;
            pos < rows.len() && f(rows[pos].key) == h && rows[pos].ts == ts
        }
    &&& forall|i: int|
        #![trigger rows[i]]
        0 <= i < rows.len() ==> {
            let at = (f(rows[i].key), rows[i].ts);
            index.contains_key(at) && index[at] >= i
        }
}

proof fn lemma_index_after(
    before: MemTable,
    rows: Seq<InternalRecordView>,
    f: spec_fn(Seq<u8>) -> u64,
)
    requires
        before.indexed_by(f),
        !before.is_frozen(),
        before.rows().len() + rows.len() <= usize::MAX,
    ensures
        index_fits(
            write_worker::index_after(
                before.index(),
                before.rows().len(),
                rows,
                key_hashes(rows, f),
            ),
            before.rows() + rows,
            f,
        ),
    decreases rows.len(),
{
    let start = before.rows().len();
    if rows.len() == 0 {
        assert(before.rows() + rows =~= before.rows());
    } else {
        let front = rows.drop_last();
        lemma_index_after(before, front, f);
        assert(key_hashes(rows, f).drop_last() =~= key_hashes(front, f));
        let small = write_worker::index_after(before.index(), start, front, key_hashes(front, f));
        let row = rows.last();
        let pos = (start + rows.len() - 1) as usize;
        let index = small.insert((f(row.key), row.ts), pos);
        let some = before.rows() + front;
        let all = before.rows() + rows;
        assert(all =~= some.push(row));
        assert forall|h: u64, ts: i64| #[trigger] index.contains_key((h, ts)) implies ({
            let p = index[(h, ts)] as int;
            p < all.len() && f(all[p].key) == h && all[p].ts == ts
        }) by {
            if (h, ts) != (f(row.key), row.ts) {
                assert(small.contains_key((h, ts)));
            }
        }
        assert forall|i: int| #![trigger all[i]] 0 <= i < all.len() implies ({
            let at = (f(all[i].key), all[i].ts);
            index.contains_key(at) && index[at] >= i
        }) by {
            if i < some.len() {
                assert(all[i] == some[i]);
            }
        }
    }
}

/// A read sees the last write: after a batch, a lookup in the active memtable of
/// a key and time under the key's hash finds the last row of the batch with them.
pub proof fn law_write_read(
    before: MemTable,
    after: MemTable,
    rows: Seq<InternalRecordView>,
    f: spec_fn(Seq<u8>) -> u64,
    i: int,
)
    requires
        before.indexed_by(f),
        !before.is_frozen(),
        !after.is_frozen(),
        before.rows().len() + rows.len() <= usize::MAX,
        after.rows() == before.rows() + rows,
        after.index() == write_worker::index_after(
            before.index(),
            before.rows().len(),
            rows,
            key_hashes(rows, f),
        ),
        0 <= i < rows.len(),
        forall|k: int|
            i < k < rows.len() ==> !versions::at_place(#[trigger] rows[k], rows[i].key, rows[i].ts),
    ensures
        after.lookup(f(rows[i].key), rows[i].key, rows[i].ts) == Some(rows[i]),
{
    let key = rows[i].key;
    let ts = rows[i].ts;
    law_batch_keeps_index(before, after, rows, f);
    memtable::law_lookup_newest(after, f, key, ts);
    lemma_newest_of_batch(before.rows(), rows, i);
}

proof fn lemma_newest_of_batch(
    old_rows: Seq<InternalRecordView>,
    rows: Seq<InternalRecordView>,
    i: int,
)
    requires
        0 <= i < rows.len(),
        forall|k: int|
            i < k < rows.len() ==> !versions::at_place(#[trigger] rows[k], rows[i].key, rows[i].ts),
    ensures
        memtable::newest(old_rows + rows, rows[i].key, rows[i].ts) == Some(rows[i]),
    decreases rows.len(),
{
    let all = old_rows + rows;
    assert(all.drop_last() =~= old_rows + rows.drop_last());
    assert(all.last() == rows.last());
    if i < rows.len() - 1 {
        assert(!versions::at_place(rows[rows.len() - 1], rows[i].key, rows[i].ts));
        assert forall|k: int| i < k < rows.drop_last().len() implies !versions::at_place(
            #[trigger] rows.drop_last()[k],
            rows[i].key,
            rows[i].ts,
        ) by {
            assert(!versions::at_place(rows[k], rows[i].key, rows[i].ts));
        }
        lemma_newest_of_batch(old_rows, rows.drop_last(), i);
    }
}

/// What was written is recovered: from segments that hold batches of rows, in the
/// order of their sequence numbers, exactly the rows above the flushed sequence
/// number come back, in that order.
pub proof fn law_recovery(
    parts: Seq<Seq<InternalRecordView>>,
    flushed: u64,
    recovered: Seq<InternalRecordView>,
)
    requires
        forall|p: int, i: int|
            0 <= p < parts.len() && 0 <= i < parts[p].len() ==> wal::encodable(
                #[trigger] parts[p][i],
            ),
        forall|i: int, j: int|
            0 <= i < j < rows_above(parts, flushed).len() ==> (#[trigger] rows_above(
                parts,
                flushed,
            )[i]).seq <= (#[trigger] rows_above(parts, flushed)[j]).seq,
        sort::stably_sorted(
            SortOrder::Sequence,
            wal::replay_rows(parts.map_values(|p: Seq<InternalRecordView>| wal::framed_all(p)), flushed),
            recovered,
        ),
    ensures
        recovered == rows_above(parts, flushed),
{
    let rows = rows_above(parts, flushed);
    lemma_replayed(parts, flushed);
    sort::lemma_sorted_stays(SortOrder::Sequence, rows);
    sort::law_sort_unique(SortOrder::Sequence, rows, rows, recovered);
}

/// The rows of the parts with a sequence number above `after`, part by part.
pub open spec fn rows_above(parts: Seq<Seq<InternalRecordView>>, after: u64) -> Seq<
    InternalRecordView,
>
    decreases parts.len(),
{
    if parts.len() == 0 {
        Seq::empty()
    } else {
        rows_above(parts.drop_last(), after) + parts.last().filter(
            |r: InternalRecordView| r.seq > after,
        )
    }
}

proof fn lemma_replayed(parts: Seq<Seq<InternalRecordView>>, after: u64)
    requires
        forall|p: int, i: int|
            0 <= p < parts.len() && 0 <= i < parts[p].len() ==> wal::encodable(
                #[trigger] parts[p][i],
            ),
    ensures
        wal::replay_rows(
            parts.map_values(|p: Seq<InternalRecordView>| wal::framed_all(p)),
            after,
        ) == rows_above(parts, after),
    decreases parts.len(),
{
    let encode = |p: Seq<InternalRecordView>| wal::framed_all(p);
    if parts.len() > 0 {
        let front = parts.drop_last();
        assert forall|p: int, i: int| 0 <= p < front.len() && 0 <= i < front[p].len() implies wal::encodable(
            #[trigger] front[p][i],
        ) by {
            assert(wal::encodable(parts[p][i]));
        }
        lemma_replayed(front, after);
        assert(parts.map_values(encode).drop_last() =~= front.map_values(encode));
        let last = parts.last();
        assert forall|i: int| 0 <= i < last.len() implies wal::encodable(#[trigger] last[i]) by {
            assert(wal::encodable(parts[parts.len() - 1][i]));
        }
        wal::law_batch_read_back(last);
    }
}

/// What is flushed can be read: the table that a flush writes has as many blocks as
/// the manifest lists, each gives its part of the rows, but for their sequence
/// numbers, and the parts together are the rows.
pub proof fn law_flush_read_back(
    flush: Flush,
    rows: Seq<InternalRecordView>,
    sst_id: u32,
    block_size: usize,
    bits_per_key: usize,
    reader: SstReader,
    idx: u32,
)
    requires
        flush.is_of(rows, sst_id, block_size, bits_per_key),
        rows.len() <= u32::MAX,
        forall|i: int| 0 <= i < rows.len() ==> sstable::encodable_row(#[trigger] rows[i]),
        sstable::lengths_told(
            sstable::chunks(rows, sstable::at_least_one(block_size)),
            flush.file.bytes@,
            false,
        ),
        sstable::offsets_from(flush.file.bytes@, 0) == Some(reader.offsets()),
    ensures
        ({
            let parts = sstable::chunks(rows, sstable::at_least_one(block_size));
            &&& reader.offsets().len() == parts.len() == flush.file.blocks@.len()
            &&& sstable::joined(parts) == rows
            &&& idx < parts.len() ==> (reader.block(flush.file.bytes@, idx) matches Ok((_, out))
                && out == sstable::unnumbered_rows(parts[idx as int]))
        }),
{
    sstable::law_table_read_back(flush.file, rows, block_size, bits_per_key, false, reader, idx);
}

/// The memtables with one more row in the active one.
pub open spec fn takes_row(before: MemTables, row: InternalRecordView, after: MemTables) -> bool {
    after.active().rows() == before.active().rows().push(row) && after.frozen() == before.frozen()
}

/// A filter goes through a list part by part.
pub proof fn lemma_filter_append(
    a: Seq<InternalRecordView>,
    b: Seq<InternalRecordView>,
    keep: spec_fn(InternalRecordView) -> bool,
)
    ensures
        (a + b).filter(keep) == a.filter(keep) + b.filter(keep),
    decreases b.len(),
{
    reveal(Seq::filter);
    if b.len() == 0 {
        assert(a + b =~= a);
        assert(a.filter(keep) + b.filter(keep) =~= a.filter(keep));
    } else {
        lemma_filter_append(a, b.drop_last(), keep);
        assert((a + b).drop_last() =~= a + b.drop_last());
        assert((a + b).filter(keep) =~= a.filter(keep) + b.filter(keep));
    }
}

/// Range tombstones go through a list part by part.
proof fn lemma_tombstones_append(a: Seq<InternalRecordView>, b: Seq<InternalRecordView>)
    ensures
        scan::row_tombstones(a + b) == scan::row_tombstones(a) + scan::row_tombstones(b),
    decreases b.len(),
{
    if b.len() == 0 {
        assert(a + b =~= a);
        assert(scan::row_tombstones(a) + scan::row_tombstones(b) =~= scan::row_tombstones(a));
    } else {
        lemma_tombstones_append(a, b.drop_last());
        assert((a + b).drop_last() =~= a + b.drop_last());
        assert(scan::row_tombstones(a + b) =~= scan::row_tombstones(a) + scan::row_tombstones(b));
    }
}

/// A key is covered by two lists of range tombstones where one of them covers it.
pub proof fn lemma_covered_append(a: Seq<scan::Tombstone>, b: Seq<scan::Tombstone>, key: Seq<u8>)
    ensures
        scan::covered(a + b, key) <==> scan::covered(a, key) || scan::covered(b, key),
{
    if scan::covered(a, key) {
        let i = choose|i: int|
            0 <= i < a.len() && bytes::lex_le((#[trigger] a[i]).0, key) && bytes::lex_lt(key, a[i].1);
        assert((a + b)[i] == a[i]);
    }
    if scan::covered(b, key) {
        let i = choose|i: int|
            0 <= i < b.len() && bytes::lex_le((#[trigger] b[i]).0, key) && bytes::lex_lt(key, b[i].1);
        assert((a + b)[a.len() + i] == b[i]);
    }
    if scan::covered(a + b, key) {
        let i = choose|i: int|
            0 <= i < (a + b).len() && bytes::lex_le((#[trigger] (a + b)[i]).0, key)
                && bytes::lex_lt(key, (a + b)[i].1);
        if i < a.len() {
            assert((a + b)[i] == a[i]);
        } else {
            assert((a + b)[i] == b[i - a.len()]);
        }
    }
}

/// What a query selects of the memtables with one row more.
proof fn lemma_row_selected(
    before: MemTables,
    row: InternalRecordView,
    after: MemTables,
    query: memtable::MemQuery,
)
    requires
        takes_row(before, row, after),
    ensures
        ({
            let old_rows = memtable::selection(query, before.active().rows());
            let rest = memtable::tables_selection(before.frozen(), query);
            &&& before.selected(query) == old_rows + rest
            &&& after.selected(query) == (if memtable::selects(query, row) {
                old_rows.push(row) + rest
            } else {
                old_rows + rest
            })
        }),
{
    reveal(Seq::filter);
    let rows = before.active().rows();
    assert(rows.push(row).drop_last() =~= rows);
}

/// A deleted range is gone from every query: after a range of keys was deleted, and
/// nothing else was written, a query returns what it returned before, in the same
/// order, but for exactly the records whose key lies from `start` up to `end`.
pub proof fn law_delete_range_query(
    before: Engine,
    after: Engine,
    tables: Seq<Table>,
    query: Query,
    now: i64,
    range: (Seq<u8>, Seq<u8>, u64),
    records_before: Seq<RecordView>,
    records_after: Seq<RecordView>,
)
    requires
        after.tables() == before.tables(),
        takes_row(
            before.writer().mem(),
            delete_range_row(range.0, range.1, range.2),
            after.writer().mem(),
        ),
        before.is_answer(tables, query, now, records_before),
        after.is_answer(tables, query, now, records_after),
    ensures
        records_after == records_before.filter(
            |r: RecordView| !(bytes::lex_le(range.0, r.key) && bytes::lex_lt(r.key, range.1)),
        ),
{
    let row = delete_range_row(range.0, range.1, range.2);
    let m1 = before.writer().mem();
    let m2 = after.writer().mem();
    let blocks = before.query_blocks(tables, query, now);
    let q = scan::mem_query(query, now);
    let all = scan::all_rows(now);
    let l1 = scan::scan_lists(m1, blocks, query, now);
    let l2 = scan::scan_lists(m2, blocks, query, now);
    let t1 = scan::scan_tombstones(m1, blocks, now);
    let t2 = scan::scan_tombstones(m2, blocks, now);
    assert(versions::point_rows(m2.selected(q)) == versions::point_rows(m1.selected(q))) by {
        lemma_row_selected(m1, row, m2, q);
        let a = memtable::selection(q, m1.active().rows());
        let b = memtable::tables_selection(m1.frozen(), q);
        let keep = |r: InternalRecordView| r.op != Op::DeleteRange;
        lemma_filter_append(a, b, keep);
        lemma_filter_append(a.push(row), b, keep);
        assert(a.push(row).filter(keep) == a.filter(keep)) by {
            reveal(Seq::filter);
            assert(a.push(row).drop_last() =~= a);
        }
    }
    assert(l2 =~= l1);
    let a = memtable::selection(all, m1.active().rows());
    let b = memtable::tables_selection(m1.frozen(), all);
    let ta = scan::row_tombstones(a);
    let tb = scan::row_tombstones(b);
    let tc = scan::block_tombstones(blocks, now);
    lemma_row_selected(m1, row, m2, all);
    lemma_tombstones_append(a, b);
    lemma_tombstones_append(a.push(row), b);
    assert(memtable::selects(all, row));
    assert(a.push(row).drop_last() =~= a);
    let more = ta.push((range.0, range.1));
    assert(scan::row_tombstones(a.push(row)) == more);
    assert forall|key: Seq<u8>| #[trigger]
        scan::covered(t2, key) <==> scan::covered(t1, key) || (bytes::lex_le(range.0, key)
            && bytes::lex_lt(key, range.1)) by {
        let one = seq![(range.0, range.1)];
        assert(more =~= ta + one);
        lemma_covered_append(ta, one, key);
        lemma_covered_append(ta, tb, key);
        lemma_covered_append(more, tb, key);
        lemma_covered_append(ta + tb, tc, key);
        lemma_covered_append(more + tb, tc, key);
        assert(scan::covered(one, key) <==> bytes::lex_le(range.0, key) && bytes::lex_lt(
            key,
            range.1,
        )) by {
            assert(one[0] == (range.0, range.1));
        }
    }
    scan::law_range_deletion(l1, t1, t2, range.0, range.1, records_before, records_after);
}

/// A row of the memtables that has not expired, and than which none there with its key
/// and time is newer.
pub open spec fn newest_in_memory(mem: MemTables, now: i64, row: InternalRecordView) -> bool {
    let rows = mem.selected(scan::all_rows(now));
    &&& row.op != Op::DeleteRange
    &&& rows.contains(row)
    &&& forall|k: int|
        0 <= k < rows.len() && versions::same_place(#[trigger] rows[k], row) ==> rows[k] == row
            || rows[k].seq < row.seq
}

/// The newest row of the memtables decides on its key and time, where the query asks
/// for them.
proof fn lemma_newest_decides(
    mem: MemTables,
    blocks: scan::Sources,
    query: Query,
    now: i64,
    row: InternalRecordView,
)
    requires
        newest_in_memory(mem, now, row),
        memtable::admits_key(query.key_filter@, row.key),
        memtable::admits_ts(query.time_range, row.ts),
    ensures
        scan::deciding(scan::scan_lists(mem, blocks, query, now), row.key, row.ts) == Some(row),
{
    let q = scan::mem_query(query, now);
    let lists = scan::scan_lists(mem, blocks, query, now);
    let mine = versions::point_rows(mem.selected(q));
    let everything = mem.selected(scan::all_rows(now));
    let point = |r: InternalRecordView| r.op != Op::DeleteRange;
    assert(lists[0] == mine);
    memtable::lemma_selected_asked(mem, scan::all_rows(now), row);
    lemma_selected_part(mem, q, row);
    write_worker::lemma_filtered(mem.selected(q), point, row);
    let y = versions::lemma_current_found(mine, row.key, row.ts);
    let z = choose|z: int| 0 <= z < mine.len() && mine[z] == row;
    assert(versions::at_place(mine[z], row.key, row.ts));
    let top = mine[y];
    assert(top == row) by {
        assert(mine.contains(top));
        write_worker::lemma_filtered(mem.selected(q), point, top);
        lemma_selected_part(mem, q, top);
        let k = choose|k: int| 0 <= k < everything.len() && everything[k] == top;
        assert(versions::same_place(everything[k], row));
    }
    scan::lemma_deciding_at(lists, 0, row.key, row.ts);
}

/// A deleted record is not returned: where the newest row of a key and time in the
/// memtables is a deletion, no query returns a record with them.
pub proof fn law_deleted_not_returned(
    engine: Engine,
    tables: Seq<Table>,
    query: Query,
    now: i64,
    records: Seq<RecordView>,
    row: InternalRecordView,
    i: int,
)
    requires
        engine.is_answer(tables, query, now, records),
        newest_in_memory(engine.writer().mem(), now, row),
        row.op == Op::Delete,
        0 <= i < records.len(),
    ensures
        !(records[i].key == row.key && records[i].ts == row.ts),
{
    let mem = engine.writer().mem();
    let blocks = engine.query_blocks(tables, query, now);
    let lists = scan::scan_lists(mem, blocks, query, now);
    let tombstones = scan::scan_tombstones(mem, blocks, now);
    if records[i].key == row.key && records[i].ts == row.ts {
        assert(scan::shown(lists, tombstones, records[i].key, records[i].ts));
        scan::lemma_deciding_admitted(mem, blocks, query, now, row.key, row.ts);
        lemma_newest_decides(mem, blocks, query, now, row);
    }
}

/// A written record is returned: where the newest row of a key and time in the
/// memtables is a put, a query that asks for them returns its record, unless a deleted
/// range covers the key.
pub proof fn law_written_returned(
    engine: Engine,
    tables: Seq<Table>,
    query: Query,
    now: i64,
    records: Seq<RecordView>,
    row: InternalRecordView,
)
    requires
        engine.is_answer(tables, query, now, records),
        newest_in_memory(engine.writer().mem(), now, row),
        row.op == Op::Put,
        memtable::admits_key(query.key_filter@, row.key),
        memtable::admits_ts(query.time_range, row.ts),
        !scan::covered(
            scan::scan_tombstones(
                engine.writer().mem(),
                engine.query_blocks(tables, query, now),
                now,
            ),
            row.key,
        ),
    ensures
        records.contains(row.record()),
{
    let mem = engine.writer().mem();
    let blocks = engine.query_blocks(tables, query, now);
    let lists = scan::scan_lists(mem, blocks, query, now);
    let tombstones = scan::scan_tombstones(mem, blocks, now);
    lemma_newest_decides(mem, blocks, query, now, row);
    assert(scan::shown(lists, tombstones, row.key, row.ts));
}

/// What a query selects of the memtables: the rows that have not expired and that it
/// asks for.
proof fn lemma_selected_part(mem: MemTables, query: memtable::MemQuery, row: InternalRecordView)
    ensures
        mem.selected(query).contains(row) <==> mem.selected(scan::all_rows(query.now)).contains(row)
            && memtable::selects(query, row),
{
    let all = scan::all_rows(query.now);
    lemma_tables_part(mem.frozen(), query, row);
    let a = memtable::selection(query, mem.active().rows());
    let b = memtable::tables_selection(mem.frozen(), query);
    let c = memtable::selection(all, mem.active().rows());
    let d = memtable::tables_selection(mem.frozen(), all);
    write_worker::lemma_filtered(
        mem.active().rows(),
        |r: InternalRecordView| memtable::selects(query, r),
        row,
    );
    write_worker::lemma_filtered(
        mem.active().rows(),
        |r: InternalRecordView| memtable::selects(all, r),
        row,
    );
    lemma_contains_append(a, b, row);
    lemma_contains_append(c, d, row);
}

/// What two lists hold together.
pub proof fn lemma_contains_append(
    a: Seq<InternalRecordView>,
    b: Seq<InternalRecordView>,
    row: InternalRecordView,
)
    ensures
        (a + b).contains(row) <==> a.contains(row) || b.contains(row),
{
    if a.contains(row) {
        let i = choose|i: int| 0 <= i < a.len() && a[i] == row;
        assert((a + b)[i] == row);
    }
    if b.contains(row) {
        let i = choose|i: int| 0 <= i < b.len() && b[i] == row;
        assert((a + b)[a.len() + i] == row);
    }
    if (a + b).contains(row) {
        let i = choose|i: int| 0 <= i < (a + b).len() && (a + b)[i] == row;
        if i < a.len() {
            assert(a[i] == row);
        } else {
            assert(b[i - a.len()] == row);
        }
    }
}

proof fn lemma_tables_part(
    tables: Seq<MemTable>,
    query: memtable::MemQuery,
    row: InternalRecordView,
)
    ensures
        memtable::tables_selection(tables, query).contains(row) <==> memtable::tables_selection(
            tables,
            scan::all_rows(query.now),
        ).contains(row) && memtable::selects(query, row),
    decreases tables.len(),
{
    let all = scan::all_rows(query.now);
    if tables.len() > 0 {
        let front = tables.drop_last();
        let rows = tables.last().rows();
        lemma_tables_part(front, query, row);
        write_worker::lemma_filtered(rows, |r: InternalRecordView| memtable::selects(query, r), row);
        write_worker::lemma_filtered(rows, |r: InternalRecordView| memtable::selects(all, r), row);
        lemma_contains_append(
            memtable::tables_selection(front, query),
            memtable::selection(query, rows),
            row,
        );
        lemma_contains_append(
            memtable::tables_selection(front, all),
            memtable::selection(all, rows),
            row,
        );
    }
}

/// Refreshing filters hides nothing: a key of an open table that its filter let pass, or
/// that stands in the table, passes afterwards.
pub proof fn law_refresh_lets_pass(
    before: StateView,
    ids: Seq<u32>,
    tables: Seq<Table>,
    bits_per_key: usize,
    after: StateView,
    id: u32,
    rows: Seq<InternalRecordView>,
    i: int,
)
    requires
        filters_refreshed(before, ids, tables, bits_per_key, after),
        open_rows(tables, id) == Some(rows),
        0 <= i < rows.len(),
        block_index::filter_passes(before, id, rows[i].key),
    ensures
        block_index::filter_passes(after, id, rows[i].key),
{
    assert(after.sstables.dom().contains(id) <==> before.sstables.dom().contains(id));
    if before.sstables.contains_key(id) && ids.contains(id) {
        let old_filter = before.sstables[id].bloom;
        let new_filter = after.sstables[id].bloom;
        if is_stale(old_filter) && sstable::key_runs(rows).len() * bits_per_key <= usize::MAX {
            let keys = sstable::key_runs(rows);
            let f = choose|f: BloomFilter|
                f.wf() && new_filter == Some(f@) && #[trigger] f.built_from(
                    keys,
                    bits_per_key as int,
                );
            sstable::lemma_key_run(rows, i);
            let j = choose|j: int| 0 <= j < keys.len() && keys[j] == rows[i].key;
            crate::bloom::law_no_false_negatives(f, keys, bits_per_key as int, j);
            assert(f.num_bits() == 64int * f@.bits.len());
        }
    }
}

} // verus!
