//! What the calls that change an engine promise: what a batch holds, what is written of
//! it, and what stays as it was.

use vstd::prelude::*;
use vstd::string::*;
use crate::bytes;
use crate::calls;
use crate::engine;
use crate::engine::{Engine, StagedWrite};
use crate::error::FlowError;
use crate::gc;
use crate::gc::GcPlan;
use crate::lookup::{LookupView, Table};
use crate::manifest;
use crate::manifest::{Manifest, ManifestEntry, StateView};
use crate::memtable;
use crate::record;
use crate::record::{Config, InternalRecord, InternalRecordView, Op, Record, RecordView};
use crate::scan;
use crate::sort;
use crate::sort::SortOrder;
use crate::wal;
use crate::write_worker::{Flush, FlushEffect, WriteEffect};

verus! {

/// Whether the row is the put of a record: with its key, time and value, and with the
/// time to live, if there is one, for when it expires.
pub open spec fn puts(row: InternalRecordView, rec: Record, ttl: Option<u64>) -> bool {
    &&& row.op == Op::Put
    &&& row.key == rec.key@ && row.ts == rec.ts && row.value == rec.value@
    &&& row.range_end is None
    &&& ttl is None ==> row.expire_at == rec.expire_at
    &&& ttl matches Some(secs) ==> (row.expire_at - rec.ts - secs * 1_000_000)
        % 0x1_0000_0000_0000_0000int == 0
}

/// Whether the batch holds the rows: in order, with consecutive numbers from `base` on.
pub open spec fn numbered(records: Seq<InternalRecord>, base: u64) -> bool {
    forall|i: int| 0 <= i < records.len() ==> (#[trigger] records[i])@.seq == base + i
}

/// The records of a batch become one put each, in order.
pub proof fn law_records_converted(
    batch: &[Record],
    own: Option<u64>,
    default: Option<u64>,
    base: u64,
    r: Vec<InternalRecord>,
    i: int,
)
    requires
        call_ensures(engine::convert_records, (batch, own, default, base), r),
        base + batch@.len() <= u64::MAX,
    ensures
        r.len() == batch@.len(),
        numbered(r@, base),
        0 <= i < r.len() ==> puts(r@[i]@, batch@[i], if own is Some { own } else { default }),
{
    if 0 <= i < r.len() {
        engine::law_batch_written(batch@, own, default, base, i);
    }
}

/// What expires after a time to live does so that long after the time, where 64 bits can
/// tell.
pub proof fn law_expires_after(ts: i64, ttl: u64, r: i64)
    requires
        call_ensures(engine::expire_after, (ts, ttl), r),
    ensures
        (r - ts - ttl * 1_000_000) % 0x1_0000_0000_0000_0000int == 0,
        ts + ttl * 1_000_000 <= i64::MAX ==> r == ts + ttl * 1_000_000,
{
    engine::law_expiry_counts(ts, ttl);
}

/// What keys and times to delete become: one tombstone each, in order, which does not
/// expire.
pub proof fn law_deletions_converted(
    keys_ts: &[(Vec<u8>, i64)],
    base: u64,
    r: Vec<InternalRecord>,
    i: int,
)
    requires
        call_ensures(engine::delete_records, (keys_ts, base), r),
        base + keys_ts@.len() <= u64::MAX,
    ensures
        r.len() == keys_ts@.len(),
        numbered(r@, base),
        0 <= i < r.len() ==> {
            &&& r@[i]@.op == Op::Delete
            &&& r@[i]@.key == keys_ts@[i].0@ && r@[i]@.ts == keys_ts@[i].1
            &&& r@[i]@.expire_at == i64::MAX
            &&& r@[i]@.value.len() == 0
        },
{
}

/// The first number of an engine is the least that is above what its tables hold, not
/// below what follows its log, and not below a million for each table.
pub proof fn law_first_number_told(max_sst_id: u32, log_next: u64, flushed: u64, r: u64, n: int)
    requires
        call_ensures(engine::first_seq, (max_sst_id, log_next, flushed), r),
    ensures
        n > flushed && n >= log_next && n >= (max_sst_id + 1) * 1_000_000 <==> n >= r,
{
}

/// A patch of a record that was not found is refused; else the key and the time stay, and
/// so does what the patch does not give.
pub proof fn law_patch_applied(
    existing: Option<Record>,
    key: &str,
    ts: i64,
    new_value: Option<Vec<u8>>,
    new_ttl: Option<u64>,
    r: Result<Record, FlowError>,
)
    requires
        call_ensures(engine::apply_patch, (existing, key, ts, new_value, new_ttl), r),
    ensures
        r is Ok <==> existing is Some,
        r matches Ok(out) ==> {
            let rec = existing->0;
            &&& out.key@ == rec.key@ && out.ts == rec.ts
            &&& out.value@ == (if new_value is Some { (new_value->0)@ } else { rec.value@ })
            &&& new_ttl is None ==> out.expire_at == rec.expire_at
            &&& new_ttl matches Some(secs) ==> (out.expire_at - rec.ts - secs * 1_000_000)
                % 0x1_0000_0000_0000_0000int == 0
        },
{
    if let Some(rec) = existing {
        engine::law_patch_keeps(rec@, record::opt_view(new_value), new_ttl);
    }
}

/// The latest of some records is one of them with the key, and none of them with the key
/// is later. There is one where any of them has the key.
pub proof fn law_latest_of(records: &Vec<Record>, key: &[u8], r: Option<Record>, i: int)
    requires
        call_ensures(engine::latest_of, (records, key), r),
    ensures
        r matches Some(rec) ==> rec@.key == key@ && record::record_views(records@).contains(rec@),
        0 <= i < records.len() && records@[i]@.key == key@ ==> r is Some && (r->0).ts
            >= records@[i].ts,
{
    let rows = record::record_views(records@);
    if r is Some {
        if forall|k: int| 0 <= k < rows.len() ==> (#[trigger] rows[k]).key != key@ {
            engine::law_latest_none(rows, key@);
        }
        let k = choose|k: int| 0 <= k < rows.len() && (#[trigger] rows[k]).key == key@;
        engine::law_latest(rows, key@, k);
    }
    if 0 <= i < records.len() && records@[i]@.key == key@ {
        assert(rows[i] == records@[i]@);
        engine::law_latest(rows, key@, i);
    }
}

/// Of several records with the key and the same latest time the last one is taken.
pub proof fn law_last_of_equals(records: &Vec<Record>, key: &[u8], r: Option<Record>, i: int)
    requires
        call_ensures(engine::latest_of, (records, key), r),
        0 <= i < records.len(),
        records@[i]@.key == key@,
        forall|k: int|
            0 <= k < records.len() && (#[trigger] records@[k])@.key == key@ ==> records@[k]@.ts
                <= records@[i]@.ts,
        forall|k: int|
            i < k < records.len() && (#[trigger] records@[k])@.key == key@ ==> records@[k]@.ts
                < records@[i]@.ts,
    ensures
        r matches Some(rec) && rec@ == records@[i]@,
{
    let rows = record::record_views(records@);
    assert forall|k: int| 0 <= k < rows.len() && (#[trigger] rows[k]).key == key@ implies rows[k].ts
        <= rows[i].ts && (k > i ==> rows[k].ts < rows[i].ts) by {
        assert(rows[k] == records@[k]@);
    }
    assert(rows[i] == records@[i]@);
    lemma_last_latest(rows, key@, i);
}

proof fn lemma_last_latest(rows: Seq<RecordView>, key: Seq<u8>, i: int)
    requires
        0 <= i < rows.len(),
        rows[i].key == key,
        forall|k: int|
            0 <= k < rows.len() && (#[trigger] rows[k]).key == key ==> rows[k].ts <= rows[i].ts && (k
                > i ==> rows[k].ts < rows[i].ts),
    ensures
        engine::latest(rows, key) == Some(rows[i]),
    decreases rows.len(),
{
    let front = rows.drop_last();
    assert(rows[rows.len() - 1] == rows.last());
    assert forall|k: int| 0 <= k < front.len() implies #[trigger] front[k] == rows[k] by {}
    if i < front.len() {
        lemma_last_latest(front, key, i);
    } else if engine::latest(front, key) is Some {
        if forall|k: int| 0 <= k < front.len() ==> (#[trigger] front[k]).key != key {
            engine::law_latest_none(front, key);
        }
        let k = choose|k: int| 0 <= k < front.len() && (#[trigger] front[k]).key == key;
        engine::law_latest(front, key, k);
        let best = engine::latest(front, key)->0;
        let m = choose|m: int| 0 <= m < front.len() && front[m] == best;
        assert(rows[m].key == key);
    }
}

/// What is made ready of a batch with a time to live is the batch, numbered from the
/// engine's next number on; nothing but that number changes. An empty batch is nothing to
/// write.
pub proof fn law_ttl_batch_staged(
    e: &mut Engine,
    batch: &[Record],
    own: Option<u64>,
    r: Option<StagedWrite>,
    i: int,
)
    requires
        call_ensures(Engine::write_batch_ttl, (e, batch, own), r),
        old(e).next_seq() + batch@.len() <= u64::MAX,
    ensures
        r is Some <==> batch@.len() > 0,
        r matches Some(staged) ==> {
            &&& staged.records.len() == batch@.len()
            &&& numbered(staged.records@, old(e).next_seq())
            &&& 0 <= i < batch@.len() ==> puts(
                staged.records@[i]@,
                batch@[i],
                if own is Some {
                    own
                } else {
                    old(e).writer().settings().default_ttl_secs
                },
            )
        },
        final(e).next_seq() == old(e).next_seq() + batch@.len(),
        final(e).writer() == old(e).writer(),
        final(e).tables() == old(e).tables(),
{
    let default = old(e).writer().settings().default_ttl_secs;
    if let Some(staged) = r {
        let rows = record::views(staged.records@);
        assert(rows.len() == staged.records.len());
        assert forall|k: int| 0 <= k < staged.records.len() implies (
        #[trigger] staged.records@[k])@.seq == old(e).next_seq() + k by {
            assert(rows[k] == staged.records@[k]@);
        }
        if 0 <= i < batch@.len() {
            assert(rows[i] == staged.records@[i]@);
            engine::law_batch_written(batch@, own, default, old(e).next_seq(), i);
        }
    }
}

/// A batch is made ready with the default time to live.
pub proof fn law_write_batch_staged(
    e: &mut Engine,
    batch: &[Record],
    r: Option<StagedWrite>,
    i: int,
)
    requires
        call_ensures(Engine::write_batch, (e, batch), r),
        old(e).next_seq() + batch@.len() <= u64::MAX,
    ensures
        r is Some <==> batch@.len() > 0,
        r matches Some(staged) ==> {
            &&& staged.records.len() == batch@.len()
            &&& numbered(staged.records@, old(e).next_seq())
            &&& 0 <= i < batch@.len() ==> puts(
                staged.records@[i]@,
                batch@[i],
                old(e).writer().settings().default_ttl_secs,
            )
        },
        final(e).next_seq() == old(e).next_seq() + batch@.len(),
        final(e).writer() == old(e).writer(),
        final(e).tables() == old(e).tables(),
{
    let default = old(e).writer().settings().default_ttl_secs;
    if let Some(staged) = r {
        let rows = record::views(staged.records@);
        assert(rows.len() == staged.records.len());
        assert forall|k: int| 0 <= k < staged.records.len() implies (
        #[trigger] staged.records@[k])@.seq == old(e).next_seq() + k by {
            assert(rows[k] == staged.records@[k]@);
        }
        if 0 <= i < batch@.len() {
            assert(rows[i] == staged.records@[i]@);
            engine::law_batch_written(batch@, None, default, old(e).next_seq(), i);
        }
    }
}

/// A batch that is handed over is made ready with the default time to live.
pub proof fn law_write_batch_owned_staged(
    e: &mut Engine,
    batch: Vec<Record>,
    r: Option<StagedWrite>,
    i: int,
)
    requires
        call_ensures(Engine::write_batch_owned, (e, batch), r),
        old(e).next_seq() + batch@.len() <= u64::MAX,
    ensures
        r is Some <==> batch@.len() > 0,
        r matches Some(staged) ==> {
            &&& staged.records.len() == batch@.len()
            &&& numbered(staged.records@, old(e).next_seq())
            &&& 0 <= i < batch@.len() ==> puts(
                staged.records@[i]@,
                batch@[i],
                old(e).writer().settings().default_ttl_secs,
            )
        },
        final(e).next_seq() == old(e).next_seq() + batch@.len(),
        final(e).writer() == old(e).writer(),
        final(e).tables() == old(e).tables(),
{
    let default = old(e).writer().settings().default_ttl_secs;
    if let Some(staged) = r {
        let rows = record::views(staged.records@);
        assert(rows.len() == staged.records.len());
        assert forall|k: int| 0 <= k < staged.records.len() implies (
        #[trigger] staged.records@[k])@.seq == old(e).next_seq() + k by {
            assert(rows[k] == staged.records@[k]@);
        }
        if 0 <= i < batch@.len() {
            assert(rows[i] == staged.records@[i]@);
            engine::law_batch_written(batch@, None, default, old(e).next_seq(), i);
        }
    }
}

/// A batch that is to be synced is made ready with the default time to live.
pub proof fn law_write_batch_sync_staged(
    e: &mut Engine,
    batch: Vec<Record>,
    r: Option<StagedWrite>,
    i: int,
)
    requires
        call_ensures(Engine::write_batch_sync, (e, batch), r),
        old(e).next_seq() + batch@.len() <= u64::MAX,
    ensures
        r is Some <==> batch@.len() > 0,
        r matches Some(staged) ==> {
            &&& staged.records.len() == batch@.len()
            &&& numbered(staged.records@, old(e).next_seq())
            &&& 0 <= i < batch@.len() ==> puts(
                staged.records@[i]@,
                batch@[i],
                old(e).writer().settings().default_ttl_secs,
            )
        },
        final(e).next_seq() == old(e).next_seq() + batch@.len(),
        final(e).writer() == old(e).writer(),
        final(e).tables() == old(e).tables(),
{
    let default = old(e).writer().settings().default_ttl_secs;
    if let Some(staged) = r {
        let rows = record::views(staged.records@);
        assert(rows.len() == staged.records.len());
        assert forall|k: int| 0 <= k < staged.records.len() implies (
        #[trigger] staged.records@[k])@.seq == old(e).next_seq() + k by {
            assert(rows[k] == staged.records@[k]@);
        }
        if 0 <= i < batch@.len() {
            assert(rows[i] == staged.records@[i]@);
            engine::law_batch_written(batch@, None, default, old(e).next_seq(), i);
        }
    }
}

/// What is made ready of a deletion is one tombstone for each key and time.
pub proof fn law_deletion_staged(
    e: &mut Engine,
    keys_ts: &[(Vec<u8>, i64)],
    r: Option<StagedWrite>,
    i: int,
)
    requires
        call_ensures(Engine::delete_batch, (e, keys_ts), r),
        old(e).next_seq() + keys_ts@.len() <= u64::MAX,
    ensures
        r is Some <==> keys_ts@.len() > 0,
        r matches Some(staged) ==> {
            &&& staged.records.len() == keys_ts@.len()
            &&& numbered(staged.records@, old(e).next_seq())
            &&& 0 <= i < keys_ts@.len() ==> {
                &&& staged.records@[i]@.op == Op::Delete
                &&& staged.records@[i]@.key == keys_ts@[i].0@
                &&& staged.records@[i]@.ts == keys_ts@[i].1
                &&& staged.records@[i]@.expire_at == i64::MAX
            }
        },
        final(e).next_seq() == old(e).next_seq() + keys_ts@.len(),
        final(e).writer() == old(e).writer(),
        final(e).tables() == old(e).tables(),
{
    if let Some(staged) = r {
        let rows = record::views(staged.records@);
        assert(rows.len() == staged.records.len());
        assert forall|k: int| 0 <= k < staged.records.len() implies (
        #[trigger] staged.records@[k])@.seq == old(e).next_seq() + k by {
            assert(rows[k] == staged.records@[k]@);
        }
        if 0 <= i < keys_ts@.len() {
            assert(rows[i] == staged.records@[i]@);
        }
    }
}

/// What is made ready of the deletion of a range covers exactly the keys from the start up
/// to but not including the end.
pub proof fn law_range_staged(
    e: &mut Engine,
    start: &str,
    end: &str,
    r: StagedWrite,
    key: Seq<u8>,
)
    requires
        call_ensures(Engine::delete_range, (e, start, end), r),
    ensures
        r.records.len() == 1,
        r.records@[0]@.seq == old(e).next_seq(),
        scan::row_covers(r.records@[0]@, key) <==> bytes::lex_le(start.spec_bytes(), key)
            && bytes::lex_lt(key, end.spec_bytes()),
        final(e).next_seq() == old(e).next_seq() + 1,
        final(e).writer() == old(e).writer(),
        final(e).tables() == old(e).tables(),
{
    let rows = record::views(r.records@);
    assert(rows.len() == r.records.len());
    assert(rows[0] == r.records@[0]@);
}

/// A batch that is taken in stands behind what was there, in order, and nothing that was
/// there is lost. The records and their memory are counted as written.
pub proof fn law_batch_taken(e: &mut Engine, staged: &StagedWrite, r: WriteEffect, i: int)
    requires
        call_ensures(Engine::commit, (e, staged), r),
    ensures
        ({
            let before = old(e).writer().mem().active().rows();
            let after = final(e).writer().mem().active().rows();
            &&& after.len() == before.len() + staged.records.len()
            &&& 0 <= i < before.len() ==> after[i] == before[i]
            &&& 0 <= i < staged.records.len() ==> after[before.len() + i] == staged.records@[i]@
        }),
        final(e).writer().mem().frozen() == old(e).writer().mem().frozen(),
        final(e).tables() == old(e).tables(),
        (final(e).counters().total_records_written - old(e).counters().total_records_written
            - staged.records.len()) % 0x1_0000_0000_0000_0000int == 0,
        (final(e).counters().total_bytes_written - old(e).counters().total_bytes_written
            - staged.mem_bytes) % 0x1_0000_0000_0000_0000int == 0,
        (final(e).counters().wal_bytes - old(e).counters().wal_bytes - staged.mem_bytes)
            % 0x1_0000_0000_0000_0000int == 0,
        final(e).counters().memtable_records
            == final(e).writer().mem().active().rows().len() as usize,
        final(e).counters().total_records_read == old(e).counters().total_records_read,
        final(e).counters().total_flushes == old(e).counters().total_flushes,
        final(e).counters().total_gc_runs == old(e).counters().total_gc_runs,
{
}

/// What a patch writes has the key and the time that were asked for, the new value where
/// one is given, and is ready to be written as one put with the engine's next number.
pub proof fn law_record_patched(
    e: &mut Engine,
    key: &str,
    ts: i64,
    new_value: Option<Vec<u8>>,
    new_ttl: Option<u64>,
    now: i64,
    tables: &[Table],
    r: Result<(Record, StagedWrite), FlowError>,
)
    requires
        call_ensures(Engine::patch_record, (e, key, ts, new_value, new_ttl, now, tables), r),
    ensures
        r matches Ok((out, staged)) ==> {
            &&& out@.key == key.spec_bytes() && out@.ts == ts
            &&& new_value matches Some(v) ==> out@.value == v@
            &&& new_ttl matches Some(secs) ==> (out@.expire_at - ts - secs * 1_000_000)
                % 0x1_0000_0000_0000_0000int == 0
            &&& new_ttl is None ==> out@.expire_at >= now
            &&& staged.records.len() == 1
            &&& staged.records@[0]@.seq == old(e).next_seq()
            &&& puts(staged.records@[0]@, out, old(e).writer().settings().default_ttl_secs)
        },
        final(e).writer() == old(e).writer(),
        final(e).tables() == old(e).tables(),
        r is Err ==> final(e).next_seq() == old(e).next_seq(),
{
    let wanted = engine::Wanted { key: key.spec_bytes(), ts, now };
    let told = choose|told: LookupView| #[trigger]
        old(e).tells(tables@, wanted, told) && match told.record() {
            Some(rec) => {
                &&& r matches Ok((out, staged))
                &&& out@ == engine::patched(rec, record::opt_view(new_value), new_ttl)
                &&& staged.is_of(
                    seq![
                        engine::stored(
                            out@,
                            old(e).writer().settings().default_ttl_secs,
                            old(e).next_seq(),
                        ),
                    ],
                    old(e).writer().log(),
                )
            },
            None => r is Err,
        };
    calls::lemma_found_place(*old(e), tables@, wanted, told);
    if let Some(rec) = told.record() {
        engine::law_patch_keeps(rec, record::opt_view(new_value), new_ttl);
    }
    if let Ok((out, staged)) = r {
        let rows = record::views(staged.records@);
        assert(rows.len() == staged.records.len());
        assert(rows[0] == staged.records@[0]@);
        if let Some(ttl) = old(e).writer().settings().default_ttl_secs {
            engine::law_expiry_counts(out.ts, ttl);
        }
    }
}

/// Collecting garbage takes away tables that hold nothing but expired records, and all of
/// those. What is in the memtables, what is cached of other tables, and every other table
/// stay.
pub proof fn law_garbage_collected(e: &mut Engine, now: i64, now_secs: i64, r: GcPlan, id: u32)
    requires
        call_ensures(Engine::trigger_gc, (e, now, now_secs), r),
        old(e).wf(),
    ensures
        r.to_delete@.contains(id) <==> old(e).tables().active.contains(id)
            && old(e).tables().sstables[id].max_expire < now,
        final(e).tables().active.contains(id) <==> old(e).tables().active.contains(id)
            && !r.to_delete@.contains(id),
        final(e).tables().active.contains(id) ==> final(e).tables().sstables[id]
            == old(e).tables().sstables[id],
        final(e).writer() == old(e).writer(),
        final(e).next_seq() == old(e).next_seq(),
        final(e).counters().last_gc_at == now_secs,
        (final(e).counters().total_gc_runs - old(e).counters().total_gc_runs - 1)
            % 0x1_0000_0000_0000_0000int == 0,
        (final(e).counters().records_purged_by_gc - old(e).counters().records_purged_by_gc
            - r.purged) % 0x1_0000_0000_0000_0000int == 0,
        final(e).counters().sstable_count == final(e).tables().active.len() as usize,
        final(e).counters().total_records_written == old(e).counters().total_records_written,
        final(e).counters().total_records_read == old(e).counters().total_records_read,
        final(e).counters().total_flushes == old(e).counters().total_flushes,
{
    let state = old(e).tables();
    let p = gc::is_expired(state, now);
    let gone = r.to_delete@;
    gc::lemma_all_removed(state, gone);
    broadcast use vstd::seq_lib::group_filter_ensures;

    if gone.contains(id) {
        state.active.lemma_filter_contains_rev(p, id);
        assert(p(id));
    }
    if state.active.contains(id) && state.sstables[id].max_expire < now {
        assert(state.sstables.contains_key(id));
        assert(p(id));
    }
    let kept = |x: u32| !gone.contains(x);
    if final(e).tables().active.contains(id) {
        state.active.lemma_filter_contains_rev(kept, id);
    }
    if state.active.contains(id) && !gone.contains(id) {
        assert(kept(id));
    }
    assert(state.sstables.contains_key(id) <==> state.active.contains(id));
    assert(final(e).tables().sstables.contains_key(id) <==> state.sstables.contains_key(id)
        && !gone.contains(id));
}

/// A table that is entered is among the tables as it was told, the other tables stay, and
/// so do the memtables. The flush is counted.
pub proof fn law_flush_entered(
    e: &mut Engine,
    flush: &Flush,
    now_secs: i64,
    r: FlushEffect,
    other: u32,
)
    requires
        call_ensures(Engine::finish_flush, (e, flush, now_secs), r),
    ensures
        final(e).tables().active.contains(flush.info@.id),
        final(e).tables().sstables[flush.info@.id] == flush.info@,
        other != flush.info@.id ==> manifest::untouched(old(e).tables(), final(e).tables(), other),
        final(e).tables().last_flushed_seq >= flush.last_seq,
        final(e).tables().last_flushed_seq >= old(e).tables().last_flushed_seq,
        final(e).writer().mem() == old(e).writer().mem(),
        final(e).next_seq() == old(e).next_seq(),
        final(e).counters().last_flush_at == now_secs,
        (final(e).counters().total_flushes - old(e).counters().total_flushes - 1)
            % 0x1_0000_0000_0000_0000int == 0,
        final(e).counters().sstable_count == final(e).tables().active.len() as usize,
        final(e).counters().frozen_memtable_count
            == final(e).writer().mem().frozen().len() as usize,
        final(e).counters().total_records_written == old(e).counters().total_records_written,
        final(e).counters().total_records_read == old(e).counters().total_records_read,
        final(e).counters().total_gc_runs == old(e).counters().total_gc_runs,
        r.entries.len() == 2,
        StateView::empty().replayed(seq![r.entries@[0]@, r.entries@[1]@]).last_flushed_seq
            >= flush.last_seq,
        old(e).tables().applied(r.entries@[0]@).applied(r.entries@[1]@) == final(e).tables(),
{
    manifest::law_change_touches(old(e).tables(), flush.entry(), other);
    let entries = seq![r.entries@[0]@, r.entries@[1]@];
    let first = entries.drop_last();
    assert(entries.last() == r.entries@[1]@);
}

/// A flush writes nothing where nothing was written to the active table; else that
/// table is frozen and a new one takes its place. The new table has a greater id than
/// all others. The tables that the manifest lists, and the log, stay as they are until
/// the flush is finished.
pub proof fn law_flush_started(e: &mut Engine, now: i64, r: Option<Flush>, id: u32)
    requires
        call_ensures(Engine::flush, (e, now), r),
        manifest::max_id(old(e).tables().active) < u32::MAX,
    ensures
        old(e).writer().mem().active().rows().len() == 0 ==> r is None
            && final(e).writer().mem().frozen() == old(e).writer().mem().frozen(),
        final(e).writer().mem().active().rows().len() == 0,
        r matches Some(flush) ==> old(e).tables().active.contains(id) ==> flush.info.id > id,
        final(e).tables() == old(e).tables(),
        final(e).writer().log() == old(e).writer().log(),
        final(e).next_seq() == old(e).next_seq(),
        final(e).counters().total_flushes == old(e).counters().total_flushes,
{
    manifest::law_greatest_id(old(e).tables().active, id);
}

/// What is asked before a write, a deletion, a commit, the entry of a table or a collection
/// allows only what can be done.
pub proof fn law_asked_before(
    e: &mut Engine,
    batch: &[Record],
    keys_ts: &[(Vec<u8>, i64)],
    staged: &StagedWrite,
    now: i64,
    flush: &Flush,
    now_secs: i64,
    writes: bool,
    deletes: bool,
    commits: bool,
    enters: bool,
    collects: bool,
)
    requires
        old(e).wf(),
        call_ensures(Engine::can_write, (old(e), batch), writes),
        call_ensures(Engine::can_delete, (old(e), keys_ts), deletes),
        call_ensures(Engine::can_commit, (old(e), staged), commits),
        call_ensures(Engine::can_enter, (old(e), flush), enters),
        call_ensures(Engine::can_collect, (old(e),), collects),
    ensures
        writes ==> call_requires(Engine::write_batch, (e, batch)),
        deletes ==> call_requires(Engine::delete_batch, (e, keys_ts)),
        commits ==> call_requires(Engine::commit, (e, staged)),
        enters ==> call_requires(Engine::finish_flush, (e, flush, now_secs)),
        collects ==> call_requires(Engine::trigger_gc, (e, now, now_secs)),
{
}

/// A record whose size can be told can be written while there are numbers left, and a
/// batch of no records always can be.
pub proof fn law_record_allowed(e: &Engine, batch: &[Record], r: bool)
    requires
        call_ensures(Engine::can_write, (e, batch), r),
        batch@.len() <= 1,
    ensures
        batch@.len() == 0 ==> r,
        batch@.len() == 1 ==> (r <==> e.next_seq() < u64::MAX && 31 + batch@[0]@.key.len()
            + batch@[0]@.value.len() <= usize::MAX),
{
    let rows = engine::batch_rows(batch@, e.writer().settings().default_ttl_secs, e.next_seq());
    assert(rows.len() == batch@.len());
    if batch@.len() == 1 {
        assert(rows.drop_last() =~= Seq::<InternalRecordView>::empty());
        assert(memtable::total_size(rows.drop_last()) == 0);
        assert(rows.last() == rows[0]);
    }
}

/// Writes must wait exactly while the active table is full and no more can be frozen.
pub proof fn law_stalls(e: &Engine, r: bool)
    requires
        call_ensures(Engine::must_stall, (e,), r),
    ensures
        r <==> e.writer().mem().active().charged() >= e.writer().mem().size_limit()
            && e.writer().mem().frozen().len() >= e.writer().mem().max_frozen(),
{
}

/// An engine that is opened lists the tables that the changes in the manifest leave, holds
/// of its log the records that are not in the tables, in the order of their numbers, and
/// gives out greater numbers than those. It is not opened with a configuration that is not
/// accepted, nor where its directory is missing and may not be made.
pub proof fn law_opened(
    config: Config,
    dir_exists: bool,
    found: &Vec<(u64, Vec<u8>)>,
    entries: &Vec<ManifestEntry>,
    r: Result<(Engine, Option<u64>), FlowError>,
    accepted: Result<(), FlowError>,
    listed: Manifest,
    i: int,
    j: int,
)
    requires
        call_ensures(Engine::open, (config, dir_exists, found, entries), r),
        call_ensures(Config::validate, (&config,), accepted),
        call_ensures(Manifest::open, (entries,), listed),
    ensures
        r is Ok <==> accepted is Ok && (dir_exists || config.create_if_missing),
        accepted is Err ==> (r matches Err(e) && e is Config),
        accepted is Ok && r is Err ==> r->Err_0 is Io,
        r matches Ok((e, created)) ==> {
            let rows = e.writer().mem().active().rows();
            &&& e.tables() == listed@
            &&& e.writer().settings() == config
            &&& created is Some <==> found.len() == 0
            &&& e.writer().mem().frozen().len() == 0
            &&& e.next_seq() > e.tables().last_flushed_seq
            &&& 0 <= i < rows.len() ==> rows[i].seq < e.next_seq() && rows[i].seq
                > e.tables().last_flushed_seq
            &&& 0 <= i < j < rows.len() ==> rows[i].seq <= rows[j].seq
            &&& e.counters().total_records_written == 0 && e.counters().total_records_read == 0
            &&& e.counters().total_flushes == 0 && e.counters().total_gc_runs == 0
            &&& e.counters().sstable_count == e.tables().active.len() as usize
        },
{
    record::law_valid_config(config);
    if let Ok((e, created)) = r {
        let rows = e.writer().mem().active().rows();
        let state = e.tables();
        let segments = engine::log_contents(found@, wal::found_segments(found@));
        let logged = wal::replay_rows(segments, state.last_flushed_seq);
        sort::law_sort_sorts(SortOrder::Sequence, logged, rows);
        if 0 <= i < rows.len() {
            sort::law_sort_keeps_rows(SortOrder::Sequence, logged, rows, rows[i]);
            assert(rows.contains(rows[i]));
            lemma_replayed_newer(segments, state.last_flushed_seq, rows[i]);
        }
    }
}

proof fn lemma_replayed_newer(segments: Seq<Seq<u8>>, after: u64, row: InternalRecordView)
    requires
        wal::replay_rows(segments, after).contains(row),
    ensures
        row.seq > after,
    decreases segments.len(),
{
    broadcast use vstd::seq_lib::group_filter_ensures;

    let rows = wal::replay_rows(segments, after);
    let k = choose|k: int| 0 <= k < rows.len() && rows[k] == row;
    let front = wal::replay_rows(segments.drop_last(), after);
    let newer = |r: InternalRecordView| r.seq > after;
    let last = wal::replayed(segments.last()).filter(newer);
    if k < front.len() {
        assert(front[k] == row);
        lemma_replayed_newer(segments.drop_last(), after, row);
    } else {
        assert(last[k - front.len()] == row);
        assert(newer(last[k - front.len()]));
    }
}

} // verus!
