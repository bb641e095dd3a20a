//! What is refused, and what errors say of it: the field, the name or the number that is at
//! fault.

use vstd::prelude::*;
use vstd::string::*;
use crate::bytes;
use crate::engine;
use crate::error::FlowError;
use crate::http;
use crate::http::{ActionResponse, HealthResponse};
use crate::jsondb::encoding;
use crate::jsondb::encoding::JsonValue;
use crate::jsondb::helpers;
use crate::jsondb::helpers::ProbeResult;
use crate::jsondb::schema;
use crate::jsondb::schema::StoreDef;
use crate::record::{Config, InternalRecord, Record};
use crate::text;
use crate::udp;

verus! {

/// Whether the error of the configuration says this.
pub open spec fn says_config(r: Result<(), FlowError>, text: Seq<char>) -> bool {
    r matches Err(FlowError::Config(msg)) && msg@ == text
}

/// Whether the error of the document store says this.
pub open spec fn says_json(e: FlowError, text: Seq<char>) -> bool {
    e matches FlowError::JsonDb(msg) && msg@ == text
}

/// A configuration in which one setting alone is zero is refused by the name of that
/// setting.
pub proof fn law_zero_named(config: &Config, r: Result<(), FlowError>)
    requires
        call_ensures(Config::validate, (config,), r),
    ensures
        config.gc_interval_secs == 0 ==> says_config(
            r,
            "gc_interval_secs"@ + " must be greater than 0"@,
        ),
        config.gc_interval_secs > 0 && config.memtable_size_mb == 0 ==> says_config(
            r,
            "memtable_size_mb"@ + " must be greater than 0"@,
        ),
        config.gc_interval_secs > 0 && config.memtable_size_mb > 0 && config.max_frozen_memtables
            == 0 ==> says_config(r, "max_frozen_memtables"@ + " must be greater than 0"@),
        config.gc_interval_secs > 0 && config.memtable_size_mb > 0 && config.max_frozen_memtables
            > 0 && config.block_size == 0 ==> says_config(
            r,
            "block_size"@ + " must be greater than 0"@,
        ),
        (Config { flush_interval_ms: 1, ..*config }).zero_field() is None
            && config.flush_interval_ms == 0 ==> says_config(
            r,
            "flush_interval_ms"@ + " must be greater than 0"@,
        ),
        (Config { time_bucket_secs: 1, ..*config }).zero_field() is None && config.time_bucket_secs
            == 0 ==> says_config(r, "time_bucket_secs"@ + " must be greater than 0"@),
        (Config { index_memory_budget_mb: 1, ..*config }).zero_field() is None
            && config.index_memory_budget_mb == 0 ==> says_config(
            r,
            "index_memory_budget_mb"@ + " must be greater than 0"@,
        ),
        (Config { block_cache_capacity_mb: 1, ..*config }).zero_field() is None
            && config.block_cache_capacity_mb == 0 ==> says_config(
            r,
            "block_cache_capacity_mb"@ + " must be greater than 0"@,
        ),
        (Config { wal_segment_size_mb: 1, ..*config }).zero_field() is None
            && config.wal_segment_size_mb == 0 ==> says_config(
            r,
            "wal_segment_size_mb"@ + " must be greater than 0"@,
        ),
        (Config { compaction_threshold: 1, ..*config }).zero_field() is None
            && config.compaction_threshold == 0 ==> says_config(
            r,
            "compaction_threshold"@ + " must be greater than 0"@,
        ),
{
}

/// A name that is refused is refused as empty, as too long, or by itself.
pub proof fn law_name_refused(name: &str, r: Result<(), FlowError>)
    requires
        call_ensures(encoding::validate_name, (name,), r),
        r is Err,
    ensures
        name.spec_bytes().len() == 0 ==> says_json(r->Err_0, "name cannot be empty"@),
        name.spec_bytes().len() > 255 ==> says_json(r->Err_0, "name too long (max 255 bytes)"@),
        0 < name.spec_bytes().len() <= 255 ==> says_json(
            r->Err_0,
            "invalid name '"@ + name@ + "': only alphanumeric, underscore and dash are allowed"@,
        ),
{
}

/// A definition is refused as its name is, for its empty path, or, of an index, as one that
/// there is already.
pub proof fn law_definition_refused(
    store: &StoreDef,
    name: &str,
    key_path: &str,
    named: Result<(), FlowError>,
    of_store: Result<(), FlowError>,
    of_index: Result<(), FlowError>,
)
    requires
        call_ensures(encoding::validate_name, (name,), named),
        call_ensures(schema::validate_store_def, (name, key_path), of_store),
        call_ensures(schema::validate_index_def, (store, name, key_path), of_index),
    ensures
        named matches Err(FlowError::JsonDb(why)) ==> of_store is Err && of_index is Err
            && says_json(of_store->Err_0, why@) && says_json(of_index->Err_0, why@),
        named is Ok && of_store is Err ==> says_json(
            of_store->Err_0,
            "key_path cannot be empty"@,
        ),
        named is Ok && key_path.spec_bytes().len() == 0 ==> of_index is Err && says_json(
            of_index->Err_0,
            "index key_path cannot be empty"@,
        ),
        of_store is Ok && of_index is Err ==> says_json(
            of_index->Err_0,
            "index '"@ + name@ + "' already exists in store '"@ + store.name@ + "'"@,
        ),
{
}

/// A patch of what is not there is refused by the key and the time.
pub proof fn law_patch_refused(
    key: &str,
    ts: i64,
    new_value: Option<Vec<u8>>,
    new_ttl: Option<u64>,
    r: Result<Record, FlowError>,
    told: String,
)
    requires
        call_ensures(engine::apply_patch, (None::<Record>, key, ts, new_value, new_ttl), r),
        call_ensures(text::signed_decimal, (ts,), told),
    ensures
        r matches Err(FlowError::Other(msg)) && msg@ == "record not found: key="@ + key@ + ", ts="@
            + told@,
{
}

/// A counter that is not of eight bytes is refused by the name of its store.
pub proof fn law_counter_refused(
    current: Option<&[u8]>,
    store: &str,
    r: Result<(u64, InternalRecord), FlowError>,
)
    requires
        call_ensures(helpers::prepare_counter, (current, store), r),
    ensures
        r is Err <==> current is Some && current->0@.len() != 8,
        r matches Err(e) ==> says_json(
            e,
            "corrupted auto-increment counter for store '"@ + store@ + "'"@,
        ),
{
}

/// A put is refused by the name of the index of the first probe that found another key.
pub proof fn law_violation_named(
    def: &StoreDef,
    store: &str,
    key: &[u8],
    doc_bytes: &[u8],
    doc: &JsonValue,
    old_doc: Option<&JsonValue>,
    found: &Vec<ProbeResult>,
    r: Result<Vec<InternalRecord>, FlowError>,
    probes: Vec<helpers::UniqueProbe>,
    i: int,
)
    requires
        call_ensures(
            helpers::put_records,
            (def, store, key, doc_bytes, doc, old_doc, found),
            r,
        ),
        call_ensures(helpers::unique_probes, (def, store, doc), probes),
        found.len() == probes.len(),
        helpers::first_taken(found@, key@) == Some(i),
    ensures
        0 <= i < probes.len(),
        r matches Err(e) && says_json(
            e,
            "unique constraint violation: index '"@ + probes@[i].index@ + "' value '"@
                + probes@[i].shown@ + "' already exists"@,
        ),
{
    helpers::law_refused_when_taken(found@, key@);
    let wanted = helpers::all_probes(def.indexes@, store.spec_bytes(), *doc);
    assert(probes@[i].index@ == wanted[i].0);
}

/// What a frame is refused for is said: that it is too short, its first byte, its version,
/// the lack of a key, or a tag that is not the key's.
pub proof fn law_frame_refused(data: &[u8], key: Option<&str>, r: Result<Vec<Record>, FlowError>)
    requires
        call_ensures(udp::decode_frame, (data, key), r),
    ensures
        data@.len() < 4 ==> says_other(r, "frame too short"@),
        data@.len() >= 4 && data@[0] != 0x54 ==> says_other(
            r,
            "invalid magic: "@ + text::hex_text(data@[0] as nat),
        ),
        data@.len() >= 4 && data@[0] == 0x54 ==> {
            &&& data@[1] != 1 && data@[1] != 2 ==> says_other(
                r,
                "unsupported version: "@ + text::decimal_text(data@[1] as nat),
            )
            &&& data@[1] == 1 && key is Some ==> says_other(
                r,
                "authentication required; upgrade client to V2 protocol"@,
            )
            &&& data@[1] == 2 && key is None ==> says_other(
                r,
                "v2 frame received but server has no api_key configured"@,
            )
            &&& data@[1] == 2 && key is Some && data@.len() < 12 ==> says_other(
                r,
                "frame too short for v2 auth tag"@,
            )
        },
{
}

/// Whether the error says this.
pub open spec fn says_other(r: Result<Vec<Record>, FlowError>, text: Seq<char>) -> bool {
    r matches Err(FlowError::Other(msg)) && msg@ == text
}

/// A record of a frame is read where it is all there and its key is not too long: the
/// length of the key, the key, the time, the time to live in seconds, the length of the
/// value, and the value.
pub proof fn law_frame_record(data: &[u8], pos: usize, r: Option<(Record, usize)>)
    requires
        call_ensures(udp::read_record, (data, pos), r),
    ensures
        r matches Some((rec, next)) ==> {
            let at = pos + 2 + rec@.key.len();
            let s = data@;
            &&& rec@.key.len() <= 4096
            &&& next == at + 14 + rec@.value.len() && next <= s.len()
            &&& bytes::be_nat(s.subrange(pos as int, pos + 2)) == rec@.key.len()
            &&& s.subrange(pos + 2, at) == rec@.key
            &&& bytes::untwos(bytes::be_nat(s.subrange(at, at + 8))) as i64 == rec@.ts
            &&& bytes::be_nat(s.subrange(at + 8, at + 12)) as u32 == 0 ==> rec@.expire_at
                == i64::MAX
            &&& bytes::be_nat(s.subrange(at + 8, at + 12)) as u32 != 0 ==> (rec@.expire_at - rec@.ts
                - bytes::be_nat(s.subrange(at + 8, at + 12)) as u32 * 1_000_000)
                % 0x1_0000_0000_0000_0000int == 0
            &&& bytes::be_nat(s.subrange(at + 12, at + 14)) == rec@.value.len()
            &&& s.subrange(at + 14, next as int) == rec@.value
        },
        r is None ==> {
            let s = data@;
            let len = bytes::be_nat(s.subrange(pos as int, pos + 2));
            let at = pos + 2 + len;
            pos + 2 > s.len() || len > 4096 || at + 14 > s.len() || at + 14 + bytes::be_nat(
                s.subrange(at + 12, at + 14),
            ) > s.len()
        },
{
    if let Some((rec, next)) = r {
        let at = pos + 2 + rec@.key.len();
        let ttl = bytes::be_nat(data@.subrange(at, at + 14).subrange(8, 12)) as u32;
        assert(data@.subrange(at, at + 14).subrange(8, 12) =~= data@.subrange(at + 8, at + 12));
        engine::law_expiry_counts(rec@.ts, ttl as u64);
    }
}

/// What each error says: its kind, and what it holds.
pub proof fn law_error_said(error: &FlowError, said: String)
    requires
        call_ensures(FlowError::message, (error,), said),
    ensures
        *error matches FlowError::Io(msg) ==> said@ == "IO error: "@ + msg@,
        *error matches FlowError::Corruption { file, msg } ==> said@ == "Corruption in "@ + file@
            + ": "@ + msg@,
        *error is Closed ==> said@ == "Engine is closed"@,
        *error is WriteBufferFull ==> said@ == "Write buffer full"@,
        *error matches FlowError::Config(msg) ==> said@ == "Config error: "@ + msg@,
        *error matches FlowError::Json(msg) ==> said@ == "JSON error: "@ + msg@,
        *error matches FlowError::JsonDb(msg) ==> said@ == "JsonDB: "@ + msg@,
        *error matches FlowError::Other(msg) ==> said@ == msg@,
        *error matches FlowError::SstNotFound(id) ==> {
            &&& "SSTable not found: "@.is_prefix_of(said@)
            &&& text::number_of(said@.skip("SSTable not found: "@.len() as int), 10) == id
        },
{
    if let FlowError::SstNotFound(id) = *error {
        let front = "SSTable not found: "@;
        text::law_digits_read_back(id as nat, 10);
        assert(said@.skip(front.len() as int) =~= text::decimal_text(id as nat));
    }
}

/// What the server answers to a collection, to a compaction, and to a request without a
/// key that it accepts.
pub proof fn law_answers_said(
    purged: u64,
    gc: ActionResponse,
    ran: bool,
    compaction: ActionResponse,
    done: &str,
    action: ActionResponse,
    health: HealthResponse,
)
    requires
        call_ensures(http::gc_response, (purged,), gc),
        call_ensures(http::compaction_response, (ran,), compaction),
        call_ensures(http::action_done, (done,), action),
        call_ensures(http::health_response, (), health),
    ensures
        gc.ok && compaction.ok && action.ok,
        "gc completed, purged "@.is_prefix_of(gc.message@),
        text::number_of(gc.message@.skip("gc completed, purged "@.len() as int), 10) == purged,
        compaction.message@ == "compaction: ran="@ + (if ran {
            "true"@
        } else {
            "false"@
        }),
        action.message@ == done@,
        health.status@ == "ok"@,
{
    let front = "gc completed, purged "@;
    text::law_digits_read_back(purged as nat, 10);
    assert(gc.message@.skip(front.len() as int) =~= text::decimal_text(purged as nat));
}

} // verus!
