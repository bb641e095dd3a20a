//! Records, queries, scan ranges and the engine's configuration.

use vstd::prelude::*;
use vstd::string::*;
use crate::bytes;
use crate::bytes::{bytes_eq, copy_bytes};
use crate::error::FlowError;
use crate::memtable;
use crate::text::join;

verus! {

/// One end of a range.
#[derive(Debug, Clone, PartialEq, Eq)]
pub enum Bound<T> {
    Included(T),
    Excluded(T),
    Unbounded,
}

/// A record as callers see it.
#[derive(Debug)]
pub struct Record {
    pub key: Vec<u8>,
    pub ts: i64,
    pub expire_at: i64,
    pub value: Vec<u8>,
}

/// What a [`Record`] holds.
#[verifier::ext_equal]
pub struct RecordView {
    pub key: Seq<u8>,
    pub ts: i64,
    pub expire_at: i64,
    pub value: Seq<u8>,
}

impl View for Record {
    type V = RecordView;

    open spec fn view(&self) -> RecordView {
        RecordView {
            key: self.key@,
            ts: self.ts,
            expire_at: self.expire_at,
            value: self.value@,
        }
    }
}

impl Clone for Record {
    fn clone(&self) -> (r: Self)
        ensures
            r@ == self@,
    {
        Record {
            key: copy_bytes(&self.key),
            ts: self.ts,
            expire_at: self.expire_at,
            value: copy_bytes(&self.value),
        }
    }
}

/// What `String::from_utf8_lossy` makes of a byte string.
pub uninterp spec fn utf8_lossy(bytes: Seq<u8>) -> Seq<char>;

/// Calls `String::from_utf8_lossy`, which reads bytes as UTF-8 and puts a
/// replacement character where they are not valid. The result is named, not
/// described; it depends on the bytes alone.
#[verifier::external_body]
pub(crate) fn from_utf8_lossy(bytes: &[u8]) -> (r: String)
    ensures
        r@ == utf8_lossy(bytes@),
{
    String::from_utf8_lossy(bytes).into_owned()
}

impl Record {
    /// A record that never expires.
    pub fn new(key: Vec<u8>, ts: i64, value: Vec<u8>) -> (r: Self)
        ensures
            r@ == (RecordView { key: key@, ts, expire_at: i64::MAX, value: value@ }),
    {
        Self { key, ts, expire_at: i64::MAX, value }
    }

    /// The key as text, with replacement characters where it is not UTF-8.
    pub fn key_str(&self) -> (r: String)
        ensures
            r@ == utf8_lossy(self@.key),
    {
        from_utf8_lossy(&self.key)
    }
}

/// What a stored record does.
#[derive(Clone, Copy, Debug, PartialEq, Eq, Structural)]
pub enum Op {
    Put,
    Delete,
    DeleteRange,
}

impl Default for Op {
    fn default() -> (r: Self)
        ensures
            r == Op::Put,
    {
        Op::Put
    }
}

impl Op {
    /// The operation with the code `v`; unknown codes mean `Put`.
    pub open spec fn of_code(v: u8) -> Op {
        if v == 1 {
            Op::Delete
        } else if v == 2 {
            Op::DeleteRange
        } else {
            Op::Put
        }
    }

    /// The code that stands for the operation in files.
    pub open spec fn code(self) -> u8 {
        match self {
            Op::Put => 0,
            Op::Delete => 1,
            Op::DeleteRange => 2,
        }
    }

    pub fn from_u8(v: u8) -> (r: Self)
        ensures
            r == Op::of_code(v),
    {
        match v {
            1 => Op::Delete,
            2 => Op::DeleteRange,
            _ => Op::Put,
        }
    }

    pub fn to_u8(self) -> (r: u8)
        ensures
            r == self.code(),
    {
        match self {
            Op::Put => 0,
            Op::Delete => 1,
            Op::DeleteRange => 2,
        }
    }
}

/// Reading back the code of an operation gives the operation.
pub proof fn law_op_code_round_trip(op: Op)
    ensures
        Op::of_code(op.code()) == op,
{
}

/// A record as the engine stores it: with its sequence number and operation.
#[derive(Debug, PartialEq, Eq)]
pub struct InternalRecord {
    pub seq: u64,
    pub op: Op,
    pub key: Vec<u8>,
    pub ts: i64,
    pub expire_at: i64,
    pub value: Vec<u8>,
    pub range_end: Option<Vec<u8>>,
}

/// What an [`InternalRecord`] holds.
#[verifier::ext_equal]
pub struct InternalRecordView {
    pub seq: u64,
    pub op: Op,
    pub key: Seq<u8>,
    pub ts: i64,
    pub expire_at: i64,
    pub value: Seq<u8>,
    pub range_end: Option<Seq<u8>>,
}

/// What an optional byte string holds.
pub open spec fn opt_view(o: Option<Vec<u8>>) -> Option<Seq<u8>> {
    match o {
        Some(v) => Some(v@),
        None => None,
    }
}

impl View for InternalRecord {
    type V = InternalRecordView;

    open spec fn view(&self) -> InternalRecordView {
        InternalRecordView {
            seq: self.seq,
            op: self.op,
            key: self.key@,
            ts: self.ts,
            expire_at: self.expire_at,
            value: self.value@,
            range_end: opt_view(self.range_end),
        }
    }
}

/// What a list of stored records holds.
pub open spec fn views(s: Seq<InternalRecord>) -> Seq<InternalRecordView> {
    Seq::new(s.len(), |i: int| s[i]@)
}

/// What a list of records holds.
pub open spec fn record_views(s: Seq<Record>) -> Seq<RecordView> {
    Seq::new(s.len(), |i: int| s[i]@)
}

impl InternalRecordView {
    /// The record without what only the engine needs.
    pub open spec fn record(self) -> RecordView {
        RecordView {
            key: self.key,
            ts: self.ts,
            expire_at: self.expire_at,
            value: self.value,
        }
    }

    /// The size that the record is charged in a memtable: a fixed part, the
    /// key, the value, and the end of the range with its own length field.
    pub open spec fn size(self) -> nat {
        31 + self.key.len() + self.value.len() + match self.range_end {
            Some(end) => 2 + end.len(),
            None => 0,
        }
    }
}

impl RecordView {
    /// The record as a put with the sequence number `seq`.
    pub open spec fn put(self, seq: u64) -> InternalRecordView {
        InternalRecordView {
            seq,
            op: Op::Put,
            key: self.key,
            ts: self.ts,
            expire_at: self.expire_at,
            value: self.value,
            range_end: None,
        }
    }
}

impl Clone for InternalRecord {
    fn clone(&self) -> (r: Self)
        ensures
            r@ == self@,
    {
        InternalRecord {
            seq: self.seq,
            op: self.op,
            key: copy_bytes(&self.key),
            ts: self.ts,
            expire_at: self.expire_at,
            value: copy_bytes(&self.value),
            range_end: match &self.range_end {
                Some(end) => Some(copy_bytes(end)),
                None => None,
            },
        }
    }
}

impl InternalRecord {
    /// A put of `rec` with the sequence number `seq`.
    pub fn from_record(rec: &Record, seq: u64) -> (r: Self)
        ensures
            r@ == rec@.put(seq),
    {
        Self {
            seq,
            op: Op::Put,
            key: copy_bytes(&rec.key),
            ts: rec.ts,
            expire_at: rec.expire_at,
            value: copy_bytes(&rec.value),
            range_end: None,
        }
    }

    /// A tombstone for one `(key, ts)`.
    pub fn delete(key: Vec<u8>, ts: i64, seq: u64) -> (r: Self)
        ensures
            r@ == (InternalRecordView {
                seq,
                op: Op::Delete,
                key: key@,
                ts,
                expire_at: i64::MAX,
                value: Seq::empty(),
                range_end: None,
            }),
    {
        Self { seq, op: Op::Delete, key, ts, expire_at: i64::MAX, value: Vec::new(), range_end: None }
    }

    /// A tombstone for the keys from `start_key` up to `end_key`.
    pub fn delete_range(start_key: Vec<u8>, end_key: Vec<u8>, seq: u64) -> (r: Self)
        ensures
            r@ == (InternalRecordView {
                seq,
                op: Op::DeleteRange,
                key: start_key@,
                ts: 0,
                expire_at: i64::MAX,
                value: Seq::empty(),
                range_end: Some(end_key@),
            }),
    {
        Self {
            seq,
            op: Op::DeleteRange,
            key: start_key,
            ts: 0,
            expire_at: i64::MAX,
            value: Vec::new(),
            range_end: Some(end_key),
        }
    }

    /// A copy of the record for callers.
    pub fn to_record(&self) -> (r: Record)
        ensures
            r@ == self@.record(),
    {
        Record {
            key: copy_bytes(&self.key),
            ts: self.ts,
            expire_at: self.expire_at,
            value: copy_bytes(&self.value),
        }
    }

    /// The record for callers.
    pub fn into_record_owned(self) -> (r: Record)
        ensures
            r@ == self@.record(),
    {
        Record { key: self.key, ts: self.ts, expire_at: self.expire_at, value: self.value }
    }

    /// The size that the record is charged in a memtable.
    pub fn estimated_size(&self) -> (r: usize)
        requires
            self@.size() <= usize::MAX,
        ensures
            r == self@.size(),
    {
        let base: usize = 31 + self.key.len() + self.value.len();
        match &self.range_end {
            Some(end) => base + 2 + end.len(),
            None => base,
        }
    }
}

/// A record survives being stored and handed out again.
pub proof fn law_record_round_trip(rec: RecordView, seq: u64)
    ensures
        rec.put(seq).record() == rec,
{
}

/// When the write-ahead log is synchronised to stable storage.
#[derive(Debug, Clone, Copy, PartialEq, Eq, Structural)]
pub enum SyncMode {
    /// After every write batch.
    Always,
    /// On a periodic tick, in milliseconds.
    IntervalMs(u64),
}

impl Default for SyncMode {
    fn default() -> (r: Self)
        ensures
            r == SyncMode::Always,
    {
        SyncMode::Always
    }
}

/// The engine's configuration.
#[derive(Debug, Clone)]
pub struct Config {
    pub data_dir: String,
    pub default_ttl_secs: Option<u64>,
    pub gc_interval_secs: u64,
    pub memtable_size_mb: usize,
    pub max_frozen_memtables: usize,
    pub block_size: usize,
    pub zstd_level: i32,
    pub flush_interval_ms: u64,
    pub time_bucket_secs: u64,
    pub index_memory_budget_mb: usize,
    pub block_cache_capacity_mb: usize,
    pub bloom_bits_per_key: usize,
    pub wal_segment_size_mb: u64,
    pub compaction_threshold: usize,
    pub create_if_missing: bool,
    pub wal_sync_mode: SyncMode,
    pub auto_background: bool,
}

/// Background maintenance is on unless it is switched off.
pub fn default_background() -> (r: bool)
    ensures
        r,
{
    true
}

impl Config {
    /// Whether this is the configuration that is used unless another is given.
    pub open spec fn is_default(self) -> bool {
        &&& self.data_dir@ == "./data"@
        &&& self.default_ttl_secs is None
        &&& self.gc_interval_secs == 3600
        &&& self.memtable_size_mb == 64
        &&& self.max_frozen_memtables == 2
        &&& self.block_size == 8192
        &&& self.zstd_level == 3
        &&& self.flush_interval_ms == 1000
        &&& self.time_bucket_secs == 3600
        &&& self.index_memory_budget_mb == 256
        &&& self.block_cache_capacity_mb == 128
        &&& self.bloom_bits_per_key == 10
        &&& self.wal_segment_size_mb == 64
        &&& self.compaction_threshold == 2
        &&& self.create_if_missing
        &&& self.wal_sync_mode == SyncMode::Always
        &&& self.auto_background
    }

    /// The first size, interval or limit that is zero, by its name.
    pub open spec fn zero_field(self) -> Option<Seq<char>> {
        if self.gc_interval_secs == 0 {
            Some("gc_interval_secs"@)
        } else if self.memtable_size_mb == 0 {
            Some("memtable_size_mb"@)
        } else if self.max_frozen_memtables == 0 {
            Some("max_frozen_memtables"@)
        } else if self.block_size == 0 {
            Some("block_size"@)
        } else if self.flush_interval_ms == 0 {
            Some("flush_interval_ms"@)
        } else if self.time_bucket_secs == 0 {
            Some("time_bucket_secs"@)
        } else if self.index_memory_budget_mb == 0 {
            Some("index_memory_budget_mb"@)
        } else if self.block_cache_capacity_mb == 0 {
            Some("block_cache_capacity_mb"@)
        } else if self.wal_segment_size_mb == 0 {
            Some("wal_segment_size_mb"@)
        } else if self.compaction_threshold == 0 {
            Some("compaction_threshold"@)
        } else {
            None
        }
    }

    /// Whether the configuration can be used: no size, interval or limit is zero.
    pub open spec fn is_valid(self) -> bool {
        self.zero_field() is None
    }

    /// Rejects a configuration with a size, interval or limit of zero.
    pub fn validate(&self) -> (r: Result<(), FlowError>)
        ensures
            match self.zero_field() {
                None => r is Ok,
                Some(name) => r matches Err(FlowError::Config(msg)) && msg@ == name
                    + " must be greater than 0"@,
            },
    {
        let name: &str = if self.gc_interval_secs == 0 {
            "gc_interval_secs"
        } else if self.memtable_size_mb == 0 {
            "memtable_size_mb"
        } else if self.max_frozen_memtables == 0 {
            "max_frozen_memtables"
        } else if self.block_size == 0 {
            "block_size"
        } else if self.flush_interval_ms == 0 {
            "flush_interval_ms"
        } else if self.time_bucket_secs == 0 {
            "time_bucket_secs"
        } else if self.index_memory_budget_mb == 0 {
            "index_memory_budget_mb"
        } else if self.block_cache_capacity_mb == 0 {
            "block_cache_capacity_mb"
        } else if self.wal_segment_size_mb == 0 {
            "wal_segment_size_mb"
        } else if self.compaction_threshold == 0 {
            "compaction_threshold"
        } else {
            return Ok(());
        };
        Err(FlowError::Config(join(name, " must be greater than 0")))
    }
}

impl Default for Config {
    fn default() -> (r: Self)
        ensures
            r.is_default(),
    {
        Self {
            data_dir: "./data".to_owned(),
            default_ttl_secs: None,
            gc_interval_secs: 3600,
            memtable_size_mb: 64,
            max_frozen_memtables: 2,
            block_size: 8192,
            zstd_level: 3,
            flush_interval_ms: 1000,
            time_bucket_secs: 3600,
            index_memory_budget_mb: 256,
            block_cache_capacity_mb: 128,
            bloom_bits_per_key: 10,
            wal_segment_size_mb: 64,
            compaction_threshold: 2,
            create_if_missing: true,
            wal_sync_mode: SyncMode::Always,
            auto_background: default_background(),
        }
    }
}

/// Which keys a query asks for.
#[derive(Debug)]
pub enum KeyFilter {
    /// The keys that begin with the bytes.
    Prefix(Vec<u8>),
    /// The keys from `start` to `end`, both included.
    Range { start: Vec<u8>, end: Vec<u8> },
    /// Every key.
    All,
}

/// What a [`KeyFilter`] holds.
pub enum KeyFilterView {
    Prefix(Seq<u8>),
    Range { start: Seq<u8>, end: Seq<u8> },
    All,
}

impl View for KeyFilter {
    type V = KeyFilterView;

    open spec fn view(&self) -> KeyFilterView {
        match self {
            KeyFilter::Prefix(p) => KeyFilterView::Prefix(p@),
            KeyFilter::Range { start, end } => KeyFilterView::Range { start: start@, end: end@ },
            KeyFilter::All => KeyFilterView::All,
        }
    }
}

impl Clone for KeyFilter {
    fn clone(&self) -> (r: Self)
        ensures
            r@ == self@,
    {
        match self {
            KeyFilter::Prefix(p) => KeyFilter::Prefix(copy_bytes(p)),
            KeyFilter::Range { start, end } => KeyFilter::Range {
                start: copy_bytes(start),
                end: copy_bytes(end),
            },
            KeyFilter::All => KeyFilter::All,
        }
    }
}

/// A query: which keys, and at which times (both ends included).
#[derive(Debug, Clone)]
pub struct Query {
    pub key_filter: KeyFilter,
    pub time_range: Option<(i64, i64)>,
}

impl Query {
    pub fn prefix(key: &str) -> (r: Self)
        ensures
            r.key_filter@ == KeyFilterView::Prefix(key.spec_bytes()),
            r.time_range is None,
    {
        Self { key_filter: KeyFilter::Prefix(copy_bytes(key.as_bytes())), time_range: None }
    }

    pub fn key_range(start: &str, end: &str) -> (r: Self)
        ensures
            r.key_filter@ == (KeyFilterView::Range {
                start: start.spec_bytes(),
                end: end.spec_bytes(),
            }),
            r.time_range is None,
    {
        Self {
            key_filter: KeyFilter::Range {
                start: copy_bytes(start.as_bytes()),
                end: copy_bytes(end.as_bytes()),
            },
            time_range: None,
        }
    }

    pub fn time_range(start: i64, end: i64) -> (r: Self)
        ensures
            r.key_filter@ == KeyFilterView::All,
            r.time_range == Some((start, end)),
    {
        Self { key_filter: KeyFilter::All, time_range: Some((start, end)) }
    }

    pub fn prefix_time_range(key: &str, start: i64, end: i64) -> (r: Self)
        ensures
            r.key_filter@ == KeyFilterView::Prefix(key.spec_bytes()),
            r.time_range == Some((start, end)),
    {
        Self {
            key_filter: KeyFilter::Prefix(copy_bytes(key.as_bytes())),
            time_range: Some((start, end)),
        }
    }

    pub fn key_time_range(start_key: &str, end_key: &str, start: i64, end: i64) -> (r: Self)
        ensures
            r.key_filter@ == (KeyFilterView::Range {
                start: start_key.spec_bytes(),
                end: end_key.spec_bytes(),
            }),
            r.time_range == Some((start, end)),
    {
        Self {
            key_filter: KeyFilter::Range {
                start: copy_bytes(start_key.as_bytes()),
                end: copy_bytes(end_key.as_bytes()),
            },
            time_range: Some((start, end)),
        }
    }
}

/// How reads treat the block cache and checksums.
#[derive(Debug, Clone)]
pub struct ReadOptions {
    /// Whether reads populate the block cache.
    pub fill_cache: bool,
    /// Whether reads verify checksums.
    pub verify_checksums: bool,
}

impl Default for ReadOptions {
    fn default() -> (r: Self)
        ensures
            r.fill_cache,
            r.verify_checksums,
    {
        Self { fill_cache: true, verify_checksums: true }
    }
}

/// The key and time bounds of a scan.
#[derive(Debug, Clone)]
pub struct ScanRange {
    pub key_start: Bound<Vec<u8>>,
    pub key_end: Bound<Vec<u8>>,
    pub ts_start: Bound<i64>,
    pub ts_end: Bound<i64>,
}

/// The bound over byte contents.
pub open spec fn bound_view(b: Bound<Vec<u8>>) -> Bound<Seq<u8>> {
    match b {
        Bound::Included(v) => Bound::Included(v@),
        Bound::Excluded(v) => Bound::Excluded(v@),
        Bound::Unbounded => Bound::Unbounded,
    }
}

impl ScanRange {
    /// The keys from `prefix` up to the next prefix, at any time.
    pub fn prefix(p: &str) -> (r: Self)
        ensures
            bound_view(r.key_start) == Bound::Included(p.spec_bytes()),
            bound_view(r.key_end) == Bound::Excluded(prefix_end(p.spec_bytes())),
            r.ts_start == Bound::<i64>::Unbounded,
            r.ts_end == Bound::<i64>::Unbounded,
    {
        let bytes = copy_bytes(p.as_bytes());
        let end = increment_prefix_bytes(&bytes);
        Self {
            key_start: Bound::Included(bytes),
            key_end: Bound::Excluded(end),
            ts_start: Bound::Unbounded,
            ts_end: Bound::Unbounded,
        }
    }

    /// Every key, at the times from `start` to `end`.
    pub fn time_range(start: i64, end: i64) -> (r: Self)
        ensures
            bound_view(r.key_start) == Bound::<Seq<u8>>::Unbounded,
            bound_view(r.key_end) == Bound::<Seq<u8>>::Unbounded,
            r.ts_start == Bound::Included(start),
            r.ts_end == Bound::Included(end),
    {
        Self {
            key_start: Bound::Unbounded,
            key_end: Bound::Unbounded,
            ts_start: Bound::Included(start),
            ts_end: Bound::Included(end),
        }
    }

    /// The keys from `prefix` up to the next prefix, at the times from
    /// `ts_start` to `ts_end`.
    pub fn prefix_time_range(p: &str, ts_start: i64, ts_end: i64) -> (r: Self)
        ensures
            bound_view(r.key_start) == Bound::Included(p.spec_bytes()),
            bound_view(r.key_end) == Bound::Excluded(prefix_end(p.spec_bytes())),
            r.ts_start == Bound::Included(ts_start),
            r.ts_end == Bound::Included(ts_end),
    {
        let bytes = copy_bytes(p.as_bytes());
        let end = increment_prefix_bytes(&bytes);
        Self {
            key_start: Bound::Included(bytes),
            key_end: Bound::Excluded(end),
            ts_start: Bound::Included(ts_start),
            ts_end: Bound::Included(ts_end),
        }
    }

    /// The keys from `start` to `end`, both included, at any time.
    pub fn key_range(start: &str, end: &str) -> (r: Self)
        ensures
            bound_view(r.key_start) == Bound::Included(start.spec_bytes()),
            bound_view(r.key_end) == Bound::Included(end.spec_bytes()),
            r.ts_start == Bound::<i64>::Unbounded,
            r.ts_end == Bound::<i64>::Unbounded,
    {
        Self {
            key_start: Bound::Included(copy_bytes(start.as_bytes())),
            key_end: Bound::Included(copy_bytes(end.as_bytes())),
            ts_start: Bound::Unbounded,
            ts_end: Bound::Unbounded,
        }
    }

    /// The keys from `start` to `end`, both included, at the times from
    /// `ts_start` to `ts_end`.
    pub fn key_time_range(start: &str, end: &str, ts_start: i64, ts_end: i64) -> (r: Self)
        ensures
            bound_view(r.key_start) == Bound::Included(start.spec_bytes()),
            bound_view(r.key_end) == Bound::Included(end.spec_bytes()),
            r.ts_start == Bound::Included(ts_start),
            r.ts_end == Bound::Included(ts_end),
    {
        Self {
            key_start: Bound::Included(copy_bytes(start.as_bytes())),
            key_end: Bound::Included(copy_bytes(end.as_bytes())),
            ts_start: Bound::Included(ts_start),
            ts_end: Bound::Included(ts_end),
        }
    }

    /// Every key at every time.
    pub fn all() -> (r: Self)
        ensures
            bound_view(r.key_start) == Bound::<Seq<u8>>::Unbounded,
            bound_view(r.key_end) == Bound::<Seq<u8>>::Unbounded,
            r.ts_start == Bound::<i64>::Unbounded,
            r.ts_end == Bound::<i64>::Unbounded,
    {
        Self {
            key_start: Bound::Unbounded,
            key_end: Bound::Unbounded,
            ts_start: Bound::Unbounded,
            ts_end: Bound::Unbounded,
        }
    }

    /// The key filter that the key bounds stand for. A half-open range is read
    /// as a prefix where its end is the next prefix, else as a range; any
    /// other pair of bounds filters no key.
    pub open spec fn key_filter(self) -> KeyFilterView {
        match (bound_view(self.key_start), bound_view(self.key_end)) {
            (Bound::Included(s), Bound::Excluded(e)) => if e == prefix_end(s) {
                KeyFilterView::Prefix(s)
            } else {
                KeyFilterView::Range { start: s, end: e }
            },
            (Bound::Included(s), Bound::Included(e)) => KeyFilterView::Range { start: s, end: e },
            _ => KeyFilterView::All,
        }
    }

    /// The time range that the time bounds stand for: both ends included, or
    /// none.
    pub open spec fn times(self) -> Option<(i64, i64)> {
        match (self.ts_start, self.ts_end) {
            (Bound::Included(s), Bound::Included(e)) => Some((s, e)),
            _ => None,
        }
    }

    /// The key filter and time range of the scan.
    pub fn to_query_params(&self) -> (r: (KeyFilter, Option<(i64, i64)>))
        ensures
            r.0@ == self.key_filter(),
            r.1 == self.times(),
    {
        let kf = match (&self.key_start, &self.key_end) {
            (Bound::Included(s), Bound::Excluded(e)) => {
                if is_prefix_range(s, e) {
                    KeyFilter::Prefix(copy_bytes(s))
                } else {
                    KeyFilter::Range { start: copy_bytes(s), end: copy_bytes(e) }
                }
            },
            (Bound::Included(s), Bound::Included(e)) => {
                KeyFilter::Range { start: copy_bytes(s), end: copy_bytes(e) }
            },
            _ => KeyFilter::All,
        };
        let tr = match (&self.ts_start, &self.ts_end) {
            (Bound::Included(s), Bound::Included(e)) => Some((*s, *e)),
            _ => None,
        };
        (kf, tr)
    }
}

/// The least byte string after every string that begins with `key`, if there
/// is one: trailing `0xff` bytes are dropped and the last byte left is raised
/// by one.
pub open spec fn next_prefix(key: Seq<u8>) -> Option<Seq<u8>>
    decreases key.len(),
{
    if key.len() == 0 {
        None
    } else if key.last() < 255 {
        Some(key.drop_last().push((key.last() + 1) as u8))
    } else {
        next_prefix(key.drop_last())
    }
}

/// The end of the range of keys that begin with `key`. Where no next prefix
/// exists, that is where `key` is empty or all its bytes are `0xff`, a zero
/// byte is appended instead.
pub open spec fn prefix_end(key: Seq<u8>) -> Seq<u8> {
    match next_prefix(key) {
        Some(end) => end,
        None => key.push(0),
    }
}

/// The end of the range of keys that begin with `key`.
pub fn increment_prefix_bytes(key: &[u8]) -> (r: Vec<u8>)
    ensures
        r@ == prefix_end(key@),
{
    let mut n: usize = key.len();
    assert(key@.take(n as int) =~= key@);
    while n > 0
        invariant
            n <= key@.len(),
            next_prefix(key@) == next_prefix(key@.take(n as int)),
        decreases n,
    {
        assert(key@.take(n as int).drop_last() =~= key@.take(n - 1));
        let last: u8 = key[n - 1];
        if last < 255 {
            let mut bytes = copy_bytes(vstd::slice::slice_subrange(key, 0, n - 1));
            bytes.push(last + 1);
            assert(key@.take(n - 1) =~= key@.subrange(0, n - 1));
            return bytes;
        }
        n -= 1;
    }
    let mut sentinel = copy_bytes(key);
    sentinel.push(0);
    sentinel
}

/// Whether the range from `start` up to `end` is that of a prefix.
pub fn is_prefix_range(start: &[u8], end: &[u8]) -> (r: bool)
    ensures
        r == (end@ == prefix_end(start@)),
{
    let next = increment_prefix_bytes(start);
    bytes_eq(end, &next)
}

/// The keys from a prefix up to the next prefix are those that begin with it.
pub proof fn law_prefix_range(prefix: Seq<u8>, key: Seq<u8>)
    requires
        next_prefix(prefix) is Some,
    ensures
        bytes::has_prefix(key, prefix) <==> bytes::lex_le(prefix, key) && bytes::lex_lt(key, prefix_end(prefix)),
{
    let end = prefix_end(prefix);
    lemma_next_prefix_shape(prefix);
    let n = end.len() - 1;
    assert(prefix.take(n) == end.take(n));
    if bytes::has_prefix(key, prefix) {
        assert(key.subrange(0, n) =~= key.subrange(0, prefix.len() as int).subrange(0, n));
        assert(prefix.subrange(0, n) =~= prefix.take(n));
        assert(end.subrange(0, n) =~= end.take(n));
        bytes::lemma_lex_skip(key, end, n);
        assert(key[n] == key.subrange(0, prefix.len() as int)[n]);
        lemma_prefix_le(prefix, key);
    } else if bytes::lex_le(prefix, key) && bytes::lex_lt(key, end) {
        lemma_between_prefix(prefix, end, key, n);
    }
}

/// What the next prefix is made of: a part that it shares with `key`, and one
/// byte that is one more than the byte of `key` there; all bytes of `key` after
/// that are `0xff`.
proof fn lemma_next_prefix_shape(key: Seq<u8>)
    requires
        next_prefix(key) is Some,
    ensures
        ({
            let end = next_prefix(key)->0;
            let n = end.len() - 1;
            &&& 0 <= n < key.len()
            &&& end.take(n) == key.take(n)
            &&& end[n] == key[n] + 1
            &&& forall|i: int| n < i < key.len() ==> key[i] == 255
        }),
    decreases key.len(),
{
    let end = next_prefix(key)->0;
    if key.last() < 255 {
        assert(end.take(end.len() - 1) =~= key.take(end.len() - 1));
    } else {
        let front = key.drop_last();
        lemma_next_prefix_shape(front);
        let n = end.len() - 1;
        assert(key.take(n) =~= front.take(n));
        assert(key[n] == front[n]);
        assert forall|i: int| n < i < key.len() implies key[i] == 255 by {
            if i < front.len() {
                assert(key[i] == front[i]);
            }
        }
    }
}

/// A string that begins with `prefix` does not come before it.
pub proof fn lemma_prefix_le(prefix: Seq<u8>, key: Seq<u8>)
    requires
        bytes::has_prefix(key, prefix),
    ensures
        bytes::lex_le(prefix, key),
{
    assert(prefix.subrange(0, prefix.len() as int) =~= prefix);
    bytes::lemma_lex_skip(prefix, key, prefix.len() as int);
    if key.len() == prefix.len() {
        assert(key.subrange(0, prefix.len() as int) =~= key);
    }
}

/// A string that lies from `prefix` up to `end` begins with `prefix`.
proof fn lemma_between_prefix(prefix: Seq<u8>, end: Seq<u8>, key: Seq<u8>, n: int)
    requires
        0 <= n < prefix.len(),
        end.len() == n + 1,
        end.take(n) == prefix.take(n),
        end[n] == prefix[n] + 1,
        forall|i: int| n < i < prefix.len() ==> prefix[i] == 255,
        bytes::lex_le(prefix, key),
        bytes::lex_lt(key, end),
    ensures
        bytes::has_prefix(key, prefix),
    decreases prefix.len(),
{
    bytes::lemma_lex_total(prefix, key);
    if prefix == key {
        assert(key.subrange(0, prefix.len() as int) =~= key);
    } else if n > 0 {
        assert(end.take(n)[0] == end[0] && prefix.take(n)[0] == prefix[0]);
        let p = prefix.drop_first();
        let e = end.drop_first();
        assert(key[0] == prefix[0]);
        assert(e.take(n - 1) =~= end.take(n).drop_first());
        assert(p.take(n - 1) =~= prefix.take(n).drop_first());
        lemma_between_prefix(p, e, key.drop_first(), n - 1);
        lemma_prefix_cons(key, prefix);
    } else {
        reveal_with_fuel(bytes::lex_lt, 2);
        lemma_all_ff(prefix.drop_first(), key.drop_first());
        lemma_prefix_cons(key, prefix);
    }
}

proof fn lemma_prefix_cons(key: Seq<u8>, prefix: Seq<u8>)
    requires
        key.len() > 0,
        prefix.len() > 0,
        key[0] == prefix[0],
        bytes::has_prefix(key.drop_first(), prefix.drop_first()),
    ensures
        bytes::has_prefix(key, prefix),
{
    let n = prefix.len() as int;
    let k = key.drop_first();
    let p = prefix.drop_first();
    assert forall|i: int| 0 <= i < n implies key.subrange(0, n)[i] == prefix[i] by {
        if i > 0 {
            assert(k.subrange(0, n - 1)[i - 1] == p[i - 1]);
        }
    }
    assert(key.subrange(0, n) =~= prefix);
}

/// What is not before a string of `0xff` bytes begins with it.
proof fn lemma_all_ff(p: Seq<u8>, key: Seq<u8>)
    requires
        forall|i: int| 0 <= i < p.len() ==> p[i] == 255,
    ensures
        bytes::lex_le(p, key) ==> bytes::has_prefix(key, p),
    decreases p.len(),
{
    if p.len() == 0 {
        assert(key.subrange(0, 0) =~= p);
    } else if bytes::lex_le(p, key) {
        if p == key {
            assert(key.subrange(0, p.len() as int) =~= p);
        } else {
            assert(p[0] == 255);
            assert(key[0] == 255);
            lemma_all_ff(p.drop_first(), key.drop_first());
            lemma_prefix_cons(key, p);
        }
    }
}

/// Where a prefix has no next prefix, the range that stands for it holds the
/// prefix itself and no other key.
pub proof fn law_prefix_range_without_next(prefix: Seq<u8>, key: Seq<u8>)
    requires
        next_prefix(prefix) is None,
    ensures
        bytes::lex_le(prefix, key) && bytes::lex_lt(key, prefix_end(prefix)) <==> key == prefix,
{
    let n = prefix.len() as int;
    let end = prefix.push(0);
    bytes::lemma_lex_irreflexive(prefix);
    assert(end.subrange(0, n) =~= prefix.subrange(0, n));
    bytes::lemma_lex_skip(prefix, end, n);
    lemma_nothing_between(prefix, key);
}

/// Nothing lies between a string and the string with a zero byte appended.
proof fn lemma_nothing_between(a: Seq<u8>, key: Seq<u8>)
    ensures
        !(bytes::lex_lt(a, key) && bytes::lex_lt(key, a.push(0))),
    decreases a.len(),
{
    reveal_with_fuel(bytes::lex_lt, 2);
    if a.len() > 0 && key.len() > 0 {
        assert(a.push(0).drop_first() =~= a.drop_first().push(0));
        lemma_nothing_between(a.drop_first(), key.drop_first());
    }
}

/// What a scan over a range lets in. No key between the bounds is left out, and no time;
/// with both ends included no other key is let in, and of the times none; and a range
/// up to the next prefix lets in the keys with the prefix alone.
pub proof fn law_scan_range(range: ScanRange, key: Seq<u8>, ts: i64)
    ensures
        (range.ts_start matches Bound::Included(start) ==> range.ts_end matches Bound::Included(end)
            ==> (memtable::admits_ts(range.times(), ts) <==> start <= ts <= end)),
        (bound_view(range.key_start) matches Bound::Included(start) ==> bound_view(
            range.key_end,
        ) matches Bound::Included(end) ==> (memtable::admits_key(range.key_filter(), key) <==> (
        key == start || bytes::lex_lt(start, key)) && (key == end || bytes::lex_lt(key, end)))),
        (bound_view(range.key_start) matches Bound::Included(start) ==> bound_view(
            range.key_end,
        ) matches Bound::Excluded(end) ==> end == prefix_end(start) ==> (memtable::admits_key(
            range.key_filter(),
            key,
        ) <==> exists|rest: Seq<u8>| key == #[trigger] (start + rest))),
        (bound_view(range.key_start) matches Bound::Included(start) ==> bound_view(
            range.key_end,
        ) matches Bound::Excluded(end) ==> end != prefix_end(start) ==> bytes::lex_le(start, key)
            && bytes::lex_lt(key, end) ==> memtable::admits_key(range.key_filter(), key)),
        bound_view(range.key_start) == Bound::<Seq<u8>>::Unbounded && bound_view(range.key_end)
            == Bound::<Seq<u8>>::Unbounded ==> memtable::admits_key(range.key_filter(), key),
        range.ts_start == Bound::<i64>::Unbounded && range.ts_end == Bound::<i64>::Unbounded
            ==> memtable::admits_ts(range.times(), ts),
{
    if let Bound::Included(start) = bound_view(range.key_start) {
        bytes::law_prefix(key, start);
    }
}

/// A configuration is valid where every size, interval and limit is above zero, and the
/// default one is valid.
pub proof fn law_valid_config(config: Config)
    ensures
        config.zero_field() is None <==> config.gc_interval_secs > 0 && config.memtable_size_mb > 0
            && config.max_frozen_memtables > 0 && config.block_size > 0 && config.flush_interval_ms
            > 0 && config.time_bucket_secs > 0 && config.index_memory_budget_mb > 0
            && config.block_cache_capacity_mb > 0 && config.wal_segment_size_mb > 0
            && config.compaction_threshold > 0,
        config.is_default() ==> config.zero_field() is None,
{
}

/// There is no next prefix exactly where no byte can be counted up: all are the greatest.
pub proof fn law_no_next_prefix(prefix: Seq<u8>)
    ensures
        next_prefix(prefix) is None <==> forall|i: int|
            0 <= i < prefix.len() ==> #[trigger] prefix[i] == 255,
    decreases prefix.len(),
{
    if prefix.len() > 0 {
        let front = prefix.drop_last();
        law_no_next_prefix(front);
        assert(prefix[prefix.len() - 1] == prefix.last());
        assert forall|i: int| 0 <= i < front.len() implies #[trigger] prefix[i] == front[i] by {}
        if next_prefix(front) is Some {
            let i = choose|i: int| 0 <= i < front.len() && #[trigger] front[i] != 255;
            assert(prefix[i] != 255);
        }
    }
}

/// The end of the range of a prefix is above every key that begins with it, and a range is
/// one of a prefix exactly where it ends there.
pub proof fn law_prefix_ended(prefix: &[u8], key: Seq<u8>, end: Vec<u8>, other: &[u8], is: bool)
    requires
        call_ensures(increment_prefix_bytes, (prefix,), end),
        call_ensures(is_prefix_range, (prefix, other), is),
    ensures
        is <==> other@ == end@,
        (exists|i: int| 0 <= i < prefix@.len() && #[trigger] prefix@[i] != 255) ==> (
        prefix@.is_prefix_of(key) <==> bytes::lex_le(prefix@, key) && bytes::lex_lt(key, end@)),
        bytes::lex_lt(prefix@, end@),
{
    law_no_next_prefix(prefix@);
    bytes::law_prefix(key, prefix@);
    if next_prefix(prefix@) is Some {
        law_prefix_range(prefix@, key);
        law_prefix_range(prefix@, prefix@);
        bytes::law_prefix(prefix@, prefix@);
        assert(prefix@ + Seq::<u8>::empty() =~= prefix@);
    } else {
        law_prefix_range_without_next(prefix@, prefix@);
    }
}

/// What is set where nothing is set: records do not expire, and the store makes its
/// directory, writes its log at once and works in the background.
pub proof fn law_default_settings(config: Config)
    requires
        call_ensures(<Config as Default>::default, (), config),
    ensures
        config.data_dir@ == "./data"@ && config.default_ttl_secs is None,
        config.gc_interval_secs == 3600 && config.time_bucket_secs == 3600,
        config.memtable_size_mb == 64 && config.max_frozen_memtables == 2,
        config.block_size == 8192 && config.zstd_level == 3 && config.bloom_bits_per_key == 10,
        config.flush_interval_ms == 1000 && config.compaction_threshold == 2,
        config.index_memory_budget_mb == 256 && config.block_cache_capacity_mb == 128,
        config.wal_segment_size_mb == 64,
        config.create_if_missing && config.auto_background && config.wal_sync_mode
            == SyncMode::Always,
{
}

} // verus!
