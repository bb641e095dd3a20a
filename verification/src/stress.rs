//! The workloads of the throughput test.

use vstd::prelude::*;
use vstd::string::*;
use crate::bytes::copy_bytes;
use crate::record;
use crate::record::{Config, Record, RecordView, SyncMode};
use crate::text;
use crate::text::{decimal, decimal_padded, join};

verus! {

/// The configuration for the test: small memtables, so that there is something to
/// flush.
pub fn stress_config(data_dir: &str) -> (r: Config)
    ensures
        r.data_dir@ == data_dir@,
        r.default_ttl_secs is None,
        r.gc_interval_secs == 999999,
        r.memtable_size_mb == 4,
        r.max_frozen_memtables == 4,
        r.block_size == 4096,
        r.zstd_level == 1,
        r.flush_interval_ms == 60000,
        r.time_bucket_secs == 3600,
        r.index_memory_budget_mb == 64,
        r.block_cache_capacity_mb == 64,
        r.bloom_bits_per_key == 10,
        r.wal_segment_size_mb == 64,
        r.compaction_threshold == 2,
        r.create_if_missing,
        r.wal_sync_mode == SyncMode::Always,
        r.auto_background,
{
    Config {
        data_dir: data_dir.to_owned(),
        default_ttl_secs: None,
        gc_interval_secs: 999999,
        memtable_size_mb: 4,
        max_frozen_memtables: 4,
        block_size: 4096,
        zstd_level: 1,
        flush_interval_ms: 60000,
        time_bucket_secs: 3600,
        index_memory_budget_mb: 64,
        block_cache_capacity_mb: 64,
        bloom_bits_per_key: 10,
        wal_segment_size_mb: 64,
        compaction_threshold: 2,
        create_if_missing: true,
        wal_sync_mode: SyncMode::Always,
        auto_background: true,
    }
}

/// A record of the test: its key, its number, and a value of one byte repeated.
pub open spec fn sample(key: Seq<char>, number: int, fill: u8, value_len: nat) -> RecordView {
    RecordView {
        key: text::utf8(key),
        ts: (number * 100) as i64,
        expire_at: i64::MAX,
        value: Seq::new(value_len, |i: int| fill),
    }
}

fn sample_record(key: &String, number: u64, fill: u8, value_len: usize) -> (r: Record)
    requires
        number * 100 <= i64::MAX,
    ensures
        r@ == sample(key@, number as int, fill, value_len as nat),
{
    let mut value: Vec<u8> = Vec::new();
    let mut i: usize = 0;
    while i < value_len
        invariant
            i <= value_len,
            value@ == Seq::new(i as nat, |k: int| fill),
        decreases value_len - i,
    {
        value.push(fill);
        assert(value@ =~= Seq::new((i + 1) as nat, |k: int| fill));
        i += 1;
    }
    Record {
        key: copy_bytes(key.as_str().as_bytes()),
        ts: number as i64 * 100,
        expire_at: i64::MAX,
        value,
    }
}

/// The key of a record that a single writer writes.
pub open spec fn sequential_key(number: nat) -> Seq<char> {
    "seq_"@ + text::zero_padded(text::decimal_text(number), 8)
}

/// The key of a record that one of several writers writes.
pub open spec fn worker_key(worker: nat, number: nat) -> Seq<char> {
    "cw"@ + text::decimal_text(worker) + "_"@ + text::decimal_text(number)
}

/// The key of a record of the mixed workload.
pub open spec fn mixed_key(worker: nat, number: nat) -> Seq<char> {
    "mix"@ + text::decimal_text(worker) + "_"@ + text::decimal_text(number)
}

/// How many of `total` records a batch from `start` on has.
pub open spec fn batch_len(start: u64, total: u64, batch_size: usize) -> int {
    if start >= total {
        0
    } else if total - start < batch_size {
        total - start
    } else {
        batch_size as int
    }
}

fn count_batch(start: u64, total: u64, batch_size: usize) -> (r: u64)
    ensures
        r == batch_len(start, total, batch_size),
{
    if start >= total {
        0
    } else if total - start < batch_size as u64 {
        total - start
    } else {
        batch_size as u64
    }
}

/// The batch from `start` on of the `total` records that a single writer writes.
pub fn sequential_batch(start: u64, total: u64, batch_size: usize, value_len: usize) -> (r: Vec<
    Record,
>)
    requires
        total * 100 <= i64::MAX,
    ensures
        record::record_views(r@) == Seq::new(
            batch_len(start, total, batch_size) as nat,
            |i: int|
                sample(
                    sequential_key((start + i) as nat),
                    start + i,
                    0xab,
                    value_len as nat,
                ),
        ),
{
    let count: u64 = count_batch(start, total, batch_size);
    let mut out: Vec<Record> = Vec::new();
    let mut i: u64 = 0;
    while i < count
        invariant
            i <= count,
            count == batch_len(start, total, batch_size),
            total * 100 <= i64::MAX,
            out@.len() == i,
            forall|k: int|
                0 <= k < i ==> (#[trigger] out@[k])@ == sample(
                    sequential_key((start + k) as nat),
                    start + k,
                    0xab,
                    value_len as nat,
                ),
        decreases count - i,
    {
        let digits = decimal_padded(start + i, 8);
        let key = join("seq_", digits.as_str());
        out.push(sample_record(&key, start + i, 0xab, value_len));
        i += 1;
    }
    assert(record::record_views(out@) =~= Seq::new(
        count as nat,
        |i: int|
            sample(sequential_key((start + i) as nat), start + i, 0xab, value_len as nat),
    ));
    out
}

fn two_numbers(front: &str, a: u64, b: u64) -> (r: String)
    ensures
        r@ == front@ + text::decimal_text(a as nat) + "_"@ + text::decimal_text(b as nat),
{
    let first = decimal(a);
    let second = decimal(b);
    let x = join(front, first.as_str());
    let y = join(x.as_str(), "_");
    join(y.as_str(), second.as_str())
}

/// The batch from `start` on of the `total` records that several writers write.
pub fn worker_batch(
    worker: u64,
    start: u64,
    total: u64,
    batch_size: usize,
    value_len: usize,
) -> (r: Vec<Record>)
    requires
        total * 100 <= i64::MAX,
    ensures
        record::record_views(r@) == Seq::new(
            batch_len(start, total, batch_size) as nat,
            |i: int|
                sample(
                    worker_key(worker as nat, (start + i) as nat),
                    start + i,
                    0xcd,
                    value_len as nat,
                ),
        ),
{
    let count: u64 = count_batch(start, total, batch_size);
    let mut out: Vec<Record> = Vec::new();
    let mut i: u64 = 0;
    while i < count
        invariant
            i <= count,
            count == batch_len(start, total, batch_size),
            total * 100 <= i64::MAX,
            out@.len() == i,
            forall|k: int|
                0 <= k < i ==> (#[trigger] out@[k])@ == sample(
                    worker_key(worker as nat, (start + k) as nat),
                    start + k,
                    0xcd,
                    value_len as nat,
                ),
        decreases count - i,
    {
        let key = two_numbers("cw", worker, start + i);
        out.push(sample_record(&key, start + i, 0xcd, value_len));
        i += 1;
    }
    assert(record::record_views(out@) =~= Seq::new(
        count as nat,
        |i: int|
            sample(
                worker_key(worker as nat, (start + i) as nat),
                start + i,
                0xcd,
                value_len as nat,
            ),
    ));
    out
}

/// An operation of the mixed workload.
#[derive(Debug)]
pub enum MixedOp {
    /// A record is written.
    Write(Record),
    /// The keys that begin so are queried.
    Read(String),
}

/// Operation `i` of a worker of the mixed workload, of whose operations the first
/// `writes` write.
pub fn mixed_op(worker: u64, i: u64, writes: u64, value_len: usize) -> (r: MixedOp)
    requires
        i * 100 <= i64::MAX,
    ensures
        if i < writes {
            r matches MixedOp::Write(rec) && rec@ == sample(
                mixed_key(worker as nat, i as nat),
                i as int,
                0xef,
                value_len as nat,
            )
        } else {
            r matches MixedOp::Read(prefix) && prefix@ == mixed_key(
                worker as nat,
                (i % 10) as nat,
            )
        },
{
    if i < writes {
        let key = two_numbers("mix", worker, i);
        MixedOp::Write(sample_record(&key, i, 0xef, value_len))
    } else {
        MixedOp::Read(two_numbers("mix", worker, i % 10))
    }
}

/// The batches of a workload cover it: a batch is as long as asked for unless fewer
/// records are left, it goes to no record behind the last, and there is none where no
/// record is left.
pub proof fn law_batches_cover(start: u64, total: u64, batch_size: usize)
    ensures
        0 <= batch_len(start, total, batch_size) <= batch_size,
        start <= total ==> start + batch_len(start, total, batch_size) <= total,
        start < total && batch_size > 0 ==> batch_len(start, total, batch_size) > 0,
        start <= total && start + batch_len(start, total, batch_size) < total ==> batch_len(
            start,
            total,
            batch_size,
        ) == batch_size,
{
}

/// The records of a batch follow one another: each has the time of its number, a value of
/// the asked length, and does not expire, and batches from where the last one ended cover
/// all records.
pub proof fn law_batch_made(
    start: u64,
    total: u64,
    size: usize,
    len: usize,
    worker: u64,
    r: Vec<Record>,
    w: Vec<Record>,
    i: int,
)
    requires
        total * 100 <= i64::MAX,
        call_ensures(sequential_batch, (start, total, size, len), r),
        call_ensures(worker_batch, (worker, start, total, size, len), w),
    ensures
        r.len() == w.len(),
        r.len() <= size,
        start <= total ==> start + r.len() <= total,
        start < total && size > 0 ==> r.len() > 0,
        0 <= i < r.len() ==> {
            &&& r@[i]@.ts == (start + i) * 100 && w@[i]@.ts == (start + i) * 100
            &&& r@[i]@.value.len() == len && w@[i]@.value.len() == len
            &&& r@[i]@.expire_at == i64::MAX && w@[i]@.expire_at == i64::MAX
        },
{
    law_batches_cover(start, total, size);
    let a = record::record_views(r@);
    let b = record::record_views(w@);
    assert(a.len() == r.len() && b.len() == w.len());
    if 0 <= i < r.len() {
        assert(a[i] == r@[i]@ && b[i] == w@[i]@);
    }
}

/// The keys of a batch stand in the order of their numbers' texts, and different numbers
/// have different keys.
pub proof fn law_keys_apart(m: nat, n: nat)
    ensures
        sequential_key(m) == sequential_key(n) ==> m == n,
        sequential_key(m).len() >= 12,
{
    reveal_strlit("seq_");
    let a = text::zero_padded(text::decimal_text(m), 8);
    let b = text::zero_padded(text::decimal_text(n), 8);
    text::law_digits_read_back(m, 10);
    text::law_digits_read_back(n, 10);
    text::law_zero_padded(text::decimal_text(m), 8, 10);
    text::law_zero_padded(text::decimal_text(n), 8, 10);
    assert(sequential_key(m).skip(4) =~= a);
    assert(sequential_key(n).skip(4) =~= b);
}

/// A mixed workload writes first, one record at each step, and reads what the first ten
/// steps wrote then.
pub proof fn law_mixed_reads_written(
    worker: u64,
    i: u64,
    writes: u64,
    len: usize,
    r: MixedOp,
    first: MixedOp,
)
    requires
        i * 100 <= i64::MAX,
        writes >= 10,
        call_ensures(mixed_op, (worker, i, writes, len), r),
        call_ensures(mixed_op, (worker, (i % 10) as u64, writes, len), first),
    ensures
        r is Write <==> i < writes,
        r matches MixedOp::Write(rec) ==> rec@.ts == i * 100 && rec@.value.len() == len,
        r matches MixedOp::Read(prefix) ==> (first matches MixedOp::Write(rec) && rec@.key
            == text::utf8(prefix@)),
{
}

/// The configuration of the stress run is accepted.
pub proof fn law_stress_config_accepted(
    data_dir: &str,
    config: &Config,
    r: Result<(), crate::error::FlowError>,
)
    requires
        call_ensures(stress_config, (data_dir,), *config),
        call_ensures(Config::validate, (config,), r),
    ensures
        r is Ok,
        config.data_dir@ == data_dir@,
{
    record::law_valid_config(*config);
}

} // verus!
