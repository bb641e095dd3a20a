//! What the calls of the parts of the store promise: what is written is read back, where
//! it stands, what a filter and the cache tell, and what is counted.

use std::sync::Arc;
use vstd::prelude::*;
use vstd::string::*;
use crate::bloom;
use crate::bloom::BloomFilter;
use crate::bytes;
use crate::cache;
use crate::cache::{BlockCache, CacheKey};
use crate::codec;
use crate::error::FlowError;
use crate::gc;
use crate::gc::GcPlan;
use crate::lookup;
use crate::lookup::{Lookup, LookupView, Table};
use crate::manifest::{BlockInfo, ManifestState};
use crate::record;
use crate::record::{InternalRecord, InternalRecordView, Op};
use crate::scan;
use crate::sort;
use crate::sort::SortOrder;
use crate::sstable;
use crate::sstable::{BlockHeader, SstFile, SstReader, SstWriter, TimeSpan, HEADER_SIZE};
use crate::stats::StatsCounters;
use crate::text;
use crate::versions;
use crate::wal;
use crate::wal::{Wal, WalTruncation, WalWrite};

verus! {

/// A number whose bytes stand with the most significant first is 256 times that of all but
/// the last, and the last; one whose bytes stand with the least significant first is the
/// first and 256 times that of the others.
pub proof fn law_number_of_bytes(s: Seq<u8>, byte: u8)
    ensures
        bytes::be_nat(Seq::empty()) == 0,
        bytes::be_nat(s.push(byte)) == 256 * bytes::be_nat(s) + byte,
        bytes::le_nat(Seq::empty()) == 0,
        bytes::le_nat(seq![byte] + s) == byte + 256 * bytes::le_nat(s),
{
    assert(s.push(byte).drop_last() =~= s);
    assert((seq![byte] + s).drop_first() =~= s);
}

/// A signed number and the unsigned one that stands for it differ by a multiple of 2^64.
pub proof fn law_signed_number(x: u64, y: i64, signed: i64, unsigned: u64)
    requires
        call_ensures(bytes::u64_to_i64, (x,), signed),
        call_ensures(bytes::i64_to_u64, (y,), unsigned),
    ensures
        signed == x || signed == x - 0x1_0000_0000_0000_0000,
        unsigned == y || unsigned == y + 0x1_0000_0000_0000_0000,
        signed == y <==> unsigned == x,
{
}

/// What is pushed as a number is read back where it stands, and what stood before stays.
pub proof fn law_number_read_back(
    buf: &mut Vec<u8>,
    x: u64,
    n: usize,
    data: &[u8],
    back: u64,
)
    requires
        call_ensures(bytes::push_be, (buf, x, n), ()),
        data@ == final(buf)@,
        call_ensures(bytes::read_be, (data, old(buf).len(), n), back),
        n == 2 && x < 0x1_0000 || n == 4 && x < 0x1_0000_0000 || n == 8,
    ensures
        final(buf)@.len() == old(buf)@.len() + n,
        old(buf)@.is_prefix_of(final(buf)@),
        back == x,
{
    bytes::lemma_pow256_values();
    bytes::lemma_be_bytes_len(x as nat, n as nat);
    bytes::lemma_be_round_trip(x as nat, n as nat);
    assert(data@.subrange(old(buf).len() as int, old(buf).len() + n) =~= bytes::be_bytes(
        x as nat,
        n as nat,
    ));
}

/// Where the parts of a header stand.
proof fn lemma_header_at(s: Seq<u8>, h: BlockHeader)
    requires
        BlockHeader::decoded(s) == Some(h),
    ensures
        bytes::be_nat(s.subrange(4, 8)) as u32 == h.num_records,
        bytes::untwos(bytes::be_nat(s.subrange(8, 16))) as i64 == h.min_ts,
        bytes::untwos(bytes::be_nat(s.subrange(16, 24))) as i64 == h.max_ts,
        bytes::untwos(bytes::be_nat(s.subrange(24, 32))) as i64 == h.min_expire,
        bytes::untwos(bytes::be_nat(s.subrange(32, 40))) as i64 == h.max_expire,
        bytes::be_nat(s.subrange(40, 44)) as u32 == h.data_len,
        bytes::be_nat(s.subrange(44, 48)) as u32 == h.compressed_len,
        bytes::be_nat(s.subrange(0, 4)) == 0x5A53_4E42 <==> h.is_zstd,
        bytes::be_nat(s.subrange(0, 4)) == 0x5453_4E42 <==> !h.is_zstd,
{
}

/// A header is read back, whatever follows it. It begins with the number of its
/// compression; behind that stand the count of the records, the bounds of their times and
/// expiries, and the lengths of the data before and after compression.
pub proof fn law_header_told(
    header: &BlockHeader,
    r: [u8; HEADER_SIZE],
    rest: Seq<u8>,
    data: &[u8],
    back: Result<BlockHeader, FlowError>,
)
    requires
        call_ensures(BlockHeader::to_bytes, (header,), r),
        data@ == r@ + rest,
        call_ensures(BlockHeader::from_bytes, (data,), back),
    ensures
        back matches Ok(h) && h == *header,
        bytes::be_nat(data@.subrange(4, 8)) as u32 == header.num_records,
        bytes::untwos(bytes::be_nat(data@.subrange(8, 16))) as i64 == header.min_ts,
        bytes::untwos(bytes::be_nat(data@.subrange(16, 24))) as i64 == header.max_ts,
        bytes::untwos(bytes::be_nat(data@.subrange(24, 32))) as i64 == header.min_expire,
        bytes::untwos(bytes::be_nat(data@.subrange(32, 40))) as i64 == header.max_expire,
        bytes::be_nat(data@.subrange(40, 44)) as u32 == header.data_len,
        bytes::be_nat(data@.subrange(44, 48)) as u32 == header.compressed_len,
        bytes::be_nat(data@.subrange(0, 4)) == 0x5A53_4E42 <==> header.is_zstd,
        bytes::be_nat(data@.subrange(0, 4)) == 0x5453_4E42 <==> !header.is_zstd,
{
    let s = data@;
    let told = BlockHeader::decoded(s);
    assert(told == Some(*header)) by {
        sstable::law_header_read_back(*header, rest);
    }
    lemma_header_at(s, *header);
}

/// The records of a block are read back, but for their numbers.
pub proof fn law_block_read_back(
    records: &[InternalRecord],
    r: Vec<u8>,
    data: &[u8],
    back: Result<Vec<InternalRecord>, FlowError>,
    i: int,
)
    requires
        call_ensures(sstable::encode_records, (records,), r),
        data@ == r@,
        records@.len() <= u32::MAX,
        call_ensures(sstable::decode_records, (data, records@.len() as u32), back),
        forall|k: int| 0 <= k < records@.len() ==> sstable::encodable_row(
            (#[trigger] records@[k])@,
        ),
    ensures
        back matches Ok(out) && out.len() == records@.len() && (0 <= i < out.len() ==> {
            &&& out@[i]@.key == records@[i]@.key && out@[i]@.ts == records@[i]@.ts
            &&& out@[i]@.expire_at == records@[i]@.expire_at
            &&& out@[i]@.value == records@[i]@.value
            &&& out@[i]@.op == records@[i]@.op
            &&& out@[i]@.range_end == records@[i]@.range_end
        }),
{
    let rows = record::views(records@);
    assert forall|k: int| 0 <= k < rows.len() implies sstable::encodable_row(#[trigger] rows[k]) by {
        assert(rows[k] == records@[k]@);
    }
    sstable::law_rows_read_back(rows);
    if let Ok(out) = back {
        let got = record::views(out@);
        assert(got == sstable::unnumbered_rows(rows));
        assert(got.len() == out.len());
        if 0 <= i < out.len() {
            assert(got[i] == out@[i]@);
            assert(rows[i] == records@[i]@);
        }
    }
}

/// Records written one after another are written as by themselves.
pub proof fn law_blocks_joined(
    a: &[InternalRecord],
    b: &[InternalRecord],
    both: &[InternalRecord],
    x: Vec<u8>,
    y: Vec<u8>,
    z: Vec<u8>,
)
    requires
        call_ensures(sstable::encode_records, (a,), x),
        call_ensures(sstable::encode_records, (b,), y),
        call_ensures(sstable::encode_records, (both,), z),
        record::views(both@) == record::views(a@) + record::views(b@),
    ensures
        z@ == x@ + y@,
{
    codec::lemma_concat_append(
        |r: InternalRecordView| sstable::encoded_row(r),
        record::views(a@),
        record::views(b@),
    );
}

/// Where the parts of a record that is read from a block stand.
proof fn lemma_row_at(s: Seq<u8>, r: InternalRecordView, len: int)
    requires
        sstable::decoded_row(s) == Some((r, len)),
    ensures
        row_placed(s, r),
        len == 2 + r.key.len() + 23 + end_len(r) + r.value.len(),
{
    let key_end = 2int + wal::number_at(s, 0, 2);
    let range_len = wal::number_at(s, key_end + 17, 2);
    assert(r.key == s.subrange(2, key_end));
    assert(r.key.len() == key_end - 2);
    assert(range_len == end_len(r));
}

/// The length of the end of the range that a record deletes, if it deletes one.
pub open spec fn end_len(r: InternalRecordView) -> int {
    match r.range_end {
        Some(end) => end.len() as int,
        None => 0,
    }
}

/// Where the parts of a record in a block stand: the length of the key, the key, the time,
/// the expiry, the operation, the length of the end of the range, that end, the length of
/// the value, and the value.
pub open spec fn row_placed(s: Seq<u8>, r: InternalRecordView) -> bool {
    let at = 2 + r.key.len() as int;
    let end = at + 19 + end_len(r);
    &&& bytes::be_nat(s.subrange(0, 2)) == r.key.len()
    &&& s.subrange(2, at) == r.key
    &&& bytes::untwos(bytes::be_nat(s.subrange(at, at + 8))) as i64 == r.ts
    &&& bytes::untwos(bytes::be_nat(s.subrange(at + 8, at + 16))) as i64 == r.expire_at
    &&& s[at + 16] == 1 <==> r.op == Op::Delete
    &&& s[at + 16] == 2 <==> r.op == Op::DeleteRange
    &&& bytes::be_nat(s.subrange(at + 17, at + 19)) == end_len(r)
    &&& r.range_end matches Some(range_end) ==> s.subrange(at + 19, end) == range_end
    &&& bytes::be_nat(s.subrange(end, end + 4)) == r.value.len()
    &&& s.subrange(end + 4, end + 4 + r.value.len()) == r.value
}

/// The first record of a block stands at its front, part by part.
pub proof fn law_row_told(records: &[InternalRecord], r: Vec<u8>)
    requires
        call_ensures(sstable::encode_records, (records,), r),
        records@.len() > 0,
        sstable::encodable_row(records@[0]@),
    ensures
        row_placed(r@, InternalRecordView { seq: 0, ..records@[0]@ }),
{
    let rows = record::views(records@);
    let encode = |r: InternalRecordView| sstable::encoded_row(r);
    let rest = codec::concat(encode, rows.skip(1));
    let first = rows.take(1);
    assert(rows =~= first + rows.skip(1));
    codec::lemma_concat_append(encode, first, rows.skip(1));
    assert(first.drop_last() =~= Seq::<InternalRecordView>::empty());
    assert(first.last() == records@[0]@);
    assert(codec::concat(encode, first.drop_last()) =~= Seq::<u8>::empty());
    assert(codec::concat(encode, first) =~= sstable::encoded_row(records@[0]@));
    sstable::law_row_read_back(records@[0]@, rest);
    let one = sstable::unnumbered(records@[0]@);
    lemma_row_at(r@, one, sstable::encoded_row(records@[0]@).len() as int);
}

/// A record of the log is read back, whatever follows it, from behind what was there.
pub proof fn law_logged_read_back(
    rec: &InternalRecord,
    buf: &mut Vec<u8>,
    rest: Seq<u8>,
    data: &[u8],
    back: Result<Option<(InternalRecord, usize)>, FlowError>,
)
    requires
        call_ensures(wal::encode_record, (rec, buf), ()),
        wal::encodable(rec@),
        data@ == final(buf)@.skip(old(buf)@.len() as int) + rest,
        call_ensures(wal::decode_record, (data,), back),
    ensures
        old(buf)@.is_prefix_of(final(buf)@),
        back matches Ok(Some((out, len))) && out@ == rec@ && len + rest.len() == data@.len(),
{
    assert(final(buf)@.skip(old(buf)@.len() as int) =~= wal::encoded(rec@));
    wal::law_record_read_back(rec@, rest);
}

/// Where the parts of a record in the log stand: the number, the operation, the length of
/// the key, the key, the time, the expiry, the length of the end of the range, that end,
/// the length of the value, and the value.
pub open spec fn logged_placed(s: Seq<u8>, r: InternalRecordView) -> bool {
    let at = 11 + r.key.len() as int;
    let end = at + 20 + end_len(r);
    &&& bytes::be_nat(s.subrange(0, 8)) as u64 == r.seq
    &&& s[8] == 1 <==> r.op == Op::Delete
    &&& s[8] == 2 <==> r.op == Op::DeleteRange
    &&& bytes::be_nat(s.subrange(9, 11)) == r.key.len()
    &&& s.subrange(11, at) == r.key
    &&& bytes::untwos(bytes::be_nat(s.subrange(at, at + 8))) as i64 == r.ts
    &&& bytes::untwos(bytes::be_nat(s.subrange(at + 8, at + 16))) as i64 == r.expire_at
    &&& bytes::be_nat(s.subrange(at + 16, at + 20)) == end_len(r)
    &&& r.range_end matches Some(range_end) ==> s.subrange(at + 20, end) == range_end
    &&& bytes::be_nat(s.subrange(end, end + 4)) == r.value.len()
    &&& s.subrange(end + 4, end + 4 + r.value.len()) == r.value
}

proof fn lemma_logged_at(s: Seq<u8>, r: InternalRecordView, len: int)
    requires
        wal::decoded(s) == Some((r, len)),
    ensures
        logged_placed(s, r),
{
    let key_end = 11int + wal::number_at(s, 9, 2);
    let range_len = wal::number_at(s, key_end + 16, 4);
    assert(r.key == s.subrange(11, key_end));
    assert(r.key.len() == key_end - 11);
    assert(range_len == end_len(r));
}

/// A record that is written to the log stands there part by part.
pub proof fn law_logged_told(rec: &InternalRecord, buf: &mut Vec<u8>)
    requires
        call_ensures(wal::encode_record, (rec, buf), ()),
        wal::encodable(rec@),
    ensures
        logged_placed(final(buf)@.skip(old(buf)@.len() as int), rec@),
{
    let s = final(buf)@.skip(old(buf)@.len() as int);
    assert(s =~= wal::encoded(rec@) + Seq::<u8>::empty());
    wal::law_record_read_back(rec@, Seq::empty());
    lemma_logged_at(s, rec@, s.len() as int);
}

/// A batch that is sealed for the log is replayed as it was, in the order of the numbers,
/// but for what has been flushed.
pub proof fn law_batch_replayed(
    records: &[InternalRecord],
    encoded: (Vec<u8>, u64),
    buf: &[u8],
    sealed: Vec<u8>,
    segments: &Vec<Vec<u8>>,
    after: u64,
    out: Vec<InternalRecord>,
    row: InternalRecordView,
)
    requires
        call_ensures(wal::encode_batch, (records,), encoded),
        buf@ == encoded.0@,
        call_ensures(wal::seal_batch, (buf, records), sealed),
        segments.len() == 1,
        segments@[0]@ == sealed@,
        call_ensures(Wal::replay_from, (segments, after), out),
        forall|k: int| 0 <= k < records@.len() ==> wal::encodable((#[trigger] records@[k])@),
    ensures
        record::views(out@).contains(row) <==> record::views(records@).contains(row) && row.seq
            > after,
        forall|i: int, j: int|
            0 <= i < j < out.len() ==> (#[trigger] out@[i])@.seq <= (#[trigger] out@[j])@.seq,
{
    broadcast use vstd::seq_lib::group_filter_ensures;

    let rows = record::views(records@);
    assert forall|k: int| 0 <= k < rows.len() implies wal::encodable(#[trigger] rows[k]) by {
        assert(rows[k] == records@[k]@);
    }
    wal::law_batch_read_back(rows);
    let list = wal::datas(segments@);
    let newer = |r: InternalRecordView| r.seq > after;
    assert(list.last() == sealed@);
    assert(list.drop_last() =~= Seq::<Seq<u8>>::empty());
    let wanted = rows.filter(newer);
    assert(wal::replay_rows(list.drop_last(), after) =~= Seq::<InternalRecordView>::empty());
    assert(wal::replay_rows(list, after) =~= wanted);
    let got = record::views(out@);
    sort::law_sort_keeps_rows(SortOrder::Sequence, wanted, got, row);
    sort::law_sort_sorts(SortOrder::Sequence, wanted, got);
    if wanted.contains(row) {
        rows.lemma_filter_contains_rev(newer, row);
    }
    if rows.contains(row) && row.seq > after {
        assert(newer(row));
    }
    assert forall|i: int, j: int| 0 <= i < j < out.len() implies (#[trigger] out@[i])@.seq <= (
    #[trigger] out@[j])@.seq by {
        assert(got[i] == out@[i]@ && got[j] == out@[j]@);
    }
}

/// The names of files tell the ids of their tables and segments.
pub proof fn law_files_named(id: u32, table: String, number: u64, segment: String)
    requires
        call_ensures(sstable::table_file_name, (id,), table),
        call_ensures(wal::segment_file_name, (number,), segment),
    ensures
        table@.len() >= 13,
        table@.skip(table@.len() - 4) == ".sst"@,
        text::number_of(table@.take(table@.len() - 4), 10) == id,
        segment@.len() >= 13,
        segment@.skip(segment@.len() - 4) == ".wal"@,
        text::number_of(segment@.take(segment@.len() - 4), 10) == number,
{
    reveal_strlit(".sst");
    reveal_strlit(".wal");
    text::law_digits_read_back(id as nat, 10);
    text::law_zero_padded(text::decimal_text(id as nat), 9, 10);
    text::law_digits_read_back(number as nat, 10);
    text::law_zero_padded(text::decimal_text(number as nat), 9, 10);
    let a = text::zero_padded(text::decimal_text(id as nat), 9);
    let b = text::zero_padded(text::decimal_text(number as nat), 9);
    assert(table@.take(a.len() as int) =~= a);
    assert(table@.skip(a.len() as int) =~= ".sst"@);
    assert(segment@.take(b.len() as int) =~= b);
    assert(segment@.skip(b.len() as int) =~= ".wal"@);
}

/// The code of an operation tells it.
pub proof fn law_op_coded(a: Op, b: Op, x: u8, y: u8, back: Op)
    requires
        call_ensures(Op::to_u8, (a,), x),
        call_ensures(Op::to_u8, (b,), y),
        call_ensures(Op::from_u8, (x,), back),
    ensures
        back == a,
        x == y <==> a == b,
        x <= 2,
        a == Op::Put <==> x == 0,
        a == Op::Delete <==> x == 1,
{
}

/// The times and expiries of the records stand between the bounds of their span, and each
/// bound is that of a record.
pub proof fn law_span_told(records: &[InternalRecord], r: TimeSpan, i: int)
    requires
        call_ensures(sstable::time_span, (records,), r),
        0 <= i < records@.len(),
    ensures
        r.min_ts <= records@[i]@.ts <= r.max_ts,
        r.min_expire <= records@[i]@.expire_at <= r.max_expire,
        exists|k: int| 0 <= k < records@.len() && (#[trigger] records@[k])@.ts == r.min_ts,
        exists|k: int| 0 <= k < records@.len() && (#[trigger] records@[k])@.ts == r.max_ts,
        exists|k: int| 0 <= k < records@.len() && (#[trigger] records@[k])@.expire_at
            == r.min_expire,
        exists|k: int| 0 <= k < records@.len() && (#[trigger] records@[k])@.expire_at
            == r.max_expire,
{
    let rows = record::views(records@);
    sstable::law_span_bounds(rows);
    assert(rows[i] == records@[i]@);
    let a = choose|k: int| 0 <= k < rows.len() && (#[trigger] rows[k]).ts == r.min_ts;
    let b = choose|k: int| 0 <= k < rows.len() && (#[trigger] rows[k]).ts == r.max_ts;
    let c = choose|k: int| 0 <= k < rows.len() && (#[trigger] rows[k]).expire_at == r.min_expire;
    let d = choose|k: int| 0 <= k < rows.len() && (#[trigger] rows[k]).expire_at == r.max_expire;
    assert(rows[a] == records@[a]@ && rows[b] == records@[b]@);
    assert(rows[c] == records@[c]@ && rows[d] == records@[d]@);
}

/// A filter lets the keys pass that it was made from.
pub proof fn law_filter_passes(
    keys: &[Vec<u8>],
    bits: usize,
    filter: &BloomFilter,
    key: &[u8],
    r: bool,
    checked: bool,
)
    requires
        call_ensures(BloomFilter::from_keys_with_bits, (keys, bits), *filter),
        call_ensures(BloomFilter::may_contain, (filter, key), r),
        call_ensures(BloomFilter::check, (filter, key), checked),
        exists|j: int| 0 <= j < keys@.len() && (#[trigger] keys@[j])@ == key@,
    ensures
        r,
        checked,
{
    let j = choose|j: int| 0 <= j < keys@.len() && (#[trigger] keys@[j])@ == key@;
    assert(filter.contains(keys@[j]@));
}

/// A new filter lets no key pass.
pub proof fn law_new_filter(
    count: usize,
    bits: usize,
    filter: &BloomFilter,
    key: &[u8],
    r: bool,
    checked: bool,
)
    requires
        call_ensures(BloomFilter::with_bits_per_key, (count, bits), *filter),
        call_ensures(BloomFilter::may_contain, (filter, key), r),
        call_ensures(BloomFilter::check, (filter, key), checked),
    ensures
        !r,
        !checked,
        filter.bits.len() * 64 >= count * bits,
{
}

/// A filter lets a key pass that was put into it, and those that passed before.
pub proof fn law_filter_grows(filter: &mut BloomFilter, key: &[u8], other: &[u8], x: bool, y: bool)
    requires
        old(filter).wf(),
        call_ensures(BloomFilter::insert, (filter, key), ()),
        call_ensures(BloomFilter::may_contain, (old(filter), other), x),
        call_ensures(BloomFilter::may_contain, (final(filter), other), y),
    ensures
        x ==> y,
        other@ == key@ ==> y,
{
    bloom::law_insert_contains(*old(filter), *final(filter), key@, other@);
}

/// What is put into the cache is found there, and is counted as found.
pub proof fn law_cached_found(
    c: &mut BlockCache,
    g: &mut BlockCache,
    key: CacheKey,
    records: Vec<InternalRecord>,
    r: Option<Arc<Vec<InternalRecord>>>,
)
    requires
        old(c).wf(),
        call_ensures(BlockCache::insert, (c, key, records), ()),
        *old(g) == *final(c),
        call_ensures(BlockCache::get, (g, &key), r),
    ensures
        r matches Some(block) && record::views((*block)@) == record::views(records@),
        (final(g).hits() - old(c).hits() - 1) % 0x1_0000_0000_0000_0000int == 0,
        final(g).misses() == old(c).misses(),
{
    let at = key.shard_index();
    cache::law_put_found(
        old(c).shards()[at],
        old(c).limits()[at],
        (key.pair(), record::views(records@)),
    );
}

/// What is found in the cache is what it held, and a lookup takes nothing out of it. What
/// is not found is counted as missed.
pub proof fn law_cache_read(
    c: &mut BlockCache,
    g: &mut BlockCache,
    key: CacheKey,
    other: CacheKey,
    r: Option<Arc<Vec<InternalRecord>>>,
    x: Option<Arc<Vec<InternalRecord>>>,
    y: Option<Arc<Vec<InternalRecord>>>,
    o: &mut BlockCache,
)
    requires
        old(c).wf(),
        call_ensures(BlockCache::get, (c, &key), r),
        *old(g) == *final(c),
        *old(o) == *old(c),
        call_ensures(BlockCache::get, (g, &other), x),
        call_ensures(BlockCache::get, (o, &other), y),
    ensures
        cache::opt_block(x) == cache::opt_block(y),
        r is None ==> final(c).hits() == old(c).hits() && (final(c).misses() - old(c).misses() - 1)
            % 0x1_0000_0000_0000_0000int == 0,
        r is Some ==> final(c).misses() == old(c).misses() && (final(c).hits() - old(c).hits() - 1)
            % 0x1_0000_0000_0000_0000int == 0,
{
    cache::law_used_keeps(old(c).shards()[key.shard_index()], key.pair(), other.pair());
}

/// Nothing of a table is found in the cache once the table is taken out of it, and what is
/// cached of other tables stays.
pub proof fn law_table_evicted(
    c: &mut BlockCache,
    g: &mut BlockCache,
    o: &mut BlockCache,
    id: u32,
    key: CacheKey,
    x: Option<Arc<Vec<InternalRecord>>>,
    y: Option<Arc<Vec<InternalRecord>>>,
)
    requires
        old(c).wf(),
        call_ensures(BlockCache::invalidate_sst, (c, id), ()),
        *old(g) == *final(c),
        *old(o) == *old(c),
        call_ensures(BlockCache::get, (g, &key), x),
        call_ensures(BlockCache::get, (o, &key), y),
    ensures
        key.sst_id == id ==> x is None,
        key.sst_id != id ==> cache::opt_block(x) == cache::opt_block(y),
{
    assert(0 <= key.shard_index() < cache::NUM_SHARDS);
    cache::law_evicted(old(c).shards()[key.shard_index()], id, key.pair());
}

/// A new cache holds nothing.
pub proof fn law_new_cache(
    mb: usize,
    c: &mut BlockCache,
    key: CacheKey,
    r: Option<Arc<Vec<InternalRecord>>>,
)
    requires
        call_ensures(BlockCache::new, (mb,), *old(c)),
        call_ensures(BlockCache::get, (c, &key), r),
    ensures
        r is None,
        old(c).hits() == 0 && old(c).misses() == 0,
{
    assert(0 <= key.shard_index() < cache::NUM_SHARDS);
}

/// What a lookup in a block tells: of the rows with the key and time that have not expired
/// and delete no range, the one with the greatest number; nothing where there is none.
pub proof fn law_block_told(
    records: &[InternalRecord],
    key: &[u8],
    ts: i64,
    now: i64,
    r: Lookup,
    i: int,
)
    requires
        call_ensures(lookup::find_in_records, (records, key, ts, now), r),
        0 <= i < records@.len(),
        records@[i]@.key == key@ && records@[i]@.ts == ts,
        records@[i]@.expire_at > now,
        records@[i]@.op != Op::DeleteRange,
    ensures
        !(r@ is Absent),
        exists|k: int| {
            &&& 0 <= k < records@.len()
            &&& (#[trigger] records@[k])@.key == key@ && records@[k]@.ts == ts
            &&& records@[k]@.expire_at > now
            &&& records@[k]@.seq >= records@[i]@.seq
            &&& r@ is Deleted <==> records@[k]@.op == Op::Delete
            &&& r@ matches LookupView::Found(rec) ==> records@[k]@.op == Op::Put && rec
                == records@[k]@.record()
        },
{
    broadcast use vstd::seq_lib::group_filter_ensures;

    let rows = record::views(records@);
    let alive = |r: InternalRecordView| r.expire_at > now;
    let point = |r: InternalRecordView| r.op != Op::DeleteRange;
    let live = scan::live(rows, now);
    let points = versions::point_rows(live);
    assert(rows[i] == records@[i]@);
    assert(rows.contains(rows[i]) && alive(rows[i]) && point(rows[i]));
    assert(live.contains(rows[i]));
    assert(points.contains(rows[i]));
    let x = choose|x: int| 0 <= x < points.len() && points[x] == rows[i];
    let y = versions::lemma_current_found(points, key@, ts);
    assert(versions::at_place(points[x], key@, ts));
    let row = points[y];
    assert(points.contains(row));
    live.lemma_filter_contains_rev(point, row);
    rows.lemma_filter_contains_rev(alive, row);
    assert(alive(row));
    let k = choose|k: int| 0 <= k < rows.len() && rows[k] == row;
    assert(records@[k]@ == row);
}

/// A row that a lookup in the memtables found tells the record where it is a put, and that
/// the record is deleted where it is a tombstone.
pub proof fn law_found_told(found: Option<InternalRecord>, r: Lookup)
    requires
        call_ensures(lookup::resolve_lookup, (found,), r),
    ensures
        r@ is Absent <==> found is None,
        found matches Some(row) ==> (row@.op == Op::Put <==> r@ is Found),
        r@ matches LookupView::Found(rec) ==> {
            let row = (found->0)@;
            rec.key == row.key && rec.ts == row.ts && rec.value == row.value && rec.expire_at
                == row.expire_at
        },
{
}

/// A table is found by its id, and only so.
pub proof fn law_table_by_id(tables: &[Table], id: u32, r: Option<usize>)
    requires
        call_ensures(lookup::find_table, (tables, id), r),
    ensures
        r matches Some(i) ==> i < tables@.len() && tables@[i as int].reader.id() == id,
        r is None ==> forall|k: int|
            0 <= k < tables@.len() ==> (#[trigger] tables@[k]).reader.id() != id,
{
    lookup::law_table_found(tables@, id);
}

/// Sorting keeps the records and puts none before one that it goes before.
pub proof fn law_sorted(
    records: &Vec<InternalRecord>,
    order: SortOrder,
    out: Vec<InternalRecord>,
    row: InternalRecordView,
    i: int,
    j: int,
    wrong: bool,
)
    requires
        call_ensures(sort::sort_records, (records, order), out),
        0 <= i < j < out.len(),
        call_ensures(sort::is_before, (order, &out@[j], &out@[i]), wrong),
    ensures
        !wrong,
        out.len() == records.len(),
        record::views(out@).contains(row) <==> record::views(records@).contains(row),
{
    let a = record::views(records@);
    let b = record::views(out@);
    sort::law_sort_sorts(order, a, b);
    sort::law_sort_keeps_rows(order, a, b, row);
    assert(b[i] == out@[i]@ && b[j] == out@[j]@);
    assert(b.len() == out.len() && a.len() == records.len());
}

/// Of the rows with one key and time the one with the greatest number is kept, once.
pub proof fn law_newest_kept(records: &Vec<InternalRecord>, out: Vec<InternalRecord>, i: int)
    requires
        call_ensures(versions::newest_rows, (records,), out),
        0 <= i < records.len(),
    ensures
        exists|k: int| {
            &&& 0 <= k < out.len()
            &&& (#[trigger] out@[k])@.key == records@[i]@.key && out@[k]@.ts == records@[i]@.ts
            &&& out@[k]@.seq >= records@[i]@.seq
            &&& record::views(records@).contains(out@[k]@)
        },
        forall|x: int, y: int|
            0 <= x < y < out.len() ==> !((#[trigger] out@[x])@.key == (#[trigger] out@[y])@.key
                && out@[x]@.ts == out@[y]@.ts),
{
    let rows = record::views(records@);
    let kept = record::views(out@);
    assert(rows[i] == records@[i]@);
    assert(versions::has_place(kept, rows[i]));
    let k = choose|k: int| 0 <= k < kept.len() && versions::same_place(#[trigger] kept[k], rows[i]);
    let y = versions::lemma_current_found(rows, kept[k].key, kept[k].ts);
    assert(versions::at_place(rows[i], kept[k].key, kept[k].ts));
    assert(out@[k]@ == kept[k]);
    assert(rows[y] == kept[k]);
    assert forall|x: int, y: int| 0 <= x < y < out.len() implies !((#[trigger] out@[x])@.key == (
    #[trigger] out@[y])@.key && out@[x]@.ts == out@[y]@.ts) by {
        assert(kept[x] == out@[x]@ && kept[y] == out@[y]@);
        assert(sort::before(SortOrder::KeyTs, kept[x], kept[y]));
        bytes::lemma_lex_irreflexive(kept[x].key);
    }
}

/// A row is among those without range deletions, or among the range deletions, as it is
/// one or not.
pub proof fn law_ranges_told_apart(
    records: &Vec<InternalRecord>,
    points: Vec<InternalRecord>,
    ranges: Vec<InternalRecord>,
    row: InternalRecordView,
)
    requires
        call_ensures(versions::without_ranges, (records,), points),
        call_ensures(versions::only_ranges, (records,), ranges),
    ensures
        record::views(points@).contains(row) <==> record::views(records@).contains(row) && row.op
            != Op::DeleteRange,
        record::views(ranges@).contains(row) <==> record::views(records@).contains(row) && row.op
            == Op::DeleteRange,
{
    broadcast use vstd::seq_lib::group_filter_ensures;

    let rows = record::views(records@);
    let point = |r: InternalRecordView| r.op != Op::DeleteRange;
    let range = |r: InternalRecordView| r.op == Op::DeleteRange;
    if record::views(points@).contains(row) {
        rows.lemma_filter_contains_rev(point, row);
        assert(point(row));
    }
    if record::views(ranges@).contains(row) {
        rows.lemma_filter_contains_rev(range, row);
        assert(range(row));
    }
    if rows.contains(row) {
        assert(point(row) || range(row));
    }
}

/// What is planned to be collected is the tables whose last record had expired, and what
/// is purged is the records of those.
pub proof fn law_collection_planned(state: &ManifestState, now: i64, r: GcPlan, id: u32)
    requires
        state@.wf(),
        call_ensures(gc::plan, (state, now), r),
    ensures
        r.to_delete@.contains(id) <==> state@.active.contains(id) && state@.sstables[id].max_expire
            < now,
        r.to_delete.len() == 0 ==> r.purged == 0,
        r.to_delete.len() == 1 ==> r.purged == state@.sstables[r.to_delete@[0]].records,
{
    broadcast use vstd::seq_lib::group_filter_ensures;

    let p = gc::is_expired(state@, now);
    if r.to_delete@.contains(id) {
        state@.active.lemma_filter_contains_rev(p, id);
        assert(p(id));
    }
    if state@.active.contains(id) && state@.sstables[id].max_expire < now {
        assert(state@.sstables.contains_key(id));
        assert(p(id));
    }
    if r.to_delete.len() == 1 {
        assert(r.to_delete@ =~= seq![r.to_delete@[0]]);
        gc::law_records_counted(state@, seq![], seq![], r.to_delete@[0]);
    }
}

/// The totals of the tables count each table, its records and its bytes.
pub proof fn law_totals_told(state: &ManifestState, r: (usize, u64), all: (u128, u128))
    requires
        state@.wf(),
        call_ensures(gc::table_totals, (state,), r),
        call_ensures(gc::record_totals, (state,), all),
    ensures
        r.0 == state@.active.len(),
        r.1 == all.1,
        all.0 == gc::records_of(state@, state@.active),
{
}

/// Records that are written are counted with their bytes, and nothing else is.
pub proof fn law_records_written_counted(s: &mut StatsCounters, count: u64, bytes: u64)
    requires
        call_ensures(StatsCounters::records_written, (s, count, bytes), ()),
    ensures
        (final(s).total_records_written - old(s).total_records_written - count) % 0x1_0000_0000_0000_0000int
            == 0,
        (final(s).total_bytes_written - old(s).total_bytes_written - bytes) % 0x1_0000_0000_0000_0000int
            == 0,
        (StatsCounters {
            total_records_written: old(s).total_records_written,
            total_bytes_written: old(s).total_bytes_written,
            ..*final(s)
        }) == *old(s),
{
}

/// A record that is written is counted as one, with its bytes.
pub proof fn law_record_written_counted(s: &mut StatsCounters, bytes: u64)
    requires
        call_ensures(StatsCounters::record_written, (s, bytes), ()),
    ensures
        (final(s).total_records_written - old(s).total_records_written - 1) % 0x1_0000_0000_0000_0000int
            == 0,
        (final(s).total_bytes_written - old(s).total_bytes_written - bytes) % 0x1_0000_0000_0000_0000int
            == 0,
        (StatsCounters {
            total_records_written: old(s).total_records_written,
            total_bytes_written: old(s).total_bytes_written,
            ..*final(s)
        }) == *old(s),
{
}

/// Records that are read are counted as read.
pub proof fn law_records_read_counted(s: &mut StatsCounters, count: u64)
    requires
        call_ensures(StatsCounters::records_read, (s, count), ()),
    ensures
        (final(s).total_records_read - old(s).total_records_read - count) % 0x1_0000_0000_0000_0000int
            == 0,
        (StatsCounters {
            total_records_read: old(s).total_records_read,
            ..*final(s)
        }) == *old(s),
{
}

/// Records that have expired are counted as expired.
pub proof fn law_records_expired_counted(s: &mut StatsCounters, count: u64)
    requires
        call_ensures(StatsCounters::records_expired, (s, count), ()),
    ensures
        (final(s).total_records_expired - old(s).total_records_expired - count) % 0x1_0000_0000_0000_0000int
            == 0,
        (StatsCounters {
            total_records_expired: old(s).total_records_expired,
            ..*final(s)
        }) == *old(s),
{
}

/// A flush is counted, and its time is kept.
pub proof fn law_flush_counted(s: &mut StatsCounters, at: i64)
    requires
        call_ensures(StatsCounters::flush_done, (s, at), ()),
    ensures
        (final(s).total_flushes - old(s).total_flushes - 1) % 0x1_0000_0000_0000_0000int == 0,
        final(s).last_flush_at == at,
        (StatsCounters {
            total_flushes: old(s).total_flushes,
            last_flush_at: old(s).last_flush_at,
            ..*final(s)
        }) == *old(s),
{
}

/// A collection is counted with what it purged, and its time is kept.
pub proof fn law_collection_counted(s: &mut StatsCounters, purged: u64, at: i64)
    requires
        call_ensures(StatsCounters::gc_done, (s, purged, at), ()),
    ensures
        (final(s).total_gc_runs - old(s).total_gc_runs - 1) % 0x1_0000_0000_0000_0000int == 0,
        (final(s).records_purged_by_gc - old(s).records_purged_by_gc - purged) % 0x1_0000_0000_0000_0000int
            == 0,
        final(s).last_gc_at == at,
        (StatsCounters {
            total_gc_runs: old(s).total_gc_runs,
            records_purged_by_gc: old(s).records_purged_by_gc,
            last_gc_at: old(s).last_gc_at,
            ..*final(s)
        }) == *old(s),
{
}

/// A compaction is counted, and its time is kept.
pub proof fn law_compaction_counted(s: &mut StatsCounters, at: i64)
    requires
        call_ensures(StatsCounters::compaction_done, (s, at), ()),
    ensures
        (final(s).total_compaction_runs - old(s).total_compaction_runs - 1) % 0x1_0000_0000_0000_0000int
            == 0,
        final(s).last_compaction_at == at,
        (StatsCounters {
            total_compaction_runs: old(s).total_compaction_runs,
            last_compaction_at: old(s).last_compaction_at,
            ..*final(s)
        }) == *old(s),
{
}

/// Bytes of the log are counted.
pub proof fn law_log_bytes_counted(s: &mut StatsCounters, bytes: u64)
    requires
        call_ensures(StatsCounters::add_wal_bytes, (s, bytes), ()),
    ensures
        (final(s).wal_bytes - old(s).wal_bytes - bytes) % 0x1_0000_0000_0000_0000int == 0,
        (StatsCounters {
            wal_bytes: old(s).wal_bytes,
            ..*final(s)
        }) == *old(s),
{
}

/// What the memtable holds is told.
pub proof fn law_memtable_told(s: &mut StatsCounters, records: usize, bytes: usize)
    requires
        call_ensures(StatsCounters::set_memtable, (s, records, bytes), ()),
    ensures
        final(s).memtable_records == records,
        final(s).memtable_bytes == bytes,
        (StatsCounters {
            memtable_records: old(s).memtable_records,
            memtable_bytes: old(s).memtable_bytes,
            ..*final(s)
        }) == *old(s),
{
}

/// How many memtables are frozen is told.
pub proof fn law_frozen_told(s: &mut StatsCounters, count: usize)
    requires
        call_ensures(StatsCounters::set_frozen_count, (s, count), ()),
    ensures
        final(s).frozen_memtable_count == count,
        (StatsCounters {
            frozen_memtable_count: old(s).frozen_memtable_count,
            ..*final(s)
        }) == *old(s),
{
}

/// How many tables there are, and their bytes, is told.
pub proof fn law_tables_told(s: &mut StatsCounters, count: usize, bytes: u64)
    requires
        call_ensures(StatsCounters::set_sstable, (s, count, bytes), ()),
    ensures
        final(s).sstable_count == count,
        final(s).sstable_bytes == bytes,
        (StatsCounters {
            sstable_count: old(s).sstable_count,
            sstable_bytes: old(s).sstable_bytes,
            ..*final(s)
        }) == *old(s),
{
}

/// How many entries and buckets the index has is told.
pub proof fn law_index_told(s: &mut StatsCounters, entries: usize, buckets: usize)
    requires
        call_ensures(StatsCounters::set_index_stats, (s, entries, buckets), ()),
    ensures
        final(s).block_meta_index_entries == entries,
        final(s).time_index_buckets == buckets,
        (StatsCounters {
            block_meta_index_entries: old(s).block_meta_index_entries,
            time_index_buckets: old(s).time_index_buckets,
            ..*final(s)
        }) == *old(s),
{
}

/// Bytes are no header exactly where they are too few or begin with another number than
/// those of the two compressions.
pub proof fn law_header_refused(data: &[u8], r: Result<BlockHeader, FlowError>)
    requires
        call_ensures(BlockHeader::from_bytes, (data,), r),
    ensures
        r is Err <==> data@.len() < 48 || (bytes::be_nat(data@.subrange(0, 4)) != 0x5A53_4E42
            && bytes::be_nat(data@.subrange(0, 4)) != 0x5453_4E42),
        r matches Err(e) ==> (e is Corruption <==> data@.len() < 48),
{
}

/// The bytes that a record takes in the log are those that are written of it, and those
/// that are skipped for it.
pub proof fn law_logged_size(
    rec: &InternalRecord,
    size: usize,
    buf: &mut Vec<u8>,
    data: &[u8],
    start: usize,
    skipped: Option<u64>,
)
    requires
        wal::encodable(rec@),
        call_ensures(wal::encoded_size, (rec,), size),
        call_ensures(wal::encode_record, (rec, buf), ()),
        data@ == final(buf)@,
        start == old(buf)@.len(),
        call_ensures(wal::skip_record, (data, start), skipped),
    ensures
        final(buf)@.len() == old(buf)@.len() + size,
        skipped matches Some(n) && n == size,
{
    assert(data@.skip(start as int) =~= wal::encoded(rec@) + Seq::<u8>::empty());
    wal::law_record_read_back(rec@, Seq::empty());
}

/// The greatest number in a segment is that of one of its records, and none of them has a
/// greater one. A segment without records has none.
pub proof fn law_greatest_number(data: &[u8], r: Option<u64>, i: int)
    requires
        call_ensures(wal::find_max_seq_in_segment, (data,), r),
    ensures
        r is None <==> wal::replayed(data@).len() == 0,
        r matches Some(top) ==> {
            &&& 0 <= i < wal::replayed(data@).len() ==> wal::replayed(data@)[i].seq <= top
            &&& exists|k: int|
                0 <= k < wal::replayed(data@).len() && (#[trigger] wal::replayed(data@)[k]).seq
                    == top
        },
{
    let rows = wal::replayed(data@);
    lemma_top(rows);
}

proof fn lemma_top(rows: Seq<InternalRecordView>)
    ensures
        wal::top_seq(rows) is None <==> rows.len() == 0,
        wal::top_seq(rows) matches Some(top) ==> {
            &&& forall|k: int| 0 <= k < rows.len() ==> (#[trigger] rows[k]).seq <= top
            &&& exists|k: int| 0 <= k < rows.len() && (#[trigger] rows[k]).seq == top
        },
    decreases rows.len(),
{
    if rows.len() > 0 {
        let front = rows.drop_last();
        lemma_top(front);
        assert forall|k: int| 0 <= k < front.len() implies #[trigger] rows[k] == front[k] by {}
        assert(rows[rows.len() - 1] == rows.last());
        if let Some(top) = wal::top_seq(front) {
            let k = choose|k: int| 0 <= k < front.len() && (#[trigger] front[k]).seq == top;
            assert(rows[k].seq == top);
        }
    }
}

/// A cache of so many megabytes holds in each part as many blocks as fit its share of them,
/// each taken to be of 256 bytes, and at least one.
pub proof fn law_cache_sized(mb: usize, c: BlockCache, i: int)
    requires
        call_ensures(BlockCache::new, (mb,), c),
        0 <= i < cache::NUM_SHARDS,
    ensures
        c.limits()[i] >= 1,
        c.limits()[i] > 1 ==> c.limits()[i] * 256 * 64 <= mb * 1024 * 1024,
        mb * 1024 * 1024 < (c.limits()[i] + 1) * 256 * 64,
{
}

/// A filter takes about 0.69 probes for each bit of a key, between 2 and 30.
pub proof fn law_filter_probes(count: usize, bits: usize, filter: BloomFilter)
    requires
        call_ensures(BloomFilter::with_bits_per_key, (count, bits), filter),
    ensures
        2 <= filter.num_hashes <= 30,
        filter.num_hashes < 30 ==> bits * 69 <= filter.num_hashes * 100,
        filter.num_hashes > 2 ==> (filter.num_hashes - 1) * 100 < bits * 69,
        filter.bits.len() > 1 ==> (filter.bits.len() - 1) * 64 < count * bits,
        filter.bits.len() >= 1,
{
}

/// New counters have counted nothing.
pub proof fn law_new_counters(s: StatsCounters)
    requires
        call_ensures(StatsCounters::new, (), s),
    ensures
        s.total_records_written == 0 && s.total_bytes_written == 0 && s.total_records_read == 0,
        s.total_records_expired == 0 && s.total_flushes == 0 && s.total_gc_runs == 0,
        s.records_purged_by_gc == 0 && s.total_compaction_runs == 0 && s.wal_bytes == 0,
        s.memtable_records == 0 && s.memtable_bytes == 0 && s.frozen_memtable_count == 0,
        s.sstable_count == 0 && s.sstable_bytes == 0,
{
}

/// A table is cut into blocks of the given size, all full but the last.
pub proof fn law_blocks_full(rows: Seq<InternalRecordView>, size: nat, i: int)
    requires
        size > 0,
        0 <= i < sstable::chunks(rows, size).len(),
    ensures
        i < sstable::chunks(rows, size).len() - 1 ==> sstable::chunks(rows, size)[i].len() == size,
        0 < sstable::chunks(rows, size)[i].len() <= size,
        0 <= i * size <= i * size + sstable::chunks(rows, size)[i].len() <= rows.len(),
        sstable::chunks(rows, size)[i] == rows.subrange(
            i * size,
            i * size + sstable::chunks(rows, size)[i].len(),
        ),
    decreases rows.len(),
{
    let parts = sstable::chunks(rows, size);
    let begin = i * size;
    assert(i == 0 ==> begin == 0) by (nonlinear_arith)
        requires
            begin == i * size,
    ;
    if rows.len() > size {
        let rest = rows.skip(size as int);
        assert(parts =~= seq![rows.take(size as int)] + sstable::chunks(rest, size));
        if i > 0 {
            law_blocks_full(rest, size, i - 1);
            assert(parts[i] == sstable::chunks(rest, size)[i - 1]);
            let at = (i - 1) * size;
            let n = parts[i].len();
            assert(at + size == begin) by (nonlinear_arith)
                requires
                    at == (i - 1) * size,
                    begin == i * size,
            ;
            assert(0 <= at && at + n <= rest.len());
            assert(rest.subrange(at, at + n) =~= rows.subrange(begin, begin + n));
        }
    } else if rows.len() > 0 {
        assert(sstable::chunks(rows.skip(rows.len() as int), size) =~= Seq::<
            Seq<InternalRecordView>,
        >::empty());
    }
}

/// A table that was written and opened gives its records back, block by block, but for
/// their numbers.
pub proof fn law_table_given_back(
    records: &[InternalRecord],
    block_size: usize,
    level: i32,
    bits: usize,
    zstd: bool,
    file: SstFile,
    data: &[u8],
    id: u32,
    count: usize,
    reader: &SstReader,
    idx: u32,
    r: Result<(BlockHeader, Vec<InternalRecord>), FlowError>,
)
    requires
        call_ensures(
            SstWriter::write,
            (records, block_size, level, bits, zstd),
            Ok::<SstFile, FlowError>(file),
        ),
        records@.len() <= u32::MAX,
        forall|k: int| 0 <= k < records@.len() ==> sstable::encodable_row(
            (#[trigger] records@[k])@,
        ),
        forall|k: int|
            0 <= k < sstable::chunks(
                record::views(records@),
                sstable::at_least_one(block_size),
            ).len() ==> sstable::max_compressed(
                sstable::encoded_rows(
                    #[trigger] sstable::chunks(
                        record::views(records@),
                        sstable::at_least_one(block_size),
                    )[k],
                ).len(),
                zstd,
            ) <= u32::MAX,
        data@ == file.bytes@,
        call_ensures(SstReader::open, (data, id, count), Ok::<SstReader, FlowError>(*reader)),
        call_ensures(SstReader::read_block_decompress, (reader, data, idx), r),
    ensures
        reader.id() == id,
        reader.offsets().len() == file.blocks.len(),
        idx >= file.blocks.len() <==> r is Err,
        r matches Ok((header, out)) ==> {
            let part = sstable::chunks(
                record::views(records@),
                sstable::at_least_one(block_size),
            )[idx as int];
            &&& out.len() == part.len()
            &&& forall|k: int|
                0 <= k < out.len() ==> (#[trigger] out@[k])@.record() == part[k].record()
                    && out@[k]@.op == part[k].op && out@[k]@.range_end == part[k].range_end
        },
{
    let rows = record::views(records@);
    assert forall|k: int| 0 <= k < rows.len() implies sstable::encodable_row(#[trigger] rows[k]) by {
        assert(rows[k] == records@[k]@);
    }
    sstable::law_lengths_told(file, rows, block_size, bits, zstd);
    sstable::law_table_read_back(file, rows, block_size, bits, zstd, *reader, idx);
    if let Ok((header, out)) = r {
        let part = sstable::chunks(rows, sstable::at_least_one(block_size))[idx as int];
        let got = record::views(out@);
        assert(got == sstable::unnumbered_rows(part));
        assert(got.len() == out.len());
        assert forall|k: int| 0 <= k < out.len() implies (#[trigger] out@[k])@.record()
            == part[k].record() && out@[k]@.op == part[k].op && out@[k]@.range_end
            == part[k].range_end by {
            assert(got[k] == out@[k]@);
        }
    }
}

/// A block that is read through the cache is the one that is read without it, where the
/// cache does not hold the block, and is in the cache then.
pub proof fn law_read_through(
    reader: &SstReader,
    data: &[u8],
    idx: u32,
    c: &mut BlockCache,
    r: Result<Arc<Vec<InternalRecord>>, FlowError>,
    plain: Result<(BlockHeader, Vec<InternalRecord>), FlowError>,
)
    requires
        old(c).wf(),
        call_ensures(SstReader::read_block_arc, (reader, data, idx, c), r),
        call_ensures(SstReader::read_block_decompress, (reader, data, idx), plain),
        old(c).cached(CacheKey { sst_id: reader.id(), block_idx: idx }) is None,
    ensures
        r is Ok <==> plain is Ok,
        r matches Ok(block) ==> {
            &&& record::views((*block)@) == record::views(plain->Ok_0.1@)
            &&& final(c).cached(CacheKey { sst_id: reader.id(), block_idx: idx }) == Some(
                record::views((*block)@),
            )
        },
        r is Err ==> final(c).shards() == old(c).shards(),
{
    let key = CacheKey { sst_id: reader.id(), block_idx: idx };
    let at = key.shard_index();
    if let Ok(block) = r {
        cache::law_put_found(
            old(c).shards()[at],
            old(c).limits()[at],
            (key.pair(), record::views((*block)@)),
        );
    }
}

/// Of two keys one is less or they are equal; one is at most the other where the other is
/// not less; and what a key begins with is a prefix of it.
pub proof fn law_keys_compared(
    a: &[u8],
    b: &[u8],
    lt: bool,
    gt: bool,
    le: bool,
    eq: bool,
    starts: bool,
)
    requires
        call_ensures(bytes::bytes_lt, (a, b), lt),
        call_ensures(bytes::bytes_lt, (b, a), gt),
        call_ensures(bytes::bytes_le, (a, b), le),
        call_ensures(bytes::bytes_eq, (a, b), eq),
        call_ensures(bytes::starts_with, (a, b), starts),
    ensures
        eq <==> a@ == b@,
        eq <==> !lt && !gt,
        !(lt && gt),
        le <==> !gt,
        starts <==> b@.is_prefix_of(a@),
        lt <==> exists|n: int|
            0 <= n <= a@.len() && n < b@.len() && #[trigger] a@.take(n) == b@.take(n) && (n
                == a@.len() || a@[n] < b@[n]),
{
    bytes::law_lex_order(a@, b@);
    bytes::lemma_lex_total(a@, b@);
    bytes::lemma_lex_irreflexive(a@);
    if lt && gt {
        bytes::lemma_lex_transitive(a@, b@, a@);
    }
    bytes::law_prefix(a@, b@);
    if starts {
        let rest = choose|rest: Seq<u8>| a@ == #[trigger] (b@ + rest);
        assert(b@.is_prefix_of(a@));
    }
    if b@.is_prefix_of(a@) {
        assert(a@ =~= b@ + a@.skip(b@.len() as int));
    }
}

/// A number that is pushed with the least significant byte first is read back too.
pub proof fn law_low_first_read_back(
    buf: &mut Vec<u8>,
    x: u64,
    data: &[u8],
    back: u64,
)
    requires
        call_ensures(bytes::push_le, (buf, x, 8), ()),
        data@ == final(buf)@,
        call_ensures(bytes::read_le, (data, old(buf).len(), 8), back),
    ensures
        final(buf)@.len() == old(buf)@.len() + 8,
        old(buf)@.is_prefix_of(final(buf)@),
        back == x,
        x < 256 ==> final(buf)@[old(buf)@.len() as int] == x,
{
    bytes::lemma_pow256_values();
    lemma_low_first(x as nat, 8);
    assert(data@.subrange(old(buf).len() as int, old(buf).len() + 8) =~= bytes::le_bytes(
        x as nat,
        8,
    ));
}

proof fn lemma_low_first(x: nat, n: nat)
    requires
        x < bytes::pow256(n),
    ensures
        bytes::le_bytes(x, n).len() == n,
        bytes::le_nat(bytes::le_bytes(x, n)) == x,
    decreases n,
{
    if n > 0 {
        let rest = bytes::le_bytes(x / 256, (n - 1) as nat);
        assert(x / 256 < bytes::pow256((n - 1) as nat)) by (nonlinear_arith)
            requires
                x < 256 * bytes::pow256((n - 1) as nat),
        ;
        lemma_low_first(x / 256, (n - 1) as nat);
        assert(bytes::le_bytes(x, n).drop_first() =~= rest);
    }
}

/// What is appended to the log goes to its last segment, which grows by it, and what stood
/// there stays; a new segment is begun exactly where that one is full.
pub proof fn law_log_appended(log: &mut Wal, buf: &[u8], r: WalWrite, last: u64, k: int)
    requires
        old(log).wf(),
        old(log).segments().last().written_bytes + buf@.len() <= u64::MAX,
        call_ensures(Wal::last_segment, (old(log),), last),
        call_ensures(Wal::write_encoded, (log, buf), r),
        0 <= k < old(log).segments().len(),
    ensures
        r.segment == last,
        ({
            let n = old(log).segments().len() - 1;
            &&& k < n ==> final(log).segments()[k] == old(log).segments()[k]
            &&& final(log).segments()[n].written_bytes == old(log).segments()[n].written_bytes
                + buf@.len()
            &&& r.rollover is Some <==> final(log).segments()[n].written_bytes
                >= old(log).max_bytes()
            &&& r.rollover is Some <==> final(log).segments().len() == n + 2
        }),
{
    wal::law_append_grows(*old(log), buf@, *final(log), r, k);
}

/// Segments all of whose records are in tables leave the log, and no others do.
pub proof fn law_log_truncated(log: &mut Wal, seq: u64, r: WalTruncation, k: int)
    requires
        old(log).wf(),
        call_ensures(Wal::truncate_before, (log, seq), r),
        0 <= k < old(log).segments().len(),
    ensures
        ({
            let segment = old(log).segments()[k];
            &&& segment.max_seq is None ==> final(log).segments().contains(segment)
            &&& segment.max_seq matches Some(top) ==> (top > seq
                ==> final(log).segments().contains(segment))
            &&& segment.max_seq matches Some(top) ==> (top <= seq ==> r.deleted@.contains(
                segment.id,
            ))
        }),
        final(log).segments().len() > 0,
{
    wal::law_drop_keeps(*old(log), seq, *final(log), r, k);
}

/// A filter that is made anew from a table lets the keys of all its rows pass.
pub proof fn law_filter_rebuilt(
    reader: &SstReader,
    data: &[u8],
    bits: usize,
    filter: BloomFilter,
    rows: Seq<InternalRecordView>,
    i: int,
    key: &[u8],
    r: bool,
)
    requires
        call_ensures(SstReader::rebuild_filter, (reader, data, bits), Some(filter)),
        reader.all_rows(data@) == Some(rows),
        0 <= i < rows.len(),
        key@ == rows[i].key,
        call_ensures(BloomFilter::may_contain, (&filter, key), r),
    ensures
        r,
{
    sstable::lemma_key_run(rows, i);
    let keys = sstable::key_runs(rows);
    let j = choose|j: int| 0 <= j < keys.len() && keys[j] == rows[i].key;
    bloom::law_no_false_negatives(filter, keys, bits as int, j);
}

/// A block begins with a header that counts its records and tells the lengths of its data
/// before and after compression; behind it stands the compressed data. What is told of the
/// block holds of its records: their expiries and, where none deletes a range, their times
/// stand between the bounds, which are those of records, and it begins with the first key.
pub proof fn law_block_built(
    records: &[InternalRecord],
    idx: u32,
    len: u32,
    compressed: &[u8],
    zstd: bool,
    r: (Vec<u8>, BlockInfo),
    data: &[u8],
    header: Result<BlockHeader, FlowError>,
    span: TimeSpan,
)
    requires
        0 < records@.len() <= u32::MAX,
        compressed@.len() <= u32::MAX,
        len == sstable::encoded_rows(record::views(records@)).len(),
        call_ensures(sstable::build_block, (records, idx, len, compressed, zstd), r),
        call_ensures(sstable::time_span, (records,), span),
        data@ == r.0@,
        call_ensures(BlockHeader::from_bytes, (data,), header),
    ensures
        header matches Ok(h) && {
            &&& h.num_records == records@.len()
            &&& h.data_len == len
            &&& h.compressed_len == compressed@.len()
            &&& h.is_zstd == zstd
            &&& h.min_ts == span.min_ts && h.max_ts == span.max_ts
            &&& h.min_expire == span.min_expire && h.max_expire == span.max_expire
        },
        r.0@.len() == 48 + compressed@.len(),
        r.0@.skip(48) == compressed@,
        r.1@.block_idx == idx,
        r.1@.min_key == records@[0]@.key,
        r.1@.min_expire == span.min_expire && r.1@.max_expire == span.max_expire,
        (forall|k: int| 0 <= k < records@.len() ==> (#[trigger] records@[k])@.op != Op::DeleteRange)
            ==> r.1@.min_ts == span.min_ts && r.1@.max_ts == span.max_ts && r.1@.max_key
            == records@[records@.len() - 1]@.key,
{
    let rows = record::views(records@);
    let h = sstable::block_header(rows, compressed@.len(), zstd);
    sstable::law_header_read_back(h, compressed@);
    assert(rows[0] == records@[0]@);
    assert(rows.last() == records@[records@.len() - 1]@);
    assert(r.0@.skip(48) =~= compressed@);
    if forall|k: int| 0 <= k < records@.len() ==> (#[trigger] records@[k])@.op != Op::DeleteRange {
        assert forall|k: int| 0 <= k < rows.len() implies (#[trigger] rows[k]).op
            != Op::DeleteRange by {
            assert(rows[k] == records@[k]@);
        }
        lemma_reach(rows, rows.last().key);
    }
}

proof fn lemma_reach(rows: Seq<InternalRecordView>, key: Seq<u8>)
    requires
        forall|k: int| 0 <= k < rows.len() ==> (#[trigger] rows[k]).op != Op::DeleteRange,
    ensures
        sstable::reach(rows, key) == key,
    decreases rows.len(),
{
    if rows.len() > 0 {
        let front = rows.drop_last();
        assert forall|k: int| 0 <= k < front.len() implies (#[trigger] front[k]).op
            != Op::DeleteRange by {
            assert(front[k] == rows[k]);
        }
        assert(rows[rows.len() - 1].op != Op::DeleteRange);
        lemma_reach(front, key);
    }
}

} // verus!
