//! The write-ahead log: how records are written, and how segments are kept.

use vstd::prelude::*;
use crate::bloom;
use crate::bloom::fxhash64;
use crate::bytes;
use crate::bytes::{append_bytes, copy_range, i64_to_u64, push_be, read_be, u64_to_i64};
use crate::codec;
use crate::error::FlowError;
use crate::memtable;
use crate::record;
use crate::record::{InternalRecord, InternalRecordView, Op};
use crate::sort;
use crate::sort::{sort_records, SortOrder};
use crate::text;
use crate::text::{decimal_padded, join};

verus! {

/// The bytes of the end of a range, none where there is no range.
pub open spec fn range_bytes(end: Option<Seq<u8>>) -> Seq<u8> {
    match end {
        Some(bytes) => bytes,
        None => Seq::empty(),
    }
}

/// A record as it is written to the log, numbers most significant byte first:
/// sequence number (8 bytes), operation (1), key length (2), key, time (8),
/// expiry (8), range end length (4), range end, value length (4), value.
pub open spec fn encoded(r: InternalRecordView) -> Seq<u8> {
    bytes::be_bytes(r.seq as nat, 8).push(r.op.code()) + bytes::be_bytes(r.key.len(), 2) + r.key
        + bytes::be_bytes(bytes::twos(r.ts), 8) + bytes::be_bytes(bytes::twos(r.expire_at), 8)
        + bytes::be_bytes(range_bytes(r.range_end).len(), 4) + range_bytes(r.range_end)
        + bytes::be_bytes(r.value.len(), 4) + r.value
}

/// The records of a batch, one after another.
pub open spec fn encoded_all(rows: Seq<InternalRecordView>) -> Seq<u8> {
    codec::concat(|r: InternalRecordView| encoded(r), rows)
}

/// The number in `n` bytes at `pos`, most significant byte first.
pub open spec fn number_at(s: Seq<u8>, pos: int, n: int) -> nat {
    bytes::be_nat(s.subrange(pos, pos + n))
}

/// The length that the record at the front of `s` claims, if the fields that
/// tell it are all there.
pub open spec fn claimed_len(s: Seq<u8>) -> Option<int> {
    let key_end = 11int + number_at(s, 9, 2);
    let range_end = key_end + 20 + number_at(s, key_end + 16, 4);
    if s.len() < 11 || s.len() < key_end + 20 || s.len() < range_end + 4 {
        None
    } else {
        Some(range_end + 4 + number_at(s, range_end, 4))
    }
}

/// The record at the front of `s` and its length, if it is all there.
pub open spec fn decoded(s: Seq<u8>) -> Option<(InternalRecordView, int)> {
    match claimed_len(s) {
        Some(len) if len <= s.len() => {
            let key_end = 11int + number_at(s, 9, 2);
            let range_len = number_at(s, key_end + 16, 4);
            let range_end = key_end + 20 + range_len;
            Some((
                InternalRecordView {
                    seq: number_at(s, 0, 8) as u64,
                    op: Op::of_code(s[8]),
                    key: s.subrange(11, key_end),
                    ts: bytes::untwos(number_at(s, key_end, 8)) as i64,
                    expire_at: bytes::untwos(number_at(s, key_end + 8, 8)) as i64,
                    value: s.subrange(range_end + 4, len),
                    range_end: if range_len > 0 {
                        Some(s.subrange(key_end + 20, range_end))
                    } else {
                        None
                    },
                },
                len,
            ))
        },
        _ => None,
    }
}

/// What the checksums of records begin with.
pub const CHECK_SEED: u64 = 0x5365_7244_424c_4f4f;

/// The checksum of a record's bytes.
pub open spec fn checksum(s: Seq<u8>) -> u64 {
    bloom::fx_hash(s, CHECK_SEED)
}

/// A record as it stands in a segment: its bytes and their checksum (8 bytes).
pub open spec fn framed(r: InternalRecordView) -> Seq<u8> {
    encoded(r) + bytes::be_bytes(checksum(encoded(r)) as nat, 8)
}

/// The records of a batch as they stand in a segment, one after another.
pub open spec fn framed_all(rows: Seq<InternalRecordView>) -> Seq<u8> {
    codec::concat(|r: InternalRecordView| framed(r), rows)
}

/// The record at the front of `s` and the length that it takes with its checksum,
/// if both are all there. A record that the checksum is not of is no record.
pub open spec fn frame_at(s: Seq<u8>) -> Option<(Option<InternalRecordView>, int)> {
    match decoded(s) {
        Some((row, len)) if len + 8 <= s.len() => Some((
            if number_at(s, len, 8) == checksum(s.take(len)) {
                Some(row)
            } else {
                None
            },
            len + 8,
        )),
        _ => None,
    }
}

/// The records of a segment, up to the first that is not all there, without those
/// that their checksum is not of.
pub open spec fn replayed(s: Seq<u8>) -> Seq<InternalRecordView>
    decreases s.len(),
{
    match frame_at(s) {
        Some((Some(row), len)) => seq![row] + replayed(s.skip(len)),
        Some((None, len)) => replayed(s.skip(len)),
        None => Seq::empty(),
    }
}

/// The greatest sequence number of the rows, if there are any.
pub open spec fn top_seq(rows: Seq<InternalRecordView>) -> Option<u64>
    decreases rows.len(),
{
    if rows.len() == 0 {
        None
    } else {
        match top_seq(rows.drop_last()) {
            Some(top) if top > rows.last().seq => Some(top),
            _ => Some(rows.last().seq),
        }
    }
}

/// The greatest sequence number in a segment, if it holds a record.
pub open spec fn max_seq(s: Seq<u8>) -> Option<u64> {
    top_seq(replayed(s))
}

/// The records of the segments with a sequence number above `after`, segment by
/// segment.
pub open spec fn replay_rows(segments: Seq<Seq<u8>>, after: u64) -> Seq<InternalRecordView>
    decreases segments.len(),
{
    if segments.len() == 0 {
        Seq::empty()
    } else {
        replay_rows(segments.drop_last(), after) + replayed(segments.last()).filter(
            |r: InternalRecordView| r.seq > after,
        )
    }
}

/// Whether a record fits the fields of the log: a key and a value no longer than
/// their length fields can tell, and a range end that is not empty.
pub open spec fn encodable(r: InternalRecordView) -> bool {
    &&& r.key.len() < 0x1_0000
    &&& r.value.len() < 0x1_0000_0000
    &&& r.range_end matches Some(end) ==> 0 < end.len() < 0x1_0000_0000
}

/// What the segments hold.
pub open spec fn datas(segments: Seq<Vec<u8>>) -> Seq<Seq<u8>> {
    Seq::new(segments.len(), |i: int| segments[i]@)
}

/// The bytes that a record takes in the log.
pub fn encoded_size(rec: &InternalRecord) -> (r: usize)
    requires
        encoded(rec@).len() <= usize::MAX,
    ensures
        r == encoded(rec@).len(),
{
    proof {
        lemma_encoded_len(rec@);
    }
    let range_len: usize = match &rec.range_end {
        Some(end) => end.len(),
        None => 0,
    };
    35 + rec.key.len() + range_len + rec.value.len()
}

/// How long an encoding is.
proof fn lemma_encoded_len(r: InternalRecordView)
    ensures
        encoded(r).len() == 35 + r.key.len() + range_bytes(r.range_end).len() + r.value.len(),
{
    bytes::lemma_be_bytes_len(r.seq as nat, 8);
    bytes::lemma_be_bytes_len(r.key.len(), 2);
    bytes::lemma_be_bytes_len(bytes::twos(r.ts), 8);
    bytes::lemma_be_bytes_len(bytes::twos(r.expire_at), 8);
    bytes::lemma_be_bytes_len(range_bytes(r.range_end).len(), 4);
    bytes::lemma_be_bytes_len(r.value.len(), 4);
}

/// Appends a record to `buf`.
pub fn encode_record(rec: &InternalRecord, buf: &mut Vec<u8>)
    ensures
        final(buf)@ == old(buf)@ + encoded(rec@),
{
    push_be(buf, rec.seq, 8);
    buf.push(rec.op.to_u8());
    push_be(buf, rec.key.len() as u64, 2);
    append_bytes(buf, &rec.key);
    push_be(buf, i64_to_u64(rec.ts), 8);
    push_be(buf, i64_to_u64(rec.expire_at), 8);
    match &rec.range_end {
        Some(end) => {
            push_be(buf, end.len() as u64, 4);
            append_bytes(buf, end);
        },
        None => {
            push_be(buf, 0, 4);
            assert(buf@ =~= buf@ + Seq::<u8>::empty());
        },
    }
    push_be(buf, rec.value.len() as u64, 4);
    append_bytes(buf, &rec.value);
    assert(buf@ =~= old(buf)@ + encoded(rec@));
}

/// Encodes a batch. Returns the bytes and the memory that the records are
/// charged.
pub fn encode_batch(records: &[InternalRecord]) -> (r: (Vec<u8>, u64))
    requires
        memtable::total_size(record::views(records@)) <= usize::MAX,
    ensures
        r.0@ == encoded_all(record::views(records@)),
        r.1 == memtable::total_size(record::views(records@)),
{
    let ghost rows = record::views(records@);
    let mut buf: Vec<u8> = Vec::new();
    let mut total: usize = 0;
    let mut i: usize = 0;
    while i < records.len()
        invariant
            i <= records@.len(),
            rows == record::views(records@),
            memtable::total_size(rows) <= usize::MAX,
            buf@ == encoded_all(rows.take(i as int)),
            total == memtable::total_size(rows.take(i as int)),
        decreases records@.len() - i,
    {
        proof {
            assert(rows.take(i + 1).drop_last() =~= rows.take(i as int));
            lemma_total_prefix(rows, i + 1);
        }
        encode_record(&records[i], &mut buf);
        total = total + records[i].estimated_size();
        i += 1;
    }
    assert(rows.take(i as int) =~= rows);
    (buf, total as u64)
}

/// A part of a list is no larger than the list.
proof fn lemma_total_prefix(rows: Seq<InternalRecordView>, n: int)
    requires
        0 <= n <= rows.len(),
    ensures
        memtable::total_size(rows.take(n)) <= memtable::total_size(rows),
    decreases rows.len(),
{
    if n < rows.len() {
        lemma_total_prefix(rows.drop_last(), n);
        assert(rows.drop_last().take(n) =~= rows.take(n));
    } else {
        assert(rows.take(n) =~= rows);
    }
}

/// A batch as it is appended to a segment: each record of it and its checksum.
/// `buf` is the encoded batch.
pub fn seal_batch(buf: &[u8], records: &[InternalRecord]) -> (r: Vec<u8>)
    requires
        buf@ == encoded_all(record::views(records@)),
    ensures
        r@ == framed_all(record::views(records@)),
{
    let ghost rows = record::views(records@);
    let ghost plain = |r: InternalRecordView| encoded(r);
    let total: usize = buf.len();
    let mut out: Vec<u8> = Vec::new();
    let mut pos: usize = 0;
    let mut i: usize = 0;
    while i < records.len()
        invariant
            i <= records@.len(),
            total == buf@.len(),
            rows == record::views(records@),
            plain == (|r: InternalRecordView| encoded(r)),
            buf@ == codec::concat(plain, rows),
            pos == codec::concat(plain, rows.take(i as int)).len(),
            out@ == framed_all(rows.take(i as int)),
        decreases records@.len() - i,
    {
        proof {
            assert(rows.take(i + 1).drop_last() =~= rows.take(i as int));
            codec::lemma_concat_part(plain, rows, i as int);
        }
        let len: usize = encoded_size(&records[i]);
        let part = vstd::slice::slice_subrange(buf, pos, pos + len);
        assert(part@ =~= encoded(rows[i as int]));
        append_bytes(&mut out, part);
        push_be(&mut out, fxhash64(part, CHECK_SEED), 8);
        assert(out@ =~= framed_all(rows.take(i as int)) + framed(rows[i as int]));
        pos = pos + len;
        i += 1;
    }
    assert(rows.take(i as int) =~= rows);
    out
}

pub fn read_u64(data: &[u8]) -> (r: u64)
    requires
        data@.len() >= 8,
    ensures
        r == number_at(data@, 0, 8),
{
    read_be(data, 0, 8)
}

pub fn read_i64(data: &[u8]) -> (r: i64)
    requires
        data@.len() >= 8,
    ensures
        r == bytes::untwos(number_at(data@, 0, 8)),
{
    u64_to_i64(read_be(data, 0, 8))
}

pub fn read_u32(data: &[u8]) -> (r: u32)
    requires
        data@.len() >= 4,
    ensures
        r == number_at(data@, 0, 4),
{
    proof {
        bytes::lemma_pow256_values();
    }
    read_be(data, 0, 4) as u32
}

pub fn read_u16(data: &[u8]) -> (r: u16)
    requires
        data@.len() >= 2,
    ensures
        r == number_at(data@, 0, 2),
{
    proof {
        bytes::lemma_pow256_values();
    }
    read_be(data, 0, 2) as u16
}

/// The record at the front of `data` and its length, or `None` where it is not
/// all there.
pub fn decode_record(data: &[u8]) -> (r: Result<Option<(InternalRecord, usize)>, FlowError>)
    ensures
        r matches Ok(o) && match o {
            Some((rec, len)) => decoded(data@) == Some((rec@, len as int)),
            None => decoded(data@) is None,
        },
{
    proof {
        bytes::lemma_pow256_values();
    }
    let n: usize = data.len();
    if n < 11 {
        return Ok(None);
    }
    let seq: u64 = read_be(data, 0, 8);
    let op = Op::from_u8(data[8]);
    let key_len: usize = read_be(data, 9, 2) as usize;
    if n - 11 < key_len || n - 11 - key_len < 20 {
        return Ok(None);
    }
    let key_end: usize = 11 + key_len;
    let key = copy_range(data, 11, key_end);
    let ts: i64 = u64_to_i64(read_be(data, key_end, 8));
    let expire_at: i64 = u64_to_i64(read_be(data, key_end + 8, 8));
    let range_len: u64 = read_be(data, key_end + 16, 4);
    let left: usize = n - key_end - 20;
    if (left as u64) < range_len || left as u64 - range_len < 4 {
        return Ok(None);
    }
    let range_at: usize = key_end + 20;
    let value_at: usize = range_at + range_len as usize;
    let range_end = if range_len > 0 {
        Some(copy_range(data, range_at, value_at))
    } else {
        None
    };
    let value_len: u64 = read_be(data, value_at, 4);
    if ((n - value_at - 4) as u64) < value_len {
        return Ok(None);
    }
    let end: usize = value_at + 4 + value_len as usize;
    let value = copy_range(data, value_at + 4, end);
    Ok(Some((InternalRecord { seq, op, key, ts, expire_at, value, range_end }, end)))
}

/// The length of the record at `start`, or `None` where the fields that tell it
/// are not all there.
pub fn skip_record(data: &[u8], start: usize) -> (r: Option<u64>)
    requires
        start <= data@.len(),
    ensures
        match r {
            Some(len) => claimed_len(data@.skip(start as int)) == Some(len as int),
            None => claimed_len(data@.skip(start as int)) is None,
        },
{
    let ghost s = data@.skip(start as int);
    proof {
        bytes::lemma_pow256_values();
    }
    let left: u64 = (data.len() - start) as u64;
    if left < 11 {
        return None;
    }
    assert(s.subrange(9, 11) =~= data@.subrange(start + 9, start + 11));
    let key_len: u64 = read_be(data, start + 9, 2);
    let key_end: u64 = 11 + key_len;
    if left < key_end + 20 {
        return None;
    }
    assert(s.subrange(key_end + 16, key_end + 20) =~= data@.subrange(
        start + key_end + 16,
        start + key_end + 20,
    ));
    let range_len: u64 = read_be(data, start + key_end as usize + 16, 4);
    let range_end: u64 = key_end + 20 + range_len;
    if left < range_end + 4 {
        return None;
    }
    assert(s.subrange(range_end as int, range_end + 4) =~= data@.subrange(
        start + range_end,
        start + range_end + 4,
    ));
    let value_len: u64 = read_be(data, start + range_end as usize, 4);
    Some(range_end + 4 + value_len)
}

/// The sequence number of the record at the front of a segment and the length that
/// it takes with its checksum, or `None` where they are not all there. A record that
/// the checksum is not of has no number.
fn check_frame(data: &[u8]) -> (r: Option<(Option<u64>, usize)>)
    ensures
        match r {
            Some((Some(seq), len)) => frame_at(data@) matches Some((Some(row), n)) && row.seq == seq
                && n == len,
            Some((None, len)) => frame_at(data@) == Some((None::<InternalRecordView>, len as int)),
            None => frame_at(data@) is None,
        },
{
    let left: u64 = data.len() as u64;
    assert(data@.skip(0) =~= data@);
    let len: usize = match skip_record(data, 0) {
        Some(len) if len <= left && left - len >= 8 => len as usize,
        _ => {
            return None;
        },
    };
    let part = vstd::slice::slice_subrange(data, 0, len);
    assert(part@ =~= data@.take(len as int));
    if fxhash64(part, CHECK_SEED) == read_be(data, len, 8) {
        Some((Some(read_be(data, 0, 8)), len + 8))
    } else {
        Some((None, len + 8))
    }
}

/// A record more, and the greatest sequence number.
proof fn lemma_top_next(rows: Seq<InternalRecordView>, row: InternalRecordView)
    ensures
        top_seq(rows.push(row)) == (match top_seq(rows) {
            Some(top) if top > row.seq => Some(top),
            _ => Some(row.seq),
        }),
{
    assert(rows.push(row).drop_last() =~= rows);
}

/// Reading a segment goes on after a record.
proof fn lemma_replayed_step(s: Seq<u8>, seen: Seq<InternalRecordView>)
    ensures
        match frame_at(s) {
            Some((Some(row), len)) => 0 < len <= s.len() && seen + replayed(s) == seen.push(row)
                + replayed(s.skip(len)),
            Some((None, len)) => 0 < len <= s.len() && replayed(s) == replayed(s.skip(len)),
            None => replayed(s) == Seq::<InternalRecordView>::empty(),
        },
{
    if let Some((Some(row), len)) = frame_at(s) {
        assert(seen + (seq![row] + replayed(s.skip(len))) =~= seen.push(row) + replayed(
            s.skip(len),
        ));
    }
}

/// The greatest sequence number in a segment, if it holds a record.
pub fn find_max_seq_in_segment(data: &[u8]) -> (r: Option<u64>)
    ensures
        r == max_seq(data@),
{
    let mut max: Option<u64> = None;
    let mut pos: usize = 0;
    let ghost mut seen: Seq<InternalRecordView> = Seq::empty();
    proof {
        assert(data@.skip(0) =~= data@);
        assert(seen + replayed(data@) =~= replayed(data@));
    }
    loop
        invariant
            pos <= data@.len(),
            replayed(data@) == seen + replayed(data@.skip(pos as int)),
            max == top_seq(seen),
        ensures
            replayed(data@) == seen,
            max == top_seq(seen),
        decreases data@.len() - pos,
    {
        let ghost s = data@.skip(pos as int);
        let rest = vstd::slice::slice_subrange(data, pos, data.len());
        proof {
            assert(rest@ =~= s);
            lemma_replayed_step(s, seen);
        }
        match check_frame(rest) {
            Some((Some(seq), advance)) => {
                proof {
                    let row = ((frame_at(s)->0).0)->0;
                    assert(s.skip(advance as int) =~= data@.skip(pos + advance));
                    lemma_top_next(seen, row);
                    seen = seen.push(row);
                }
                let newer: bool = match max {
                    Some(top) => top <= seq,
                    None => true,
                };
                if newer {
                    max = Some(seq);
                }
                pos = pos + advance;
            },
            Some((None, advance)) => {
                assert(s.skip(advance as int) =~= data@.skip(pos + advance));
                pos = pos + advance;
            },
            None => {
                assert(seen + Seq::<InternalRecordView>::empty() =~= seen);
                break ;
            },
        }
    }
    max
}

/// The record at the front of a segment and the length that it takes with its
/// checksum, or `None` where they are not all there.
fn read_frame(data: &[u8]) -> (r: Option<(Option<InternalRecord>, usize)>)
    ensures
        match r {
            Some((Some(rec), len)) => frame_at(data@) == Some((Some(rec@), len as int)),
            Some((None, len)) => frame_at(data@) == Some((None::<InternalRecordView>, len as int)),
            None => frame_at(data@) is None,
        },
{
    match decode_record(data) {
        Ok(Some((rec, len))) => {
            if data.len() - len < 8 {
                return None;
            }
            let part = vstd::slice::slice_subrange(data, 0, len);
            assert(part@ =~= data@.take(len as int));
            let told: u64 = read_be(data, len, 8);
            if fxhash64(part, CHECK_SEED) == told {
                Some((Some(rec), len + 8))
            } else {
                Some((None, len + 8))
            }
        },
        _ => None,
    }
}

/// A record that fits the log's fields is read back as it was written, whatever
/// follows it.
pub proof fn law_record_read_back(r: InternalRecordView, rest: Seq<u8>)
    requires
        encodable(r),
    ensures
        decoded(encoded(r) + rest) == Some((r, encoded(r).len() as int)),
{
    let s = encoded(r) + rest;
    let range = range_bytes(r.range_end);
    let seq = bytes::be_bytes(r.seq as nat, 8);
    let key_len = bytes::be_bytes(r.key.len(), 2);
    let ts = bytes::be_bytes(bytes::twos(r.ts), 8);
    let expire = bytes::be_bytes(bytes::twos(r.expire_at), 8);
    let range_len = bytes::be_bytes(range.len(), 4);
    let value_len = bytes::be_bytes(r.value.len(), 4);
    bytes::lemma_pow256_values();
    bytes::lemma_be_round_trip(r.seq as nat, 8);
    bytes::lemma_be_round_trip(r.key.len(), 2);
    bytes::lemma_twos_round_trip(r.ts);
    bytes::lemma_twos_round_trip(r.expire_at);
    bytes::lemma_be_round_trip(bytes::twos(r.ts), 8);
    bytes::lemma_be_round_trip(bytes::twos(r.expire_at), 8);
    bytes::lemma_be_round_trip(range.len(), 4);
    bytes::lemma_be_round_trip(r.value.len(), 4);
    lemma_encoded_len(r);
    let key_end = 11int + r.key.len();
    let range_end = key_end + 20 + range.len();
    let len = range_end + 4 + r.value.len();
    assert(s.subrange(0, 8) =~= seq);
    assert(s[8] == r.op.code());
    assert(s.subrange(9, 11) =~= key_len);
    assert(s.subrange(11, key_end) =~= r.key);
    assert(s.subrange(key_end, key_end + 8) =~= ts);
    assert(s.subrange(key_end + 8, key_end + 16) =~= expire);
    assert(s.subrange(key_end + 16, key_end + 20) =~= range_len);
    assert(s.subrange(key_end + 20, range_end) =~= range);
    assert(s.subrange(range_end, range_end + 4) =~= value_len);
    assert(s.subrange(range_end + 4, len) =~= r.value);
}

/// A record and its checksum are read before what follows them.
proof fn lemma_frame(body: Seq<u8>, tail: Seq<u8>, row: InternalRecordView)
    requires
        decoded(body + (bytes::be_bytes(checksum(body) as nat, 8) + tail)) == Some(
            (row, body.len() as int),
        ),
    ensures
        ({
            let sum = bytes::be_bytes(checksum(body) as nat, 8);
            replayed((body + sum) + tail) == seq![row] + replayed(tail)
        }),
{
    let sum = bytes::be_bytes(checksum(body) as nat, 8);
    let s = (body + sum) + tail;
    let n = body.len() as int;
    bytes::lemma_pow256_values();
    bytes::lemma_be_round_trip(checksum(body) as nat, 8);
    assert(s =~= body + (sum + tail));
    assert(s.take(n) =~= body);
    assert(s.subrange(n, n + 8) =~= sum);
    assert(s.skip(n + 8) =~= tail);
    assert(frame_at(s) == Some((Some(row), n + 8)));
}

/// A record that stands in a segment is read back before what follows it.
proof fn lemma_frame_first(r: InternalRecordView, tail: Seq<u8>)
    requires
        encodable(r),
    ensures
        replayed(framed(r) + tail) == seq![r] + replayed(tail),
{
    let body = encoded(r);
    law_record_read_back(r, bytes::be_bytes(checksum(body) as nat, 8) + tail);
    lemma_frame(body, tail, r);
}

/// A batch is read back before what follows it.
proof fn lemma_read_back_append(rows: Seq<InternalRecordView>, tail: Seq<u8>)
    requires
        forall|i: int| 0 <= i < rows.len() ==> encodable(#[trigger] rows[i]),
    ensures
        replayed(framed_all(rows) + tail) == rows + replayed(tail),
{
    let encode = |r: InternalRecordView| framed(r);
    let decode = |s: Seq<u8>| replayed(s);
    let fits = |r: InternalRecordView| encodable(r);
    assert forall|r: InternalRecordView, t: Seq<u8>| fits(r) implies #[trigger] decode(encode(r) + t)
        == seq![r] + decode(t) by {
        lemma_frame_first(r, t);
    }
    codec::lemma_concat_read_back(encode, decode, fits, rows, tail);
}

/// Replay gives back a batch as it was written: the records of a batch in a segment
/// are read back, all of them, in order.
pub proof fn law_batch_read_back(rows: Seq<InternalRecordView>)
    requires
        forall|i: int| 0 <= i < rows.len() ==> encodable(#[trigger] rows[i]),
    ensures
        replayed(framed_all(rows)) == rows,
{
    lemma_read_back_append(rows, Seq::empty());
    assert(framed_all(rows) + Seq::<u8>::empty() =~= framed_all(rows));
    assert(replayed(Seq::<u8>::empty()) =~= Seq::<InternalRecordView>::empty());
    assert(rows + Seq::<InternalRecordView>::empty() =~= rows);
}

/// Two batches that are appended one after another are read back one after another.
pub proof fn law_batches_read_back(a: Seq<InternalRecordView>, b: Seq<InternalRecordView>)
    requires
        forall|i: int| 0 <= i < a.len() ==> encodable(#[trigger] a[i]),
        forall|i: int| 0 <= i < b.len() ==> encodable(#[trigger] b[i]),
    ensures
        replayed(framed_all(a) + framed_all(b)) == a + b,
{
    lemma_read_back_append(a, framed_all(b));
    law_batch_read_back(b);
}

/// A segment that was cut off inside its last record, or its checksum, still gives
/// back the records before it.
pub proof fn law_cut_segment(rows: Seq<InternalRecordView>, last: InternalRecordView, cut: int)
    requires
        forall|i: int| 0 <= i < rows.len() ==> encodable(#[trigger] rows[i]),
        encodable(last),
        0 <= cut < framed(last).len(),
    ensures
        replayed(framed_all(rows) + framed(last).take(cut)) == rows,
{
    let body = encoded(last);
    lemma_read_back_append(rows, framed(last).take(cut));
    law_record_read_back(last, Seq::empty());
    assert(body + Seq::<u8>::empty() =~= body);
    bytes::lemma_be_bytes_len(checksum(body) as nat, 8);
    lemma_cut_frame(body, bytes::be_bytes(checksum(body) as nat, 8), cut);
    assert(rows + Seq::<InternalRecordView>::empty() =~= rows);
}

/// A record that is cut off, or its checksum, is not read.
proof fn lemma_cut_frame(body: Seq<u8>, sum: Seq<u8>, cut: int)
    requires
        claimed_len(body) == Some(body.len() as int),
        sum.len() == 8,
        0 <= cut < body.len() + 8,
    ensures
        replayed((body + sum).take(cut)) == Seq::<InternalRecordView>::empty(),
{
    let tail = (body + sum).take(cut);
    if cut < body.len() {
        assert(tail =~= body.take(cut));
        lemma_cut_record(body, cut);
    } else {
        let some = sum.take(cut - body.len());
        assert(tail =~= body + some);
        lemma_claims_alike(body, some);
    }
    assert(frame_at(tail) is None);
}

/// A bad record is rejected, and it alone: where the checksum of a record that is all
/// there is not that of its bytes, replay gives the records before it and those
/// after it.
pub proof fn law_bad_record_rejected(
    before: Seq<InternalRecordView>,
    bad: Seq<u8>,
    sum: u64,
    after: Seq<InternalRecordView>,
)
    requires
        forall|i: int| 0 <= i < before.len() ==> encodable(#[trigger] before[i]),
        forall|i: int| 0 <= i < after.len() ==> encodable(#[trigger] after[i]),
        claimed_len(bad) == Some(bad.len() as int),
        sum != checksum(bad),
    ensures
        replayed(framed_all(before) + (bad + bytes::be_bytes(sum as nat, 8) + framed_all(after)))
            == before + after,
{
    let rest = framed_all(after);
    lemma_read_back_append(before, bad + bytes::be_bytes(sum as nat, 8) + rest);
    lemma_claims_alike(bad, bytes::be_bytes(sum as nat, 8) + rest);
    lemma_bad_frame(bad, sum, rest);
    law_batch_read_back(after);
}

/// A record that its checksum is not of is passed over.
proof fn lemma_bad_frame(bad: Seq<u8>, sum: u64, tail: Seq<u8>)
    requires
        claimed_len(bad + (bytes::be_bytes(sum as nat, 8) + tail)) == Some(bad.len() as int),
        sum != checksum(bad),
    ensures
        replayed(bad + bytes::be_bytes(sum as nat, 8) + tail) == replayed(tail),
{
    let stored = bytes::be_bytes(sum as nat, 8);
    let s = bad + stored + tail;
    let n = bad.len() as int;
    bytes::lemma_pow256_values();
    bytes::lemma_be_round_trip(sum as nat, 8);
    assert(s =~= bad + (stored + tail));
    assert(s.take(n) =~= bad);
    assert(s.subrange(n, n + 8) =~= stored);
    assert(s.skip(n + 8) =~= tail);
    assert(frame_at(s) == Some((None::<InternalRecordView>, n + 8)));
}

/// What follows a record does not change its length.
proof fn lemma_claims_alike(s: Seq<u8>, rest: Seq<u8>)
    requires
        claimed_len(s) == Some(s.len() as int),
    ensures
        claimed_len(s + rest) == Some(s.len() as int),
{
    let t = s + rest;
    assert(t.subrange(9, 11) =~= s.subrange(9, 11));
    let key_end = 11int + number_at(s, 9, 2);
    assert(t.subrange(key_end + 16, key_end + 20) =~= s.subrange(key_end + 16, key_end + 20));
    let range_end = key_end + 20 + number_at(s, key_end + 16, 4);
    assert(t.subrange(range_end, range_end + 4) =~= s.subrange(range_end, range_end + 4));
}

/// Corruption is detected: where one byte of a record's value is changed in a
/// segment, replay gives all the other records and nothing made from the changed
/// bytes.
pub proof fn law_corruption_detected(
    before: Seq<InternalRecordView>,
    r: InternalRecordView,
    after: Seq<InternalRecordView>,
    pos: int,
    byte: u8,
)
    requires
        forall|i: int| 0 <= i < before.len() ==> encodable(#[trigger] before[i]),
        forall|i: int| 0 <= i < after.len() ==> encodable(#[trigger] after[i]),
        encodable(r),
        0 <= pos < r.value.len(),
        r.value[pos] != byte,
    ensures
        replayed(
            (framed_all(before) + (framed(r) + framed_all(after))).update(
                framed_all(before).len() + (encoded(r).len() - r.value.len()) + pos,
                byte,
            ),
        ) == before + after,
{
    let body = encoded(r);
    let at = body.len() - r.value.len() + pos;
    let bad = body.update(at, byte);
    let sum = checksum(body);
    lemma_changed_record(r, pos, byte);
    bloom::law_changed_byte_told(body, at, byte, CHECK_SEED);
    let stored = bytes::be_bytes(sum as nat, 8);
    lemma_changed_segment(framed_all(before), body, stored, framed_all(after), at, byte);
    law_bad_record_rejected(before, bad, sum, after);
}

/// A byte of one part of a segment is changed where the part stands.
proof fn lemma_changed_segment(
    front: Seq<u8>,
    body: Seq<u8>,
    sum: Seq<u8>,
    rest: Seq<u8>,
    at: int,
    byte: u8,
)
    requires
        0 <= at < body.len(),
    ensures
        (front + ((body + sum) + rest)).update(front.len() + at, byte) == front + (body.update(
            at,
            byte,
        ) + sum + rest),
{
    assert((front + ((body + sum) + rest)).update(front.len() + at, byte) =~= front + (body.update(
        at,
        byte,
    ) + sum + rest));
}

/// A record with a changed byte in its value is as long as before.
proof fn lemma_changed_record(r: InternalRecordView, pos: int, byte: u8)
    requires
        encodable(r),
        0 <= pos < r.value.len(),
        r.value[pos] != byte,
    ensures
        ({
            let body = encoded(r);
            let at = body.len() - r.value.len() + pos;
            let bad = body.update(at, byte);
            &&& 0 <= at < body.len()
            &&& body[at] != byte
            &&& claimed_len(bad) == Some(bad.len() as int)
        }),
{
    let changed = InternalRecordView { value: r.value.update(pos, byte), ..r };
    let head = head_bytes(r);
    lemma_head(r);
    lemma_head(changed);
    lemma_head_same(r, changed);
    lemma_update_behind(head, r.value, pos, byte);
    lemma_encoded_len(r);
    law_record_read_back(changed, Seq::empty());
    lemma_nothing_behind(encoded(changed));
}

/// What stands before the value of a record.
spec fn head_bytes(r: InternalRecordView) -> Seq<u8> {
    bytes::be_bytes(r.seq as nat, 8).push(r.op.code()) + bytes::be_bytes(r.key.len(), 2) + r.key
        + bytes::be_bytes(bytes::twos(r.ts), 8) + bytes::be_bytes(bytes::twos(r.expire_at), 8)
        + bytes::be_bytes(range_bytes(r.range_end).len(), 4) + range_bytes(r.range_end)
        + bytes::be_bytes(r.value.len(), 4)
}

proof fn lemma_head(r: InternalRecordView)
    ensures
        encoded(r) == head_bytes(r) + r.value,
{
}

/// Before the value stands the same, where values of one length differ alone.
proof fn lemma_head_same(r: InternalRecordView, other: InternalRecordView)
    requires
        other == (InternalRecordView { value: other.value, ..r }),
        other.value.len() == r.value.len(),
    ensures
        head_bytes(other) == head_bytes(r),
{
}

/// A byte of the second part is changed.
proof fn lemma_update_behind(head: Seq<u8>, value: Seq<u8>, pos: int, byte: u8)
    requires
        0 <= pos < value.len(),
    ensures
        (head + value)[head.len() + pos] == value[pos],
        (head + value).update(head.len() + pos, byte) == head + value.update(pos, byte),
{
    assert((head + value).update(head.len() + pos, byte) =~= head + value.update(pos, byte));
}

proof fn lemma_nothing_behind(s: Seq<u8>)
    ensures
        s + Seq::<u8>::empty() == s,
{
    assert(s + Seq::<u8>::empty() =~= s);
}

/// A record that is cut off is not read.
proof fn lemma_cut_record(s: Seq<u8>, cut: int)
    requires
        claimed_len(s) == Some(s.len() as int),
        0 <= cut < s.len(),
    ensures
        decoded(s.take(cut)) is None,
{
    let t = s.take(cut);
    if t.len() >= 11 {
        assert(t.subrange(9, 11) =~= s.subrange(9, 11));
        let key_end = 11int + number_at(s, 9, 2);
        if t.len() >= key_end + 20 {
            assert(t.subrange(key_end + 16, key_end + 20) =~= s.subrange(key_end + 16, key_end + 20));
            let range_end = key_end + 20 + number_at(s, key_end + 16, 4);
            if t.len() >= range_end + 4 {
                assert(t.subrange(range_end, range_end + 4) =~= s.subrange(range_end, range_end + 4));
            }
        }
    }
}

/// No row has a greater sequence number than the greatest.
proof fn lemma_top_seq(rows: Seq<InternalRecordView>, i: int)
    requires
        0 <= i < rows.len(),
    ensures
        top_seq(rows) matches Some(top) && rows[i].seq <= top,
    decreases rows.len(),
{
    if i < rows.len() - 1 {
        lemma_top_seq(rows.drop_last(), i);
    }
}

/// Rows have a greatest sequence number, and one of them has it.
proof fn lemma_top_seq_found(rows: Seq<InternalRecordView>)
    ensures
        match top_seq(rows) {
            Some(top) => exists|i: int| 0 <= i < rows.len() && (#[trigger] rows[i]).seq == top,
            None => rows.len() == 0,
        },
    decreases rows.len(),
{
    if rows.len() > 0 {
        let front = rows.drop_last();
        lemma_top_seq_found(front);
        if top_seq(rows) == Some(rows.last().seq) {
            assert(rows[rows.len() - 1].seq == rows.last().seq);
        } else {
            let i = choose|i: int|
                0 <= i < front.len() && (#[trigger] front[i]).seq == top_seq(front)->0;
            assert(rows[i].seq == top_seq(front)->0);
        }
    }
}

/// No record of a segment has a greater sequence number than the segment.
pub proof fn law_max_seq_bounds(s: Seq<u8>, i: int)
    requires
        0 <= i < replayed(s).len(),
    ensures
        max_seq(s) matches Some(top) && replayed(s)[i].seq <= top,
{
    lemma_top_seq(replayed(s), i);
}

/// Replay gives no greater numbers than the segments have.
pub proof fn lemma_replay_below(segments: Seq<Seq<u8>>, after: u64, bound: u64)
    requires
        forall|j: int|
            0 <= j < segments.len() ==> (max_seq(#[trigger] segments[j]) matches Some(top) ==> top
                <= bound),
    ensures
        forall|i: int|
            0 <= i < replay_rows(segments, after).len() ==> (#[trigger] replay_rows(
                segments,
                after,
            )[i]).seq <= bound,
    decreases segments.len(),
{
    if segments.len() > 0 {
        let front = segments.drop_last();
        assert forall|j: int| 0 <= j < front.len() implies (max_seq(#[trigger] front[j])
            matches Some(top) ==> top <= bound) by {
            assert(front[j] == segments[j]);
        }
        lemma_replay_below(front, after, bound);
        let before = replay_rows(front, after);
        let rows = replayed(segments.last());
        let keep = |r: InternalRecordView| r.seq > after;
        let all = replay_rows(segments, after);
        assert(max_seq(segments[segments.len() - 1]) matches Some(top) ==> top <= bound);
        assert forall|i: int| 0 <= i < all.len() implies (#[trigger] all[i]).seq <= bound by {
            if i < before.len() {
                assert(all[i] == before[i]);
            } else {
                let row = rows.filter(keep)[i - before.len()];
                assert(all[i] == row);
                assert(rows.filter(keep).contains(row));
                rows.lemma_filter_contains_rev(keep, row);
                let k = choose|k: int| 0 <= k < rows.len() && rows[k] == row;
                lemma_top_seq(rows, k);
            }
        }
    }
}

/// Whether truncation up to `seq` keeps a segment with this greatest sequence
/// number: it does, unless the segment holds records and all of them are flushed.
pub open spec fn kept_segment(max: Option<u64>, seq: u64) -> bool {
    match max {
        Some(top) => top > seq,
        None => true,
    }
}

/// A segment that holds records is dropped exactly when all of them have a sequence
/// number up to `seq`.
pub proof fn law_dropped_when_flushed(s: Seq<u8>, seq: u64)
    requires
        replayed(s).len() > 0,
    ensures
        !kept_segment(max_seq(s), seq) <==> forall|i: int|
            0 <= i < replayed(s).len() ==> (#[trigger] replayed(s)[i]).seq <= seq,
{
    let rows = replayed(s);
    lemma_top_seq_found(rows);
    if !kept_segment(max_seq(s), seq) {
        assert forall|i: int| 0 <= i < rows.len() implies (#[trigger] rows[i]).seq <= seq by {
            lemma_top_seq(rows, i);
        }
    }
}

/// Truncation loses nothing that is not flushed: replay from `seq` gives the
/// same records, in the same order, with the truncated segments left out.
pub proof fn law_truncation_keeps_unflushed(segments: Seq<Seq<u8>>, seq: u64)
    ensures
        replay_rows(segments.filter(|s: Seq<u8>| kept_segment(max_seq(s), seq)), seq)
            == replay_rows(segments, seq),
    decreases segments.len(),
{
    reveal(Seq::filter);
    let keep = |s: Seq<u8>| kept_segment(max_seq(s), seq);
    if segments.len() > 0 {
        let last = segments.last();
        let front = segments.drop_last();
        law_truncation_keeps_unflushed(front, seq);
        let above = |r: InternalRecordView| r.seq > seq;
        if keep(last) {
            assert(front.filter(keep).push(last).drop_last() =~= front.filter(keep));
        } else {
            let rows = replayed(last);
            assert forall|i: int| 0 <= i < rows.len() implies !above(#[trigger] rows[i]) by {
                law_max_seq_bounds(last, i);
            }
            lemma_filter_none(rows, above);
            assert(replay_rows(front, seq) + Seq::<InternalRecordView>::empty() =~= replay_rows(
                front,
                seq,
            ));
        }
    }
}

/// A filter that nothing passes leaves nothing.
pub proof fn lemma_filter_none(rows: Seq<InternalRecordView>, p: spec_fn(InternalRecordView) -> bool)
    requires
        forall|i: int| 0 <= i < rows.len() ==> !p(#[trigger] rows[i]),
    ensures
        rows.filter(p) == Seq::<InternalRecordView>::empty(),
    decreases rows.len(),
{
    reveal(Seq::filter);
    if rows.len() > 0 {
        assert(!p(rows[rows.len() - 1]));
        lemma_filter_none(rows.drop_last(), p);
    }
}

/// A segment of the log.
#[derive(Debug, Clone, Copy, PartialEq, Eq, Structural)]
pub struct WalSegment {
    /// The number in the segment's file name.
    pub id: u64,
    /// The bytes written since the segment was opened.
    pub written_bytes: u64,
    /// The greatest sequence number in the segment, if it holds a record.
    pub max_seq: Option<u64>,
}

/// The segments of the log, and the numbers that come next.
#[derive(Debug)]
pub struct Wal {
    segments: Vec<WalSegment>,
    max_segment_bytes: u64,
    next_seq: u64,
    next_segment_id: u64,
}

/// What a write to the log does to the files.
#[derive(Debug, Clone, Copy, PartialEq, Eq, Structural)]
pub struct WalWrite {
    /// The segment that the bytes are appended to.
    pub segment: u64,
    /// The segment that is created for the next write, where this one is full.
    pub rollover: Option<u64>,
}

/// What truncation does to the files.
#[derive(Debug)]
pub struct WalTruncation {
    /// The segments that are deleted.
    pub deleted: Vec<u64>,
    /// The segment that is created, where none is left.
    pub created: Option<u64>,
}

/// The segments with `new` put after those whose number is not greater.
pub open spec fn insert_segment(segments: Seq<WalSegment>, new: WalSegment) -> Seq<WalSegment>
    decreases segments.len(),
{
    if segments.len() == 0 || segments.last().id <= new.id {
        segments.push(new)
    } else {
        insert_segment(segments.drop_last(), new).push(segments.last())
    }
}

/// The segments that were found, by their numbers.
pub open spec fn found_segments(found: Seq<(u64, Vec<u8>)>) -> Seq<WalSegment>
    decreases found.len(),
{
    if found.len() == 0 {
        Seq::empty()
    } else {
        let (id, data) = found.last();
        insert_segment(
            found_segments(found.drop_last()),
            WalSegment { id, written_bytes: 0, max_seq: max_seq(data@) },
        )
    }
}

/// The greatest segment number that was found, zero where none was.
pub open spec fn found_max_id(found: Seq<(u64, Vec<u8>)>) -> u64
    decreases found.len(),
{
    if found.len() == 0 {
        0
    } else {
        let rest = found_max_id(found.drop_last());
        if found.last().0 > rest {
            found.last().0
        } else {
            rest
        }
    }
}

/// The greatest sequence number that was found, zero where none was.
pub open spec fn found_max_seq(found: Seq<(u64, Vec<u8>)>) -> u64
    decreases found.len(),
{
    if found.len() == 0 {
        0
    } else {
        let rest = found_max_seq(found.drop_last());
        match max_seq(found.last().1@) {
            Some(last) if last > rest => last,
            _ => rest,
        }
    }
}

/// Whether this is the log over the segments that were found.
pub open spec fn opened(found: Seq<(u64, Vec<u8>)>, segment_size_mb: u64, log: Wal) -> bool {
    &&& log.max_bytes() == segment_size_mb * 1024 * 1024
    &&& log.next_seq() == found_max_seq(found) + 1
    &&& log.segments() == (if found.len() == 0 {
        seq![WalSegment { id: 1, written_bytes: 0, max_seq: None }]
    } else {
        found_segments(found)
    })
    &&& log.next_id() == (if found.len() == 0 {
        2
    } else {
        found_max_id(found) + 1
    })
}

/// Puts a segment in its place.
fn place_segment(segments: &mut Vec<WalSegment>, new: WalSegment)
    ensures
        final(segments)@ == insert_segment(old(segments)@, new),
{
    let ghost before = segments@;
    let mut n: usize = segments.len();
    assert(before.take(n as int) =~= before);
    assert(before.skip(n as int) =~= Seq::<WalSegment>::empty());
    assert(insert_segment(before, new) =~= insert_segment(before.take(n as int), new) + before.skip(
        n as int,
    ));
    while n > 0 && segments[n - 1].id > new.id
        invariant
            n <= segments@.len(),
            segments@ == before,
            insert_segment(before, new) == insert_segment(before.take(n as int), new)
                + before.skip(n as int),
        decreases n,
    {
        proof {
            let part = before.take(n as int);
            assert(part.drop_last() =~= before.take(n - 1));
            assert(insert_segment(before.take(n - 1), new).push(part.last()) + before.skip(n as int)
                =~= insert_segment(before.take(n - 1), new) + before.skip(n - 1));
        }
        n -= 1;
    }
    segments.insert(n, new);
    assert(segments@ =~= before.take(n as int).push(new) + before.skip(n as int));
}

/// The greater of two numbers, where there are any.
pub open spec fn greater(a: Option<u64>, b: Option<u64>) -> Option<u64> {
    match (a, b) {
        (Some(x), Some(y)) => if x >= y {
            a
        } else {
            b
        },
        (None, _) => b,
        _ => a,
    }
}

impl Wal {
    /// The segments, oldest first.
    pub closed spec fn segments(self) -> Seq<WalSegment> {
        self.segments@
    }

    /// The bytes at which a segment is full.
    pub closed spec fn max_bytes(self) -> u64 {
        self.max_segment_bytes
    }

    /// The sequence number that follows those in the log.
    pub closed spec fn next_seq(self) -> u64 {
        self.next_seq
    }

    /// The number of the segment that is created next.
    pub closed spec fn next_id(self) -> u64 {
        self.next_segment_id
    }

    /// There is always a segment to write to.
    pub open spec fn wf(self) -> bool {
        self.segments().len() > 0
    }

    /// The log over the segments that were found: their numbers and what they
    /// hold. Where none was found, a first one is to be created.
    pub fn open(found: &Vec<(u64, Vec<u8>)>, segment_size_mb: u64) -> (r: (Self, Option<u64>))
        requires
            segment_size_mb * 1024 * 1024 <= u64::MAX,
            found_max_id(found@) < u64::MAX - 1,
            found_max_seq(found@) < u64::MAX,
        ensures
            r.0.wf(),
            opened(found@, segment_size_mb, r.0),
            r.1 == (if found@.len() == 0 {
                Some(1u64)
            } else {
                None
            }),
    {
        let mut wal = Self {
            segments: Vec::new(),
            max_segment_bytes: segment_size_mb * 1024 * 1024,
            next_seq: 1,
            next_segment_id: 1,
        };
        let created = wal.load_existing(found);
        (wal, created)
    }

    /// Takes in the segments that were found. Returns the number of the segment
    /// that is to be created, where none was found.
    fn load_existing(&mut self, found: &Vec<(u64, Vec<u8>)>) -> (r: Option<u64>)
        requires
            old(self).segments().len() == 0,
            old(self).next_seq() == 1,
            found_max_id(found@) < u64::MAX - 1,
            found_max_seq(found@) < u64::MAX,
        ensures
            final(self).wf(),
            final(self).max_bytes() == old(self).max_bytes(),
            final(self).next_seq() == found_max_seq(found@) + 1,
            r == (if found@.len() == 0 {
                Some(1u64)
            } else {
                None
            }),
            final(self).segments() == (if found@.len() == 0 {
                seq![WalSegment { id: 1, written_bytes: 0, max_seq: None }]
            } else {
                found_segments(found@)
            }),
            final(self).next_id() == (if found@.len() == 0 {
                2
            } else {
                found_max_id(found@) + 1
            }),
    {
        let mut top_seq: u64 = 0;
        let mut top_id: u64 = 0;
        let mut i: usize = 0;
        assert(self.segments() =~= found_segments(found@.take(0)));
        while i < found.len()
            invariant
                i <= found@.len(),
                self.max_bytes() == old(self).max_bytes(),
                self.next_seq() == 1,
                self.segments() == found_segments(found@.take(i as int)),
                self.segments().len() == i,
                top_id == found_max_id(found@.take(i as int)),
                top_seq == found_max_seq(found@.take(i as int)),
            decreases found@.len() - i,
        {
            assert(found@.take(i + 1).drop_last() =~= found@.take(i as int));
            let id: u64 = found[i].0;
            if id > top_id {
                top_id = id;
            }
            let seg_seq: Option<u64> = find_max_seq_in_segment(&found[i].1);
            let new = WalSegment { id, written_bytes: 0, max_seq: seg_seq };
            proof {
                lemma_insert_segment_len(self.segments(), new);
            }
            place_segment(&mut self.segments, new);
            if let Some(seq) = seg_seq {
                if seq > top_seq {
                    top_seq = seq;
                }
            }
            i += 1;
        }
        assert(found@.take(i as int) =~= found@);
        if top_seq > 0 {
            self.next_seq = top_seq + 1;
        }
        self.next_segment_id = top_id + 1;
        if self.segments.len() == 0 {
            let id: u64 = self.next_segment_id;
            self.create_new_segment(id);
            self.next_segment_id = id + 1;
            assert(self.segments() =~= seq![WalSegment { id: 1, written_bytes: 0, max_seq: None }]);
            Some(id)
        } else {
            None
        }
    }

    /// Adds an empty segment.
    fn create_new_segment(&mut self, id: u64)
        ensures
            final(self).segments() == old(self).segments().push(
                WalSegment { id, written_bytes: 0, max_seq: None },
            ),
            final(self).max_bytes() == old(self).max_bytes(),
            final(self).next_seq() == old(self).next_seq(),
            final(self).next_id() == old(self).next_id(),
    {
        self.segments.push(WalSegment { id, written_bytes: 0, max_seq: None });
    }

    /// The sequence number that follows those in the log.
    pub fn following_seq(&self) -> (r: u64)
        ensures
            r == self.next_seq(),
    {
        self.next_seq
    }

    /// Whether so many bytes more can be counted in the last segment, and there is a
    /// number for another one.
    pub fn has_room(&self, len: usize) -> (r: bool)
        requires
            self.wf(),
        ensures
            r == (self.segments().last().written_bytes + len <= u64::MAX && self.next_id()
                < u64::MAX),
    {
        let written: u64 = self.segments[self.segments.len() - 1].written_bytes;
        len as u64 <= u64::MAX - written && self.next_segment_id < u64::MAX
    }

    /// The number of the segment that is written to.
    pub fn last_segment(&self) -> (r: u64)
        requires
            self.wf(),
        ensures
            r == self.segments().last().id,
    {
        self.segments[self.segments.len() - 1].id
    }

    /// The numbers of the segments, oldest first.
    pub fn segment_ids(&self) -> (r: Vec<u64>)
        ensures
            r@ == self.segments().map_values(|s: WalSegment| s.id),
    {
        let mut ids: Vec<u64> = Vec::new();
        let mut i: usize = 0;
        while i < self.segments.len()
            invariant
                i <= self.segments@.len(),
                ids@ == self.segments@.take(i as int).map_values(|s: WalSegment| s.id),
            decreases self.segments@.len() - i,
        {
            ids.push(self.segments[i].id);
            assert(ids@ =~= self.segments@.take(i + 1).map_values(|s: WalSegment| s.id));
            i += 1;
        }
        assert(self.segments@.take(i as int) =~= self.segments@);
        ids
    }

    /// The last segment after `buf` was appended to it.
    pub open spec fn written(self, buf: Seq<u8>) -> WalSegment {
        let last = self.segments().last();
        WalSegment {
            id: last.id,
            written_bytes: (last.written_bytes + buf.len()) as u64,
            max_seq: greater(last.max_seq, max_seq(buf)),
        }
    }

    /// Whether `after` is the log once `buf` was appended to it, and `done` what
    /// that does to the files: a full segment is followed by a new one.
    pub open spec fn appends(self, buf: Seq<u8>, after: Wal, done: WalWrite) -> bool {
        let updated = self.segments().drop_last().push(self.written(buf));
        &&& after.max_bytes() == self.max_bytes()
        &&& after.next_seq() == self.next_seq()
        &&& done.segment == self.segments().last().id
        &&& if self.written(buf).written_bytes >= self.max_bytes() {
            &&& done.rollover == Some(self.next_id())
            &&& after.next_id() == self.next_id() + 1
            &&& after.segments() == updated.push(
                WalSegment { id: self.next_id(), written_bytes: 0, max_seq: None },
            )
        } else {
            &&& done.rollover is None
            &&& after.next_id() == self.next_id()
            &&& after.segments() == updated
        }
    }

    /// Notes that records, each with its checksum, are appended to the last
    /// segment. When that is full, a new segment is started.
    pub fn write_encoded(&mut self, buf: &[u8]) -> (r: WalWrite)
        requires
            old(self).wf(),
            old(self).segments().last().written_bytes + buf@.len() <= u64::MAX,
            old(self).next_id() < u64::MAX,
        ensures
            final(self).wf(),
            old(self).appends(buf@, *final(self), r),
    {
        let last: usize = self.segments.len() - 1;
        let mut seg: WalSegment = self.segments[last];
        let top: Option<u64> = find_max_seq_in_segment(buf);
        seg.written_bytes = seg.written_bytes + buf.len() as u64;
        seg.max_seq = match (seg.max_seq, top) {
            (Some(x), Some(y)) => if x >= y {
                seg.max_seq
            } else {
                top
            },
            (None, _) => top,
            _ => seg.max_seq,
        };
        self.segments.set(last, seg);
        assert(self.segments() =~= old(self).segments().drop_last().push(old(self).written(buf@)));
        if seg.written_bytes >= self.max_segment_bytes {
            let id: u64 = self.next_segment_id;
            self.next_segment_id = id + 1;
            self.create_new_segment(id);
            WalWrite { segment: seg.id, rollover: Some(id) }
        } else {
            WalWrite { segment: seg.id, rollover: None }
        }
    }

    /// The records of the segments with a sequence number above `after_seq`,
    /// sorted by sequence number. `data` is what the segments hold, in their
    /// order.
    pub fn replay_from(data: &Vec<Vec<u8>>, after_seq: u64) -> (r: Vec<InternalRecord>)
        ensures
            sort::stably_sorted(
                SortOrder::Sequence,
                replay_rows(datas(data@), after_seq),
                record::views(r@),
            ),
    {
        let ghost above = |r: InternalRecordView| r.seq > after_seq;
        let mut records: Vec<InternalRecord> = Vec::new();
        let mut i: usize = 0;
        assert(record::views(records@) =~= replay_rows(datas(data@).take(0), after_seq));
        while i < data.len()
            invariant
                i <= data@.len(),
                record::views(records@) == replay_rows(datas(data@).take(i as int), after_seq),
            decreases data@.len() - i,
        {
            replay_segment(&data[i], after_seq, &mut records);
            assert(datas(data@).take(i + 1).drop_last() =~= datas(data@).take(i as int));
            i += 1;
        }
        assert(datas(data@).take(i as int) =~= datas(data@));
        sort_records(&records, SortOrder::Sequence)
    }

    /// Whether `after` is the log once the segments with records up to `seq`
    /// alone were dropped, and `done` what that does to the files: where no
    /// segment is left, a new one is started.
    pub open spec fn drops(self, seq: u64, after: Wal, done: WalTruncation) -> bool {
        let kept = self.segments().filter(|s: WalSegment| kept_segment(s.max_seq, seq));
        &&& after.max_bytes() == self.max_bytes()
        &&& after.next_seq() == self.next_seq()
        &&& done.deleted@ == self.segments().filter(
            |s: WalSegment| !kept_segment(s.max_seq, seq),
        ).map_values(|s: WalSegment| s.id)
        &&& if kept.len() == 0 {
            &&& done.created == Some(self.next_id())
            &&& after.next_id() == self.next_id() + 1
            &&& after.segments() == seq![
                WalSegment { id: self.next_id(), written_bytes: 0, max_seq: None },
            ]
        } else {
            &&& done.created is None
            &&& after.next_id() == self.next_id()
            &&& after.segments() == kept
        }
    }

    /// Drops the segments all of whose records have a sequence number up to
    /// `seq`. Where none is left, a new one is started.
    pub fn truncate_before(&mut self, seq: u64) -> (r: WalTruncation)
        requires
            old(self).wf(),
            old(self).next_id() < u64::MAX,
        ensures
            final(self).wf(),
            old(self).drops(seq, *final(self), r),
    {
        let ghost keep = |s: WalSegment| kept_segment(s.max_seq, seq);
        let ghost drop = |s: WalSegment| !kept_segment(s.max_seq, seq);
        let ghost all = self.segments@;
        let mut kept: Vec<WalSegment> = Vec::new();
        let mut deleted: Vec<u64> = Vec::new();
        let mut i: usize = 0;
        proof {
            reveal(Seq::filter);
            assert(kept@ =~= all.take(0).filter(keep));
            assert(deleted@ =~= all.take(0).filter(drop).map_values(|s: WalSegment| s.id));
        }
        while i < self.segments.len()
            invariant
                i <= self.segments@.len(),
                *self == *old(self),
                all == self.segments@,
                keep == (|s: WalSegment| kept_segment(s.max_seq, seq)),
                drop == (|s: WalSegment| !kept_segment(s.max_seq, seq)),
                kept@ == all.take(i as int).filter(keep),
                deleted@ == all.take(i as int).filter(drop).map_values(|s: WalSegment| s.id),
            decreases self.segments@.len() - i,
        {
            let seg: WalSegment = self.segments[i];
            proof {
                reveal(Seq::filter);
                assert(all.take(i + 1).drop_last() =~= all.take(i as int));
            }
            let keep_it: bool = match seg.max_seq {
                Some(top) => top > seq,
                None => true,
            };
            if keep_it {
                kept.push(seg);
            } else {
                deleted.push(seg.id);
            }
            assert(deleted@ =~= all.take(i + 1).filter(drop).map_values(|s: WalSegment| s.id));
            i += 1;
        }
        assert(all.take(i as int) =~= all);
        self.segments = kept;
        if self.segments.len() == 0 {
            let id: u64 = self.next_segment_id;
            self.next_segment_id = id + 1;
            self.create_new_segment(id);
            assert(self.segments() =~= seq![WalSegment { id, written_bytes: 0, max_seq: None }]);
            WalTruncation { deleted, created: Some(id) }
        } else {
            WalTruncation { deleted, created: None }
        }
    }
}

/// Putting a segment in its place adds one segment.
proof fn lemma_insert_segment_len(segments: Seq<WalSegment>, new: WalSegment)
    ensures
        insert_segment(segments, new).len() == segments.len() + 1,
    decreases segments.len(),
{
    if segments.len() > 0 && segments.last().id > new.id {
        lemma_insert_segment_len(segments.drop_last(), new);
    }
}

/// Appends the records of one segment with a sequence number above `after_seq`.
fn replay_segment(data: &Vec<u8>, after_seq: u64, records: &mut Vec<InternalRecord>)
    ensures
        record::views(final(records)@) == record::views(old(records)@) + replayed(data@).filter(
            |r: InternalRecordView| r.seq > after_seq,
        ),
{
    let ghost above = |r: InternalRecordView| r.seq > after_seq;
    let ghost before = record::views(records@);
    let ghost mut seen: Seq<InternalRecordView> = Seq::empty();
    let mut pos: usize = 0;
    proof {
        reveal(Seq::filter);
        assert(data@.skip(0) =~= data@);
        assert(seen + replayed(data@) =~= replayed(data@));
        assert(before + seen.filter(above) =~= before);
    }
    loop
        invariant
            pos <= data@.len(),
            above == (|r: InternalRecordView| r.seq > after_seq),
            replayed(data@) == seen + replayed(data@.skip(pos as int)),
            record::views(records@) == before + seen.filter(above),
        ensures
            replayed(data@) == seen,
            record::views(records@) == before + seen.filter(above),
        decreases data@.len() - pos,
    {
        let ghost s = data@.skip(pos as int);
        let rest = vstd::slice::slice_subrange(data.as_slice(), pos, data.len());
        proof {
            assert(rest@ =~= s);
            lemma_replayed_step(s, seen);
        }
        match read_frame(rest) {
            Some((Some(rec), advance)) => {
                let ghost row = rec@;
                let ghost so_far = record::views(records@);
                proof {
                    assert(s.skip(advance as int) =~= data@.skip(pos + advance));
                    reveal(Seq::filter);
                    assert(seen.push(row).drop_last() =~= seen);
                    seen = seen.push(row);
                }
                if rec.seq > after_seq {
                    records.push(rec);
                    assert(record::views(records@) =~= so_far.push(row));
                }
                pos = pos + advance;
            },
            Some((None, advance)) => {
                assert(s.skip(advance as int) =~= data@.skip(pos + advance));
                pos = pos + advance;
            },
            None => {
                assert(seen + Seq::<InternalRecordView>::empty() =~= seen);
                break ;
            },
        }
    }
}

/// The name of the file of a segment.
pub fn segment_file_name(id: u64) -> (r: String)
    ensures
        r@ == text::zero_padded(text::decimal_text(id as nat), 9) + ".wal"@,
{
    let digits = decimal_padded(id, 9);
    join(digits.as_str(), ".wal")
}

/// The numbers of a log that is opened follow those that were found: no segment that was
/// found has a greater number than the next one, and no record in them a greater sequence
/// number than the one that the log goes on from.
pub proof fn law_found_bounds(found: Seq<(u64, Vec<u8>)>, k: int, i: int)
    requires
        0 <= k < found.len(),
        0 <= i < replayed(found[k].1@).len(),
    ensures
        found[k].0 <= found_max_id(found),
        replayed(found[k].1@)[i].seq <= found_max_seq(found),
    decreases found.len(),
{
    let front = found.drop_last();
    law_max_seq_bounds(found[k].1@, i);
    if k < front.len() {
        assert(front[k] == found[k]);
        law_found_bounds(front, k, i);
    } else {
        assert(found[k] == found.last());
    }
}

/// A segment that was found is one of the log, under its number, with the greatest
/// sequence number of its records; the segments of the log are those that were found, in
/// the order of their numbers.
pub proof fn law_found_segments(found: Seq<(u64, Vec<u8>)>)
    ensures
        found_segments(found).len() == found.len(),
        forall|k: int|
            0 <= k < found.len() ==> #[trigger] found_segments(found).contains(
                WalSegment { id: found[k].0, written_bytes: 0, max_seq: max_seq(found[k].1@) },
            ),
        forall|i: int, j: int|
            0 <= i < j < found_segments(found).len() ==> (#[trigger] found_segments(found)[i]).id
                <= (#[trigger] found_segments(found)[j]).id,
    decreases found.len(),
{
    if found.len() > 0 {
        let front = found.drop_last();
        let before = found_segments(front);
        let (id, data) = found.last();
        let new = WalSegment { id, written_bytes: 0, max_seq: max_seq(data@) };
        law_found_segments(front);
        lemma_inserted(before, new);
        assert forall|k: int| 0 <= k < found.len() implies #[trigger] found_segments(
            found,
        ).contains(
            WalSegment { id: found[k].0, written_bytes: 0, max_seq: max_seq(found[k].1@) },
        ) by {
            if k < front.len() {
                assert(front[k] == found[k]);
                assert(before.contains(
                    WalSegment { id: front[k].0, written_bytes: 0, max_seq: max_seq(front[k].1@) },
                ));
            } else {
                assert(found[k] == found.last());
            }
        }
    }
}

proof fn lemma_inserted(segments: Seq<WalSegment>, new: WalSegment)
    requires
        forall|i: int, j: int|
            0 <= i < j < segments.len() ==> (#[trigger] segments[i]).id <= (
            #[trigger] segments[j]).id,
    ensures
        insert_segment(segments, new).len() == segments.len() + 1,
        insert_segment(segments, new).contains(new),
        forall|s: WalSegment| #[trigger]
            segments.contains(s) ==> insert_segment(segments, new).contains(s),
        forall|i: int, j: int|
            0 <= i < j < insert_segment(segments, new).len() ==> (#[trigger] insert_segment(
                segments,
                new,
            )[i]).id <= (#[trigger] insert_segment(segments, new)[j]).id,
        forall|i: int|
            0 <= i < insert_segment(segments, new).len() ==> (#[trigger] insert_segment(
                segments,
                new,
            )[i]).id <= if segments.len() > 0 && segments.last().id > new.id {
                segments.last().id
            } else {
                new.id
            },
    decreases segments.len(),
{
    let out = insert_segment(segments, new);
    if segments.len() == 0 || segments.last().id <= new.id {
        assert(out[segments.len() as int] == new);
        assert forall|s: WalSegment| #[trigger] segments.contains(s) implies out.contains(s) by {
            let k = choose|k: int| 0 <= k < segments.len() && segments[k] == s;
            assert(out[k] == s);
        }
        assert forall|i: int| 0 <= i < segments.len() implies (#[trigger] segments[i]).id
            <= segments.last().id by {
            assert(segments[segments.len() - 1] == segments.last());
        }
    } else {
        let front = segments.drop_last();
        let rest = insert_segment(front, new);
        assert forall|i: int, j: int| 0 <= i < j < front.len() implies (#[trigger] front[i]).id <= (
        #[trigger] front[j]).id by {
            assert(front[i] == segments[i] && front[j] == segments[j]);
        }
        lemma_inserted(front, new);
        let k = choose|k: int| 0 <= k < rest.len() && rest[k] == new;
        assert(out[k] == new);
        assert(segments[segments.len() - 1] == segments.last());
        if front.len() > 0 {
            assert(front.last() == segments[segments.len() - 2]);
        }
        assert forall|s: WalSegment| #[trigger] segments.contains(s) implies out.contains(s) by {
            let m = choose|m: int| 0 <= m < segments.len() && segments[m] == s;
            if m < front.len() {
                assert(front[m] == s);
                assert(front.contains(s));
                let q = choose|q: int| 0 <= q < rest.len() && rest[q] == s;
                assert(out[q] == s);
            } else {
                assert(out[rest.len() as int] == s);
            }
        }
        assert forall|i: int, j: int| 0 <= i < j < out.len() implies (#[trigger] out[i]).id <= (
        #[trigger] out[j]).id by {
            assert(out[i] == rest[i]);
            if j < rest.len() {
                assert(out[j] == rest[j]);
            }
        }
        assert forall|i: int| 0 <= i < out.len() implies (#[trigger] out[i]).id
            <= segments.last().id by {
            if i < rest.len() {
                assert(out[i] == rest[i]);
            }
        }
    }
}

/// An append changes the last segment alone: it grows by the bytes, and its greatest
/// sequence number is that of what it held and of what was appended. A new segment, with a
/// number of its own, follows exactly where the last one is full.
pub proof fn law_append_grows(log: Wal, buf: Seq<u8>, after: Wal, done: WalWrite, k: int)
    requires
        log.wf(),
        log.segments().last().written_bytes + buf.len() <= u64::MAX,
        log.appends(buf, after, done),
        0 <= k < log.segments().len(),
    ensures
        ({
            let last = log.segments().len() - 1;
            let grown = after.segments()[last];
            &&& done.segment == log.segments()[last].id
            &&& k < last ==> after.segments()[k] == log.segments()[k]
            &&& grown.id == log.segments()[last].id
            &&& grown.written_bytes == log.segments()[last].written_bytes + buf.len()
            &&& log.segments()[last].max_seq matches Some(top) ==> (grown.max_seq matches Some(
                now,
            ) && now >= top)
            &&& forall|i: int|
                0 <= i < replayed(buf).len() ==> (grown.max_seq matches Some(now) && now >= (
                #[trigger] replayed(buf)[i]).seq)
            &&& done.rollover is Some <==> grown.written_bytes >= log.max_bytes()
            &&& done.rollover is Some <==> after.segments().len() == log.segments().len() + 1
            &&& done.rollover is None <==> after.segments().len() == log.segments().len()
            &&& done.rollover matches Some(id) ==> id == log.next_id() && after.segments().last().id
                == id && after.segments().last().written_bytes == 0 && after.next_id() > id
        }),
{
    let last = log.segments().len() - 1;
    assert(log.segments()[last] == log.segments().last());
    assert forall|i: int| 0 <= i < replayed(buf).len() implies (
    after.segments()[last].max_seq matches Some(now) && now >= (#[trigger] replayed(
        buf,
    )[i]).seq) by {
        law_max_seq_bounds(buf, i);
    }
}

/// Whether a segment with the number holds records, and all of them up to `seq`.
pub open spec fn is_flushed(segments: Seq<WalSegment>, id: u64, seq: u64) -> bool {
    exists|j: int|
        0 <= j < segments.len() && (#[trigger] segments[j]).id == id && (
        segments[j].max_seq matches Some(top) && top <= seq)
}

/// A truncation drops a segment only where it holds records and all of them are flushed,
/// keeps the others as they are and in their order, and leaves a segment to write to.
pub proof fn law_drop_keeps(log: Wal, seq: u64, after: Wal, done: WalTruncation, k: int)
    requires
        log.wf(),
        log.drops(seq, after, done),
        0 <= k < log.segments().len(),
    ensures
        after.segments().len() > 0,
        log.segments()[k].max_seq is None ==> after.segments().contains(log.segments()[k]),
        log.segments()[k].max_seq matches Some(top) ==> top > seq ==> after.segments().contains(
            log.segments()[k],
        ),
        log.segments()[k].max_seq matches Some(top) ==> top <= seq ==> done.deleted@.contains(
            log.segments()[k].id,
        ),
        forall|i: int|
            0 <= i < done.deleted@.len() ==> is_flushed(
                log.segments(),
                #[trigger] done.deleted@[i],
                seq,
            ),
{
    broadcast use vstd::seq_lib::group_filter_ensures;

    let keep = |s: WalSegment| kept_segment(s.max_seq, seq);
    let drop = |s: WalSegment| !kept_segment(s.max_seq, seq);
    let segments = log.segments();
    let gone = segments.filter(drop);
    if keep(segments[k]) {
        assert(segments.filter(keep).contains(segments[k]));
    } else {
        assert(gone.contains(segments[k]));
        let i = choose|i: int| 0 <= i < gone.len() && gone[i] == segments[k];
        assert(done.deleted@[i] == segments[k].id);
    }
    assert forall|i: int| 0 <= i < done.deleted@.len() implies is_flushed(
        segments,
        #[trigger] done.deleted@[i],
        seq,
    ) by {
        let s = gone[i];
        assert(drop(gone[i]));
        assert(gone.contains(s));
        segments.lemma_filter_contains_rev(drop, s);
        let j = choose|j: int| 0 <= j < segments.len() && segments[j] == s;
        assert(segments[j].id == done.deleted@[i]);
    }
}

} // verus!
