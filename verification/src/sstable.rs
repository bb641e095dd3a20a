//! Table files: blocks of compressed records, each behind a header.

use vstd::prelude::*;
use std::sync::Arc;
use crate::bloom;
use crate::bloom::BloomFilter;
use crate::bytes;
use crate::bytes::{append_bytes, bytes_eq, bytes_lt, copy_bytes, copy_range, i64_to_u64, push_be, read_be, u64_to_i64};
use crate::cache;
use crate::cache::{BlockCache, CacheKey};
use crate::codec;
use crate::error::FlowError;
use crate::manifest;
use crate::manifest::{BlockInfo, BlockInfoView};
use crate::memtable;
use crate::record;
use crate::record::{InternalRecord, InternalRecordView, Op};
use crate::sort;
use crate::sort::SortOrder;
use crate::text;
use crate::text::{decimal, decimal_padded, join};
use crate::wal;

verus! {

/// What the header of a block compressed with LZ4 begins with.
pub const BLOCK_MAGIC_LZ4: u32 = 0x54534E42;

/// What the header of a block compressed with Zstandard begins with.
pub const BLOCK_MAGIC_ZSTD: u32 = 0x5A534E42;

/// The bytes of a block header.
pub const HEADER_SIZE: usize = 48;

/// The records of a block.
#[derive(Debug)]
pub struct SstBlock {
    pub records: Vec<InternalRecord>,
}

/// The header of a block.
#[derive(Debug, Clone, Copy, PartialEq, Eq, Structural)]
pub struct BlockHeader {
    pub num_records: u32,
    pub min_ts: i64,
    pub max_ts: i64,
    pub min_expire: i64,
    pub max_expire: i64,
    pub data_len: u32,
    pub compressed_len: u32,
    pub is_zstd: bool,
}

/// A time as it stands in a header.
pub open spec fn time_bytes(ts: i64) -> Seq<u8> {
    bytes::be_bytes(bytes::twos(ts), 8)
}

/// The time in eight bytes at `pos`.
pub open spec fn time_at(s: Seq<u8>, pos: int) -> i64 {
    bytes::untwos(wal::number_at(s, pos, 8)) as i64
}

impl BlockHeader {
    /// What the header begins with.
    pub open spec fn magic(self) -> u32 {
        if self.is_zstd {
            BLOCK_MAGIC_ZSTD
        } else {
            BLOCK_MAGIC_LZ4
        }
    }

    /// The header as it is written, numbers most significant byte first.
    pub open spec fn encoded(self) -> Seq<u8> {
        bytes::be_bytes(self.magic() as nat, 4) + bytes::be_bytes(self.num_records as nat, 4)
            + time_bytes(self.min_ts) + time_bytes(self.max_ts) + time_bytes(self.min_expire)
            + time_bytes(self.max_expire) + bytes::be_bytes(self.data_len as nat, 4)
            + bytes::be_bytes(self.compressed_len as nat, 4)
    }

    /// The header at the front of `s`, if it is all there and begins with a
    /// known number.
    pub open spec fn decoded(s: Seq<u8>) -> Option<BlockHeader> {
        let magic = wal::number_at(s, 0, 4);
        if s.len() < HEADER_SIZE || (magic != BLOCK_MAGIC_LZ4 && magic != BLOCK_MAGIC_ZSTD) {
            None
        } else {
            Some(
                BlockHeader {
                    num_records: wal::number_at(s, 4, 4) as u32,
                    min_ts: time_at(s, 8),
                    max_ts: time_at(s, 16),
                    min_expire: time_at(s, 24),
                    max_expire: time_at(s, 32),
                    data_len: wal::number_at(s, 40, 4) as u32,
                    compressed_len: wal::number_at(s, 44, 4) as u32,
                    is_zstd: magic == BLOCK_MAGIC_ZSTD,
                },
            )
        }
    }

    /// The error for bytes that are no header.
    pub open spec fn is_header_error(s: Seq<u8>, e: FlowError) -> bool {
        if s.len() < HEADER_SIZE {
            e matches FlowError::Corruption { file, msg } && file@ == "sst"@ && msg@
                == "block header too short"@
        } else {
            e == FlowError::InvalidMagic {
                expected: BLOCK_MAGIC_LZ4,
                actual: wal::number_at(s, 0, 4) as u32,
            }
        }
    }

    /// The header as it is written.
    pub fn to_bytes(&self) -> (r: [u8; HEADER_SIZE])
        ensures
            r@ == self.encoded(),
    {
        let magic: u32 = if self.is_zstd {
            BLOCK_MAGIC_ZSTD
        } else {
            BLOCK_MAGIC_LZ4
        };
        let mut buf: Vec<u8> = Vec::new();
        push_be(&mut buf, magic as u64, 4);
        push_be(&mut buf, self.num_records as u64, 4);
        push_be(&mut buf, i64_to_u64(self.min_ts), 8);
        push_be(&mut buf, i64_to_u64(self.max_ts), 8);
        push_be(&mut buf, i64_to_u64(self.min_expire), 8);
        push_be(&mut buf, i64_to_u64(self.max_expire), 8);
        push_be(&mut buf, self.data_len as u64, 4);
        push_be(&mut buf, self.compressed_len as u64, 4);
        proof {
            assert(buf@ =~= self.encoded());
            lemma_header_len(*self);
        }
        let mut out: [u8; HEADER_SIZE] = [0u8; HEADER_SIZE];
        let mut i: usize = 0;
        while i < HEADER_SIZE
            invariant
                i <= HEADER_SIZE,
                buf@.len() == HEADER_SIZE,
                forall|k: int| 0 <= k < i ==> #[trigger] out@[k] == buf@[k],
            decreases HEADER_SIZE - i,
        {
            out[i] = buf[i];
            i += 1;
        }
        assert(out@ =~= buf@);
        out
    }

    /// The header at the front of `data`.
    pub fn from_bytes(data: &[u8]) -> (r: Result<Self, FlowError>)
        ensures
            match r {
                Ok(header) => BlockHeader::decoded(data@) == Some(header),
                Err(e) => BlockHeader::decoded(data@) is None && BlockHeader::is_header_error(data@, e),
            },
    {
        proof {
            bytes::lemma_pow256_values();
        }
        if data.len() < HEADER_SIZE {
            return Err(
                FlowError::Corruption {
                    file: "sst".to_owned(),
                    msg: "block header too short".to_owned(),
                },
            );
        }
        let magic: u32 = read_be(data, 0, 4) as u32;
        let is_zstd: bool = if magic == BLOCK_MAGIC_LZ4 {
            false
        } else if magic == BLOCK_MAGIC_ZSTD {
            true
        } else {
            return Err(FlowError::InvalidMagic { expected: BLOCK_MAGIC_LZ4, actual: magic });
        };
        Ok(
            Self {
                num_records: read_be(data, 4, 4) as u32,
                min_ts: u64_to_i64(read_be(data, 8, 8)),
                max_ts: u64_to_i64(read_be(data, 16, 8)),
                min_expire: u64_to_i64(read_be(data, 24, 8)),
                max_expire: u64_to_i64(read_be(data, 32, 8)),
                data_len: read_be(data, 40, 4) as u32,
                compressed_len: read_be(data, 44, 4) as u32,
                is_zstd,
            },
        )
    }
}

/// A header is 48 bytes long.
proof fn lemma_header_len(h: BlockHeader)
    ensures
        h.encoded().len() == HEADER_SIZE,
{
    bytes::lemma_be_bytes_len(h.magic() as nat, 4);
    bytes::lemma_be_bytes_len(h.num_records as nat, 4);
    bytes::lemma_be_bytes_len(bytes::twos(h.min_ts), 8);
    bytes::lemma_be_bytes_len(bytes::twos(h.max_ts), 8);
    bytes::lemma_be_bytes_len(bytes::twos(h.min_expire), 8);
    bytes::lemma_be_bytes_len(bytes::twos(h.max_expire), 8);
    bytes::lemma_be_bytes_len(h.data_len as nat, 4);
    bytes::lemma_be_bytes_len(h.compressed_len as nat, 4);
}

/// A header is read back as it was written, whatever follows it.
pub proof fn law_header_read_back(h: BlockHeader, rest: Seq<u8>)
    ensures
        h.encoded().len() == HEADER_SIZE,
        BlockHeader::decoded(h.encoded() + rest) == Some(h),
{
    let s = h.encoded() + rest;
    bytes::lemma_pow256_values();
    lemma_header_len(h);
    bytes::lemma_be_round_trip(h.magic() as nat, 4);
    bytes::lemma_be_round_trip(h.num_records as nat, 4);
    bytes::lemma_twos_round_trip(h.min_ts);
    bytes::lemma_twos_round_trip(h.max_ts);
    bytes::lemma_twos_round_trip(h.min_expire);
    bytes::lemma_twos_round_trip(h.max_expire);
    bytes::lemma_be_round_trip(bytes::twos(h.min_ts), 8);
    bytes::lemma_be_round_trip(bytes::twos(h.max_ts), 8);
    bytes::lemma_be_round_trip(bytes::twos(h.min_expire), 8);
    bytes::lemma_be_round_trip(bytes::twos(h.max_expire), 8);
    bytes::lemma_be_round_trip(h.data_len as nat, 4);
    bytes::lemma_be_round_trip(h.compressed_len as nat, 4);
    assert(s.subrange(0, 4) =~= bytes::be_bytes(h.magic() as nat, 4));
    assert(s.subrange(4, 8) =~= bytes::be_bytes(h.num_records as nat, 4));
    assert(s.subrange(8, 16) =~= time_bytes(h.min_ts));
    assert(s.subrange(16, 24) =~= time_bytes(h.max_ts));
    assert(s.subrange(24, 32) =~= time_bytes(h.min_expire));
    assert(s.subrange(32, 40) =~= time_bytes(h.max_expire));
    assert(s.subrange(40, 44) =~= bytes::be_bytes(h.data_len as nat, 4));
    assert(s.subrange(44, 48) =~= bytes::be_bytes(h.compressed_len as nat, 4));
}

/// What `lz4_flex::block::decompress` makes of a compressed block for which so
/// many bytes are set aside: the bytes, or the text of an error.
pub uninterp spec fn lz4_decompressed(data: Seq<u8>, size: usize) -> Result<Seq<u8>, Seq<char>>;

/// What `zstd::bulk::decompress` makes of a compressed block of at most so many
/// bytes: the bytes, or the text of an error.
pub uninterp spec fn zstd_decompressed(data: Seq<u8>, size: usize) -> Result<Seq<u8>, Seq<char>>;

/// What an outcome of bytes or an error text holds.
pub open spec fn outcome(r: Result<Vec<u8>, String>) -> Result<Seq<u8>, Seq<char>> {
    match r {
        Ok(bytes) => Ok(bytes@),
        Err(text) => Err(text@),
    }
}

/// The outcome is the data.
pub open spec fn gives_back(o: Result<Seq<u8>, Seq<char>>, data: Seq<u8>) -> bool {
    match o {
        Ok(s) => s == data,
        Err(_) => false,
    }
}

/// Calls `lz4_flex::block::compress`. The compressed bytes depend on the
/// machine's word size, so they are not named; what is claimed is that
/// `lz4_flex::block::decompress` gives the data back, that the lengths in them,
/// which are those of parts of the data, can be counted, and that they are no more
/// than `get_maximum_output_size` tells.
#[verifier::external_body]
fn lz4_compress(data: &[u8]) -> (r: Vec<u8>)
    requires
        data@.len() <= u32::MAX,
        data@.len() * 110 <= usize::MAX,
    ensures
        gives_back(lz4_decompressed(r@, data@.len() as usize), data@),
        lz4_counts(r@, data@.len() as usize),
        r@.len() <= 20 + data@.len() * 110 / 100,
{
    lz4_flex::block::compress(data)
}

/// What the bytes from a position on add to a length of LZ4, and where they end: a
/// byte 0xFF says that another follows.
pub open spec fn length_bytes(data: Seq<u8>, pos: int) -> (nat, int)
    decreases data.len() - pos,
{
    if pos < 0 || pos >= data.len() {
        (0, pos)
    } else if data[pos] == 0xFF {
        let rest = length_bytes(data, pos + 1);
        (rest.0 + 255, rest.1)
    } else {
        (data[pos] as nat, pos + 1)
    }
}

/// What is added to a length of LZ4, and where the bytes that tell it end: only a
/// length of 15 in the token has such bytes.
pub open spec fn length_after(data: Seq<u8>, in_token: int, pos: int) -> (nat, int) {
    if in_token == 15 {
        length_bytes(data, pos)
    } else {
        (0, pos)
    }
}

/// Whether no length in the sequences of an LZ4 block from a position on adds more
/// than `most`. A sequence is a token, the length and the bytes of its literals, two
/// bytes of an offset and the length of a match; the last one ends with its literals.
pub open spec fn lengths_within(data: Seq<u8>, pos: int, most: int) -> bool
    decreases data.len() - pos,
{
    if pos < 0 || pos >= data.len() {
        true
    } else {
        let token = data[pos];
        let literals = length_after(data, token as int / 16, pos + 1);
        let offset = literals.1 + token as int / 16 + literals.0;
        let matched = length_after(data, token as int % 16, offset + 2);
        &&& literals.0 <= most
        &&& offset + 2 <= data.len() ==> {
            &&& matched.0 <= most
            &&& pos < matched.1 <= data.len() ==> lengths_within(data, matched.1, most)
        }
    }
}

/// The most that the bytes of one length may add to it: a length is counted in 32
/// bits, and added to at most `size` and a little more.
pub open spec fn most_counted(size: usize) -> int {
    if usize::MAX - size - 300 < u32::MAX {
        usize::MAX - size - 300
    } else {
        u32::MAX as int
    }
}

/// Whether the lengths in an LZ4 block can be counted.
pub open spec fn lz4_counts(data: Seq<u8>, size: usize) -> bool {
    lengths_within(data, 0, most_counted(size))
}

/// What the bytes from a position on add to a length, and where they end; none where
/// it is more than `most`.
fn read_length(data: &[u8], in_token: u8, pos: usize, most: u64) -> (r: Option<(u64, usize)>)
    requires
        pos <= data@.len(),
        most <= u32::MAX,
    ensures
        match r {
            Some((n, end)) => (n as nat, end as int) == length_after(
                data@,
                in_token as int,
                pos as int,
            ) && n <= most && pos <= end <= data@.len(),
            None => length_after(data@, in_token as int, pos as int).0 > most,
        },
{
    if in_token != 15 {
        return Some((0, pos));
    }
    let mut n: u64 = 0;
    let mut i: usize = pos;
    while i < data.len() && data[i] == 0xFF
        invariant
            in_token == 15,
            pos <= i <= data@.len(),
            n <= most <= u32::MAX,
            length_bytes(data@, pos as int) == (
                (n + length_bytes(data@, i as int).0) as nat,
                length_bytes(data@, i as int).1,
            ),
        decreases data@.len() - i,
    {
        n = n + 255;
        i += 1;
        if n > most {
            return None;
        }
    }
    if i < data.len() {
        n = n + data[i] as u64;
        i += 1;
    }
    if n > most {
        None
    } else {
        Some((n, i))
    }
}

/// Whether no length in an LZ4 block adds more than `most`.
fn count_lengths(data: &[u8], most: u64) -> (r: bool)
    requires
        most <= u32::MAX,
    ensures
        r == lengths_within(data@, 0, most as int),
{
    let mut pos: usize = 0;
    while pos < data.len()
        invariant
            pos <= data@.len(),
            most <= u32::MAX,
            lengths_within(data@, 0, most as int) == lengths_within(data@, pos as int, most as int),
        decreases data@.len() - pos,
    {
        let token: u8 = data[pos];
        let (literals, start) = match read_length(data, token / 16, pos + 1, most) {
            Some(found) => found,
            None => {
                return false;
            },
        };
        let count: u64 = literals + (token / 16) as u64;
        let left: u64 = (data.len() - start) as u64;
        if count > left || left - count < 2 {
            return true;
        }
        let offset: usize = start + count as usize;
        match read_length(data, token % 16, offset + 2, most) {
            Some((_, end)) => {
                pos = end;
            },
            None => {
                return false;
            },
        }
    }
    true
}

/// Calls `lz4_flex::block::decompress`. The result is named; it depends on the
/// arguments alone, where the lengths in the data can be counted without overflow
/// and so many bytes can be set aside. A size that is too small is an error with
/// the features that the crate is built with here.
#[verifier::external_body]
fn lz4_decompress(data: &[u8], size: usize) -> (r: Result<Vec<u8>, String>)
    requires
        lz4_counts(data@, size),
        size <= isize::MAX,
    ensures
        outcome(r) == lz4_decompressed(data@, size),
{
    lz4_flex::block::decompress(data, size).map_err(|e| e.to_string())
}

/// Calls `zstd::bulk::compress`. Neither the compressed bytes nor when there is
/// an error is claimed; where there is none, `zstd::bulk::decompress` gives the
/// data back, and the bytes are no more than `ZSTD_compressBound` tells.
#[verifier::external_body]
fn zstd_compress(data: &[u8], level: i32) -> (r: Result<Vec<u8>, String>)
    ensures
        (r matches Ok(c) ==> data@.len() > 0 ==> gives_back(
            zstd_decompressed(c@, data@.len() as usize),
            data@,
        )),
        (r matches Ok(c) ==> c@.len() <= data@.len() + data@.len() / 256 + 64),
{
    zstd::bulk::compress(data, level).map_err(|e| e.to_string())
}

/// Calls `zstd::bulk::decompress`. The result is named; it depends on the
/// arguments alone, where so many bytes can be set aside.
#[verifier::external_body]
fn zstd_decompress(data: &[u8], size: usize) -> (r: Result<Vec<u8>, String>)
    requires
        size <= isize::MAX,
    ensures
        outcome(r) == zstd_decompressed(data@, size),
{
    zstd::bulk::decompress(data, size).map_err(|e| e.to_string())
}

/// What the decompressor makes of a compressed block: the bytes, or the text of an
/// error.
pub open spec fn inflated(data: Seq<u8>, is_zstd: bool, size: usize) -> Result<Seq<u8>, Seq<char>> {
    if is_zstd {
        zstd_decompressed(data, size)
    } else {
        lz4_decompressed(data, size)
    }
}

/// Whether a block can be handed to the decompressor.
pub open spec fn inflatable(data: Seq<u8>, is_zstd: bool, size: usize) -> bool {
    size <= isize::MAX && (is_zstd || lz4_counts(data, size))
}

/// What decompressing a block gives: the bytes, or the text of an error.
pub open spec fn decompressed(data: Seq<u8>, is_zstd: bool, size: usize) -> Result<Seq<u8>, Seq<char>> {
    if inflatable(data, is_zstd, size) {
        inflated(data, is_zstd, size)
    } else {
        Err("lengths cannot be counted"@)
    }
}

/// What comes before the text of a decompression error.
pub open spec fn error_prefix(is_zstd: bool) -> Seq<char> {
    if is_zstd {
        "zstd decompress: "@
    } else {
        "lz4 decompress: "@
    }
}

/// Whether a block can be handed to the decompressor.
fn can_inflate(data: &[u8], is_zstd: bool, size: usize) -> (r: bool)
    ensures
        r == inflatable(data@, is_zstd, size),
{
    if size > isize::MAX as usize {
        return false;
    }
    if is_zstd {
        return true;
    }
    let left: usize = usize::MAX - size;
    let most: usize = left - 300;
    if most as u64 > u32::MAX as u64 {
        count_lengths(data, u32::MAX as u64)
    } else {
        count_lengths(data, most as u64)
    }
}

/// The bytes of a block, decompressed as its header says.
pub fn decompress_block(data: &[u8], header: &BlockHeader) -> (r: Result<Vec<u8>, FlowError>)
    ensures
        match decompressed(data@, header.is_zstd, header.data_len as usize) {
            Ok(raw) => r matches Ok(v) && v@ == raw,
            Err(text) => r matches Err(FlowError::Other(msg)) && msg@ == error_prefix(
                header.is_zstd,
            ) + text,
        },
{
    let size: usize = header.data_len as usize;
    if !can_inflate(data, header.is_zstd, size) {
        let prefix: &str = if header.is_zstd {
            "zstd decompress: "
        } else {
            "lz4 decompress: "
        };
        return Err(FlowError::Other(join(prefix, "lengths cannot be counted")));
    }
    if header.is_zstd {
        match zstd_decompress(data, size) {
            Ok(raw) => Ok(raw),
            Err(e) => Err(FlowError::Other(join("zstd decompress: ", e.as_str()))),
        }
    } else {
        match lz4_decompress(data, size) {
            Ok(raw) => Ok(raw),
            Err(e) => Err(FlowError::Other(join("lz4 decompress: ", e.as_str()))),
        }
    }
}

/// A record as it stands in a block, numbers most significant byte first: key
/// length (2 bytes), key, time (8), expiry (8), operation (1), range end length
/// (2), range end, value length (4), value. The sequence number is not kept.
pub open spec fn encoded_row(r: InternalRecordView) -> Seq<u8> {
    bytes::be_bytes(r.key.len(), 2) + r.key + time_bytes(r.ts) + time_bytes(r.expire_at).push(
        r.op.code(),
    ) + bytes::be_bytes(wal::range_bytes(r.range_end).len(), 2) + wal::range_bytes(r.range_end)
        + bytes::be_bytes(r.value.len(), 4) + r.value
}

/// The records of a block, one after another.
pub open spec fn encoded_rows(rows: Seq<InternalRecordView>) -> Seq<u8> {
    codec::concat(|r: InternalRecordView| encoded_row(r), rows)
}

/// The record at the front of `s` and its length, if it is all there.
pub open spec fn decoded_row(s: Seq<u8>) -> Option<(InternalRecordView, int)> {
    let key_end = 2int + wal::number_at(s, 0, 2);
    let range_len = wal::number_at(s, key_end + 17, 2);
    let range_end = key_end + 19 + range_len;
    let len = range_end + 4 + wal::number_at(s, range_end, 4);
    if s.len() < 2 || s.len() < key_end + 19 || s.len() < range_end + 4 || s.len() < len {
        None
    } else {
        Some((
            InternalRecordView {
                seq: 0,
                op: Op::of_code(s[key_end + 16]),
                key: s.subrange(2, key_end),
                ts: time_at(s, key_end),
                expire_at: time_at(s, key_end + 8),
                value: s.subrange(range_end + 4, len),
                range_end: if range_len > 0 {
                    Some(s.subrange(key_end + 19, range_end))
                } else {
                    None
                },
            },
            len,
        ))
    }
}

/// The records at the front of `s`, up to the first that is not all there.
pub open spec fn all_rows(s: Seq<u8>) -> Seq<InternalRecordView>
    decreases s.len(),
{
    match decoded_row(s) {
        Some((row, len)) => seq![row] + all_rows(s.skip(len)),
        None => Seq::empty(),
    }
}

/// The first `count` records of `s`, or as many as there are.
pub open spec fn block_rows(s: Seq<u8>, count: u32) -> Seq<InternalRecordView> {
    let rows = all_rows(s);
    if rows.len() <= count {
        rows
    } else {
        rows.take(count as int)
    }
}

/// Appends one record.
fn encode_row(rec: &InternalRecord, buf: &mut Vec<u8>)
    ensures
        final(buf)@ == old(buf)@ + encoded_row(rec@),
{
    push_be(buf, rec.key.len() as u64, 2);
    append_bytes(buf, &rec.key);
    push_be(buf, i64_to_u64(rec.ts), 8);
    push_be(buf, i64_to_u64(rec.expire_at), 8);
    buf.push(rec.op.to_u8());
    match &rec.range_end {
        Some(end) => {
            push_be(buf, end.len() as u64, 2);
            append_bytes(buf, end);
        },
        None => {
            push_be(buf, 0, 2);
            assert(buf@ =~= buf@ + Seq::<u8>::empty());
        },
    }
    push_be(buf, rec.value.len() as u64, 4);
    append_bytes(buf, &rec.value);
    assert(buf@ =~= old(buf)@ + encoded_row(rec@));
}

/// Encodes the records of a block.
pub fn encode_records(records: &[InternalRecord]) -> (r: Vec<u8>)
    ensures
        r@ == encoded_rows(record::views(records@)),
{
    let ghost rows = record::views(records@);
    let mut buf: Vec<u8> = Vec::new();
    let mut i: usize = 0;
    while i < records.len()
        invariant
            i <= records@.len(),
            rows == record::views(records@),
            buf@ == encoded_rows(rows.take(i as int)),
        decreases records@.len() - i,
    {
        assert(rows.take(i + 1).drop_last() =~= rows.take(i as int));
        encode_row(&records[i], &mut buf);
        i += 1;
    }
    assert(rows.take(i as int) =~= rows);
    buf
}

/// The record at `pos`, and where the next one begins.
#[verifier::rlimit(40)]
fn decode_row(data: &[u8], pos: usize) -> (r: Option<(InternalRecord, usize)>)
    requires
        pos <= data@.len(),
    ensures
        match r {
            Some((rec, next)) => pos < next <= data@.len() && decoded_row(data@.skip(pos as int))
                == Some((rec@, next - pos)),
            None => decoded_row(data@.skip(pos as int)) is None,
        },
{
    let ghost s = data@.skip(pos as int);
    proof {
        bytes::lemma_pow256_values();
    }
    let n: usize = data.len() - pos;
    if n < 2 {
        return None;
    }
    assert(s.subrange(0, 2) =~= data@.subrange(pos as int, pos + 2));
    let key_len: usize = read_be(data, pos, 2) as usize;
    if n - 2 < key_len || n - 2 - key_len < 19 {
        return None;
    }
    let key_end: usize = 2 + key_len;
    assert(s.subrange(2, key_end as int) =~= data@.subrange(pos + 2, pos + key_end));
    let key = copy_range(data, pos + 2, pos + key_end);
    assert(s.subrange(key_end as int, key_end + 8) =~= data@.subrange(
        pos + key_end,
        pos + key_end + 8,
    ));
    let ts: i64 = u64_to_i64(read_be(data, pos + key_end, 8));
    assert(s.subrange(key_end + 8, key_end + 16) =~= data@.subrange(
        pos + key_end + 8,
        pos + key_end + 16,
    ));
    let expire_at: i64 = u64_to_i64(read_be(data, pos + key_end + 8, 8));
    let op = Op::from_u8(data[pos + key_end + 16]);
    assert(s.subrange(key_end + 17, key_end + 19) =~= data@.subrange(
        pos + key_end + 17,
        pos + key_end + 19,
    ));
    let range_len: usize = read_be(data, pos + key_end + 17, 2) as usize;
    let left: usize = n - key_end - 19;
    if left < range_len || left - range_len < 4 {
        return None;
    }
    let range_at: usize = key_end + 19;
    let range_end: usize = range_at + range_len;
    assert(s.subrange(range_at as int, range_end as int) =~= data@.subrange(
        pos + range_at,
        pos + range_end,
    ));
    let range = if range_len > 0 {
        Some(copy_range(data, pos + range_at, pos + range_end))
    } else {
        None
    };
    assert(s.subrange(range_end as int, range_end + 4) =~= data@.subrange(
        pos + range_end,
        pos + range_end + 4,
    ));
    let value_len: u64 = read_be(data, pos + range_end, 4);
    if ((n - range_end - 4) as u64) < value_len {
        return None;
    }
    let len: usize = range_end + 4 + value_len as usize;
    assert(s.subrange(range_end + 4, len as int) =~= data@.subrange(pos + range_end + 4, pos + len));
    let value = copy_range(data, pos + range_end + 4, pos + len);
    Some((InternalRecord { seq: 0, op, key, ts, expire_at, value, range_end: range }, pos + len))
}

/// Reading a block goes on after its first record.
proof fn lemma_rows_step(s: Seq<u8>, row: InternalRecordView, len: int)
    requires
        decoded_row(s) == Some((row, len)),
    ensures
        all_rows(s) == seq![row] + all_rows(s.skip(len)),
{
}

/// The first `count` records of `data`, or as many as there are.
pub fn decode_records(data: &[u8], count: u32) -> (r: Result<Vec<InternalRecord>, FlowError>)
    ensures
        r matches Ok(records) && record::views(records@) == block_rows(data@, count),
{
    let mut records: Vec<InternalRecord> = Vec::new();
    let mut pos: usize = 0;
    let mut i: u32 = 0;
    proof {
        assert(data@.skip(0) =~= data@);
        assert(record::views(records@) + all_rows(data@) =~= all_rows(data@));
    }
    while i < count
        invariant
            i <= count,
            i == records@.len(),
            pos <= data@.len(),
            all_rows(data@) == record::views(records@) + all_rows(data@.skip(pos as int)),
        decreases count - i,
    {
        let ghost s = data@.skip(pos as int);
        let ghost so_far = record::views(records@);
        match decode_row(data, pos) {
            Some((rec, next)) => {
                let ghost row = rec@;
                proof {
                    lemma_rows_step(s, row, next - pos);
                    assert(s.skip(next - pos) =~= data@.skip(next as int));
                }
                records.push(rec);
                proof {
                    assert(record::views(records@) =~= so_far.push(row));
                    assert(so_far + (seq![row] + all_rows(data@.skip(next as int))) =~= so_far.push(
                        row,
                    ) + all_rows(data@.skip(next as int)));
                }
                pos = next;
            },
            None => {
                proof {
                    assert(all_rows(s) =~= Seq::<InternalRecordView>::empty());
                    assert(so_far + Seq::<InternalRecordView>::empty() =~= so_far);
                }
                return Ok(records);
            },
        }
        i += 1;
    }
    assert(record::views(records@) =~= block_rows(data@, count));
    Ok(records)
}

/// The times of the rows.
pub open spec fn times(rows: Seq<InternalRecordView>) -> Seq<i64> {
    Seq::new(rows.len(), |i: int| rows[i].ts)
}

/// The expiries of the rows.
pub open spec fn expiries(rows: Seq<InternalRecordView>) -> Seq<i64> {
    Seq::new(rows.len(), |i: int| rows[i].expire_at)
}

/// The least of the numbers, zero where there is none.
pub open spec fn least(s: Seq<i64>) -> i64
    decreases s.len(),
{
    if s.len() == 0 {
        0
    } else if s.len() == 1 || s.last() < least(s.drop_last()) {
        s.last()
    } else {
        least(s.drop_last())
    }
}

/// The greatest of the numbers, zero where there is none.
pub open spec fn greatest(s: Seq<i64>) -> i64
    decreases s.len(),
{
    if s.len() == 0 {
        0
    } else if s.len() == 1 || s.last() > greatest(s.drop_last()) {
        s.last()
    } else {
        greatest(s.drop_last())
    }
}

/// The least and the greatest time and expiry of some rows.
#[derive(Debug, Clone, Copy, PartialEq, Eq, Structural)]
pub struct TimeSpan {
    pub min_ts: i64,
    pub max_ts: i64,
    pub min_expire: i64,
    pub max_expire: i64,
}

/// The span of the rows.
pub open spec fn span(rows: Seq<InternalRecordView>) -> TimeSpan {
    TimeSpan {
        min_ts: least(times(rows)),
        max_ts: greatest(times(rows)),
        min_expire: least(expiries(rows)),
        max_expire: greatest(expiries(rows)),
    }
}

/// A value stands between the least and the greatest.
pub proof fn lemma_between(s: Seq<i64>, i: int)
    requires
        0 <= i < s.len(),
    ensures
        least(s) <= s[i] <= greatest(s),
    decreases s.len(),
{
    if i < s.len() - 1 {
        assert(s.drop_last()[i] == s[i]);
        lemma_between(s.drop_last(), i);
    }
}

/// The least and the greatest are among the values.
proof fn lemma_extremes(s: Seq<i64>)
    requires
        s.len() > 0,
    ensures
        s.contains(least(s)),
        s.contains(greatest(s)),
    decreases s.len(),
{
    assert(s[s.len() - 1] == s.last());
    if s.len() > 1 {
        let front = s.drop_last();
        lemma_extremes(front);
        let i = choose|i: int| 0 <= i < front.len() && front[i] == least(front);
        let j = choose|j: int| 0 <= j < front.len() && front[j] == greatest(front);
        assert(s[i] == front[i] && s[j] == front[j]);
    }
}

/// A span is that of the rows: each row's time and expiry stand in it, and each end of
/// it is the time or the expiry of a row.
pub proof fn law_span_bounds(rows: Seq<InternalRecordView>)
    ensures
        forall|i: int|
            0 <= i < rows.len() ==> span(rows).min_ts <= (#[trigger] rows[i]).ts
                <= span(rows).max_ts && span(rows).min_expire <= rows[i].expire_at
                <= span(rows).max_expire,
        rows.len() > 0 ==> {
            &&& exists|i: int| 0 <= i < rows.len() && (#[trigger] rows[i]).ts == span(rows).min_ts
            &&& exists|i: int| 0 <= i < rows.len() && (#[trigger] rows[i]).ts == span(rows).max_ts
            &&& exists|i: int|
                0 <= i < rows.len() && (#[trigger] rows[i]).expire_at == span(rows).min_expire
            &&& exists|i: int|
                0 <= i < rows.len() && (#[trigger] rows[i]).expire_at == span(rows).max_expire
        },
{
    let t = times(rows);
    let e = expiries(rows);
    assert forall|i: int| 0 <= i < rows.len() implies span(rows).min_ts <= (#[trigger] rows[i]).ts
        <= span(rows).max_ts && span(rows).min_expire <= rows[i].expire_at
        <= span(rows).max_expire by {
        lemma_between(t, i);
        lemma_between(e, i);
    }
    if rows.len() > 0 {
        lemma_extremes(t);
        lemma_extremes(e);
        let a = choose|a: int| 0 <= a < t.len() && t[a] == least(t);
        let b = choose|b: int| 0 <= b < t.len() && t[b] == greatest(t);
        let c = choose|c: int| 0 <= c < e.len() && e[c] == least(e);
        let d = choose|d: int| 0 <= d < e.len() && e[d] == greatest(e);
        assert(rows[a].ts == t[a] && rows[b].ts == t[b]);
        assert(rows[c].expire_at == e[c] && rows[d].expire_at == e[d]);
    }
}

/// The span of the records.
pub fn time_span(records: &[InternalRecord]) -> (r: TimeSpan)
    ensures
        r == span(record::views(records@)),
{
    let ghost rows = record::views(records@);
    let mut r = TimeSpan { min_ts: 0, max_ts: 0, min_expire: 0, max_expire: 0 };
    let mut i: usize = 0;
    while i < records.len()
        invariant
            i <= records@.len(),
            rows == record::views(records@),
            r == span(rows.take(i as int)),
        decreases records@.len() - i,
    {
        proof {
            let part = rows.take(i + 1);
            assert(times(part).drop_last() =~= times(rows.take(i as int)));
            assert(expiries(part).drop_last() =~= expiries(rows.take(i as int)));
        }
        let rec = &records[i];
        if i == 0 {
            r = TimeSpan {
                min_ts: rec.ts,
                max_ts: rec.ts,
                min_expire: rec.expire_at,
                max_expire: rec.expire_at,
            };
        } else {
            if rec.ts < r.min_ts {
                r.min_ts = rec.ts;
            }
            if rec.ts > r.max_ts {
                r.max_ts = rec.ts;
            }
            if rec.expire_at < r.min_expire {
                r.min_expire = rec.expire_at;
            }
            if rec.expire_at > r.max_expire {
                r.max_expire = rec.expire_at;
            }
        }
        i += 1;
    }
    assert(rows.take(i as int) =~= rows);
    r
}

/// The rows in parts of `size`, the last one shorter where they do not divide.
pub open spec fn chunks(rows: Seq<InternalRecordView>, size: nat) -> Seq<Seq<InternalRecordView>>
    decreases rows.len(),
{
    if rows.len() == 0 || size == 0 {
        Seq::empty()
    } else if rows.len() <= size {
        seq![rows]
    } else {
        seq![rows.take(size as int)] + chunks(rows.skip(size as int), size)
    }
}

/// The parts, one after another.
pub open spec fn joined(parts: Seq<Seq<InternalRecordView>>) -> Seq<InternalRecordView>
    decreases parts.len(),
{
    if parts.len() == 0 {
        Seq::empty()
    } else {
        parts[0] + joined(parts.skip(1))
    }
}

/// The parts of the rows together are the rows, and none is empty or larger
/// than asked for.
pub proof fn law_chunks_cover(rows: Seq<InternalRecordView>, size: nat)
    requires
        size > 0,
    ensures
        joined(chunks(rows, size)) == rows,
        forall|i: int|
            0 <= i < chunks(rows, size).len() ==> 0 < (#[trigger] chunks(rows, size)[i]).len()
                <= size,
    decreases rows.len(),
{
    let parts = chunks(rows, size);
    if rows.len() > 0 {
        if rows.len() <= size {
            assert(parts.skip(1) =~= Seq::<Seq<InternalRecordView>>::empty());
            assert(joined(parts.skip(1)) =~= Seq::<InternalRecordView>::empty());
        } else {
            law_chunks_cover(rows.skip(size as int), size);
            let rest = chunks(rows.skip(size as int), size);
            assert(parts.skip(1) =~= rest);
            assert forall|i: int| 0 <= i < parts.len() implies 0 < (#[trigger] parts[i]).len()
                <= size by {
                if i > 0 {
                    assert(parts[i] == rest[i - 1]);
                }
            }
        }
        assert(joined(parts) =~= rows);
    }
}

/// The keys of the rows, without a key that is that of the row before.
pub open spec fn key_runs(rows: Seq<InternalRecordView>) -> Seq<Seq<u8>>
    decreases rows.len(),
{
    if rows.len() == 0 {
        Seq::empty()
    } else if rows.len() >= 2 && rows[rows.len() - 2].key == rows.last().key {
        key_runs(rows.drop_last())
    } else {
        key_runs(rows.drop_last()).push(rows.last().key)
    }
}

/// The header of a block of these rows, which compress to `compressed_len` bytes.
pub open spec fn block_header(
    rows: Seq<InternalRecordView>,
    compressed_len: nat,
    is_zstd: bool,
) -> BlockHeader {
    let sp = span(rows);
    BlockHeader {
        num_records: rows.len() as u32,
        min_ts: sp.min_ts,
        max_ts: sp.max_ts,
        min_expire: sp.min_expire,
        max_expire: sp.max_expire,
        data_len: encoded_rows(rows).len() as u32,
        compressed_len: (compressed_len % 0x1_0000_0000) as u32,
        is_zstd,
    }
}

/// A block: the header and the compressed rows.
pub open spec fn block_bytes(
    rows: Seq<InternalRecordView>,
    compressed: Seq<u8>,
    is_zstd: bool,
) -> Seq<u8> {
    block_header(rows, compressed.len(), is_zstd).encoded() + compressed
}

/// The greatest of a key and of the ends of the range tombstones among the rows.
pub open spec fn reach(rows: Seq<InternalRecordView>, key: Seq<u8>) -> Seq<u8>
    decreases rows.len(),
{
    if rows.len() == 0 {
        key
    } else {
        let front = reach(rows.drop_last(), key);
        match (rows.last().op, rows.last().range_end) {
            (Op::DeleteRange, Some(end)) => if bytes::lex_lt(front, end) {
                end
            } else {
                front
            },
            _ => front,
        }
    }
}

/// Whether there is a range tombstone among the rows.
pub open spec fn has_range(rows: Seq<InternalRecordView>) -> bool {
    exists|i: int| 0 <= i < rows.len() && (#[trigger] rows[i]).op == Op::DeleteRange
}

/// What the manifest knows of a block. A block with range tombstones is listed with
/// all the keys that they reach and with all times, so that whoever asks for such a
/// key reads it.
pub open spec fn block_info(idx: u32, rows: Seq<InternalRecordView>) -> BlockInfoView {
    let sp = span(rows);
    BlockInfoView {
        block_idx: idx,
        min_key: rows[0].key,
        max_key: reach(rows, rows.last().key),
        min_ts: if has_range(rows) {
            i64::MIN
        } else {
            sp.min_ts
        },
        max_ts: if has_range(rows) {
            i64::MAX
        } else {
            sp.max_ts
        },
        min_expire: sp.min_expire,
        max_expire: sp.max_expire,
    }
}

/// The blocks of a table file, one after another.
pub open spec fn table_bytes(
    parts: Seq<Seq<InternalRecordView>>,
    compressed: Seq<Seq<u8>>,
    is_zstd: bool,
) -> Seq<u8>
    decreases parts.len(),
{
    if parts.len() == 0 {
        Seq::empty()
    } else {
        table_bytes(parts.drop_last(), compressed.drop_last(), is_zstd) + block_bytes(
            parts.last(),
            compressed.last(),
            is_zstd,
        )
    }
}

/// The most bytes that so many bytes can compress to.
pub open spec fn max_compressed(len: nat, is_zstd: bool) -> nat {
    if is_zstd {
        len + len / 256 + 64
    } else {
        20 + len * 110 / 100
    }
}

/// Each part was compressed to what can be decompressed to it again.
pub open spec fn compresses(
    parts: Seq<Seq<InternalRecordView>>,
    compressed: Seq<Seq<u8>>,
    is_zstd: bool,
) -> bool {
    &&& compressed.len() == parts.len()
    &&& forall|i: int|
        0 <= i < parts.len() ==> gives_back(
            inflated(
                #[trigger] compressed[i],
                is_zstd,
                encoded_rows(parts[i]).len() as usize,
            ),
            encoded_rows(parts[i]),
        ) && inflatable(compressed[i], is_zstd, encoded_rows(parts[i]).len() as usize)
            && compressed[i].len() <= max_compressed(encoded_rows(parts[i]).len(), is_zstd)
}

/// What the manifest knows of the blocks.
pub open spec fn block_list(parts: Seq<Seq<InternalRecordView>>) -> Seq<BlockInfoView> {
    Seq::new(parts.len(), |i: int| block_info(i as u32, parts[i]))
}

/// Whether the rows of a block can be counted and compressed.
pub open spec fn fits_block(rows: Seq<InternalRecordView>) -> bool {
    &&& encoded_rows(rows).len() <= u32::MAX
    &&& encoded_rows(rows).len() * 110 <= usize::MAX
}

/// A table file that is to be written.
#[derive(Debug)]
pub struct SstFile {
    pub bytes: Vec<u8>,
    pub total_bytes: u64,
    pub blocks: Vec<BlockInfo>,
    pub bloom: BloomFilter,
}

impl SstFile {
    /// The file holds these rows, `block_size` of them in a block.
    pub open spec fn is_of(
        self,
        rows: Seq<InternalRecordView>,
        block_size: usize,
        bits_per_key: usize,
        is_zstd: bool,
    ) -> bool {
        let parts = chunks(rows, at_least_one(block_size));
        &&& self.total_bytes == self.bytes@.len()
        &&& exists|compressed: Seq<Seq<u8>>| #[trigger]
            compresses(parts, compressed, is_zstd) && self.bytes@ == table_bytes(
                parts,
                compressed,
                is_zstd,
            )
        &&& manifest::block_views(self.blocks@) == block_list(parts)
        &&& self.bloom.wf()
        &&& self.bloom.built_from(key_runs(rows), bits_per_key as int)
    }
}

/// The greatest of the last key and of the ends of the range tombstones, and
/// whether there is one.
fn key_reach(records: &[InternalRecord]) -> (r: (Vec<u8>, bool))
    requires
        records@.len() > 0,
    ensures
        r.0@ == reach(record::views(records@), record::views(records@).last().key),
        r.1 == has_range(record::views(records@)),
{
    let ghost rows = record::views(records@);
    let ghost last = rows.last().key;
    let mut best: Vec<u8> = copy_bytes(&records[records.len() - 1].key);
    let mut ranges: bool = false;
    let mut i: usize = 0;
    while i < records.len()
        invariant
            i <= records@.len(),
            rows == record::views(records@),
            best@ == reach(rows.take(i as int), last),
            ranges == has_range(rows.take(i as int)),
        decreases records@.len() - i,
    {
        let rec = &records[i];
        proof {
            let part = rows.take(i + 1);
            assert(part.drop_last() =~= rows.take(i as int));
            assert(part.last() == rec@);
            if has_range(rows.take(i as int)) {
                let k = choose|k: int|
                    0 <= k < i && (#[trigger] rows.take(i as int)[k]).op == Op::DeleteRange;
                assert(part[k].op == Op::DeleteRange);
            }
            if has_range(part) && rec@.op != Op::DeleteRange {
                let k = choose|k: int| 0 <= k < part.len() && (#[trigger] part[k]).op
                    == Op::DeleteRange;
                assert(rows.take(i as int)[k].op == Op::DeleteRange);
            }
            if rec@.op == Op::DeleteRange {
                assert(part[i as int].op == Op::DeleteRange);
            }
        }
        if rec.op == Op::DeleteRange {
            ranges = true;
            if let Some(end) = &rec.range_end {
                if bytes_lt(&best, end) {
                    best = copy_bytes(end);
                }
            }
        }
        i += 1;
    }
    assert(rows.take(i as int) =~= rows);
    (best, ranges)
}

/// A block of the records, which compress to `compressed`.
pub fn build_block(
    records: &[InternalRecord],
    block_idx: u32,
    data_len: u32,
    compressed: &[u8],
    is_zstd: bool,
) -> (r: (Vec<u8>, BlockInfo))
    requires
        0 < records@.len() <= u32::MAX,
        data_len == encoded_rows(record::views(records@)).len(),
    ensures
        r.0@ == block_bytes(record::views(records@), compressed@, is_zstd),
        r.1@ == block_info(block_idx, record::views(records@)),
{
    let sp: TimeSpan = time_span(records);
    let header = BlockHeader {
        num_records: records.len() as u32,
        min_ts: sp.min_ts,
        max_ts: sp.max_ts,
        min_expire: sp.min_expire,
        max_expire: sp.max_expire,
        data_len,
        compressed_len: (compressed.len() as u64 % 0x1_0000_0000) as u32,
        is_zstd,
    };
    let header_bytes = header.to_bytes();
    let mut block: Vec<u8> = copy_bytes(header_bytes.as_slice());
    append_bytes(&mut block, compressed);
    let (max_key, ranges) = key_reach(records);
    let info = BlockInfo {
        block_idx,
        min_key: copy_bytes(&records[0].key),
        max_key,
        min_ts: if ranges {
            i64::MIN
        } else {
            sp.min_ts
        },
        max_ts: if ranges {
            i64::MAX
        } else {
            sp.max_ts
        },
        min_expire: sp.min_expire,
        max_expire: sp.max_expire,
    };
    (block, info)
}

/// The keys of the records, without a key that is that of the record before.
fn distinct_keys(records: &[InternalRecord]) -> (r: Vec<Vec<u8>>)
    ensures
        bloom::key_views(r@) == key_runs(record::views(records@)),
{
    let ghost rows = record::views(records@);
    let mut keys: Vec<Vec<u8>> = Vec::new();
    let mut i: usize = 0;
    assert(bloom::key_views(keys@) =~= key_runs(rows.take(0)));
    while i < records.len()
        invariant
            i <= records@.len(),
            rows == record::views(records@),
            bloom::key_views(keys@) == key_runs(rows.take(i as int)),
        decreases records@.len() - i,
    {
        proof {
            assert(rows.take(i + 1).drop_last() =~= rows.take(i as int));
        }
        let ghost before = bloom::key_views(keys@);
        if i == 0 || !bytes_eq(&records[i - 1].key, &records[i].key) {
            keys.push(copy_bytes(&records[i].key));
            assert(bloom::key_views(keys@) =~= before.push(rows[i as int].key));
        }
        i += 1;
    }
    assert(rows.take(i as int) =~= rows);
    keys
}

/// How many keys the records have, where a key counts once that follows itself.
fn count_keys(records: &[InternalRecord]) -> (r: usize)
    ensures
        r == key_runs(record::views(records@)).len(),
{
    let ghost rows = record::views(records@);
    let mut count: usize = 0;
    let mut i: usize = 0;
    assert(rows.take(0) =~= Seq::<InternalRecordView>::empty());
    while i < records.len()
        invariant
            i <= records@.len(),
            count <= i,
            rows == record::views(records@),
            count == key_runs(rows.take(i as int)).len(),
        decreases records@.len() - i,
    {
        assert(rows.take(i + 1).drop_last() =~= rows.take(i as int));
        if i == 0 || !bytes_eq(&records[i - 1].key, &records[i].key) {
            count = count + 1;
        }
        i += 1;
    }
    assert(rows.take(i as int) =~= rows);
    count
}

/// How many bytes the records of a block take.
fn encoded_size(records: &[InternalRecord]) -> (r: usize)
    requires
        memtable::total_size(record::views(records@)) <= usize::MAX,
    ensures
        r == encoded_rows(record::views(records@)).len(),
{
    let ghost rows = record::views(records@);
    let mut total: usize = 0;
    let mut i: usize = 0;
    assert(rows.take(0) =~= Seq::<InternalRecordView>::empty());
    while i < records.len()
        invariant
            i <= records@.len(),
            rows == record::views(records@),
            memtable::total_size(rows) <= usize::MAX,
            total == encoded_rows(rows.take(i as int)).len(),
        decreases records@.len() - i,
    {
        let rec = &records[i];
        proof {
            let row = rows[i as int];
            let part = rows.take(i + 1);
            assert(part.drop_last() =~= rows.take(i as int));
            assert(rows =~= part + rows.skip(i + 1));
            memtable::lemma_total_append(part, rows.skip(i + 1));
            lemma_rows_fit(rows.take(i as int));
            bytes::lemma_be_bytes_len(row.key.len(), 2);
            bytes::lemma_be_bytes_len(bytes::twos(row.ts), 8);
            bytes::lemma_be_bytes_len(bytes::twos(row.expire_at), 8);
            bytes::lemma_be_bytes_len(wal::range_bytes(row.range_end).len(), 2);
            bytes::lemma_be_bytes_len(row.value.len(), 4);
            assert(row == rec@);
            assert(encoded_row(row).len() == 25 + row.key.len() + row.value.len()
                + wal::range_bytes(row.range_end).len());
        }
        let range: usize = match &rec.range_end {
            Some(end) => end.len(),
            None => 0,
        };
        total = total + (25 + rec.key.len() + rec.value.len() + range);
        i += 1;
    }
    assert(rows.take(i as int) =~= rows);
    total
}

/// Whether each block of a table of the records can be counted and compressed.
fn blocks_fit(records: &[InternalRecord], block_size: usize) -> (r: bool)
    requires
        memtable::total_size(record::views(records@)) <= usize::MAX,
    ensures
        ({
            let parts = chunks(record::views(records@), at_least_one(block_size));
            r <==> forall|i: int| 0 <= i < parts.len() ==> fits_block(#[trigger] parts[i])
        }),
{
    let ghost rows = record::views(records@);
    let ghost size = at_least_one(block_size);
    let ghost parts = chunks(rows, size);
    let step: usize = if block_size == 0 {
        1
    } else {
        block_size
    };
    let mut start: usize = 0;
    let ghost mut done: int = 0;
    proof {
        assert(rows.skip(0) =~= rows);
        assert(parts.take(0) + chunks(rows, size) =~= parts);
    }
    while start < records.len()
        invariant
            start <= records@.len(),
            step == size,
            size == at_least_one(block_size),
            size > 0,
            rows == record::views(records@),
            memtable::total_size(rows) <= usize::MAX,
            parts == chunks(rows, size),
            0 <= done <= parts.len(),
            parts == parts.take(done) + chunks(rows.skip(start as int), size),
            forall|i: int| 0 <= i < done ==> fits_block(#[trigger] parts[i]),
        decreases records@.len() - start,
    {
        let end: usize = if records.len() - start <= step {
            records.len()
        } else {
            start + step
        };
        let chunk = vstd::slice::slice_subrange(records, start, end);
        let ghost part = record::views(chunk@);
        proof {
            let rest = rows.skip(start as int);
            if rest.len() <= size {
                assert(part =~= rest);
                assert(rows.skip(end as int) =~= Seq::<InternalRecordView>::empty());
                assert(chunks(rest, size) =~= seq![part] + chunks(rows.skip(end as int), size));
            } else {
                assert(part =~= rest.take(size as int));
                assert(rows.skip(end as int) =~= rest.skip(size as int));
            }
            assert(parts[done] == part);
            assert(parts.take(done + 1) =~= parts.take(done).push(part));
            assert(parts =~= parts.take(done + 1) + chunks(rows.skip(end as int), size));
            lemma_chunks_fit(rows, size, done);
        }
        let len: usize = encoded_size(chunk);
        if len as u64 > u32::MAX as u64 || len.checked_mul(110).is_none() {
            assert(!fits_block(parts[done]));
            return false;
        }
        proof {
            assert(fits_block(parts[done]));
            done = done + 1;
        }
        start = end;
    }
    proof {
        assert(rows.skip(start as int) =~= Seq::<InternalRecordView>::empty());
        assert(parts =~= parts.take(done));
    }
    true
}

/// Whether a table of the records can be written.
pub fn can_be_written(records: &[InternalRecord], block_size: usize, bits_per_key: usize) -> (r: bool)
    requires
        memtable::total_size(record::views(records@)) <= usize::MAX,
    ensures
        ({
            let rows = record::views(records@);
            let parts = chunks(rows, at_least_one(block_size));
            r <==> rows.len() <= u32::MAX && key_runs(rows).len() * bits_per_key <= usize::MAX && (
            forall|i: int| 0 <= i < parts.len() ==> fits_block(#[trigger] parts[i]))
        }),
{
    records.len() as u64 <= u32::MAX as u64 && count_keys(records).checked_mul(
        bits_per_key,
    ).is_some() && blocks_fit(records, block_size)
}

/// Makes table files.
pub struct SstWriter;

impl SstWriter {
    /// A table file with the records, `block_size` of them in a block. A block
    /// is compressed with LZ4, or with Zstandard at the level; only then can
    /// there be an error.
    #[verifier::rlimit(40)]
    pub fn write(
        records: &[InternalRecord],
        block_size: usize,
        zstd_level: i32,
        bloom_bits_per_key: usize,
        use_zstd: bool,
    ) -> (r: Result<SstFile, FlowError>)
        requires
            records@.len() <= u32::MAX,
            key_runs(record::views(records@)).len() * bloom_bits_per_key <= usize::MAX,
            forall|i: int|
                0 <= i < chunks(record::views(records@), at_least_one(block_size)).len()
                    ==> fits_block(
                    #[trigger] chunks(record::views(records@), at_least_one(block_size))[i],
                ),
        ensures
            !use_zstd ==> r is Ok,
            match r {
                Ok(file) => file.is_of(
                    record::views(records@),
                    block_size,
                    bloom_bits_per_key,
                    use_zstd,
                ),
                Err(e) => e is Io,
            },
    {
        let ghost rows = record::views(records@);
        let ghost size = at_least_one(block_size);
        let ghost parts = chunks(rows, size);
        let ghost mut compressed_parts: Seq<Seq<u8>> = Seq::empty();
        let keys = distinct_keys(records);
        let bloom = BloomFilter::from_keys_with_bits(&keys, bloom_bits_per_key);
        let step: usize = if block_size == 0 {
            1
        } else {
            block_size
        };
        let mut bytes: Vec<u8> = Vec::new();
        let mut blocks: Vec<BlockInfo> = Vec::new();
        let mut start: usize = 0;
        proof {
            assert(rows.skip(0) =~= rows);
            assert(parts.take(0) + chunks(rows, size) =~= parts);
            assert(bytes@ =~= table_bytes(parts.take(0), compressed_parts, use_zstd));
            assert(manifest::block_views(blocks@) =~= block_list(parts.take(0)));
        }
        while start < records.len()
            invariant
                start <= records@.len() <= u32::MAX,
                step == size,
                size > 0,
                rows == record::views(records@),
                parts == chunks(rows, size),
                blocks@.len() <= start,
                blocks@.len() <= parts.len(),
                parts == parts.take(blocks@.len() as int) + chunks(rows.skip(start as int), size),
                forall|i: int| 0 <= i < parts.len() ==> fits_block(#[trigger] parts[i]),
                compresses(parts.take(blocks@.len() as int), compressed_parts, use_zstd),
                bytes@ == table_bytes(
                    parts.take(blocks@.len() as int),
                    compressed_parts,
                    use_zstd,
                ),
                manifest::block_views(blocks@) == block_list(parts.take(blocks@.len() as int)),
            decreases records@.len() - start,
        {
            let n: usize = blocks.len();
            let end: usize = if records.len() - start <= step {
                records.len()
            } else {
                start + step
            };
            let chunk = vstd::slice::slice_subrange(records, start, end);
            let ghost part = record::views(chunk@);
            proof {
                let rest = rows.skip(start as int);
                if rest.len() <= size {
                    assert(part =~= rest);
                    assert(rows.skip(end as int) =~= Seq::<InternalRecordView>::empty());
                    assert(chunks(rest, size) =~= seq![part] + chunks(rows.skip(end as int), size));
                } else {
                    assert(part =~= rest.take(size as int));
                    assert(rows.skip(end as int) =~= rest.skip(size as int));
                }
                assert(parts[n as int] == part);
                assert(parts.take(n + 1) =~= parts.take(n as int).push(part));
                assert(parts =~= parts.take(n + 1) + chunks(rows.skip(end as int), size));
                assert(fits_block(parts[n as int]));
            }
            let raw = encode_records(chunk);
            let data_len: u32 = raw.len() as u32;
            let compressed = if use_zstd {
                proof {
                    lemma_rows_not_empty(part);
                }
                match zstd_compress(&raw, zstd_level) {
                    Ok(c) => c,
                    Err(e) => {
                        return Err(FlowError::Io(e));
                    },
                }
            } else {
                lz4_compress(&raw)
            };
            let (block, info) = build_block(chunk, n as u32, data_len, &compressed, use_zstd);
            append_bytes(&mut bytes, &block);
            let ghost listed = manifest::block_views(blocks@);
            blocks.push(info);
            proof {
                let before = compressed_parts;
                compressed_parts = compressed_parts.push(compressed@);
                assert(compressed_parts.drop_last() =~= before);
                assert(parts.take(n + 1).drop_last() =~= parts.take(n as int));
                assert forall|i: int| 0 <= i < parts.take(n + 1).len() implies gives_back(
                    inflated(
                        #[trigger] compressed_parts[i],
                        use_zstd,
                        encoded_rows(parts.take(n + 1)[i]).len() as usize,
                    ),
                    encoded_rows(parts.take(n + 1)[i]),
                ) && inflatable(
                    compressed_parts[i],
                    use_zstd,
                    encoded_rows(parts.take(n + 1)[i]).len() as usize,
                ) && compressed_parts[i].len() <= max_compressed(
                    encoded_rows(parts.take(n + 1)[i]).len(),
                    use_zstd,
                ) by {
                    if i < n {
                        assert(compressed_parts[i] == before[i]);
                        assert(parts.take(n + 1)[i] == parts.take(n as int)[i]);
                    }
                }
                assert(block_list(parts.take(n + 1)) =~= listed.push(block_info(n as u32, part)));
                assert(manifest::block_views(blocks@) =~= listed.push(block_info(n as u32, part)));
            }
            start = end;
        }
        proof {
            assert(rows.skip(start as int) =~= Seq::<InternalRecordView>::empty());
            assert(parts.take(blocks@.len() as int) =~= parts);
            assert(compresses(parts, compressed_parts, use_zstd));
        }
        let total_bytes: u64 = bytes.len() as u64;
        Ok(SstFile { bytes, total_bytes, blocks, bloom })
    }
}

/// The block size, or one where it is zero.
pub open spec fn at_least_one(block_size: usize) -> nat {
    if block_size == 0 {
        1
    } else {
        block_size as nat
    }
}

/// Rows take no more bytes in a block than they are charged in memory.
pub proof fn lemma_rows_fit(rows: Seq<InternalRecordView>)
    ensures
        encoded_rows(rows).len() <= memtable::total_size(rows),
        rows.len() <= memtable::total_size(rows),
        key_runs(rows).len() <= rows.len(),
    decreases rows.len(),
{
    if rows.len() > 0 {
        lemma_rows_fit(rows.drop_last());
        let r = rows.last();
        bytes::lemma_be_bytes_len(r.key.len(), 2);
        bytes::lemma_be_bytes_len(bytes::twos(r.ts), 8);
        bytes::lemma_be_bytes_len(bytes::twos(r.expire_at), 8);
        bytes::lemma_be_bytes_len(wal::range_bytes(r.range_end).len(), 2);
        bytes::lemma_be_bytes_len(r.value.len(), 4);
        assert(encoded_row(r).len() <= r.size());
    }
}

/// A part of the rows is no larger than the rows.
pub proof fn lemma_chunks_fit(rows: Seq<InternalRecordView>, size: nat, i: int)
    requires
        size > 0,
        0 <= i < chunks(rows, size).len(),
    ensures
        memtable::total_size(chunks(rows, size)[i]) <= memtable::total_size(rows),
    decreases rows.len(),
{
    if rows.len() > size {
        let first = rows.take(size as int);
        let rest = rows.skip(size as int);
        assert(rows =~= first + rest);
        memtable::lemma_total_append(first, rest);
        if i > 0 {
            lemma_chunks_fit(rest, size, i - 1);
            assert(chunks(rows, size)[i] == chunks(rest, size)[i - 1]);
        }
    }
}

/// Rows take up bytes.
proof fn lemma_rows_not_empty(rows: Seq<InternalRecordView>)
    requires
        rows.len() > 0,
    ensures
        encoded_rows(rows).len() > 0,
{
    bytes::lemma_be_bytes_len(rows.last().key.len(), 2);
}

/// Where the blocks from `pos` on begin, or none where a header is not one.
pub open spec fn offsets_from(data: Seq<u8>, pos: int) -> Option<Seq<u64>>
    decreases data.len() + 0x2_0000_0000 - pos,
{
    if pos < 0 || pos + HEADER_SIZE > data.len() {
        Some(Seq::empty())
    } else {
        match BlockHeader::decoded(data.subrange(pos, pos + HEADER_SIZE)) {
            Some(header) => match offsets_from(data, pos + HEADER_SIZE + header.compressed_len) {
                Some(rest) => Some(seq![pos as u64] + rest),
                None => None,
            },
            None => None,
        }
    }
}

/// The bytes of the first header from `pos` on that is not one.
pub open spec fn bad_header(data: Seq<u8>, pos: int) -> Seq<u8>
    decreases data.len() + 0x2_0000_0000 - pos,
{
    if pos < 0 || pos + HEADER_SIZE > data.len() {
        Seq::empty()
    } else {
        let bytes = data.subrange(pos, pos + HEADER_SIZE);
        match BlockHeader::decoded(bytes) {
            Some(header) => bad_header(data, pos + HEADER_SIZE + header.compressed_len),
            None => bytes,
        }
    }
}

/// Why a block cannot be read.
pub enum BlockError {
    /// There is no block with the number.
    NotFound,
    /// The header lies beyond the end of the file.
    OutOfBounds,
    /// The bytes are no header.
    Header(Seq<u8>),
    /// The compressed bytes lie beyond the end of the file.
    Truncated,
    /// Decompression failed with the text.
    Decompress(bool, Seq<char>),
}

/// The error that a reader of table `sst_id` gives for block `idx`.
pub open spec fn reports(e: FlowError, cause: BlockError, sst_id: u32, idx: u32) -> bool {
    match cause {
        BlockError::NotFound => e == FlowError::BlockNotFound { sst_id, block_idx: idx },
        BlockError::OutOfBounds => e matches FlowError::Corruption { file, msg } && file@ == "sst_"@
            + text::decimal_text(sst_id as nat) && msg@ == "block "@ + text::decimal_text(idx as nat)
            + " out of bounds"@,
        BlockError::Header(bytes) => BlockHeader::is_header_error(bytes, e),
        BlockError::Truncated => e matches FlowError::Corruption { file, msg } && file@ == "sst_"@
            + text::decimal_text(sst_id as nat) && msg@ == "block "@ + text::decimal_text(idx as nat)
            + " compressed data truncated"@,
        BlockError::Decompress(is_zstd, text) => e matches FlowError::Other(msg) && msg@
            == error_prefix(is_zstd) + text,
    }
}

/// A reader of a table file.
#[derive(Debug)]
pub struct SstReader {
    sst_id: u32,
    block_offsets: Vec<u64>,
}

/// The error for a block whose header or data lies beyond the end of the file.
fn corruption(sst_id: u32, idx: u32, what: &str) -> (r: FlowError)
    ensures
        r matches FlowError::Corruption { file, msg } && file@ == "sst_"@ + text::decimal_text(
            sst_id as nat,
        ) && msg@ == "block "@ + text::decimal_text(idx as nat) + what@,
{
    let id = decimal(sst_id as u64);
    let number = decimal(idx as u64);
    let file = join("sst_", id.as_str());
    let front = join("block ", number.as_str());
    let msg = join(front.as_str(), what);
    FlowError::Corruption { file, msg }
}

impl SstReader {
    /// The number of the table.
    pub closed spec fn id(self) -> u32 {
        self.sst_id
    }

    /// Where the blocks begin.
    pub closed spec fn offsets(self) -> Seq<u64> {
        self.block_offsets@
    }

    /// The header of a block and its rows, or why it cannot be read. `data` is
    /// the table file.
    pub open spec fn block(self, data: Seq<u8>, idx: u32) -> Result<
        (BlockHeader, Seq<InternalRecordView>),
        BlockError,
    > {
        if idx >= self.offsets().len() {
            Err(BlockError::NotFound)
        } else {
            let pos = self.offsets()[idx as int] as int;
            if pos + HEADER_SIZE > data.len() {
                Err(BlockError::OutOfBounds)
            } else {
                let start = pos + HEADER_SIZE;
                match BlockHeader::decoded(data.subrange(pos, start)) {
                    None => Err(BlockError::Header(data.subrange(pos, start))),
                    Some(header) => if start + header.compressed_len > data.len() {
                        Err(BlockError::Truncated)
                    } else {
                        match decompressed(
                            data.subrange(start, start + header.compressed_len),
                            header.is_zstd,
                            header.data_len as usize,
                        ) {
                            Ok(raw) => Ok((header, block_rows(raw, header.num_records))),
                            Err(text) => Err(BlockError::Decompress(header.is_zstd, text)),
                        }
                    },
                }
            }
        }
    }

    /// The rows that a read through a cache gives, or why there are none.
    pub open spec fn block_through(self, data: Seq<u8>, idx: u32, cache: BlockCache) -> Result<
        Seq<InternalRecordView>,
        BlockError,
    > {
        match cache.cached(CacheKey { sst_id: self.id(), block_idx: idx }) {
            Some(rows) => Ok(rows),
            None => match self.block(data, idx) {
                Ok((header, rows)) => Ok(rows),
                Err(cause) => Err(cause),
            },
        }
    }

    /// What a read through a cache does to it: a block that is there counts as
    /// used, and one that is read is put.
    pub open spec fn cache_after(
        self,
        data: Seq<u8>,
        idx: u32,
        before: BlockCache,
        after: BlockCache,
    ) -> bool {
        let key = CacheKey { sst_id: self.id(), block_idx: idx };
        let at = key.shard_index();
        let shard = before.shards()[at];
        &&& after.wf()
        &&& after.limits() == before.limits()
        &&& match before.cached(key) {
            Some(rows) => {
                &&& after.shards() == before.shards().update(at, cache::used(shard, key.pair()))
                &&& after.hits() == before.hits().wrapping_add(1)
                &&& after.misses() == before.misses()
            },
            None => {
                &&& after.hits() == before.hits()
                &&& after.misses() == before.misses().wrapping_add(1)
                &&& match self.block(data, idx) {
                    Ok((header, rows)) => after.shards() == before.shards().update(
                        at,
                        cache::put(shard, before.limits()[at], (key.pair(), rows)),
                    ),
                    Err(cause) => after.shards() == before.shards(),
                }
            },
        }
    }

    /// A reader of the table file `data`, in which `block_count` blocks are
    /// expected.
    pub fn open(data: &[u8], sst_id: u32, block_count: usize) -> (r: Result<Self, FlowError>)
        ensures
            match r {
                Ok(reader) => reader.id() == sst_id && offsets_from(data@, 0) == Some(
                    reader.offsets(),
                ),
                Err(e) => offsets_from(data@, 0) is None && BlockHeader::is_header_error(
                    bad_header(data@, 0),
                    e,
                ),
            },
    {
        let n: usize = data.len();
        let mut offsets: Vec<u64> = Vec::with_capacity(block_count);
        let mut pos: usize = 0;
        proof {
            if offsets_from(data@, 0) is Some {
                assert(offsets@ + offsets_from(data@, 0)->0 =~= offsets_from(data@, 0)->0);
            }
        }
        while pos <= n && n - pos >= HEADER_SIZE
            invariant
                n == data@.len(),
                bad_header(data@, 0) == bad_header(data@, pos as int),
                match offsets_from(data@, pos as int) {
                    Some(rest) => offsets_from(data@, 0) == Some(offsets@ + rest),
                    None => offsets_from(data@, 0) is None,
                },
            decreases n - pos,
        {
            let ghost before = offsets@;
            let bytes = vstd::slice::slice_subrange(data, pos, pos + HEADER_SIZE);
            match BlockHeader::from_bytes(bytes) {
                Err(e) => {
                    return Err(e);
                },
                Ok(header) => {
                    let ghost next = pos + HEADER_SIZE + header.compressed_len;
                    offsets.push(pos as u64);
                    proof {
                        if offsets_from(data@, next) is Some {
                            let rest = offsets_from(data@, next)->0;
                            assert(before + (seq![pos as u64] + rest) =~= offsets@ + rest);
                        }
                    }
                    let left: usize = n - pos - HEADER_SIZE;
                    if header.compressed_len as u64 > left as u64 {
                        proof {
                            assert(offsets_from(data@, next) =~= Some(Seq::<u64>::empty()));
                            assert(offsets@ + Seq::<u64>::empty() =~= offsets@);
                        }
                        return Ok(Self { sst_id, block_offsets: offsets });
                    }
                    pos = pos + HEADER_SIZE + header.compressed_len as usize;
                },
            }
        }
        assert(offsets@ + Seq::<u64>::empty() =~= offsets@);
        Ok(Self { sst_id, block_offsets: offsets })
    }

    /// A block. Where there is a cache, the read goes through it.
    pub fn read_block(&self, data: &[u8], block_idx: u32, cache: Option<&mut BlockCache>) -> (r: Result<
        SstBlock,
        FlowError,
    >)
        requires
            cache matches Some(c) ==> c.wf(),
        ensures
            cache matches Some(c) ==> self.cache_after(data@, block_idx, *c, *final(c)),
            ({
                let outcome = match cache {
                    Some(c) => self.block_through(data@, block_idx, *c),
                    None => match self.block(data@, block_idx) {
                        Ok((header, rows)) => Ok(rows),
                        Err(cause) => Err(cause),
                    },
                };
                match outcome {
                    Ok(rows) => r matches Ok(block) && record::views(block.records@) == rows,
                    Err(cause) => r matches Err(e) && reports(e, cause, self.id(), block_idx),
                }
            }),
    {
        match cache {
            Some(c) => match self.read_block_arc(data, block_idx, c) {
                Ok(shared) => Ok(SstBlock { records: clone_records(&shared) }),
                Err(e) => Err(e),
            },
            None => match self.read_block_inner(data, block_idx) {
                Ok(records) => Ok(SstBlock { records }),
                Err(e) => Err(e),
            },
        }
    }

    /// A block, from the cache where it is there; else it is read and cached.
    pub fn read_block_arc(&self, data: &[u8], block_idx: u32, cache: &mut BlockCache) -> (r: Result<
        Arc<Vec<InternalRecord>>,
        FlowError,
    >)
        requires
            old(cache).wf(),
        ensures
            self.cache_after(data@, block_idx, *old(cache), *final(cache)),
            match self.block_through(data@, block_idx, *old(cache)) {
                Ok(rows) => r matches Ok(block) && record::views((*block)@) == rows,
                Err(cause) => r matches Err(e) && reports(e, cause, self.id(), block_idx),
            },
    {
        let key = CacheKey { sst_id: self.sst_id, block_idx };
        if let Some(cached) = cache.get(&key) {
            return Ok(cached);
        }
        assert(cache.shards() =~= old(cache).shards());
        match self.read_block_inner(data, block_idx) {
            Ok(records) => {
                cache.insert(key, clone_records(&records));
                Ok(Arc::new(records))
            },
            Err(e) => Err(e),
        }
    }

    /// A block, read from the file.
    fn read_block_inner(&self, data: &[u8], block_idx: u32) -> (r: Result<
        Vec<InternalRecord>,
        FlowError,
    >)
        ensures
            match self.block(data@, block_idx) {
                Ok((header, rows)) => r matches Ok(records) && record::views(records@) == rows,
                Err(cause) => r matches Err(e) && reports(e, cause, self.id(), block_idx),
            },
    {
        match self.read_block_decompress(data, block_idx) {
            Ok((_, records)) => Ok(records),
            Err(e) => Err(e),
        }
    }

    /// A block, if it is cached.
    pub fn read_block_cached(&self, block_idx: u32, cache: &mut BlockCache) -> (r: Option<
        Arc<Vec<InternalRecord>>,
    >)
        requires
            old(cache).wf(),
        ensures
            final(cache).wf(),
            ({
                let key = CacheKey { sst_id: self.id(), block_idx };
                &&& cache::opt_block(r) == old(cache).cached(key)
                &&& final(cache).shards() == old(cache).shards().update(
                    key.shard_index(),
                    cache::used(old(cache).shards()[key.shard_index()], key.pair()),
                )
            }),
            final(cache).limits() == old(cache).limits(),
            final(cache).hits() == (if r is Some {
                old(cache).hits().wrapping_add(1)
            } else {
                old(cache).hits()
            }),
            final(cache).misses() == (if r is Some {
                old(cache).misses()
            } else {
                old(cache).misses().wrapping_add(1)
            }),
    {
        cache.get(&CacheKey { sst_id: self.sst_id, block_idx })
    }

    /// A block and its header, read from the file.
    pub fn read_block_decompress(&self, data: &[u8], block_idx: u32) -> (r: Result<
        (BlockHeader, Vec<InternalRecord>),
        FlowError,
    >)
        ensures
            match self.block(data@, block_idx) {
                Ok((header, rows)) => r matches Ok((h, records)) && h == header && record::views(
                    records@,
                ) == rows,
                Err(cause) => r matches Err(e) && reports(e, cause, self.id(), block_idx),
            },
    {
        if block_idx as u64 >= self.block_offsets.len() as u64 {
            return Err(FlowError::BlockNotFound { sst_id: self.sst_id, block_idx });
        }
        let offset: u64 = self.block_offsets[block_idx as usize];
        let n: u64 = data.len() as u64;
        if offset > n || n - offset < HEADER_SIZE as u64 {
            return Err(corruption(self.sst_id, block_idx, " out of bounds"));
        }
        let pos: usize = offset as usize;
        let start: usize = pos + HEADER_SIZE;
        match BlockHeader::from_bytes(vstd::slice::slice_subrange(data, pos, start)) {
            Err(e) => Err(e),
            Ok(header) => {
                if header.compressed_len as u64 > (data.len() - start) as u64 {
                    return Err(corruption(self.sst_id, block_idx, " compressed data truncated"));
                }
                let end: usize = start + header.compressed_len as usize;
                match decompress_block(vstd::slice::slice_subrange(data, start, end), &header) {
                    Ok(raw) => match decode_records(&raw, header.num_records) {
                        Ok(records) => Ok((header, records)),
                        Err(e) => Err(e),
                    },
                    Err(e) => Err(e),
                }
            },
        }
    }

    /// The table's id.
    pub fn sst_id(&self) -> (r: u32)
        ensures
            r == self.id(),
    {
        self.sst_id
    }

    /// The number of blocks.
    pub fn block_count(&self) -> (r: u32)
        requires
            self.offsets().len() <= u32::MAX,
        ensures
            r == self.offsets().len(),
    {
        self.block_offsets.len() as u32
    }
}

impl SstReader {
    /// The rows of the first `n` blocks, if they can all be read.
    pub open spec fn first_rows(self, data: Seq<u8>, n: nat) -> Option<Seq<InternalRecordView>>
        decreases n,
    {
        if n == 0 {
            Some(Seq::empty())
        } else {
            match (self.first_rows(data, (n - 1) as nat), self.block(data, (n - 1) as u32)) {
                (Some(front), Ok((_, rows))) => Some(front + rows),
                _ => None,
            }
        }
    }

    /// The rows of the table, if all its blocks can be read.
    pub open spec fn all_rows(self, data: Seq<u8>) -> Option<Seq<InternalRecordView>> {
        if self.offsets().len() > u32::MAX {
            None
        } else {
            self.first_rows(data, self.offsets().len())
        }
    }

    /// A filter with the keys of the table, if all its blocks can be read and so many
    /// bits can be counted.
    pub fn rebuild_filter(&self, data: &[u8], bits_per_key: usize) -> (r: Option<BloomFilter>)
        ensures
            match self.all_rows(data@) {
                Some(rows) if key_runs(rows).len() * bits_per_key <= usize::MAX => r matches Some(f)
                    && f.wf() && f.built_from(key_runs(rows), bits_per_key as int),
                _ => r is None,
            },
    {
        if self.block_offsets.len() as u64 > u32::MAX as u64 {
            return None;
        }
        let count: u32 = self.block_count();
        let mut all: Vec<InternalRecord> = Vec::new();
        let mut i: u32 = 0;
        assert(record::views(all@) =~= Seq::<InternalRecordView>::empty());
        while i < count
            invariant
                i <= count,
                count == self.offsets().len(),
                self.first_rows(data@, i as nat) == Some(record::views(all@)),
            decreases count - i,
        {
            let ghost before = record::views(all@);
            match self.read_block_decompress(data, i) {
                Ok((_, records)) => {
                    let mut rest = records;
                    let ghost rows = record::views(rest@);
                    let ghost loaded = all@;
                    let ghost added = rest@;
                    all.append(&mut rest);
                    assert(all@ =~= loaded + added);
                    assert(record::views(all@) =~= before + rows);
                },
                Err(_) => {
                    proof {
                        assert(self.first_rows(data@, (i + 1) as nat) is None);
                        self.lemma_unreadable(data@, (i + 1) as nat, count as nat);
                    }
                    return None;
                },
            }
            i += 1;
        }
        let keys = distinct_keys(&all);
        assert(bloom::key_views(keys@) == key_runs(record::views(all@)));
        if keys.len().checked_mul(bits_per_key).is_none() {
            return None;
        }
        Some(BloomFilter::from_keys_with_bits(&keys, bits_per_key))
    }

    /// Where some of the blocks cannot be read, not all can.
    proof fn lemma_unreadable(self, data: Seq<u8>, n: nat, m: nat)
        requires
            n <= m,
            self.first_rows(data, n) is None,
        ensures
            self.first_rows(data, m) is None,
        decreases m - n,
    {
        if n < m {
            self.lemma_unreadable(data, n, (m - 1) as nat);
        }
    }
}

/// Copies of the records.
pub fn clone_records(records: &Vec<InternalRecord>) -> (r: Vec<InternalRecord>)
    ensures
        record::views(r@) == record::views(records@),
{
    let mut out: Vec<InternalRecord> = Vec::new();
    let mut i: usize = 0;
    while i < records.len()
        invariant
            i <= records@.len(),
            out@.len() == i,
            forall|k: int| 0 <= k < i ==> #[trigger] out@[k]@ == records@[k]@,
        decreases records@.len() - i,
    {
        out.push(records[i].clone());
        i += 1;
    }
    assert(record::views(out@) =~= record::views(records@));
    out
}

/// The row as a block gives it back: without its sequence number.
pub open spec fn unnumbered(r: InternalRecordView) -> InternalRecordView {
    InternalRecordView { seq: 0, ..r }
}

/// The rows as a block gives them back.
pub open spec fn unnumbered_rows(rows: Seq<InternalRecordView>) -> Seq<InternalRecordView> {
    Seq::new(rows.len(), |i: int| unnumbered(rows[i]))
}

/// Whether a row fits the fields of a block: a key, a value and a range end no
/// longer than their length fields can tell, and no empty range end.
pub open spec fn encodable_row(r: InternalRecordView) -> bool {
    &&& r.key.len() < 0x1_0000
    &&& r.value.len() < 0x1_0000_0000
    &&& r.range_end matches Some(end) ==> 0 < end.len() < 0x1_0000
}

/// A row that fits a block's fields is read back, but for its sequence number,
/// whatever follows it.
#[verifier::rlimit(40)]
pub proof fn law_row_read_back(r: InternalRecordView, rest: Seq<u8>)
    requires
        encodable_row(r),
    ensures
        decoded_row(encoded_row(r) + rest) == Some((unnumbered(r), encoded_row(r).len() as int)),
{
    let s = encoded_row(r) + rest;
    let range = wal::range_bytes(r.range_end);
    bytes::lemma_pow256_values();
    bytes::lemma_be_round_trip(r.key.len(), 2);
    bytes::lemma_twos_round_trip(r.ts);
    bytes::lemma_twos_round_trip(r.expire_at);
    bytes::lemma_be_round_trip(bytes::twos(r.ts), 8);
    bytes::lemma_be_round_trip(bytes::twos(r.expire_at), 8);
    bytes::lemma_be_round_trip(range.len(), 2);
    bytes::lemma_be_round_trip(r.value.len(), 4);
    let key_end = 2int + r.key.len();
    let range_end = key_end + 19 + range.len();
    let len = range_end + 4 + r.value.len();
    assert(s.subrange(0, 2) =~= bytes::be_bytes(r.key.len(), 2));
    assert(s.subrange(2, key_end) =~= r.key);
    assert(s.subrange(key_end, key_end + 8) =~= time_bytes(r.ts));
    assert(s.subrange(key_end + 8, key_end + 16) =~= time_bytes(r.expire_at));
    assert(s[key_end + 16] == r.op.code());
    assert(s.subrange(key_end + 17, key_end + 19) =~= bytes::be_bytes(range.len(), 2));
    assert(s.subrange(key_end + 19, range_end) =~= range);
    assert(s.subrange(range_end, range_end + 4) =~= bytes::be_bytes(r.value.len(), 4));
    assert(s.subrange(range_end + 4, len) =~= r.value);
}

/// A row is read back before what follows it.
proof fn lemma_row_first(r: InternalRecordView, tail: Seq<u8>)
    requires
        encodable_row(r),
    ensures
        all_rows(encoded_row(r) + tail) == seq![unnumbered(r)] + all_rows(tail),
{
    law_row_read_back(r, tail);
    assert((encoded_row(r) + tail).skip(encoded_row(r).len() as int) =~= tail);
}

/// The sequence numbers do not show in the encoding.
proof fn lemma_unnumbered_encoding(rows: Seq<InternalRecordView>)
    ensures
        encoded_rows(unnumbered_rows(rows)) == encoded_rows(rows),
    decreases rows.len(),
{
    if rows.len() > 0 {
        lemma_unnumbered_encoding(rows.drop_last());
        assert(unnumbered_rows(rows).drop_last() =~= unnumbered_rows(rows.drop_last()));
        assert(encoded_row(unnumbered(rows.last())) == encoded_row(rows.last()));
    }
}

/// The rows of a block are read back, but for their sequence numbers.
pub proof fn law_rows_read_back(rows: Seq<InternalRecordView>)
    requires
        rows.len() <= u32::MAX,
        forall|i: int| 0 <= i < rows.len() ==> encodable_row(#[trigger] rows[i]),
    ensures
        block_rows(encoded_rows(rows), rows.len() as u32) == unnumbered_rows(rows),
{
    let bare = unnumbered_rows(rows);
    let encode = |r: InternalRecordView| encoded_row(r);
    let decode = |s: Seq<u8>| all_rows(s);
    let fits = |r: InternalRecordView| encodable_row(r) && r.seq == 0;
    assert forall|r: InternalRecordView, t: Seq<u8>| fits(r) implies #[trigger] decode(encode(r) + t)
        == seq![r] + decode(t) by {
        lemma_row_first(r, t);
        assert(unnumbered(r) == r);
    }
    assert forall|i: int| 0 <= i < bare.len() implies fits(#[trigger] bare[i]) by {
        assert(encodable_row(rows[i]));
    }
    codec::lemma_concat_read_back(encode, decode, fits, bare, Seq::empty());
    lemma_unnumbered_encoding(rows);
    assert(encoded_rows(bare) + Seq::<u8>::empty() =~= encoded_rows(bare));
    assert(all_rows(Seq::<u8>::empty()) =~= Seq::<InternalRecordView>::empty());
    assert(bare + Seq::<InternalRecordView>::empty() =~= bare);
}

/// Where block `k` of a table file begins.
#[verifier::opaque]
pub open spec fn block_start(
    parts: Seq<Seq<InternalRecordView>>,
    compressed: Seq<Seq<u8>>,
    is_zstd: bool,
    k: int,
) -> int {
    table_bytes(parts.take(k), compressed.take(k), is_zstd).len() as int
}

/// Whether a table file can be read back: its rows fit the fields, and the
/// lengths of its blocks can be told.
pub open spec fn readable(parts: Seq<Seq<InternalRecordView>>, compressed: Seq<Seq<u8>>) -> bool {
    &&& compressed.len() == parts.len()
    &&& forall|k: int|
        0 <= k < parts.len() ==> {
            &&& (#[trigger] parts[k]).len() <= u32::MAX
            &&& encoded_rows(parts[k]).len() <= u32::MAX
            &&& compressed[k].len() <= u32::MAX
            &&& forall|i: int| 0 <= i < parts[k].len() ==> encodable_row(#[trigger] parts[k][i])
        }
}

/// A block stands in the file where the blocks before it end.
proof fn lemma_block_place(
    parts: Seq<Seq<InternalRecordView>>,
    compressed: Seq<Seq<u8>>,
    is_zstd: bool,
    k: int,
)
    requires
        compressed.len() == parts.len(),
        0 <= k < parts.len(),
    ensures
        ({
            let data = table_bytes(parts, compressed, is_zstd);
            let block = block_bytes(parts[k], compressed[k], is_zstd);
            let at = block_start(parts, compressed, is_zstd, k);
            &&& 0 <= at
            &&& at + block.len() == block_start(parts, compressed, is_zstd, k + 1)
            &&& at + block.len() <= data.len()
            &&& data.subrange(at, at + block.len()) == block
        }),
    decreases parts.len(),
{
    reveal(block_start);
    let data = table_bytes(parts, compressed, is_zstd);
    let block = block_bytes(parts[k], compressed[k], is_zstd);
    let at = block_start(parts, compressed, is_zstd, k);
    let front = parts.drop_last();
    let cfront = compressed.drop_last();
    let fdata = table_bytes(front, cfront, is_zstd);
    let last = block_bytes(parts.last(), compressed.last(), is_zstd);
    assert(parts.take(k + 1).drop_last() =~= parts.take(k));
    assert(compressed.take(k + 1).drop_last() =~= compressed.take(k));
    assert(data == fdata + last);
    if k == parts.len() - 1 {
        assert(parts.take(k) =~= front);
        assert(compressed.take(k) =~= cfront);
        assert(parts.take(k + 1) =~= parts);
        assert(compressed.take(k + 1) =~= compressed);
        bytes::lemma_back(fdata, last);
    } else {
        lemma_block_place(front, cfront, is_zstd, k);
        assert(front.take(k) =~= parts.take(k));
        assert(cfront.take(k) =~= compressed.take(k));
        bytes::lemma_front(fdata, last, at, (at + block.len()) as int);
    }
}

/// The header of a block is found where the block stands.
proof fn lemma_header_place(
    parts: Seq<Seq<InternalRecordView>>,
    compressed: Seq<Seq<u8>>,
    is_zstd: bool,
    k: int,
)
    requires
        readable(parts, compressed),
        0 <= k < parts.len(),
    ensures
        ({
            let data = table_bytes(parts, compressed, is_zstd);
            let at = block_start(parts, compressed, is_zstd, k);
            let header = block_header(parts[k], compressed[k].len(), is_zstd);
            &&& 0 <= at
            &&& at + HEADER_SIZE + compressed[k].len() <= data.len()
            &&& at + HEADER_SIZE + compressed[k].len() == block_start(
                parts,
                compressed,
                is_zstd,
                k + 1,
            )
            &&& header.compressed_len == compressed[k].len()
            &&& BlockHeader::decoded(data.subrange(at, at + HEADER_SIZE)) == Some(header)
            &&& data.subrange(at + HEADER_SIZE, at + HEADER_SIZE + compressed[k].len())
                == compressed[k]
        }),
{
    let data = table_bytes(parts, compressed, is_zstd);
    let at = block_start(parts, compressed, is_zstd, k);
    let header = block_header(parts[k], compressed[k].len(), is_zstd);
    assert(parts[k].len() <= u32::MAX);
    lemma_block_place(parts, compressed, is_zstd, k);
    assert(block_bytes(parts[k], compressed[k], is_zstd) == header.encoded() + compressed[k]);
    lemma_block_read(data, at, header, compressed[k]);
}

/// The header and the content of a block are read where the block stands.
proof fn lemma_block_read(data: Seq<u8>, at: int, header: BlockHeader, compressed: Seq<u8>)
    requires
        0 <= at,
        at + (header.encoded() + compressed).len() <= data.len(),
        data.subrange(at, at + (header.encoded() + compressed).len()) == header.encoded()
            + compressed,
    ensures
        (header.encoded() + compressed).len() == HEADER_SIZE + compressed.len(),
        BlockHeader::decoded(data.subrange(at, at + HEADER_SIZE)) == Some(header),
        data.subrange(at + HEADER_SIZE, at + HEADER_SIZE + compressed.len()) == compressed,
{
    lemma_header_decoded(header);
    bytes::lemma_two_parts(data, at, header.encoded(), compressed);
}

/// A header is read back from its bytes.
proof fn lemma_header_decoded(header: BlockHeader)
    ensures
        header.encoded().len() == HEADER_SIZE,
        BlockHeader::decoded(header.encoded()) == Some(header),
{
    law_header_read_back(header, Seq::empty());
    assert(header.encoded() + Seq::<u8>::empty() =~= header.encoded());
}

/// Finding a block and then the rest finds all of them.
proof fn lemma_offsets_step(data: Seq<u8>, pos: int, header: BlockHeader, rest: Seq<u64>)
    requires
        0 <= pos,
        pos + HEADER_SIZE <= data.len(),
        BlockHeader::decoded(data.subrange(pos, pos + HEADER_SIZE)) == Some(header),
        offsets_from(data, pos + HEADER_SIZE + header.compressed_len) == Some(rest),
    ensures
        offsets_from(data, pos) == Some(seq![pos as u64] + rest),
{
}

/// Walking a table file from block `k` on finds every block.
#[verifier::rlimit(40)]
proof fn lemma_offsets_found(
    parts: Seq<Seq<InternalRecordView>>,
    compressed: Seq<Seq<u8>>,
    is_zstd: bool,
    k: int,
)
    requires
        readable(parts, compressed),
        0 <= k <= parts.len(),
    ensures
        offsets_from(
            table_bytes(parts, compressed, is_zstd),
            block_start(parts, compressed, is_zstd, k),
        ) == Some(
            Seq::new(
                (parts.len() - k) as nat,
                |j: int| block_start(parts, compressed, is_zstd, k + j) as u64,
            ),
        ),
    decreases parts.len() - k,
{
    let data = table_bytes(parts, compressed, is_zstd);
    let at = block_start(parts, compressed, is_zstd, k);
    let found = Seq::new(
        (parts.len() - k) as nat,
        |j: int| block_start(parts, compressed, is_zstd, k + j) as u64,
    );
    if k == parts.len() {
        assert(at == data.len()) by {
            reveal(block_start);
            assert(parts.take(k) =~= parts);
            assert(compressed.take(k) =~= compressed);
        }
        assert(found =~= Seq::<u64>::empty());
    } else {
        lemma_header_place(parts, compressed, is_zstd, k);
        lemma_offsets_found(parts, compressed, is_zstd, k + 1);
        let rest = Seq::new(
            (parts.len() - k - 1) as nat,
            |j: int| block_start(parts, compressed, is_zstd, k + 1 + j) as u64,
        );
        let header = block_header(parts[k], compressed[k].len(), is_zstd);
        lemma_offsets_step(data, at, header, rest);
        assert(seq![at as u64] + rest =~= found);
    }
}

/// A block is read where its header is found.
proof fn lemma_block_found(
    reader: SstReader,
    data: Seq<u8>,
    idx: u32,
    header: BlockHeader,
    raw: Seq<u8>,
)
    requires
        idx < reader.offsets().len(),
        ({
            let at = reader.offsets()[idx as int] as int;
            let start = at + HEADER_SIZE;
            &&& start + header.compressed_len <= data.len()
            &&& BlockHeader::decoded(data.subrange(at, start)) == Some(header)
            &&& gives_back(
                decompressed(
                    data.subrange(start, start + header.compressed_len),
                    header.is_zstd,
                    header.data_len as usize,
                ),
                raw,
            )
        }),
    ensures
        reader.block(data, idx) == Ok::<(BlockHeader, Seq<InternalRecordView>), BlockError>(
            (header, block_rows(raw, header.num_records)),
        ),
{
}

/// Whether the headers of a table file tell how long the compressed blocks are: four
/// bytes are given to each length.
pub open spec fn lengths_told(
    parts: Seq<Seq<InternalRecordView>>,
    bytes: Seq<u8>,
    is_zstd: bool,
) -> bool {
    exists|compressed: Seq<Seq<u8>>| #[trigger]
        compresses(parts, compressed, is_zstd) && bytes == table_bytes(parts, compressed, is_zstd)
            && lengths_fit(parts, compressed)
}

/// Whether four bytes can tell the lengths of the blocks, and of what they compress
/// to.
pub open spec fn lengths_fit(parts: Seq<Seq<InternalRecordView>>, compressed: Seq<Seq<u8>>) -> bool {
    forall|k: int|
        0 <= k < parts.len() ==> encoded_rows(#[trigger] parts[k]).len() <= u32::MAX
            && compressed[k].len() <= u32::MAX
}

/// The headers of a table file tell the lengths, whatever the blocks compress to, where
/// no block can compress to more than four bytes can tell.
pub proof fn law_lengths_told(
    file: SstFile,
    rows: Seq<InternalRecordView>,
    block_size: usize,
    bits_per_key: usize,
    is_zstd: bool,
)
    requires
        file.is_of(rows, block_size, bits_per_key, is_zstd),
        forall|k: int|
            0 <= k < chunks(rows, at_least_one(block_size)).len() ==> max_compressed(
                encoded_rows(#[trigger] chunks(rows, at_least_one(block_size))[k]).len(),
                is_zstd,
            ) <= u32::MAX,
    ensures
        lengths_told(chunks(rows, at_least_one(block_size)), file.bytes@, is_zstd),
{
    let parts = chunks(rows, at_least_one(block_size));
    let compressed = choose|compressed: Seq<Seq<u8>>| #[trigger]
        compresses(parts, compressed, is_zstd) && file.bytes@ == table_bytes(
            parts,
            compressed,
            is_zstd,
        );
    assert forall|k: int| 0 <= k < parts.len() implies encoded_rows(#[trigger] parts[k]).len()
        <= u32::MAX && compressed[k].len() <= u32::MAX by {
        assert(compressed[k].len() <= max_compressed(encoded_rows(parts[k]).len(), is_zstd));
    }
    assert(lengths_fit(parts, compressed));
}

/// A table file is read back: it has as many blocks as the manifest lists, and
/// opening it finds them; each gives its part of the rows, but for their sequence
/// numbers, and the parts together are the rows; there is no other block.
pub proof fn law_table_read_back(
    file: SstFile,
    rows: Seq<InternalRecordView>,
    block_size: usize,
    bits_per_key: usize,
    is_zstd: bool,
    reader: SstReader,
    idx: u32,
)
    requires
        file.is_of(rows, block_size, bits_per_key, is_zstd),
        rows.len() <= u32::MAX,
        forall|i: int| 0 <= i < rows.len() ==> encodable_row(#[trigger] rows[i]),
        lengths_told(chunks(rows, at_least_one(block_size)), file.bytes@, is_zstd),
        offsets_from(file.bytes@, 0) == Some(reader.offsets()),
    ensures
        ({
            let parts = chunks(rows, at_least_one(block_size));
            &&& reader.offsets().len() == parts.len() == file.blocks@.len()
            &&& joined(parts) == rows
            &&& if idx < parts.len() {
                reader.block(file.bytes@, idx) matches Ok((_, out)) && out == unnumbered_rows(
                    parts[idx as int],
                )
            } else {
                reader.block(file.bytes@, idx) == Err::<
                    (BlockHeader, Seq<InternalRecordView>),
                    BlockError,
                >(BlockError::NotFound)
            }
        }),
{
    let size = at_least_one(block_size);
    let parts = chunks(rows, size);
    let compressed = choose|compressed: Seq<Seq<u8>>| #[trigger]
        compresses(parts, compressed, is_zstd) && file.bytes@ == table_bytes(
            parts,
            compressed,
            is_zstd,
        ) && lengths_fit(parts, compressed);
    law_chunks_cover(rows, size);
    assert(manifest::block_views(file.blocks@).len() == parts.len());
    lemma_parts_readable(rows, size, compressed, is_zstd);
    lemma_all_found(parts, compressed, is_zstd, reader);
    if idx < parts.len() {
        lemma_part_read(parts, compressed, is_zstd, reader, idx);
    }
}

/// The parts of rows can be read back, where these fit the fields and the limits.
proof fn lemma_parts_readable(
    rows: Seq<InternalRecordView>,
    size: nat,
    compressed: Seq<Seq<u8>>,
    is_zstd: bool,
)
    requires
        size > 0,
        compresses(chunks(rows, size), compressed, is_zstd),
        rows.len() <= u32::MAX,
        forall|i: int| 0 <= i < rows.len() ==> encodable_row(#[trigger] rows[i]),
        lengths_fit(chunks(rows, size), compressed),
    ensures
        readable(chunks(rows, size), compressed),
{
    let parts = chunks(rows, size);
    assert forall|k: int| 0 <= k < parts.len() implies {
        &&& (#[trigger] parts[k]).len() <= u32::MAX
        &&& encoded_rows(parts[k]).len() <= u32::MAX
        &&& compressed[k].len() <= u32::MAX
        &&& forall|i: int| 0 <= i < parts[k].len() ==> encodable_row(#[trigger] parts[k][i])
    } by {
        lemma_chunk_rows(rows, size, k);
        assert forall|i: int| 0 <= i < parts[k].len() implies encodable_row(#[trigger] parts[k][i]) by {
            assert(rows.contains(parts[k][i]));
        }
    }
}

/// Opening a table file finds every block where it stands.
proof fn lemma_all_found(
    parts: Seq<Seq<InternalRecordView>>,
    compressed: Seq<Seq<u8>>,
    is_zstd: bool,
    reader: SstReader,
)
    requires
        readable(parts, compressed),
        offsets_from(table_bytes(parts, compressed, is_zstd), 0) == Some(reader.offsets()),
    ensures
        reader.offsets().len() == parts.len(),
        forall|k: int|
            0 <= k < parts.len() ==> #[trigger] reader.offsets()[k] == block_start(
                parts,
                compressed,
                is_zstd,
                k,
            ) as u64,
{
    assert(block_start(parts, compressed, is_zstd, 0) == 0) by {
        reveal(block_start);
    }
    lemma_offsets_found(parts, compressed, is_zstd, 0);
}

/// A block of a table file is read back.
proof fn lemma_part_read(
    parts: Seq<Seq<InternalRecordView>>,
    compressed: Seq<Seq<u8>>,
    is_zstd: bool,
    reader: SstReader,
    idx: u32,
)
    requires
        readable(parts, compressed),
        compresses(parts, compressed, is_zstd),
        idx < parts.len(),
        table_bytes(parts, compressed, is_zstd).len() <= u64::MAX,
        reader.offsets().len() == parts.len(),
        reader.offsets()[idx as int] == block_start(parts, compressed, is_zstd, idx as int) as u64,
    ensures
        reader.block(table_bytes(parts, compressed, is_zstd), idx) matches Ok((_, out)) && out
            == unnumbered_rows(parts[idx as int]),
{
    let k = idx as int;
    lemma_header_place(parts, compressed, is_zstd, k);
    lemma_block_within(parts, compressed, is_zstd, k);
    assert(parts[k].len() <= u32::MAX);
    assert(gives_back(
        inflated(compressed[k], is_zstd, encoded_rows(parts[k]).len() as usize),
        encoded_rows(parts[k]),
    ));
    assert(inflatable(compressed[k], is_zstd, encoded_rows(parts[k]).len() as usize));
    lemma_block_found(
        reader,
        table_bytes(parts, compressed, is_zstd),
        idx,
        block_header(parts[k], compressed[k].len(), is_zstd),
        encoded_rows(parts[k]),
    );
    law_rows_read_back(parts[k]);
}

/// A block of a file whose length can be told begins where a number can tell.
proof fn lemma_block_within(
    parts: Seq<Seq<InternalRecordView>>,
    compressed: Seq<Seq<u8>>,
    is_zstd: bool,
    k: int,
)
    requires
        compressed.len() == parts.len(),
        0 <= k < parts.len(),
    ensures
        0 <= block_start(parts, compressed, is_zstd, k) <= table_bytes(
            parts,
            compressed,
            is_zstd,
        ).len(),
{
    lemma_block_place(parts, compressed, is_zstd, k);
}

/// The rows of a part are rows of the whole.
pub proof fn lemma_chunk_rows(rows: Seq<InternalRecordView>, size: nat, k: int)
    requires
        size > 0,
        0 <= k < chunks(rows, size).len(),
    ensures
        chunks(rows, size)[k].len() <= rows.len(),
        forall|i: int|
            0 <= i < chunks(rows, size)[k].len() ==> rows.contains(
                #[trigger] chunks(rows, size)[k][i],
            ),
    decreases rows.len(),
{
    let parts = chunks(rows, size);
    if rows.len() > size {
        if k == 0 {
            assert(parts[0] == rows.take(size as int));
        } else {
            let rest = rows.skip(size as int);
            lemma_chunk_rows(rest, size, k - 1);
            assert(parts[k] == chunks(rest, size)[k - 1]);
            assert forall|i: int| 0 <= i < parts[k].len() implies rows.contains(
                #[trigger] parts[k][i],
            ) by {
                assert(rest.contains(chunks(rest, size)[k - 1][i]));
                let j = choose|j: int| 0 <= j < rest.len() && rest[j] == parts[k][i];
                assert(rows[j + size] == parts[k][i]);
            }
        }
    } else {
        assert(parts[k] == rows);
    }
}

/// The parts of sorted rows are sorted.
pub proof fn lemma_chunk_sorted(rows: Seq<InternalRecordView>, size: nat, k: int)
    requires
        size > 0,
        sort::sorted(SortOrder::KeyTs, rows),
        0 <= k < chunks(rows, size).len(),
    ensures
        sort::sorted(SortOrder::KeyTs, chunks(rows, size)[k]),
    decreases rows.len(),
{
    let o = SortOrder::KeyTs;
    let parts = chunks(rows, size);
    if rows.len() > size {
        if k == 0 {
            let part = rows.take(size as int);
            assert(parts[0] == part);
            assert forall|i: int, j: int| 0 <= i < j < part.len() implies !sort::before(
                o,
                #[trigger] part[j],
                #[trigger] part[i],
            ) by {
                assert(!sort::before(o, rows[j], rows[i]));
            }
        } else {
            let rest = rows.skip(size as int);
            assert forall|i: int, j: int| 0 <= i < j < rest.len() implies !sort::before(
                o,
                #[trigger] rest[j],
                #[trigger] rest[i],
            ) by {
                assert(!sort::before(o, rows[j + size], rows[i + size]));
            }
            lemma_chunk_sorted(rest, size, k - 1);
            assert(parts[k] == chunks(rest, size)[k - 1]);
        }
    } else {
        assert(parts[k] == rows);
    }
}

/// Each row is in a part.
pub proof fn lemma_row_in_chunk(rows: Seq<InternalRecordView>, size: nat, x: int) -> (at: (int, int))
    requires
        size > 0,
        0 <= x < rows.len(),
    ensures
        0 <= at.0 < chunks(rows, size).len(),
        0 <= at.1 < chunks(rows, size)[at.0].len(),
        chunks(rows, size)[at.0][at.1] == rows[x],
    decreases rows.len(),
{
    let parts = chunks(rows, size);
    if rows.len() > size && x >= size {
        let rest = rows.skip(size as int);
        let at = lemma_row_in_chunk(rest, size, x - size);
        assert(parts[at.0 + 1] == chunks(rest, size)[at.0]);
        (at.0 + 1, at.1)
    } else {
        (0, x)
    }
}

/// The name of the file of a table.
pub fn table_file_name(sst_id: u32) -> (r: String)
    ensures
        r@ == text::zero_padded(text::decimal_text(sst_id as nat), 9) + ".sst"@,
{
    let digits = decimal_padded(sst_id as u64, 9);
    join(digits.as_str(), ".sst")
}

/// The key of every row is among the keys of the rows.
pub proof fn lemma_key_run(rows: Seq<InternalRecordView>, i: int)
    requires
        0 <= i < rows.len(),
    ensures
        key_runs(rows).contains(rows[i].key),
    decreases rows.len(),
{
    let front = rows.drop_last();
    let keys = key_runs(rows);
    let before = key_runs(front);
    if rows.len() >= 2 && rows[rows.len() - 2].key == rows.last().key {
        if i == rows.len() - 1 {
            assert(front[i - 1].key == rows[i].key);
            lemma_key_run(front, i - 1);
        } else {
            lemma_key_run(front, i);
        }
    } else if i == rows.len() - 1 {
        assert(keys[before.len() as int] == rows[i].key);
    } else {
        lemma_key_run(front, i);
        let j = choose|j: int| 0 <= j < before.len() && before[j] == front[i].key;
        assert(keys[j] == rows[i].key);
    }
}

} // verus!
