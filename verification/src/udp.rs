//! The frames in which records come over UDP. Numbers are written with the most
//! significant byte first.
//!
//! | Version | Layout |
//! |---------|--------|
//! | 1 | `magic(1) version(1) count(2) records` |
//! | 2 | `magic(1) version(1) count(2) tag(8) records` |

use std::hash::{DefaultHasher, Hasher};
use vstd::prelude::*;
use vstd::std_specs::hash::*;
use vstd::string::*;
use crate::bytes;
use crate::bytes::{
    append_bytes, bytes_eq, copy_range, i64_to_u64, push_be, push_le, read_be, u64_to_i64,
};
use crate::engine;
use crate::engine::expire_after;
use crate::error::FlowError;
use crate::record;
use crate::record::{Record, RecordView};
use crate::text;
use crate::text::{decimal, hex, join};

verus! {

pub const MAGIC: u8 = 0x54;

pub const VERSION_V1: u8 = 1;

pub const VERSION_V2: u8 = 2;

/// The time to live that stands for none.
pub const TTL_NONE: u32 = 0;

/// The longest key that a frame may hold.
pub const MAX_KEY_BYTES: usize = 4096;

/// The longest value that a frame may hold.
pub const MAX_VAL_BYTES: usize = 65536;

/// The most records that a frame may hold.
pub const MAX_FRAME_RECORDS: u16 = 1024;

/// The bytes of a tag.
pub const AUTH_HASH_BYTES: usize = 8;

pub const SEED_K0: u64 = 0x5550_445f_4155_5448;

pub const SEED_K1: u64 = 0x464c_4f57_4442_4b45;

/// What is hashed for a tag: two seeds, the key, the count and the records.
pub open spec fn tag_input(key: Seq<u8>, count: nat, payload: Seq<u8>) -> Seq<Seq<u8>> {
    seq![
        bytes::le_bytes(SEED_K0 as nat, 8),
        bytes::le_bytes(SEED_K1 as nat, 8),
        key,
        bytes::be_bytes(count, 2),
        payload,
    ]
}

/// The tag of a frame.
pub open spec fn tag(key: Seq<u8>, count: nat, payload: Seq<u8>) -> Seq<u8> {
    bytes::be_bytes(DefaultHasher::spec_finish(tag_input(key, count, payload)) as nat, 8)
}

/// The tag of a frame with the count and the records.
fn compute_auth_tag(api_key: &str, count: u16, records_payload: &[u8]) -> (r: Vec<u8>)
    ensures
        r@ == tag(api_key.spec_bytes(), count as nat, records_payload@),
{
    let mut k0: Vec<u8> = Vec::new();
    push_le(&mut k0, SEED_K0, 8);
    let mut k1: Vec<u8> = Vec::new();
    push_le(&mut k1, SEED_K1, 8);
    let mut number: Vec<u8> = Vec::new();
    push_be(&mut number, count as u64, 2);
    let mut h = DefaultHasher::new();
    h.write(k0.as_slice());
    h.write(k1.as_slice());
    h.write(api_key.as_bytes());
    h.write(number.as_slice());
    h.write(records_payload);
    proof {
        assert(k0@ =~= bytes::le_bytes(SEED_K0 as nat, 8));
        assert(k1@ =~= bytes::le_bytes(SEED_K1 as nat, 8));
        assert(number@ =~= bytes::be_bytes(count as nat, 2));
        assert(h@ =~= tag_input(api_key.spec_bytes(), count as nat, records_payload@));
    }
    let hash: u64 = h.finish();
    let mut out: Vec<u8> = Vec::new();
    push_be(&mut out, hash, 8);
    assert(out@ =~= tag(api_key.spec_bytes(), count as nat, records_payload@));
    out
}

/// Two bytes as a number, and the position behind them.
pub fn read_u16(data: &[u8], pos: usize) -> (r: Option<(u16, usize)>)
    ensures
        pos + 2 > data@.len() ==> r is None,
        pos + 2 <= data@.len() ==> (r matches Some((v, next)) && v == bytes::be_nat(
            data@.subrange(pos as int, pos + 2),
        ) && next == pos + 2),
{
    if data.len() < 2 || pos > data.len() - 2 {
        return None;
    }
    let v: u64 = read_be(data, pos, 2);
    proof {
        bytes::lemma_pow256_values();
        bytes::lemma_be_nat_bound(data@.subrange(pos as int, pos + 2));
    }
    Some((v as u16, pos + 2))
}

/// Four bytes as a number, and the position behind them.
pub fn read_u32(data: &[u8], pos: usize) -> (r: Option<(u32, usize)>)
    ensures
        pos + 4 > data@.len() ==> r is None,
        pos + 4 <= data@.len() ==> (r matches Some((v, next)) && v == bytes::be_nat(
            data@.subrange(pos as int, pos + 4),
        ) && next == pos + 4),
{
    if data.len() < 4 || pos > data.len() - 4 {
        return None;
    }
    let v: u64 = read_be(data, pos, 4);
    proof {
        bytes::lemma_pow256_values();
        bytes::lemma_be_nat_bound(data@.subrange(pos as int, pos + 4));
    }
    Some((v as u32, pos + 4))
}

/// Eight bytes as a signed number, and the position behind them.
pub fn read_i64(data: &[u8], pos: usize) -> (r: Option<(i64, usize)>)
    ensures
        pos + 8 > data@.len() ==> r is None,
        pos + 8 <= data@.len() ==> (r matches Some((v, next)) && v == bytes::untwos(
            bytes::be_nat(data@.subrange(pos as int, pos + 8)),
        ) && next == pos + 8),
{
    if data.len() < 8 || pos > data.len() - 8 {
        return None;
    }
    let v: u64 = read_be(data, pos, 8);
    Some((u64_to_i64(v), pos + 8))
}

/// A number of `n` bytes at `pos`.
pub open spec fn number_at(s: Seq<u8>, pos: int, n: int) -> nat {
    bytes::be_nat(s.subrange(pos, pos + n))
}

/// The record that begins at `pos`, and where it ends.
pub open spec fn record_at(s: Seq<u8>, pos: int) -> Option<(RecordView, int)> {
    if pos + 2 > s.len() {
        None
    } else {
        let key_len = number_at(s, pos, 2) as int;
        let a = pos + 2 + key_len;
        if key_len > MAX_KEY_BYTES || a + 14 > s.len() {
            None
        } else {
            let ts = bytes::untwos(number_at(s, a, 8)) as i64;
            let ttl = number_at(s, a + 8, 4) as u32;
            let val_len = number_at(s, a + 12, 2) as int;
            let b = a + 14;
            if b + val_len > s.len() {
                None
            } else {
                Some(
                    (
                        RecordView {
                            key: s.subrange(pos + 2, a),
                            ts,
                            expire_at: if ttl == TTL_NONE {
                                i64::MAX
                            } else {
                                engine::expiry(ts, ttl as u64)
                            },
                            value: s.subrange(b, b + val_len),
                        },
                        b + val_len,
                    ),
                )
            }
        }
    }
}

/// The record that begins at `pos`, and where it ends.
pub fn read_record(data: &[u8], pos: usize) -> (r: Option<(Record, usize)>)
    ensures
        match r {
            Some((rec, next)) => record_at(data@, pos as int) == Some((rec@, next as int)) && pos
                <= next <= data@.len(),
            None => record_at(data@, pos as int) is None,
        },
{
    let (key_len, key_at) = match read_u16(data, pos) {
        Some(found) => found,
        None => {
            return None;
        },
    };
    if key_len as usize > MAX_KEY_BYTES {
        return None;
    }
    if data.len() - key_at < key_len as usize {
        return None;
    }
    let ts_at: usize = key_at + key_len as usize;
    let (ts, ttl_at) = match read_i64(data, ts_at) {
        Some(found) => found,
        None => {
            return None;
        },
    };
    let (ttl, len_at) = match read_u32(data, ttl_at) {
        Some(found) => found,
        None => {
            return None;
        },
    };
    let (val_len, value_at) = match read_u16(data, len_at) {
        Some(found) => found,
        None => {
            return None;
        },
    };
    if val_len as usize > MAX_VAL_BYTES {
        return None;
    }
    if data.len() - value_at < val_len as usize {
        return None;
    }
    let next: usize = value_at + val_len as usize;
    let expire_at: i64 = if ttl == TTL_NONE {
        i64::MAX
    } else {
        expire_after(ts, ttl as u64)
    };
    let rec = Record {
        key: copy_range(data, key_at, ts_at),
        ts,
        expire_at,
        value: copy_range(data, value_at, next),
    };
    assert(record_at(data@, pos as int) == Some((rec@, next as int)));
    Some((rec, next))
}

/// The `n` records that begin at `pos`.
pub open spec fn records_at(s: Seq<u8>, pos: int, n: nat) -> Option<Seq<RecordView>>
    decreases n,
{
    if n == 0 {
        Some(Seq::empty())
    } else {
        match record_at(s, pos) {
            None => None,
            Some((rec, next)) => match records_at(s, next, (n - 1) as nat) {
                None => None,
                Some(rest) => Some(seq![rec] + rest),
            },
        }
    }
}

/// What is wrong with a frame, or where its records begin.
pub open spec fn frame_start(s: Seq<u8>, key: Option<Seq<u8>>) -> Result<int, Seq<char>> {
    if s.len() < 4 {
        Err("frame too short"@)
    } else if s[0] != MAGIC {
        Err("invalid magic: "@ + text::hex_text(s[0] as nat))
    } else if s[1] == VERSION_V1 {
        match key {
            None => Ok(4),
            Some(_) => Err("authentication required; upgrade client to V2 protocol"@),
        }
    } else if s[1] == VERSION_V2 {
        match key {
            None => Err("v2 frame received but server has no api_key configured"@),
            Some(k) => if s.len() < 12 {
                Err("frame too short for v2 auth tag"@)
            } else if s.subrange(4, 12) != tag(k, number_at(s, 2, 2), s.skip(12)) {
                Err("authentication failed: invalid key hash"@)
            } else {
                Ok(12)
            },
        }
    } else {
        Err("unsupported version: "@ + text::decimal_text(s[1] as nat))
    }
}

/// The records of a frame, or what is wrong with it.
pub open spec fn frame_records(s: Seq<u8>, key: Option<Seq<u8>>) -> Result<
    Seq<RecordView>,
    Seq<char>,
> {
    match frame_start(s, key) {
        Err(msg) => Err(msg),
        Ok(pos) => {
            let count = number_at(s, 2, 2);
            if count > MAX_FRAME_RECORDS {
                Err("record count too large: "@ + text::decimal_text(count))
            } else {
                match records_at(s, pos, count) {
                    Some(rows) => Ok(rows),
                    None => Err("truncated record"@),
                }
            }
        },
    }
}

/// The bytes of an optional key.
pub open spec fn key_bytes(key: Option<&str>) -> Option<Seq<u8>> {
    match key {
        Some(k) => Some(k.spec_bytes()),
        None => None,
    }
}

/// The records of a frame. With a key, only frames of version 2 with the right
/// tag are accepted; without one, only frames of version 1.
pub fn decode_frame(data: &[u8], api_key: Option<&str>) -> (r: Result<Vec<Record>, FlowError>)
    ensures
        match frame_records(data@, key_bytes(api_key)) {
            Ok(rows) => r matches Ok(records) && record::record_views(records@) == rows,
            Err(text) => r matches Err(FlowError::Other(msg)) && msg@ == text,
        },
{
    if data.len() < 4 {
        return Err(FlowError::Other("frame too short".to_owned()));
    }
    if data[0] != MAGIC {
        let number = hex(data[0] as u32);
        return Err(FlowError::Other(join("invalid magic: ", number.as_str())));
    }
    let version: u8 = data[1];
    let (count, body) = match read_u16(data, 2) {
        Some(found) => found,
        None => {
            return Err(FlowError::Other("frame too short".to_owned()));
        },
    };
    let start: usize = if version == VERSION_V1 {
        if api_key.is_some() {
            return Err(
                FlowError::Other(
                    "authentication required; upgrade client to V2 protocol".to_owned(),
                ),
            );
        }
        body
    } else if version == VERSION_V2 {
        match api_key {
            None => {
                return Err(
                    FlowError::Other(
                        "v2 frame received but server has no api_key configured".to_owned(),
                    ),
                );
            },
            Some(key) => {
                if data.len() < body + AUTH_HASH_BYTES {
                    return Err(FlowError::Other("frame too short for v2 auth tag".to_owned()));
                }
                let received = vstd::slice::slice_subrange(data, body, body + AUTH_HASH_BYTES);
                let payload = vstd::slice::slice_subrange(
                    data,
                    body + AUTH_HASH_BYTES,
                    data.len(),
                );
                assert(payload@ =~= data@.skip(12));
                let expected = compute_auth_tag(key, count, payload);
                if !bytes_eq(received, &expected) {
                    return Err(
                        FlowError::Other("authentication failed: invalid key hash".to_owned()),
                    );
                }
                body + AUTH_HASH_BYTES
            },
        }
    } else {
        let number = decimal(version as u64);
        return Err(FlowError::Other(join("unsupported version: ", number.as_str())));
    };
    assert(frame_start(data@, key_bytes(api_key)) == Ok::<int, Seq<char>>(start as int));
    if count > MAX_FRAME_RECORDS {
        let number = decimal(count as u64);
        return Err(FlowError::Other(join("record count too large: ", number.as_str())));
    }
    let mut records: Vec<Record> = Vec::new();
    let mut pos: usize = start;
    let mut i: u16 = 0;
    proof {
        if records_at(data@, start as int, count as nat) is Some {
            assert(record::record_views(records@) + records_at(data@, start as int, count as nat)->0
                =~= records_at(data@, start as int, count as nat)->0);
        }
    }
    while i < count
        invariant
            i <= count,
            pos <= data@.len(),
            start <= data@.len(),
            records_at(data@, start as int, count as nat) == match records_at(
                data@,
                pos as int,
                (count - i) as nat,
            ) {
                Some(rest) => Some(record::record_views(records@) + rest),
                None => None::<Seq<RecordView>>,
            },
            count <= MAX_FRAME_RECORDS,
            number_at(data@, 2, 2) == count,
            frame_start(data@, key_bytes(api_key)) == Ok::<int, Seq<char>>(start as int),
        decreases count - i,
    {
        match read_record(data, pos) {
            None => {
                return Err(FlowError::Other("truncated record".to_owned()));
            },
            Some((rec, next)) => {
                let ghost before = record::record_views(records@);
                let ghost row = rec@;
                records.push(rec);
                proof {
                    assert(record::record_views(records@) =~= before.push(row));
                    let rest = records_at(data@, next as int, (count - i - 1) as nat);
                    if rest is Some {
                        assert(before + (seq![row] + rest->0) =~= before.push(row) + rest->0);
                    }
                }
                pos = next;
            },
        }
        i += 1;
    }
    assert(record::record_views(records@) + Seq::<RecordView>::empty() =~= record::record_views(
        records@,
    ));
    Ok(records)
}

/// The whole seconds from the record's time to its expiry, rounded towards zero.
pub open spec fn whole_secs(rec: RecordView) -> int {
    let d = rec.expire_at - rec.ts;
    if d >= 0 {
        d / 1_000_000
    } else {
        -((-d) / 1_000_000)
    }
}

/// The time to live that a frame holds of a record, modulo 2^32.
pub open spec fn frame_ttl(rec: RecordView) -> nat {
    if rec.expire_at == i64::MAX {
        TTL_NONE as nat
    } else {
        (whole_secs(rec) % 0x1_0000_0000) as nat
    }
}

/// A record as a frame holds it.
pub open spec fn record_bytes(rec: RecordView) -> Seq<u8> {
    bytes::be_bytes(rec.key.len(), 2) + rec.key + bytes::be_bytes(bytes::twos(rec.ts), 8)
        + bytes::be_bytes(frame_ttl(rec), 4) + bytes::be_bytes(rec.value.len(), 2) + rec.value
}

/// The records as a frame holds them.
pub open spec fn payload(rows: Seq<RecordView>) -> Seq<u8>
    decreases rows.len(),
{
    if rows.len() == 0 {
        Seq::empty()
    } else {
        payload(rows.drop_last()) + record_bytes(rows.last())
    }
}

/// The frame with the records.
pub open spec fn frame(rows: Seq<RecordView>, key: Option<Seq<u8>>) -> Seq<u8> {
    let count = bytes::be_bytes(rows.len(), 2);
    match key {
        None => seq![MAGIC, VERSION_V1] + count + payload(rows),
        Some(k) => seq![MAGIC, VERSION_V2] + count + tag(
            k,
            rows.len() % 0x1_0000,
            payload(rows),
        ) + payload(rows),
    }
}

/// The time to live that a frame holds of a record.
fn record_ttl(rec: &Record) -> (r: u32)
    requires
        rec.expire_at == i64::MAX || i64::MIN <= rec.expire_at - rec.ts <= i64::MAX,
    ensures
        r == frame_ttl(rec@),
{
    if rec.expire_at == i64::MAX {
        return TTL_NONE;
    }
    let d: i64 = rec.expire_at - rec.ts;
    if d >= 0 {
        ((d / 1_000_000) as u64 % 0x1_0000_0000) as u32
    } else {
        let secs: u64 = ((-(d as i128)) as u64) / 1_000_000;
        let low: u64 = secs % 0x1_0000_0000;
        proof {
            let n = secs as int;
            assert(whole_secs(rec@) == -n);
            assert((-n) % 0x1_0000_0000 == (if low == 0 {
                0
            } else {
                0x1_0000_0000 - low
            }));
        }
        if low == 0 {
            0
        } else {
            (0x1_0000_0000 - low) as u32
        }
    }
}

/// Appends a record.
fn push_record(buf: &mut Vec<u8>, rec: &Record)
    requires
        rec.expire_at == i64::MAX || i64::MIN <= rec.expire_at - rec.ts <= i64::MAX,
    ensures
        final(buf)@ == old(buf)@ + record_bytes(rec@),
{
    push_be(buf, rec.key.len() as u64, 2);
    append_bytes(buf, &rec.key);
    push_be(buf, i64_to_u64(rec.ts), 8);
    let ttl: u32 = record_ttl(rec);
    push_be(buf, ttl as u64, 4);
    push_be(buf, rec.value.len() as u64, 2);
    append_bytes(buf, &rec.value);
    assert(buf@ =~= old(buf)@ + record_bytes(rec@));
}

/// The frame with the records: of version 2 where there is a key, else of
/// version 1.
pub fn encode_frame(records: &[Record], api_key: Option<&str>) -> (r: Vec<u8>)
    requires
        forall|i: int|
            0 <= i < records@.len() ==> ((#[trigger] records@[i]).expire_at == i64::MAX || i64::MIN
                <= records@[i].expire_at - records@[i].ts <= i64::MAX),
    ensures
        r@ == frame(record::record_views(records@), key_bytes(api_key)),
{
    let ghost rows = record::record_views(records@);
    let mut body: Vec<u8> = Vec::new();
    let mut i: usize = 0;
    assert(body@ =~= payload(rows.take(0)));
    while i < records.len()
        invariant
            i <= records@.len(),
            rows == record::record_views(records@),
            body@ == payload(rows.take(i as int)),
            forall|i: int|
                0 <= i < records@.len() ==> ((#[trigger] records@[i]).expire_at == i64::MAX
                    || i64::MIN <= records@[i].expire_at - records@[i].ts <= i64::MAX),
        decreases records@.len() - i,
    {
        assert(rows.take(i + 1).drop_last() =~= rows.take(i as int));
        push_record(&mut body, &records[i]);
        i += 1;
    }
    assert(rows.take(i as int) =~= rows);
    let mut buf: Vec<u8> = Vec::new();
    buf.push(MAGIC);
    buf.push(
        if api_key.is_some() {
            VERSION_V2
        } else {
            VERSION_V1
        },
    );
    push_be(&mut buf, records.len() as u64, 2);
    if let Some(key) = api_key {
        let count: u16 = (records.len() % 0x1_0000) as u16;
        let auth = compute_auth_tag(key, count, &body);
        append_bytes(&mut buf, &auth);
    }
    append_bytes(&mut buf, &body);
    assert(buf@ =~= frame(rows, key_bytes(api_key)));
    buf
}

/// Whether a record comes out of a frame as it went in: its key and value are
/// short enough, and it expires never or whole seconds after its time.
pub open spec fn sendable(rec: RecordView) -> bool {
    &&& rec.key.len() <= MAX_KEY_BYTES
    &&& rec.value.len() < 0x1_0000
    &&& rec.expire_at == i64::MAX || {
        &&& 0 < rec.expire_at - rec.ts < 0x1_0000_0000 * 1_000_000
        &&& (rec.expire_at - rec.ts) % 1_000_000 == 0
    }
}

/// A record that can be sent is read back, wherever it stands.
proof fn lemma_record_read_back(rec: RecordView, before: Seq<u8>, after: Seq<u8>)
    requires
        sendable(rec),
    ensures
        record_at(before + record_bytes(rec) + after, before.len() as int) == Some(
            (rec, (before.len() + record_bytes(rec).len()) as int),
        ),
{
    let s = before + record_bytes(rec) + after;
    let pos = before.len() as int;
    let kl = bytes::be_bytes(rec.key.len(), 2);
    let ts = bytes::be_bytes(bytes::twos(rec.ts), 8);
    let ttl = bytes::be_bytes(frame_ttl(rec), 4);
    let vl = bytes::be_bytes(rec.value.len(), 2);
    bytes::lemma_pow256_values();
    bytes::lemma_be_round_trip(rec.key.len(), 2);
    bytes::lemma_twos_round_trip(rec.ts);
    bytes::lemma_be_round_trip(bytes::twos(rec.ts), 8);
    bytes::lemma_be_round_trip(frame_ttl(rec), 4);
    bytes::lemma_be_round_trip(rec.value.len(), 2);
    let a = pos + 2 + rec.key.len();
    let b = a + 14;
    assert(s.subrange(pos, pos + 2) =~= kl);
    assert(s.subrange(pos + 2, a) =~= rec.key);
    assert(s.subrange(a, a + 8) =~= ts);
    assert(s.subrange(a + 8, a + 12) =~= ttl);
    assert(s.subrange(a + 12, a + 14) =~= vl);
    assert(s.subrange(b, b + rec.value.len()) =~= rec.value);
    if rec.expire_at != i64::MAX {
        let secs = frame_ttl(rec);
        let d = rec.expire_at - rec.ts;
        assert(secs == d / 1_000_000);
        assert(rec.ts + secs * 1_000_000 == rec.expire_at);
        assert(engine::expiry(rec.ts, secs as u64) == rec.expire_at) by {
            engine::lemma_expiry(rec.ts, secs as u64);
        }
    }
}

/// Whether so many records are read from the place on, and these are they.
#[verifier::opaque]
spec fn reads(s: Seq<u8>, pos: int, n: nat, rows: Seq<RecordView>) -> bool {
    records_at(s, pos, n) == Some(rows)
}

/// A record that can be sent is read back, and then what follows it.
proof fn lemma_record_then(
    rec: RecordView,
    before: Seq<u8>,
    after: Seq<u8>,
    n: nat,
    rest: Seq<RecordView>,
)
    requires
        sendable(rec),
        reads(
            before + record_bytes(rec) + after,
            (before.len() + record_bytes(rec).len()) as int,
            n,
            rest,
        ),
    ensures
        reads(
            before + record_bytes(rec) + after,
            before.len() as int,
            n + 1,
            seq![rec] + rest,
        ),
{
    reveal(reads);
    lemma_record_read_back(rec, before, after);
}

/// The records of a frame, one more.
proof fn lemma_payload_next(rows: Seq<RecordView>, n: int)
    requires
        0 <= n < rows.len(),
    ensures
        payload(rows.take(n + 1)) == payload(rows.take(n)) + record_bytes(rows[n]),
{
    assert(rows.take(n + 1).drop_last() =~= rows.take(n));
}

/// No records are read from any place on.
proof fn lemma_none_read(s: Seq<u8>, pos: int)
    ensures
        reads(s, pos, 0, Seq::empty()),
{
    reveal(reads);
}

/// Records that can be sent are read back, one after another.
#[verifier::rlimit(30)]
proof fn lemma_payload_read_back(rows: Seq<RecordView>, n: int, before: Seq<u8>)
    requires
        forall|i: int| 0 <= i < rows.len() ==> sendable(#[trigger] rows[i]),
        0 <= n <= rows.len(),
    ensures
        reads(
            before + payload(rows),
            (before.len() + payload(rows.take(n)).len()) as int,
            (rows.len() - n) as nat,
            rows.skip(n),
        ),
    decreases rows.len() - n,
{
    if n == rows.len() {
        assert(rows.skip(n) =~= Seq::<RecordView>::empty());
        lemma_none_read(before + payload(rows), (before.len() + payload(rows.take(n)).len()) as int);
    } else {
        let all = payload(rows);
        let done = payload(rows.take(n));
        let one = record_bytes(rows[n]);
        let rest = all.skip((done + one).len() as int);
        lemma_payload_next(rows, n);
        lemma_payload_split(rows, n + 1);
        bytes::lemma_append_assoc(before, done + one, rest);
        bytes::lemma_append_assoc(before, done, one);
        lemma_payload_read_back(rows, n + 1, before);
        lemma_record_then(
            rows[n],
            before + done,
            rest,
            (rows.len() - n - 1) as nat,
            rows.skip(n + 1),
        );
        assert(rows.skip(n) =~= seq![rows[n]] + rows.skip(n + 1));
    }
}

/// The records of a frame begin with the first of them.
proof fn lemma_payload_split(rows: Seq<RecordView>, n: int)
    requires
        0 <= n <= rows.len(),
    ensures
        payload(rows.take(n)).len() <= payload(rows).len(),
        payload(rows) == payload(rows.take(n)) + payload(rows).skip(
            payload(rows.take(n)).len() as int,
        ),
    decreases rows.len() - n,
{
    let all = payload(rows);
    if n < rows.len() {
        lemma_payload_split(rows, n + 1);
        let some = payload(rows.take(n + 1));
        let part = payload(rows.take(n));
        let one = record_bytes(rows[n]);
        let rest = all.skip(some.len() as int);
        lemma_payload_next(rows, n);
        bytes::lemma_append_assoc(part, one, rest);
        bytes::lemma_front(part, one + rest, 0, 0);
    } else {
        assert(rows.take(n) =~= rows);
        assert(all =~= all + all.skip(all.len() as int));
    }
}

/// The head of a frame before its records, and the number in it.
proof fn lemma_frame_head(rows: Seq<RecordView>, key: Option<Seq<u8>>) -> (head: Seq<u8>)
    requires
        rows.len() <= MAX_FRAME_RECORDS,
    ensures
        frame(rows, key) == head + payload(rows),
        number_at(frame(rows, key), 2, 2) == rows.len(),
        frame_start(frame(rows, key), key) == Ok::<int, Seq<char>>(head.len() as int),
{
    let body = payload(rows);
    let count = bytes::be_bytes(rows.len(), 2);
    bytes::lemma_pow256_values();
    bytes::lemma_be_bytes_len(rows.len(), 2);
    bytes::lemma_be_round_trip(rows.len(), 2);
    match key {
        None => {
            let head = seq![MAGIC, VERSION_V1] + count;
            bytes::lemma_front(head, body, 2, 4);
            assert(head.subrange(2, 4) =~= count);
            head
        },
        Some(k) => {
            let n = rows.len();
            vstd::arithmetic::div_mod::lemma_small_mod(n, 0x1_0000);
            let t = tag(k, n, body);
            bytes::lemma_be_bytes_len(DefaultHasher::spec_finish(tag_input(k, n, body)) as nat, 8);
            let head = seq![MAGIC, VERSION_V2] + count + t;
            bytes::lemma_front(head, body, 2, 4);
            bytes::lemma_front(head, body, 4, 12);
            assert(head.subrange(2, 4) =~= count);
            assert(head.subrange(4, 12) =~= t);
            head
        },
    }
}

/// A frame is read back with the key that it was made with, or without one, as it
/// was made.
pub proof fn law_frame_read_back(rows: Seq<RecordView>, key: Option<Seq<u8>>)
    requires
        rows.len() <= MAX_FRAME_RECORDS,
        forall|i: int| 0 <= i < rows.len() ==> sendable(#[trigger] rows[i]),
    ensures
        frame_records(frame(rows, key), key) == Ok::<Seq<RecordView>, Seq<char>>(rows),
{
    let head = lemma_frame_head(rows, key);
    lemma_payload_read_back(rows, 0, head);
    reveal(reads);
    assert(rows.take(0) =~= Seq::<RecordView>::empty());
    assert(rows.skip(0) =~= rows);
}

/// A frame that does not carry the tag of the key is refused.
pub proof fn law_wrong_tag_refused(s: Seq<u8>, key: Seq<u8>)
    requires
        s.len() >= 12,
        s[1] == VERSION_V2,
        s.subrange(4, 12) != tag(key, number_at(s, 2, 2), s.skip(12)),
    ensures
        frame_records(s, Some(key)) is Err,
{
}

/// With a key no frame of version 1 is accepted, and without one none of version
/// 2.
pub proof fn law_version_fits_key(s: Seq<u8>, key: Seq<u8>)
    requires
        s.len() >= 4,
    ensures
        s[1] == VERSION_V1 ==> frame_records(s, Some(key)) is Err,
        s[1] == VERSION_V2 ==> frame_records(s, None) is Err,
{
}

/// The time to live in a frame is that of the record in whole seconds: what is cut off is
/// less than a second; a record that never expires has none.
pub proof fn law_frame_ttl_rounds(rec: RecordView)
    ensures
        rec.expire_at == i64::MAX ==> frame_ttl(rec) == TTL_NONE,
        rec.expire_at != i64::MAX && 0 <= rec.expire_at - rec.ts < 0x1_0000_0000 * 1_000_000 ==> {
            &&& frame_ttl(rec) * 1_000_000 <= rec.expire_at - rec.ts
            &&& rec.expire_at - rec.ts < (frame_ttl(rec) + 1) * 1_000_000
        },
{
}

/// As many records are read as are asked for.
pub proof fn lemma_records_count(s: Seq<u8>, pos: int, n: nat)
    ensures
        records_at(s, pos, n) matches Some(rows) ==> rows.len() == n,
    decreases n,
{
    if n > 0 {
        if let Some((rec, next)) = record_at(s, pos) {
            lemma_records_count(s, next, (n - 1) as nat);
        }
    }
}

} // verus!
