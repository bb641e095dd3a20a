//! Keys and values of the document layer as bytes, and fields of documents.
//!
//! All keys share the engine's keyspace. The first byte tells their kind, and a
//! zero byte ends a part:
//!
//! | Kind     | Layout |
//! |----------|--------|
//! | Document | `0x01  store  0x00  primary_key` |
//! | Index    | `0x02  store  0x00  index  0x00  encoded_value  0x00  primary_key` |
//! | Schema   | `0x03  store` |
//! | Counter  | `0x04  store` |
//!
//! Names of stores and indexes are ASCII identifiers, so they hold no zero byte.

use vstd::prelude::*;
use vstd::string::*;
use crate::bytes;
use crate::bytes::{append_bytes, bytes_eq, copy_bytes, push_be};
use crate::error::FlowError;
use crate::jsondb::json;
use crate::jsondb::json::write_json;
use crate::jsondb::numbers;
use crate::jsondb::numbers::{float_place, integer_place};
use crate::jsondb::written;
use crate::record;
use crate::record::{increment_prefix_bytes, Bound, ScanRange};
use crate::text;
use crate::text::{decimal, join, signed_decimal};

verus! {

pub const DOC_PREFIX: u8 = 1;

pub const IDX_PREFIX: u8 = 2;

pub const SCH_PREFIX: u8 = 3;

pub const CTR_PREFIX: u8 = 4;

/// What ends a part of a key.
pub const SEP: u8 = 0;

/// A JSON value. Numbers that are no integers are held as the bits of a
/// double-precision number, with the number written as JSON.
#[derive(Debug, PartialEq, Eq)]
pub enum JsonValue {
    Null,
    Bool(bool),
    Int(i64),
    UInt(u64),
    Float { bits: u64, text: String },
    Str(String),
    Array { items: Vec<JsonValue> },
    Object { entries: Vec<(String, JsonValue)> },
}

/// Whether two values are the same.
pub open spec fn same_value(a: JsonValue, b: JsonValue) -> bool
    decreases a,
{
    match (a, b) {
        (JsonValue::Null, JsonValue::Null) => true,
        (JsonValue::Bool(x), JsonValue::Bool(y)) => x == y,
        (JsonValue::Int(x), JsonValue::Int(y)) => x == y,
        (JsonValue::UInt(x), JsonValue::UInt(y)) => x == y,
        (JsonValue::Float { bits: x, text: t }, JsonValue::Float { bits: y, text: u }) => x == y
            && t@ == u@,
        (JsonValue::Str(x), JsonValue::Str(y)) => x@ == y@,
        (JsonValue::Array { items: x }, JsonValue::Array { items: y }) => {
            &&& x@.len() == y@.len()
            &&& forall|i: int| 0 <= i < x@.len() ==> same_value(#[trigger] x@[i], y@[i])
        },
        (JsonValue::Object { entries: x }, JsonValue::Object { entries: y }) => {
            &&& x@.len() == y@.len()
            &&& forall|i: int|
                0 <= i < x@.len() ==> (#[trigger] x@[i]).0@ == y@[i].0@ && same_value(
                    x@[i].1,
                    y@[i].1,
                )
        },
        _ => false,
    }
}

/// A copy of a value.
pub fn copy_value(value: &JsonValue) -> (r: JsonValue)
    ensures
        same_value(*value, r),
    decreases *value,
{
    match value {
        JsonValue::Null => JsonValue::Null,
        JsonValue::Bool(b) => JsonValue::Bool(*b),
        JsonValue::Int(n) => JsonValue::Int(*n),
        JsonValue::UInt(n) => JsonValue::UInt(*n),
        JsonValue::Float { bits, text } => JsonValue::Float { bits: *bits, text: text.clone() },
        JsonValue::Str(s) => JsonValue::Str(s.clone()),
        JsonValue::Array { items } => {
            let mut copies: Vec<JsonValue> = Vec::new();
            while copies.len() < items.len()
                invariant
                    copies@.len() <= items@.len(),
                    decreases_to!(*value => *items),
                    forall|i: int| 0 <= i < copies@.len() ==> same_value(#[trigger] items@[i], copies@[i]),
                decreases items@.len() - copies@.len(),
            {
                let k: usize = copies.len();
                assert(decreases_to!(*items => items@));
                assert(decreases_to!(items@ => items@[k as int]));
                copies.push(copy_value(&items[k]));
            }
            JsonValue::Array { items: copies }
        },
        JsonValue::Object { entries } => {
            let mut copies: Vec<(String, JsonValue)> = Vec::new();
            while copies.len() < entries.len()
                invariant
                    copies@.len() <= entries@.len(),
                    decreases_to!(*value => *entries),
                    forall|i: int|
                        0 <= i < copies@.len() ==> (#[trigger] entries@[i]).0@ == copies@[i].0@
                            && same_value(entries@[i].1, copies@[i].1),
                decreases entries@.len() - copies@.len(),
            {
                let k: usize = copies.len();
                assert(decreases_to!(*entries => entries@));
                assert(decreases_to!(entries@ => entries@[k as int]));
                assert(decreases_to!(entries@[k as int] => entries@[k as int].1));
                let copy = copy_value(&entries[k].1);
                copies.push((entries[k].0.clone(), copy));
            }
            JsonValue::Object { entries: copies }
        },
    }
}

/// The part of a key that a name makes: its bytes, and what ends it.
pub open spec fn part(name: Seq<u8>) -> Seq<u8> {
    name.push(SEP)
}

/// The key of a document.
pub open spec fn doc_key_bytes(store: Seq<u8>, key: Seq<u8>) -> Seq<u8> {
    doc_prefix_bytes(store) + key
}

/// What the keys of a store's documents begin with.
pub open spec fn doc_prefix_bytes(store: Seq<u8>) -> Seq<u8> {
    seq![DOC_PREFIX] + part(store)
}

/// What the keys of an index begin with.
pub open spec fn idx_prefix_bytes(store: Seq<u8>, index: Seq<u8>) -> Seq<u8> {
    seq![IDX_PREFIX] + part(store) + part(index)
}

/// What the keys of an index for an encoded value begin with.
pub open spec fn idx_value_prefix_bytes(store: Seq<u8>, index: Seq<u8>, value: Seq<u8>) -> Seq<u8> {
    idx_prefix_bytes(store, index) + part(value)
}

/// The key of an index entry.
pub open spec fn idx_key_bytes(
    store: Seq<u8>,
    index: Seq<u8>,
    value: Seq<u8>,
    key: Seq<u8>,
) -> Seq<u8> {
    idx_value_prefix_bytes(store, index, value) + key
}

/// The key of a document.
pub fn doc_key(store: &str, key: &[u8]) -> (r: Vec<u8>)
    ensures
        r@ == doc_key_bytes(store.spec_bytes(), key@),
{
    let mut buf = doc_prefix(store);
    append_bytes(&mut buf, key);
    buf
}

/// What the keys of a store's documents begin with.
pub fn doc_prefix(store: &str) -> (r: Vec<u8>)
    ensures
        r@ == doc_prefix_bytes(store.spec_bytes()),
{
    let mut buf: Vec<u8> = Vec::new();
    buf.push(DOC_PREFIX);
    append_bytes(&mut buf, store.as_bytes());
    buf.push(SEP);
    assert(buf@ =~= doc_prefix_bytes(store.spec_bytes()));
    buf
}

/// The key of an index entry.
pub fn idx_key(store: &str, index: &str, value: &[u8], key: &[u8]) -> (r: Vec<u8>)
    ensures
        r@ == idx_key_bytes(store.spec_bytes(), index.spec_bytes(), value@, key@),
{
    let mut buf = idx_value_prefix(store, index, value);
    append_bytes(&mut buf, key);
    buf
}

/// What the keys of an index begin with.
pub fn idx_prefix(store: &str, index: &str) -> (r: Vec<u8>)
    ensures
        r@ == idx_prefix_bytes(store.spec_bytes(), index.spec_bytes()),
{
    let mut buf: Vec<u8> = Vec::new();
    buf.push(IDX_PREFIX);
    append_bytes(&mut buf, store.as_bytes());
    buf.push(SEP);
    append_bytes(&mut buf, index.as_bytes());
    buf.push(SEP);
    assert(buf@ =~= idx_prefix_bytes(store.spec_bytes(), index.spec_bytes()));
    buf
}

/// What the keys of an index for an encoded value begin with.
pub fn idx_value_prefix(store: &str, index: &str, value: &[u8]) -> (r: Vec<u8>)
    ensures
        r@ == idx_value_prefix_bytes(store.spec_bytes(), index.spec_bytes(), value@),
{
    let mut buf = idx_prefix(store, index);
    append_bytes(&mut buf, value);
    buf.push(SEP);
    assert(buf@ =~= idx_value_prefix_bytes(store.spec_bytes(), index.spec_bytes(), value@));
    buf
}

/// The key of a store's schema.
pub fn schema_key(store: &str) -> (r: Vec<u8>)
    ensures
        r@ == seq![SCH_PREFIX] + store.spec_bytes(),
{
    let mut buf: Vec<u8> = Vec::new();
    buf.push(SCH_PREFIX);
    append_bytes(&mut buf, store.as_bytes());
    assert(buf@ =~= seq![SCH_PREFIX] + store.spec_bytes());
    buf
}

/// What the keys of schemas begin with.
pub fn schema_prefix() -> (r: [u8; 1])
    ensures
        r@ == seq![SCH_PREFIX],
{
    let r: [u8; 1] = [SCH_PREFIX];
    assert(r@ =~= seq![SCH_PREFIX]);
    r
}

/// The key of a store's counter.
pub fn counter_key(store: &str) -> (r: Vec<u8>)
    ensures
        r@ == seq![CTR_PREFIX] + store.spec_bytes(),
{
    let mut buf: Vec<u8> = Vec::new();
    buf.push(CTR_PREFIX);
    append_bytes(&mut buf, store.as_bytes());
    assert(buf@ =~= seq![CTR_PREFIX] + store.spec_bytes());
    buf
}

/// The range of the keys that begin with `prefix`.
pub fn prefix_range(prefix: &[u8]) -> (r: ScanRange)
    ensures
        record::bound_view(r.key_start) == Bound::Included(prefix@),
        record::bound_view(r.key_end) == Bound::Excluded(record::prefix_end(prefix@)),
        r.ts_start == Bound::<i64>::Unbounded,
        r.ts_end == Bound::<i64>::Unbounded,
        r.key_filter() == record::KeyFilterView::Prefix(prefix@),
        r.times() is None,
{
    let end = increment_prefix_bytes(prefix);
    ScanRange {
        key_start: Bound::Included(copy_bytes(prefix)),
        key_end: Bound::Excluded(end),
        ts_start: Bound::Unbounded,
        ts_end: Bound::Unbounded,
    }
}

pub const TAG_NULL: u8 = 1;

pub const TAG_FALSE: u8 = 2;

pub const TAG_TRUE: u8 = 3;

pub const TAG_NUMBER: u8 = 4;

pub const TAG_STRING: u8 = 7;

pub const TAG_OTHER: u8 = 8;

/// A number as an index holds it: its rank in nine bytes, the first of which tells
/// the kind as well.
pub open spec fn number_bytes(rank: nat) -> Seq<u8> {
    seq![(TAG_NUMBER + rank / 0x1_0000_0000_0000_0000) as u8] + bytes::be_bytes(
        rank % 0x1_0000_0000_0000_0000,
        8,
    )
}

/// A value as an index holds it.
pub open spec fn index_bytes(value: JsonValue) -> Seq<u8> {
    match value {
        JsonValue::Null => seq![TAG_NULL],
        JsonValue::Bool(false) => seq![TAG_FALSE],
        JsonValue::Bool(true) => seq![TAG_TRUE],
        JsonValue::Int(i) => number_bytes(numbers::rank_of_integer(i as int)),
        JsonValue::UInt(u) => number_bytes(numbers::rank_of_integer(u as int)),
        JsonValue::Float { bits, .. } => number_bytes(numbers::rank_of_float(bits)),
        JsonValue::Str(s) => seq![TAG_STRING] + text::utf8(s@),
        JsonValue::Array { .. } => seq![TAG_OTHER] + text::utf8(json::json_text(value)),
        JsonValue::Object { .. } => seq![TAG_OTHER] + text::utf8(json::json_text(value)),
    }
}

fn encode_number(rank: u128) -> (r: Vec<u8>)
    requires
        rank <= 2 * numbers::ZERO_RANK,
    ensures
        r@ == number_bytes(rank as nat),
{
    let mut buf: Vec<u8> = Vec::new();
    buf.push(TAG_NUMBER + (rank / 0x1_0000_0000_0000_0000u128) as u8);
    push_be(&mut buf, (rank % 0x1_0000_0000_0000_0000u128) as u64, 8);
    assert(buf@ =~= number_bytes(rank as nat));
    buf
}

fn text_bytes(tag: u8, s: &str) -> (r: Vec<u8>)
    ensures
        r@ == seq![tag] + s.spec_bytes(),
{
    let mut buf: Vec<u8> = Vec::new();
    buf.push(tag);
    append_bytes(&mut buf, s.as_bytes());
    assert(buf@ =~= seq![tag] + s.spec_bytes());
    buf
}

fn single(tag: u8) -> (r: Vec<u8>)
    ensures
        r@ == seq![tag],
{
    let mut buf: Vec<u8> = Vec::new();
    buf.push(tag);
    assert(buf@ =~= seq![tag]);
    buf
}

/// A value as an index holds it: bytes whose order is that of the values of one
/// kind, all numbers being of one, and of the kinds.
pub fn encode_index_value(value: &JsonValue) -> (r: Vec<u8>)
    ensures
        r@ == index_bytes(*value),
{
    match value {
        JsonValue::Null => single(TAG_NULL),
        JsonValue::Bool(b) => {
            if *b {
                single(TAG_TRUE)
            } else {
                single(TAG_FALSE)
            }
        },
        JsonValue::Int(i) => {
            let rank: u128 = if *i < 0 {
                integer_place(true, (-(*i as i128)) as u64)
            } else {
                integer_place(false, *i as u64)
            };
            encode_number(rank)
        },
        JsonValue::UInt(u) => encode_number(integer_place(false, *u)),
        JsonValue::Float { bits, .. } => encode_number(float_place(*bits)),
        JsonValue::Str(s) => text_bytes(TAG_STRING, s.as_str()),
        JsonValue::Array { .. } => {
            let json = write_json(value);
            text_bytes(TAG_OTHER, json.as_str())
        },
        JsonValue::Object { .. } => {
            let json = write_json(value);
            text_bytes(TAG_OTHER, json.as_str())
        },
    }
}

/// A primary key as bytes: text as it is, numbers and booleans as they are
/// written, null as a zero byte, and anything else as JSON behind a byte that no
/// text begins with.
pub open spec fn primary_key_bytes(value: JsonValue) -> Seq<u8> {
    match value {
        JsonValue::Str(s) => text::utf8(s@),
        JsonValue::Int(i) => text::utf8(text::signed_text(i as int)),
        JsonValue::UInt(u) => text::utf8(text::decimal_text(u as nat)),
        JsonValue::Float { text: json, .. } => text::utf8(json@),
        JsonValue::Bool(true) => text::utf8("true"@),
        JsonValue::Bool(false) => text::utf8("false"@),
        JsonValue::Null => seq![0u8],
        JsonValue::Array { .. } => seq![0xffu8] + text::utf8(json::json_text(value)),
        JsonValue::Object { .. } => seq![0xffu8] + text::utf8(json::json_text(value)),
    }
}

/// A primary key as bytes.
pub fn encode_primary_key(value: &JsonValue) -> (r: Vec<u8>)
    ensures
        r@ == primary_key_bytes(*value),
{
    match value {
        JsonValue::Str(s) => copy_bytes(s.as_str().as_bytes()),
        JsonValue::Int(i) => {
            let s = signed_decimal(*i);
            copy_bytes(s.as_str().as_bytes())
        },
        JsonValue::UInt(u) => {
            let s = decimal(*u);
            copy_bytes(s.as_str().as_bytes())
        },
        JsonValue::Float { text, .. } => copy_bytes(text.as_str().as_bytes()),
        JsonValue::Bool(b) => {
            if *b {
                copy_bytes("true".as_bytes())
            } else {
                copy_bytes("false".as_bytes())
            }
        },
        JsonValue::Null => single(0),
        JsonValue::Array { .. } => {
            let json = write_json(value);
            text_bytes(0xff, json.as_str())
        },
        JsonValue::Object { .. } => {
            let json = write_json(value);
            text_bytes(0xff, json.as_str())
        },
    }
}

/// The text split at dots, in UTF-8.
pub open spec fn path_segments(path: Seq<u8>) -> Seq<Seq<u8>>
    decreases path.len(),
{
    if path.len() == 0 {
        seq![Seq::empty()]
    } else {
        let front = path_segments(path.drop_last());
        if path.last() == DOT {
            front.push(Seq::empty())
        } else {
            front.drop_last().push(front.last().push(path.last()))
        }
    }
}

pub const DOT: u8 = 46;

pub const PLUS: u8 = 43;

pub const DIGIT_0: u8 = 48;

pub const DIGIT_9: u8 = 57;

/// The number that the decimal digits stand for, if they are such.
pub open spec fn digits_value(s: Seq<u8>) -> Option<nat>
    decreases s.len(),
{
    if s.len() == 0 {
        Some(0)
    } else {
        match digits_value(s.drop_last()) {
            Some(n) if DIGIT_0 <= s.last() <= DIGIT_9 => Some(n * 10 + (s.last() - DIGIT_0) as nat),
            _ => None,
        }
    }
}

/// The position that a segment of a path stands for: digits, with a plus sign
/// before them or without, up to the greatest `usize`.
pub open spec fn position(segment: Seq<u8>) -> Option<nat> {
    let digits = if segment.len() > 0 && segment[0] == PLUS {
        segment.drop_first()
    } else {
        segment
    };
    if digits.len() == 0 {
        None
    } else {
        match digits_value(digits) {
            Some(n) if n <= usize::MAX => Some(n),
            _ => None,
        }
    }
}

/// The value of the entry with the name, if there is one.
pub open spec fn entry_value(entries: Seq<(String, JsonValue)>, name: Seq<u8>) -> Option<JsonValue>
    decreases entries.len(),
{
    if entries.len() == 0 {
        None
    } else if text::utf8(entries[0].0@) == name {
        Some(entries[0].1)
    } else {
        entry_value(entries.drop_first(), name)
    }
}

/// The value that a segment of a path leads to: an entry of an object, or an item
/// of an array.
pub open spec fn step(value: JsonValue, segment: Seq<u8>) -> Option<JsonValue> {
    match value {
        JsonValue::Object { entries } => entry_value(entries@, segment),
        JsonValue::Array { items } => match position(segment) {
            Some(n) if n < items@.len() => Some(items@[n as int]),
            _ => None,
        },
        _ => None,
    }
}

/// The value that the segments lead to.
pub open spec fn steps(value: JsonValue, segments: Seq<Seq<u8>>) -> Option<JsonValue>
    decreases segments.len(),
{
    if segments.len() == 0 {
        Some(value)
    } else {
        match step(value, segments[0]) {
            Some(next) => steps(next, segments.drop_first()),
            None => None,
        }
    }
}

/// The field at a dotted path; the document itself at the empty path.
pub open spec fn field(doc: JsonValue, path: Seq<u8>) -> Option<JsonValue> {
    if path.len() == 0 {
        Some(doc)
    } else {
        steps(doc, path_segments(path))
    }
}

/// Values that are the same are held the same in an index.
pub proof fn lemma_same_bytes(a: JsonValue, b: JsonValue)
    requires
        same_value(a, b),
    ensures
        index_bytes(a) == index_bytes(b),
{
    json::lemma_same_text(a, b);
}

/// The same entries have the same value under a name.
proof fn lemma_same_entry(
    a: Seq<(String, JsonValue)>,
    b: Seq<(String, JsonValue)>,
    name: Seq<u8>,
)
    requires
        a.len() == b.len(),
        forall|i: int|
            0 <= i < a.len() ==> (#[trigger] a[i]).0@ == b[i].0@ && same_value(a[i].1, b[i].1),
    ensures
        same_option(entry_value(a, name), entry_value(b, name)),
    decreases a.len(),
{
    if a.len() > 0 {
        let x = a.drop_first();
        let y = b.drop_first();
        assert(a[0].0@ == b[0].0@);
        assert forall|i: int| 0 <= i < x.len() implies (#[trigger] x[i]).0@ == y[i].0@ && same_value(
            x[i].1,
            y[i].1,
        ) by {
            assert(x[i] == a[i + 1]);
        }
        lemma_same_entry(x, y, name);
    }
}

/// Whether two values that may be missing are the same.
pub open spec fn same_option(a: Option<JsonValue>, b: Option<JsonValue>) -> bool {
    match (a, b) {
        (Some(x), Some(y)) => same_value(x, y),
        (None, None) => true,
        _ => false,
    }
}

/// The same segments lead from values that are the same to values that are.
proof fn lemma_same_steps(a: JsonValue, b: JsonValue, segments: Seq<Seq<u8>>)
    requires
        same_value(a, b),
    ensures
        same_option(steps(a, segments), steps(b, segments)),
    decreases segments.len(),
{
    if segments.len() > 0 {
        match (a, b) {
            (JsonValue::Object { entries: x }, JsonValue::Object { entries: y }) => {
                lemma_same_entry(x@, y@, segments[0]);
            },
            _ => {},
        }
        assert(same_option(step(a, segments[0]), step(b, segments[0])));
        if step(a, segments[0]) is Some {
            lemma_same_steps(
                step(a, segments[0])->0,
                step(b, segments[0])->0,
                segments.drop_first(),
            );
        }
    }
}

/// Documents that are the same have the same fields.
pub proof fn lemma_same_field(a: JsonValue, b: JsonValue, path: Seq<u8>)
    requires
        same_value(a, b),
    ensures
        same_option(field(a, path), field(b, path)),
{
    if path.len() > 0 {
        lemma_same_steps(a, b, path_segments(path));
    }
}

/// Whether values are the same, one by one.
pub open spec fn same_values(a: Seq<JsonValue>, b: Seq<JsonValue>) -> bool {
    a.len() == b.len() && forall|i: int| 0 <= i < a.len() ==> same_value(#[trigger] a[i], b[i])
}

/// Values that are the same, one by one, are held the same in an index.
pub proof fn lemma_same_composite(a: Seq<JsonValue>, b: Seq<JsonValue>)
    requires
        same_values(a, b),
    ensures
        composite_bytes(a) == composite_bytes(b),
    decreases a.len(),
{
    if a.len() > 0 {
        lemma_same_bytes(a[0], b[0]);
        lemma_same_bytes(a[a.len() - 1], b[b.len() - 1]);
        if a.len() > 1 {
            let x = a.drop_last();
            let y = b.drop_last();
            assert forall|i: int| 0 <= i < x.len() implies same_value(#[trigger] x[i], y[i]) by {
                assert(x[i] == a[i]);
            }
            lemma_same_composite(x, y);
        }
    }
}

/// What an optional borrowed value is.
pub open spec fn opt_value(r: Option<&JsonValue>) -> Option<JsonValue> {
    match r {
        Some(v) => Some(*v),
        None => None,
    }
}

fn split_path(path: &[u8]) -> (r: Vec<Vec<u8>>)
    ensures
        segment_views(r@) == path_segments(path@),
{
    let mut out: Vec<Vec<u8>> = Vec::new();
    let mut current: Vec<u8> = Vec::new();
    let mut i: usize = 0;
    assert(segment_views(out@).push(current@) =~= path_segments(path@.take(0)));
    while i < path.len()
        invariant
            i <= path@.len(),
            segment_views(out@).push(current@) == path_segments(path@.take(i as int)),
        decreases path@.len() - i,
    {
        let b: u8 = path[i];
        let ghost done = segment_views(out@);
        let ghost part = current@;
        proof {
            assert(path@.take(i + 1).drop_last() =~= path@.take(i as int));
            assert(done.push(part).drop_last() =~= done);
        }
        if b == DOT {
            out.push(current);
            current = Vec::new();
            assert(segment_views(out@) =~= done.push(part));
        } else {
            current.push(b);
        }
        i += 1;
    }
    let ghost done = segment_views(out@);
    let ghost part = current@;
    out.push(current);
    assert(segment_views(out@) =~= done.push(part));
    assert(path@.take(i as int) =~= path@);
    out
}

/// What the segments hold.
pub open spec fn segment_views(s: Seq<Vec<u8>>) -> Seq<Seq<u8>> {
    Seq::new(s.len(), |i: int| s[i]@)
}

fn parse_position(segment: &[u8]) -> (r: Option<usize>)
    ensures
        match r {
            Some(n) => position(segment@) == Some(n as nat),
            None => position(segment@) is None,
        },
{
    let start: usize = if segment.len() > 0 && segment[0] == PLUS {
        1
    } else {
        0
    };
    let ghost digits = segment@.skip(start as int);
    assert(start == 1 ==> digits =~= segment@.drop_first());
    assert(start == 0 ==> digits =~= segment@);
    if start >= segment.len() {
        return None;
    }
    let mut n: usize = 0;
    let mut i: usize = start;
    assert(digits.take(0) =~= Seq::<u8>::empty());
    while i < segment.len()
        invariant
            start <= i <= segment@.len(),
            digits == segment@.skip(start as int),
            digits.len() > 0,
            position(segment@) == match digits_value(digits) {
                Some(v) if v <= usize::MAX => Some(v),
                _ => None::<nat>,
            },
            digits_value(digits.take(i - start)) == Some(n as nat),
        decreases segment@.len() - i,
    {
        let b: u8 = segment[i];
        let ghost k = i - start;
        proof {
            assert(digits[k] == b);
            assert(digits.take(k + 1).drop_last() =~= digits.take(k));
        }
        if b < DIGIT_0 || b > DIGIT_9 {
            proof {
                lemma_not_digits(digits, k + 1);
            }
            return None;
        }
        let d: usize = (b - DIGIT_0) as usize;
        if n > (usize::MAX - d) / 10 {
            proof {
                lemma_digits_grow(digits, k + 1);
            }
            return None;
        }
        n = n * 10 + d;
        i += 1;
    }
    assert(digits.take(i - start) =~= digits);
    Some(n)
}

/// Where a part of the text is not digits, the text is not.
proof fn lemma_not_digits(s: Seq<u8>, n: int)
    requires
        0 <= n <= s.len(),
        digits_value(s.take(n)) is None,
    ensures
        digits_value(s) is None,
    decreases s.len() - n,
{
    if n < s.len() {
        assert(s.take(n + 1).drop_last() =~= s.take(n));
        lemma_not_digits(s, n + 1);
    } else {
        assert(s.take(n) =~= s);
    }
}

/// More digits stand for no smaller number.
proof fn lemma_digits_grow(s: Seq<u8>, n: int)
    requires
        0 <= n <= s.len(),
        digits_value(s.take(n)) is Some,
    ensures
        digits_value(s) matches Some(v) ==> v >= digits_value(s.take(n))->0,
    decreases s.len() - n,
{
    if n < s.len() {
        assert(s.take(n + 1).drop_last() =~= s.take(n));
        if digits_value(s.take(n + 1)) is Some {
            lemma_digits_grow(s, n + 1);
        } else {
            lemma_not_digits(s, n + 1);
        }
    } else {
        assert(s.take(n) =~= s);
    }
}

fn find_entry<'a>(entries: &'a Vec<(String, JsonValue)>, name: &[u8]) -> (r: Option<&'a JsonValue>)
    ensures
        opt_value(r) == entry_value(entries@, name@),
{
    let mut i: usize = 0;
    assert(entries@.skip(0) =~= entries@);
    while i < entries.len()
        invariant
            i <= entries@.len(),
            entry_value(entries@, name@) == entry_value(entries@.skip(i as int), name@),
        decreases entries@.len() - i,
    {
        if bytes_eq(entries[i].0.as_str().as_bytes(), name) {
            return Some(&entries[i].1);
        }
        assert(entries@.skip(i as int).drop_first() =~= entries@.skip(i + 1));
        i += 1;
    }
    None
}

/// The field of a document at a dotted path, such as `user.name` or `tags.0`.
pub fn extract_field<'a>(doc: &'a JsonValue, path: &str) -> (r: Option<&'a JsonValue>)
    ensures
        opt_value(r) == field(*doc, path.spec_bytes()),
{
    let bytes = path.as_bytes();
    if bytes.len() == 0 {
        return Some(doc);
    }
    let segments = split_path(bytes);
    let ghost list = segment_views(segments@);
    let mut current: &'a JsonValue = doc;
    let mut i: usize = 0;
    assert(list.skip(0) =~= list);
    while i < segments.len()
        invariant
            i <= segments@.len(),
            list == segment_views(segments@),
            field(*doc, path.spec_bytes()) == steps(*current, list.skip(i as int)),
        decreases segments@.len() - i,
    {
        proof {
            assert(list.skip(i as int)[0] == segments@[i as int]@);
            assert(list.skip(i as int).drop_first() =~= list.skip(i + 1));
        }
        match current {
            JsonValue::Object { entries } => match find_entry(entries, &segments[i]) {
                Some(next) => {
                    current = next;
                },
                None => {
                    return None;
                },
            },
            JsonValue::Array { items } => match parse_position(&segments[i]) {
                Some(n) => {
                    if n >= items.len() {
                        return None;
                    }
                    current = &items[n];
                },
                None => {
                    return None;
                },
            },
            _ => {
                return None;
            },
        }
        i += 1;
    }
    Some(current)
}

/// Whether a byte may stand in a name.
pub open spec fn name_byte(b: u8) -> bool {
    ||| 48 <= b <= 57
    ||| 65 <= b <= 90
    ||| 97 <= b <= 122
    ||| b == 95
    ||| b == 45
}

/// Whether a name is one that a store or an index can have: 1 to 255 letters,
/// digits, underscores and dashes.
pub open spec fn valid_name(name: Seq<u8>) -> bool {
    &&& 0 < name.len() <= 255
    &&& forall|i: int| 0 <= i < name.len() ==> name_byte(#[trigger] name[i])
}

/// What is wrong with a name that is not valid.
pub open spec fn name_error(name: Seq<char>) -> Seq<char> {
    let bytes = text::utf8(name);
    if bytes.len() == 0 {
        "name cannot be empty"@
    } else if bytes.len() > 255 {
        "name too long (max 255 bytes)"@
    } else {
        "invalid name '"@ + name + "': only alphanumeric, underscore and dash are allowed"@
    }
}

/// Checks the name of a store or an index.
pub fn validate_name(name: &str) -> (r: Result<(), FlowError>)
    ensures
        valid_name(name.spec_bytes()) ==> r is Ok,
        !valid_name(name.spec_bytes()) ==> (r matches Err(FlowError::JsonDb(msg)) && msg@
            == name_error(name@)),
{
    let bytes = name.as_bytes();
    if bytes.len() == 0 {
        return Err(FlowError::JsonDb("name cannot be empty".to_owned()));
    }
    if bytes.len() > 255 {
        return Err(FlowError::JsonDb("name too long (max 255 bytes)".to_owned()));
    }
    let mut i: usize = 0;
    while i < bytes.len()
        invariant
            i <= bytes@.len(),
            bytes@ == name.spec_bytes(),
            0 < bytes@.len() <= 255,
            forall|k: int| 0 <= k < i ==> name_byte(#[trigger] bytes@[k]),
        decreases bytes@.len() - i,
    {
        let b: u8 = bytes[i];
        let ok: bool = (48 <= b && b <= 57) || (65 <= b && b <= 90) || (97 <= b && b <= 122) || b
            == 95 || b == 45;
        if !ok {
            assert(!name_byte(bytes@[i as int]));
            let front = join("invalid name '", name);
            return Err(
                FlowError::JsonDb(
                    join(
                        front.as_str(),
                        "': only alphanumeric, underscore and dash are allowed",
                    ),
                ),
            );
        }
        i += 1;
    }
    Ok(())
}

/// The values of an index entry, one after another.
pub open spec fn composite_bytes(values: Seq<JsonValue>) -> Seq<u8>
    decreases values.len(),
{
    if values.len() == 0 {
        Seq::empty()
    } else if values.len() == 1 {
        index_bytes(values[0])
    } else {
        composite_bytes(values.drop_last()).push(SEP) + index_bytes(values.last())
    }
}

/// What the borrowed values are.
pub open spec fn values_of(refs: Seq<&JsonValue>) -> Seq<JsonValue> {
    Seq::new(refs.len(), |i: int| *refs[i])
}

/// The values of an index entry as the index holds them.
pub fn encode_composite_value(values: &Vec<&JsonValue>) -> (r: Vec<u8>)
    ensures
        r@ == composite_bytes(values_of(values@)),
{
    let ghost list = values_of(values@);
    let mut buf: Vec<u8> = Vec::new();
    let mut i: usize = 0;
    assert(buf@ =~= composite_bytes(list.take(0)));
    while i < values.len()
        invariant
            i <= values@.len(),
            list == values_of(values@),
            buf@ == composite_bytes(list.take(i as int)),
        decreases values@.len() - i,
    {
        assert(list.take(i + 1).drop_last() =~= list.take(i as int));
        if i > 0 {
            buf.push(SEP);
        }
        let encoded = encode_index_value(values[i]);
        append_bytes(&mut buf, &encoded);
        assert(buf@ =~= composite_bytes(list.take(i + 1)));
        i += 1;
    }
    assert(list.take(i as int) =~= list);
    buf
}

/// The place of a value's kind: null, false, true, numbers, text, and the rest.
pub open spec fn kind(value: JsonValue) -> int {
    match value {
        JsonValue::Null => 1,
        JsonValue::Bool(false) => 2,
        JsonValue::Bool(true) => 3,
        JsonValue::Int(_) => 4,
        JsonValue::UInt(_) => 4,
        JsonValue::Float { .. } => 4,
        JsonValue::Str(_) => 5,
        JsonValue::Array { .. } => 6,
        JsonValue::Object { .. } => 6,
    }
}

/// The first byte of a value in an index tells its kind.
proof fn lemma_kind_byte(value: JsonValue)
    ensures
        index_bytes(value).len() > 0,
        kind(value) == 1 ==> index_bytes(value)[0] == TAG_NULL,
        kind(value) == 2 ==> index_bytes(value)[0] == TAG_FALSE,
        kind(value) == 3 ==> index_bytes(value)[0] == TAG_TRUE,
        kind(value) == 4 ==> TAG_NUMBER <= index_bytes(value)[0] < TAG_STRING,
        kind(value) == 5 ==> index_bytes(value)[0] == TAG_STRING,
        kind(value) == 6 ==> index_bytes(value)[0] == TAG_OTHER,
{
    match value {
        JsonValue::Int(i) => {
            numbers::lemma_ranks_fit(i as int, 0);
        },
        JsonValue::UInt(u) => {
            numbers::lemma_ranks_fit(u as int, 0);
        },
        JsonValue::Float { bits, .. } => {
            numbers::lemma_ranks_fit(0, bits);
        },
        _ => {},
    }
}

/// In an index, values of different kinds stand in the order null, false, true,
/// numbers, text, the rest.
pub proof fn law_kind_order(a: JsonValue, b: JsonValue)
    requires
        kind(a) < kind(b),
    ensures
        bytes::lex_lt(index_bytes(a), index_bytes(b)),
{
    lemma_kind_byte(a);
    lemma_kind_byte(b);
}

/// The value of a number, times 2^1074, which makes an integer of every
/// double-precision number.
pub open spec fn number(value: JsonValue) -> Option<int> {
    match value {
        JsonValue::Int(i) => Some(numbers::integer_value(i as int)),
        JsonValue::UInt(u) => Some(numbers::integer_value(u as int)),
        JsonValue::Float { bits, .. } => Some(numbers::float_value(bits)),
        _ => None,
    }
}

/// Numbers stand in the order of their ranks.
proof fn lemma_number_bytes(x: nat, y: nat)
    requires
        x < y <= 2 * numbers::ZERO_RANK,
    ensures
        bytes::lex_lt(number_bytes(x), number_bytes(y)),
{
    let n = 0x1_0000_0000_0000_0000nat;
    bytes::lemma_pow256_values();
    if x / n == y / n {
        let tag = seq![(TAG_NUMBER + x / n) as u8];
        bytes::lemma_be_order(x % n, y % n, 8);
        bytes::lemma_lex_same_start(tag, bytes::be_bytes(x % n, 8), bytes::be_bytes(y % n, 8));
    } else {
        assert(x / n < y / n <= 2);
        assert(number_bytes(x)[0] < number_bytes(y)[0]);
    }
}

/// In an index, numbers stand in their numeric order, be they integers or
/// double-precision numbers.
pub proof fn law_number_order(a: JsonValue, b: JsonValue)
    requires
        number(a) is Some,
        number(b) is Some,
        number(a)->0 < number(b)->0,
    ensures
        bytes::lex_lt(index_bytes(a), index_bytes(b)),
{
    match (integer(a), integer(b)) {
        (Some(m), Some(n)) => {
            numbers::lemma_integers(m, n);
            numbers::lemma_ranks_fit(n, 0);
            lemma_number_bytes(numbers::rank_of_integer(m), numbers::rank_of_integer(n));
        },
        (Some(m), None) => {
            numbers::lemma_mixed(m, b->bits);
            numbers::lemma_ranks_fit(m, b->bits);
            lemma_number_bytes(numbers::rank_of_integer(m), numbers::rank_of_float(b->bits));
        },
        (None, Some(n)) => {
            numbers::lemma_mixed(n, a->bits);
            numbers::lemma_ranks_fit(n, a->bits);
            lemma_number_bytes(numbers::rank_of_float(a->bits), numbers::rank_of_integer(n));
        },
        (None, None) => {
            numbers::lemma_floats(a->bits, b->bits);
            numbers::lemma_ranks_fit(0, b->bits);
            lemma_number_bytes(numbers::rank_of_float(a->bits), numbers::rank_of_float(b->bits));
        },
    }
}

/// The integer that a value is.
pub open spec fn integer(value: JsonValue) -> Option<int> {
    match value {
        JsonValue::Int(i) => Some(i as int),
        JsonValue::UInt(u) => Some(u as int),
        _ => None,
    }
}

/// In an index, integers stand in their numeric order.
pub proof fn law_integer_order(a: JsonValue, b: JsonValue)
    requires
        integer(a) is Some,
        integer(b) is Some,
        integer(a)->0 < integer(b)->0,
    ensures
        bytes::lex_lt(index_bytes(a), index_bytes(b)),
{
    let m = integer(a)->0;
    let n = integer(b)->0;
    let p = vstd::arithmetic::power2::pow2(1074) as int;
    vstd::arithmetic::power2::lemma_pow2_pos(1074);
    assert(m * p < n * p) by (nonlinear_arith)
        requires
            m < n,
            p > 0,
    ;
    law_number_order(a, b);
}

/// In an index, text stands in the order of its bytes.
pub proof fn law_text_order(a: String, b: String)
    ensures
        bytes::lex_lt(index_bytes(JsonValue::Str(a)), index_bytes(JsonValue::Str(b)))
            == bytes::lex_lt(text::utf8(a@), text::utf8(b@)),
{
    bytes::lemma_lex_same_start(seq![TAG_STRING], text::utf8(a@), text::utf8(b@));
}

/// `a` comes before `b`: by their kinds, and among numbers by their values, and among
/// text by its bytes.
pub open spec fn comes_before(a: JsonValue, b: JsonValue) -> bool {
    ||| kind(a) < kind(b)
    ||| number(a) matches Some(x) && number(b) matches Some(y) && x < y
    ||| a matches JsonValue::Str(x) && b matches JsonValue::Str(y) && bytes::lex_lt(
        text::utf8(x@),
        text::utf8(y@),
    )
}

/// In an index, values stand in their order: null, false, true, numbers in their
/// numeric order, text in the order of its bytes, the rest.
pub proof fn law_index_order(a: JsonValue, b: JsonValue)
    requires
        comes_before(a, b),
    ensures
        bytes::lex_lt(index_bytes(a), index_bytes(b)),
{
    if kind(a) < kind(b) {
        law_kind_order(a, b);
    } else if number(a) is Some && number(b) is Some && number(a)->0 < number(b)->0 {
        law_number_order(a, b);
    } else {
        match (a, b) {
            (JsonValue::Str(x), JsonValue::Str(y)) => {
                law_text_order(x, y);
            },
            _ => {},
        }
    }
}

/// Index entries of several values stand in the order of the first values that
/// differ. Where one such value's bytes begin those of the other, a zero byte
/// must not follow there.
pub proof fn law_composite_order(a: Seq<JsonValue>, b: Seq<JsonValue>, k: int)
    requires
        a.len() == b.len(),
        0 <= k < a.len(),
        forall|i: int| 0 <= i < k ==> index_bytes(#[trigger] a[i]) == index_bytes(b[i]),
        bytes::lex_lt(index_bytes(a[k]), index_bytes(b[k])),
        bytes::has_prefix(index_bytes(b[k]), index_bytes(a[k])) ==> index_bytes(
            b[k],
        )[index_bytes(a[k]).len() as int] > 0,
    ensures
        bytes::lex_lt(composite_bytes(a), composite_bytes(b)),
    decreases a.len(),
{
    if k == a.len() - 1 {
        let x = a.drop_last();
        let y = b.drop_last();
        lemma_composite_same(x, y);
        if a.len() > 1 {
            let start = composite_bytes(x).push(SEP);
            bytes::lemma_lex_same_start(start, index_bytes(a[k]), index_bytes(b[k]));
        }
    } else {
        let x = a.drop_last();
        let y = b.drop_last();
        assert forall|i: int| 0 <= i < k implies index_bytes(#[trigger] x[i]) == index_bytes(y[i]) by {
            assert(index_bytes(a[i]) == index_bytes(b[i]));
        }
        law_composite_order(x, y, k);
        lemma_composite_strict(x, y, k);
        lemma_less_followed(
            composite_bytes(x),
            composite_bytes(y),
            index_bytes(a.last()),
            index_bytes(b.last()),
        );
    }
}

/// Where the second string goes on after the first, it does so with a byte that
/// is not zero.
spec fn splits_clearly(a: Seq<u8>, b: Seq<u8>) -> bool {
    bytes::has_prefix(b, a) ==> a.len() < b.len() && b[a.len() as int] > 0
}

/// A string that comes before another stays so when a zero byte and more are
/// appended to both.
proof fn lemma_less_followed(a: Seq<u8>, b: Seq<u8>, x: Seq<u8>, y: Seq<u8>)
    requires
        bytes::lex_lt(a, b),
        splits_clearly(a, b),
    ensures
        bytes::lex_lt(a.push(SEP) + x, b.push(SEP) + y),
    decreases a.len(),
{
    let p = a.push(SEP) + x;
    let q = b.push(SEP) + y;
    if a.len() == 0 {
        assert(b.subrange(0, 0) =~= a);
        assert(p[0] == 0);
        assert(q[0] == b[0]);
    } else if a[0] == b[0] {
        let ar = a.drop_first();
        let br = b.drop_first();
        assert(splits_clearly(ar, br)) by {
            if bytes::has_prefix(br, ar) {
                assert(b.subrange(0, a.len() as int) =~= a) by {
                    assert forall|i: int| 0 <= i < a.len() implies b[i] == a[i] by {
                        if i > 0 {
                            assert(br.subrange(0, ar.len() as int)[i - 1] == ar[i - 1]);
                        }
                    }
                }
            }
        }
        lemma_less_followed(ar, br, x, y);
        assert(p.drop_first() =~= ar.push(SEP) + x);
        assert(q.drop_first() =~= br.push(SEP) + y);
    } else {
        assert(p[0] == a[0] && q[0] == b[0]);
    }
}

proof fn lemma_composite_same(a: Seq<JsonValue>, b: Seq<JsonValue>)
    requires
        a.len() == b.len(),
        forall|i: int| 0 <= i < a.len() ==> index_bytes(#[trigger] a[i]) == index_bytes(b[i]),
    ensures
        composite_bytes(a) == composite_bytes(b),
    decreases a.len(),
{
    if a.len() > 0 {
        let x = a.drop_last();
        let y = b.drop_last();
        assert forall|i: int| 0 <= i < x.len() implies index_bytes(#[trigger] x[i]) == index_bytes(y[i]) by {
            assert(index_bytes(a[i]) == index_bytes(b[i]));
        }
        lemma_composite_same(x, y);
        assert(index_bytes(a[a.len() - 1]) == index_bytes(b[a.len() - 1]));
    }
}

/// The bytes of values that differ first at `k` part there.
proof fn lemma_composite_strict(a: Seq<JsonValue>, b: Seq<JsonValue>, k: int)
    requires
        a.len() == b.len(),
        0 <= k < a.len(),
        forall|i: int| 0 <= i < k ==> index_bytes(#[trigger] a[i]) == index_bytes(b[i]),
        bytes::lex_lt(index_bytes(a[k]), index_bytes(b[k])),
        bytes::has_prefix(index_bytes(b[k]), index_bytes(a[k])) ==> index_bytes(
            b[k],
        )[index_bytes(a[k]).len() as int] > 0,
    ensures
        splits_clearly(composite_bytes(a), composite_bytes(b)),
    decreases a.len(),
{
    let x = a.drop_last();
    let y = b.drop_last();
    let ea = index_bytes(a.last());
    let eb = index_bytes(b.last());
    let ca = composite_bytes(a);
    let cb = composite_bytes(b);
    if k == a.len() - 1 {
        lemma_composite_same(x, y);
        bytes::lemma_lex_irreflexive(ea);
        if a.len() > 1 {
            let start = composite_bytes(x).push(SEP);
            let n = start.len() as int;
            if bytes::has_prefix(cb, ca) {
                assert(cb.subrange(0, ca.len() as int) == ca);
                assert(eb.subrange(0, ea.len() as int) =~= ea) by {
                    assert forall|i: int| 0 <= i < ea.len() implies eb[i] == ea[i] by {
                        assert(cb.subrange(0, ca.len() as int)[n + i] == ca[n + i]);
                    }
                }
                assert(bytes::has_prefix(eb, ea));
                lemma_longer(ea, eb);
            }
        } else if bytes::has_prefix(cb, ca) {
            lemma_longer(ea, eb);
        }
    } else {
        assert forall|i: int| 0 <= i < k implies index_bytes(#[trigger] x[i]) == index_bytes(y[i]) by {
            assert(index_bytes(a[i]) == index_bytes(b[i]));
        }
        lemma_composite_strict(x, y, k);
        law_composite_order(x, y, k);
        let cx = composite_bytes(x);
        let cy = composite_bytes(y);
        if bytes::has_prefix(cb, ca) {
            assert(cb.subrange(0, ca.len() as int) == ca);
            lemma_not_both(cx, cy, ea, eb);
        }
    }
}

/// A string that another begins with, and that comes before it, is shorter.
proof fn lemma_longer(a: Seq<u8>, b: Seq<u8>)
    requires
        bytes::lex_lt(a, b),
        bytes::has_prefix(b, a),
    ensures
        a.len() < b.len(),
{
    if a.len() == b.len() {
        assert(b.subrange(0, a.len() as int) =~= b);
        bytes::lemma_lex_irreflexive(a);
    }
}

/// A string that comes clearly before another, with a zero byte and more appended,
/// is no beginning of the other with the same.
proof fn lemma_not_both(a: Seq<u8>, b: Seq<u8>, x: Seq<u8>, y: Seq<u8>)
    requires
        bytes::lex_lt(a, b),
        splits_clearly(a, b),
    ensures
        !bytes::has_prefix(b.push(SEP) + y, a.push(SEP) + x),
{
    let p = a.push(SEP) + x;
    let q = b.push(SEP) + y;
    if bytes::has_prefix(q, p) {
        let s = q.subrange(0, p.len() as int);
        let n = a.len() as int;
        if n < b.len() {
            assert(b.subrange(0, n) =~= a) by {
                assert forall|i: int| 0 <= i < n implies b[i] == a[i] by {
                    assert(s[i] == p[i]);
                }
            }
            assert(s[n] == p[n]);
        } else {
            let d = lemma_lex_first_difference(a, b);
            assert(s[d] == p[d]);
        }
    }
}

/// Where one string comes before another, they differ somewhere, or the other goes
/// on after it.
proof fn lemma_lex_first_difference(a: Seq<u8>, b: Seq<u8>) -> (d: int)
    requires
        bytes::lex_lt(a, b),
    ensures
        0 <= d < b.len(),
        d <= a.len(),
        d < a.len() ==> a[d] != b[d],
    decreases a.len(),
{
    if a.len() == 0 || a[0] != b[0] {
        0
    } else {
        lemma_lex_first_difference(a.drop_first(), b.drop_first()) + 1
    }
}

/// Names hold no zero byte.
proof fn lemma_name_has_no_sep(name: Seq<u8>, i: int)
    requires
        valid_name(name),
        0 <= i < name.len(),
    ensures
        name[i] != SEP,
{
    assert(name_byte(name[i]));
}

/// Parts of keys with names are told apart: where two such parts and what follows
/// them are the same, the names are.
proof fn lemma_parts(a: Seq<u8>, x: Seq<u8>, b: Seq<u8>, y: Seq<u8>)
    requires
        valid_name(a),
        valid_name(b),
        part(a) + x == part(b) + y,
    ensures
        a == b,
        x == y,
{
    let p = part(a) + x;
    if a.len() < b.len() {
        assert(p[a.len() as int] == SEP);
        assert((part(b) + y)[a.len() as int] == b[a.len() as int]);
        lemma_name_has_no_sep(b, a.len() as int);
    } else if b.len() < a.len() {
        assert((part(b) + y)[b.len() as int] == SEP);
        assert(p[b.len() as int] == a[b.len() as int]);
        lemma_name_has_no_sep(a, b.len() as int);
    } else {
        assert forall|i: int| 0 <= i < a.len() implies a[i] == b[i] by {
            assert(p[i] == a[i] && (part(b) + y)[i] == b[i]);
        }
        assert(a =~= b);
        assert(x =~= p.skip(a.len() as int + 1));
        assert(y =~= (part(b) + y).skip(b.len() as int + 1));
    }
}

/// The keys of documents are told apart: by the store, and in a store by the
/// primary key.
pub proof fn law_doc_keys_distinct(
    store: Seq<u8>,
    key: Seq<u8>,
    other_store: Seq<u8>,
    other_key: Seq<u8>,
)
    requires
        valid_name(store),
        valid_name(other_store),
        doc_key_bytes(store, key) == doc_key_bytes(other_store, other_key),
    ensures
        store == other_store,
        key == other_key,
{
    let a = doc_key_bytes(store, key);
    let b = doc_key_bytes(other_store, other_key);
    assert(a.drop_first() =~= part(store) + key);
    assert(b.drop_first() =~= part(other_store) + other_key);
    lemma_parts(store, key, other_store, other_key);
}

/// A scan of a store's documents finds the documents of that store and no other
/// key: not those of another store, and no index entry, schema or counter.
pub proof fn law_doc_prefix(store: Seq<u8>, other_store: Seq<u8>, key: Seq<u8>)
    requires
        valid_name(store),
        valid_name(other_store),
    ensures
        bytes::has_prefix(doc_key_bytes(other_store, key), doc_prefix_bytes(store)) <==> store
            == other_store,
        forall|k: Seq<u8>|
            k.len() > 0 && k[0] != DOC_PREFIX ==> !#[trigger] bytes::has_prefix(
                k,
                doc_prefix_bytes(store),
            ),
{
    let p = doc_prefix_bytes(store);
    let k = doc_key_bytes(other_store, key);
    if store == other_store {
        assert(k.subrange(0, p.len() as int) =~= p);
    }
    if bytes::has_prefix(k, p) {
        let n = p.len() as int;
        assert(k =~= k.subrange(0, n) + k.skip(n));
        assert(k.drop_first() =~= part(store) + k.skip(n));
        assert(k.drop_first() =~= part(other_store) + key);
        lemma_parts(store, k.skip(n), other_store, key);
    }
    assert forall|other: Seq<u8>| other.len() > 0 && other[0] != DOC_PREFIX implies !#[trigger] bytes::has_prefix(
        other,
        p,
    ) by {
        if bytes::has_prefix(other, p) {
            assert(other.subrange(0, p.len() as int)[0] == p[0]);
        }
    }
}

/// A scan for an encoded value in an index finds the entries with that value, and of
/// the other entries of the index only those whose encoded value and the zero byte
/// behind it begin this value, or begin with this value and a zero byte.
pub proof fn law_index_value_prefix(
    store: Seq<u8>,
    index: Seq<u8>,
    value: Seq<u8>,
    other: Seq<u8>,
    key: Seq<u8>,
)
    ensures
        bytes::has_prefix(
            idx_key_bytes(store, index, value, key),
            idx_value_prefix_bytes(store, index, value),
        ),
        bytes::has_prefix(
            idx_key_bytes(store, index, other, key),
            idx_value_prefix_bytes(store, index, value),
        ) ==> value == other || bytes::has_prefix(other, part(value)) || bytes::has_prefix(
            value,
            part(other),
        ),
        value.len() == other.len() && bytes::has_prefix(
            idx_key_bytes(store, index, other, key),
            idx_value_prefix_bytes(store, index, value),
        ) ==> value == other,
{
    let p = idx_value_prefix_bytes(store, index, value);
    let k = idx_key_bytes(store, index, value, key);
    assert(k.subrange(0, p.len() as int) =~= p);
    let j = idx_key_bytes(store, index, other, key);
    if bytes::has_prefix(j, p) {
        let n = idx_prefix_bytes(store, index).len() as int;
        assert forall|i: int| 0 <= i < part(value).len() && i < part(other).len() implies part(
            value,
        )[i] == part(other)[i] by {
            assert(j.subrange(0, p.len() as int)[n + i] == p[n + i]);
            assert(p[n + i] == part(value)[i]);
            assert(j[n + i] == part(other)[i]);
        }
        if value.len() == other.len() {
            assert forall|i: int| 0 <= i < value.len() implies value[i] == other[i] by {
                assert(part(value)[i] == part(other)[i]);
            }
            assert(value =~= other);
        } else if value.len() < other.len() {
            let m = part(value).len() as int;
            assert forall|i: int| 0 <= i < m implies other.subrange(0, m)[i] == part(value)[i] by {
                assert(part(value)[i] == part(other)[i]);
            }
            assert(other.subrange(0, m) =~= part(value));
        } else {
            let m = part(other).len() as int;
            assert forall|i: int| 0 <= i < m implies value.subrange(0, m)[i] == part(other)[i] by {
                assert(part(value)[i] == part(other)[i]);
            }
            assert(value.subrange(0, m) =~= part(other));
        }
    }
}

/// A path without a dot is one segment, and a dot between paths parts their segments.
proof fn lemma_segments_joined(a: Seq<u8>, b: Seq<u8>)
    ensures
        path_segments(a.push(DOT) + b) == path_segments(a) + path_segments(b),
        path_segments(b).len() > 0,
    decreases b.len(),
{
    let all = a.push(DOT) + b;
    if b.len() == 0 {
        assert(all =~= a.push(DOT));
        assert(all.drop_last() =~= a);
        assert(path_segments(all) =~= path_segments(a) + path_segments(b));
    } else {
        let front = b.drop_last();
        lemma_segments_joined(a, front);
        assert(all.drop_last() =~= a.push(DOT) + front);
        assert(all.last() == b.last());
        let x = path_segments(a);
        let y = path_segments(front);
        assert((x + y).drop_last() =~= x + y.drop_last());
        assert((x + y).last() == y.last());
        assert(path_segments(all) =~= x + path_segments(b));
    }
}

proof fn lemma_one_segment(path: Seq<u8>)
    requires
        !path.contains(DOT),
    ensures
        path_segments(path) == seq![path],
    decreases path.len(),
{
    if path.len() == 0 {
        assert(path =~= Seq::<u8>::empty());
    } else {
        let front = path.drop_last();
        assert(!front.contains(DOT)) by {
            if front.contains(DOT) {
                let i = choose|i: int| 0 <= i < front.len() && front[i] == DOT;
                assert(path[i] == DOT);
            }
        }
        assert(path[path.len() - 1] == path.last());
        lemma_one_segment(front);
        assert(front.push(path.last()) =~= path);
        assert(path_segments(path) =~= seq![path]);
    }
}

proof fn lemma_steps_joined(value: JsonValue, a: Seq<Seq<u8>>, b: Seq<Seq<u8>>)
    ensures
        steps(value, a + b) == match steps(value, a) {
            Some(next) => steps(next, b),
            None => None,
        },
    decreases a.len(),
{
    if a.len() == 0 {
        assert(a + b =~= b);
    } else {
        assert((a + b).drop_first() =~= a.drop_first() + b);
        if let Some(next) = step(value, a[0]) {
            lemma_steps_joined(next, a.drop_first(), b);
        }
    }
}

/// A dotted path is followed step by step: the field at two paths with a dot between
/// them is the field at the second of the field at the first.
pub proof fn law_field_of_field(doc: JsonValue, a: Seq<u8>, b: Seq<u8>)
    requires
        a.len() > 0,
        b.len() > 0,
    ensures
        field(doc, a.push(DOT) + b) == match field(doc, a) {
            Some(inner) => field(inner, b),
            None => None,
        },
{
    lemma_segments_joined(a, b);
    lemma_steps_joined(doc, path_segments(a), path_segments(b));
}

/// The field of an object at a name without a dot is the value of the entry with that
/// name, where there is one, and none where there is none.
pub proof fn law_field_of_object(entries: Vec<(String, JsonValue)>, name: Seq<u8>, k: int)
    requires
        name.len() > 0,
        !name.contains(DOT),
        forall|i: int, j: int|
            0 <= i < j < entries@.len() ==> (#[trigger] entries@[i]).0@ != (
            #[trigger] entries@[j]).0@,
    ensures
        0 <= k < entries@.len() && text::utf8(entries@[k].0@) == name ==> field(
            JsonValue::Object { entries },
            name,
        ) == Some(entries@[k].1),
        (forall|i: int| 0 <= i < entries@.len() ==> text::utf8((#[trigger] entries@[i]).0@) != name)
            ==> field(JsonValue::Object { entries }, name) is None,
{
    lemma_one_segment(name);
    let doc = JsonValue::Object { entries };
    let segments = path_segments(name);
    assert(segments.drop_first() =~= Seq::<Seq<u8>>::empty());
    assert(segments[0] == name);
    lemma_entry_found(entries@, name, k);
    if let Some(next) = step(doc, name) {
        assert(steps(next, segments.drop_first()) == Some(next));
    }
}

proof fn lemma_entry_found(entries: Seq<(String, JsonValue)>, name: Seq<u8>, k: int)
    requires
        forall|i: int, j: int|
            0 <= i < j < entries.len() ==> (#[trigger] entries[i]).0@ != (#[trigger] entries[j]).0@,
    ensures
        0 <= k < entries.len() && text::utf8(entries[k].0@) == name ==> entry_value(entries, name)
            == Some(entries[k].1),
        (forall|i: int| 0 <= i < entries.len() ==> text::utf8((#[trigger] entries[i]).0@) != name)
            ==> entry_value(entries, name) is None,
    decreases entries.len(),
{
    if entries.len() > 0 {
        let rest = entries.drop_first();
        assert forall|i: int, j: int| 0 <= i < j < rest.len() implies (#[trigger] rest[i]).0@ != (
        #[trigger] rest[j]).0@ by {
            assert(rest[i] == entries[i + 1] && rest[j] == entries[j + 1]);
        }
        lemma_entry_found(rest, name, k - 1);
        if 0 < k < entries.len() && text::utf8(entries[k].0@) == name {
            assert(rest[k - 1] == entries[k]);
            assert(entries[0].0@ != entries[k].0@);
            vstd::utf8::encode_utf8_decode_utf8(entries[0].0@);
            vstd::utf8::encode_utf8_decode_utf8(entries[k].0@);
        }
        if forall|i: int| 0 <= i < entries.len() ==> text::utf8((#[trigger] entries[i]).0@) != name {
            assert(text::utf8(entries[0].0@) != name);
            assert forall|i: int| 0 <= i < rest.len() implies text::utf8((#[trigger] rest[i]).0@)
                != name by {
                assert(rest[i] == entries[i + 1]);
            }
        }
    }
}

/// The field of an array at a position is the item there; what is neither an object nor
/// an array has no fields.
pub proof fn law_field_of_array(items: Vec<JsonValue>, segment: Seq<u8>, n: nat)
    requires
        segment.len() > 0,
        !segment.contains(DOT),
        position(segment) == Some(n),
    ensures
        n < items@.len() ==> field(JsonValue::Array { items }, segment) == Some(items@[n as int]),
        n >= items@.len() ==> field(JsonValue::Array { items }, segment) is None,
{
    lemma_one_segment(segment);
    let segments = path_segments(segment);
    assert(segments.drop_first() =~= Seq::<Seq<u8>>::empty());
    assert(segments[0] == segment);
    if n < items@.len() {
        assert(steps(items@[n as int], segments.drop_first()) == Some(items@[n as int]));
    }
}

/// A position is read as a decimal number: a digit behind it makes it ten times as much
/// and the digit, and a plus sign before it changes nothing.
pub proof fn law_position_digits(s: Seq<u8>, d: u8)
    requires
        s.len() > 0,
        DIGIT_0 <= d <= DIGIT_9,
        s[0] != PLUS,
    ensures
        position(seq![d]) == Some((d - 48) as nat),
        position(s) matches Some(n) ==> n * 10 + (d - 48) <= usize::MAX ==> position(s.push(d))
            == Some((n * 10 + (d - 48)) as nat),
        position(seq![PLUS] + s) == position(s),
{
    assert(s.push(d).drop_last() =~= s);
    assert(seq![d].drop_last() =~= Seq::<u8>::empty());
    assert(digits_value(seq![d].drop_last()) == Some(0nat));
    assert(seq![d].last() == d && seq![d][0] == d);
    assert(digits_value(seq![d]) == Some((d - 48) as nat));
    assert((seq![PLUS] + s).drop_first() =~= s);
}

/// Primary keys that are texts are told apart, and so are a text and the text of another
/// number.
pub proof fn law_primary_keys_apart(a: String, b: String)
    ensures
        primary_key_bytes(JsonValue::Str(a)) == primary_key_bytes(JsonValue::Str(b)) ==> a@ == b@,
        forall|m: i64, n: i64| #[trigger]
            primary_key_bytes(JsonValue::Int(m)) == #[trigger] primary_key_bytes(JsonValue::Int(n))
                ==> m == n,
        forall|m: i64| #[trigger]
            primary_key_bytes(JsonValue::Int(m)) == text::utf8(text::signed_text(m as int)),
        forall|m: i64, n: u64| m == n ==> #[trigger] primary_key_bytes(JsonValue::Int(m))
            == #[trigger] primary_key_bytes(JsonValue::UInt(n)),
{
    vstd::utf8::encode_utf8_decode_utf8(a@);
    vstd::utf8::encode_utf8_decode_utf8(b@);
    assert forall|m: i64, n: i64| #[trigger]
        primary_key_bytes(JsonValue::Int(m)) == #[trigger] primary_key_bytes(
            JsonValue::Int(n),
        ) implies m == n by {
        vstd::utf8::encode_utf8_decode_utf8(text::signed_text(m as int));
        vstd::utf8::encode_utf8_decode_utf8(text::signed_text(n as int));
        written::law_integer_text_told(m as int, n as int);
    }
}

/// Documents, index entries, schemas and counters have keys of their own, whatever their
/// names are, and a valid name holds no byte that ends a part of a key.
pub proof fn law_key_kinds_apart(
    store: Seq<u8>,
    key: Seq<u8>,
    other: Seq<u8>,
    index: Seq<u8>,
    value: Seq<u8>,
    name: Seq<u8>,
)
    ensures
        doc_key_bytes(store, key) != idx_key_bytes(other, index, value, key),
        doc_key_bytes(store, key) != seq![SCH_PREFIX] + other,
        doc_key_bytes(store, key) != seq![CTR_PREFIX] + other,
        idx_key_bytes(store, index, value, key) != seq![SCH_PREFIX] + other,
        idx_key_bytes(store, index, value, key) != seq![CTR_PREFIX] + other,
        seq![SCH_PREFIX] + store != seq![CTR_PREFIX] + other,
        valid_name(name) ==> !name.contains(SEP) && 0 < name.len() <= 255,
{
    assert(doc_key_bytes(store, key)[0] == DOC_PREFIX);
    assert(idx_key_bytes(other, index, value, key)[0] == IDX_PREFIX);
    assert(idx_key_bytes(store, index, value, key)[0] == IDX_PREFIX);
    assert((seq![SCH_PREFIX] + other)[0] == SCH_PREFIX);
    assert((seq![SCH_PREFIX] + store)[0] == SCH_PREFIX);
    assert((seq![CTR_PREFIX] + other)[0] == CTR_PREFIX);
}

} // verus!
