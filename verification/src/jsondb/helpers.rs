//! The records that putting and deleting documents writes.

use vstd::prelude::*;
use vstd::string::*;
use crate::bytes;
use crate::bytes::{bytes_eq, copy_bytes, push_be, read_be};
use crate::engine;
use crate::engine::{Engine, Wanted};
use crate::error::FlowError;
use crate::jsondb::encoding;
use crate::jsondb::encoding::{
    counter_key, doc_key, encode_composite_value, extract_field, idx_key, idx_value_prefix, prefix_range,
    JsonValue, CTR_PREFIX,
};
use crate::jsondb::json;
use crate::jsondb::json::decode_doc;
use crate::jsondb::schema::{IndexDef, StoreDef};
use crate::lookup;
use crate::lookup::Table;
use crate::record;
use crate::record::{from_utf8_lossy, InternalRecord, InternalRecordView, Op, Query, Record, RecordView, ScanRange};
use crate::scan::ScanIterator;
use crate::text;
use crate::text::{debug_str, join};

verus! {

/// The fields of a document at the paths, if all are there.
pub open spec fn fields(doc: JsonValue, paths: Seq<String>) -> Option<Seq<JsonValue>>
    decreases paths.len(),
{
    if paths.len() == 0 {
        Some(Seq::empty())
    } else {
        match (
            fields(doc, paths.drop_last()),
            encoding::field(doc, text::utf8(paths.last()@)),
        ) {
            (Some(front), Some(value)) => Some(front.push(value)),
            _ => None,
        }
    }
}

/// The rows that a document has in an index: none, where a field is missing; one
/// for each item, where the index takes the items of an array one by one; else
/// one with all the fields.
pub open spec fn index_values(doc: JsonValue, idx: IndexDef) -> Seq<Seq<JsonValue>> {
    match fields(doc, idx.key_paths@) {
        None => Seq::empty(),
        Some(raw) => match (idx.multi_entry && raw.len() == 1, raw[0]) {
            (true, JsonValue::Array { items }) => Seq::new(
                items@.len(),
                |i: int| seq![items@[i]],
            ),
            _ => seq![raw],
        },
    }
}

/// A document stands in an index under each item of an array that the index takes item
/// by item, and under nothing else: there are as many rows as items, and each row is
/// the item at its place alone.
pub proof fn law_each_item_indexed(doc: JsonValue, idx: IndexDef, items: Vec<JsonValue>)
    requires
        idx.multi_entry,
        idx.key_paths@.len() == 1,
        encoding::field(doc, text::utf8(idx.key_paths@[0]@)) == Some(JsonValue::Array { items }),
    ensures
        index_values(doc, idx).len() == items@.len(),
        forall|i: int|
            0 <= i < items@.len() ==> (#[trigger] index_values(doc, idx)[i]).len() == 1
                && index_values(doc, idx)[i][0] == items@[i],
{
    law_fields_in_order(doc, idx.key_paths@);
    lemma_fields_given(doc, idx.key_paths@);
}

/// A document stands in any other index under one row with all the fields, in the order
/// of the paths, where all are there, and is not in it where one is missing.
pub proof fn law_one_row_indexed(doc: JsonValue, idx: IndexDef)
    requires
        !(idx.multi_entry && idx.key_paths@.len() == 1 && encoding::field(
            doc,
            text::utf8(idx.key_paths@[0]@),
        ) matches Some(JsonValue::Array { .. })),
    ensures
        (exists|k: int|
            0 <= k < idx.key_paths@.len() && encoding::field(
                doc,
                text::utf8((#[trigger] idx.key_paths@[k])@),
            ) is None) ==> index_values(doc, idx).len() == 0,
        (forall|k: int|
            0 <= k < idx.key_paths@.len() ==> encoding::field(
                doc,
                text::utf8((#[trigger] idx.key_paths@[k])@),
            ) is Some) ==> {
            let rows = index_values(doc, idx);
            &&& rows.len() == 1
            &&& rows[0].len() == idx.key_paths@.len()
            &&& forall|k: int|
                0 <= k < idx.key_paths@.len() ==> encoding::field(
                    doc,
                    text::utf8((#[trigger] idx.key_paths@[k])@),
                ) == Some(rows[0][k])
        },
{
    law_fields_in_order(doc, idx.key_paths@);
    lemma_fields_given(doc, idx.key_paths@);
}

/// The fields at the paths stand in the order of the paths.
pub proof fn law_fields_in_order(doc: JsonValue, paths: Seq<String>)
    ensures
        fields(doc, paths) matches Some(raw) ==> {
            &&& raw.len() == paths.len()
            &&& forall|k: int|
                0 <= k < paths.len() ==> encoding::field(
                    doc,
                    text::utf8((#[trigger] paths[k])@),
                ) == Some(raw[k])
        },
    decreases paths.len(),
{
    if paths.len() > 0 {
        let front = paths.drop_last();
        law_fields_in_order(doc, front);
        if fields(doc, paths) is Some {
            let raw = fields(doc, paths)->0;
            assert forall|k: int| 0 <= k < paths.len() implies encoding::field(
                doc,
                text::utf8((#[trigger] paths[k])@),
            ) == Some(raw[k]) by {
                if k < front.len() {
                    assert(front[k] == paths[k]);
                }
            }
        }
    }
}

/// The fields are there where each of them is.
proof fn lemma_fields_given(doc: JsonValue, paths: Seq<String>)
    ensures
        fields(doc, paths) is Some <==> forall|k: int|
            0 <= k < paths.len() ==> encoding::field(
                doc,
                text::utf8((#[trigger] paths[k])@),
            ) is Some,
    decreases paths.len(),
{
    if paths.len() > 0 {
        let front = paths.drop_last();
        let last = paths.len() - 1;
        lemma_fields_given(doc, front);
        assert(paths[last] == paths.last());
        assert(fields(doc, front) is Some <==> forall|k: int|
            0 <= k < last ==> encoding::field(
                doc,
                text::utf8((#[trigger] paths[k])@),
            ) is Some) by {
            assert forall|k: int| 0 <= k < last implies #[trigger] paths[k] == front[k] by {}
            if forall|k: int|
                0 <= k < last ==> encoding::field(
                    doc,
                    text::utf8((#[trigger] paths[k])@),
                ) is Some {
                assert forall|k: int| 0 <= k < front.len() implies encoding::field(
                    doc,
                    text::utf8((#[trigger] front[k])@),
                ) is Some by {
                    assert(paths[k] == front[k]);
                }
            }
        }
    }
}

/// What the rows hold.
pub open spec fn row_values(rows: Seq<Vec<&JsonValue>>) -> Seq<Seq<JsonValue>> {
    Seq::new(rows.len(), |i: int| encoding::values_of(rows[i]@))
}

/// The rows that a document has in an index.
pub fn extract_index_values<'a>(doc: &'a JsonValue, idx: &IndexDef) -> (r: Vec<Vec<&'a JsonValue>>)
    ensures
        row_values(r@) == index_values(*doc, *idx),
        idx.multi_entry && idx.key_paths@.len() == 1 ==> (encoding::field(
            *doc,
            text::utf8(idx.key_paths@[0]@),
        ) matches Some(JsonValue::Array { items }) ==> {
            &&& r@.len() == items@.len()
            &&& forall|i: int|
                0 <= i < items@.len() ==> (#[trigger] r@[i])@.len() == 1 && *r@[i]@[0] == items@[i]
        }),
{
    let paths = &idx.key_paths;
    let mut raw: Vec<&'a JsonValue> = Vec::new();
    let mut i: usize = 0;
    assert(encoding::values_of(raw@) =~= Seq::<JsonValue>::empty());
    assert(fields(*doc, paths@.take(0)) == Some(encoding::values_of(raw@)));
    while i < paths.len()
        invariant
            i <= paths@.len(),
            paths@ == idx.key_paths@,
            fields(*doc, paths@.take(i as int)) == Some(encoding::values_of(raw@)),
            raw@.len() == i,
        decreases paths@.len() - i,
    {
        assert(paths@.take(i + 1).drop_last() =~= paths@.take(i as int));
        let ghost before = encoding::values_of(raw@);
        match extract_field(doc, paths[i].as_str()) {
            None => {
                proof {
                    lemma_missing(*doc, paths@, i + 1);
                }
                let none: Vec<Vec<&'a JsonValue>> = Vec::new();
                assert(row_values(none@) =~= index_values(*doc, *idx));
                return none;
            },
            Some(value) => {
                raw.push(value);
                assert(encoding::values_of(raw@) =~= before.push(*value));
            },
        }
        i += 1;
    }
    assert(paths@.take(i as int) =~= paths@);
    if idx.multi_entry && raw.len() == 1 {
        if let JsonValue::Array { items } = raw[0] {
            let mut rows: Vec<Vec<&'a JsonValue>> = Vec::new();
            let mut k: usize = 0;
            while k < items.len()
                invariant
                    k <= items@.len(),
                    rows@.len() == k,
                    forall|j: int|
                        0 <= j < k ==> encoding::values_of((#[trigger] rows@[j])@) == seq![items@[j]],
                decreases items@.len() - k,
            {
                let mut row: Vec<&'a JsonValue> = Vec::new();
                row.push(&items[k]);
                assert(encoding::values_of(row@) =~= seq![items@[k as int]]);
                rows.push(row);
                k += 1;
            }
            assert(row_values(rows@) =~= index_values(*doc, *idx));
            proof {
                law_fields_in_order(*doc, paths@);
                law_each_item_indexed(*doc, *idx, *items);
                assert forall|i: int| 0 <= i < items@.len() implies (#[trigger] rows@[i])@.len() == 1
                    && *rows@[i]@[0] == items@[i] by {
                    assert(index_values(*doc, *idx)[i] == row_values(rows@)[i]);
                    assert(encoding::values_of(rows@[i]@).len() == rows@[i]@.len());
                    assert(encoding::values_of(rows@[i]@)[0] == *rows@[i]@[0]);
                }
            }
            return rows;
        }
    }
    let mut rows: Vec<Vec<&'a JsonValue>> = Vec::new();
    rows.push(raw);
    assert(row_values(rows@) =~= index_values(*doc, *idx));
    rows
}

/// Where a field is missing, not all are there.
proof fn lemma_missing(doc: JsonValue, paths: Seq<String>, n: int)
    requires
        0 <= n <= paths.len(),
        fields(doc, paths.take(n)) is None,
    ensures
        fields(doc, paths) is None,
    decreases paths.len() - n,
{
    if n < paths.len() {
        assert(paths.take(n + 1).drop_last() =~= paths.take(n));
        lemma_missing(doc, paths, n + 1);
    } else {
        assert(paths.take(n) =~= paths);
    }
}

/// The keys of the entries that a document has in an index.
pub open spec fn entry_keys(idx: IndexDef, store: Seq<u8>, key: Seq<u8>, doc: JsonValue) -> Seq<
    Seq<u8>,
> {
    index_values(doc, idx).map_values(
        |values: Seq<JsonValue>|
            encoding::idx_key_bytes(
                store,
                text::utf8(idx.name@),
                encoding::composite_bytes(values),
                key,
            ),
    )
}

/// The keys of the entries that a document has in the indexes, index by index.
pub open spec fn all_entry_keys(
    indexes: Seq<IndexDef>,
    store: Seq<u8>,
    key: Seq<u8>,
    doc: JsonValue,
) -> Seq<Seq<u8>>
    decreases indexes.len(),
{
    if indexes.len() == 0 {
        Seq::empty()
    } else {
        all_entry_keys(indexes.drop_last(), store, key, doc) + entry_keys(
            indexes.last(),
            store,
            key,
            doc,
        )
    }
}

/// The row that deletes the key.
pub open spec fn deletion(key: Seq<u8>) -> InternalRecordView {
    InternalRecordView {
        seq: 0,
        op: Op::Delete,
        key,
        ts: 0,
        expire_at: i64::MAX,
        value: Seq::empty(),
        range_end: None,
    }
}

/// The row that puts a value under the key.
pub open spec fn insertion(key: Seq<u8>, value: Seq<u8>) -> InternalRecordView {
    (RecordView { key, ts: 0, expire_at: i64::MAX, value }).put(0)
}

/// The rows that delete the index entries of a document, where there is one.
pub open spec fn entry_deletions(
    indexes: Seq<IndexDef>,
    store: Seq<u8>,
    key: Seq<u8>,
    doc: Option<JsonValue>,
) -> Seq<InternalRecordView> {
    match doc {
        Some(doc) => all_entry_keys(indexes, store, key, doc).map_values(
            |k: Seq<u8>| deletion(k),
        ),
        None => Seq::empty(),
    }
}

/// The rows that put the index entries of a document.
pub open spec fn entry_insertions(
    indexes: Seq<IndexDef>,
    store: Seq<u8>,
    key: Seq<u8>,
    doc: JsonValue,
) -> Seq<InternalRecordView> {
    all_entry_keys(indexes, store, key, doc).map_values(|k: Seq<u8>| insertion(k, key))
}

/// What the keys hold.
pub open spec fn key_contents(keys: Seq<Vec<u8>>) -> Seq<Seq<u8>> {
    Seq::new(keys.len(), |i: int| keys[i]@)
}

/// The keys of the entries that a document has in the indexes.
fn index_entry_keys(def: &StoreDef, store: &str, key_bytes: &[u8], doc: &JsonValue) -> (r: Vec<
    Vec<u8>,
>)
    ensures
        key_contents(r@) == all_entry_keys(def.indexes@, store.spec_bytes(), key_bytes@, *doc),
{
    let indexes = &def.indexes;
    let mut out: Vec<Vec<u8>> = Vec::new();
    let mut i: usize = 0;
    assert(key_contents(out@) =~= Seq::<Seq<u8>>::empty());
    assert(indexes@.take(0) =~= Seq::<IndexDef>::empty());
    while i < indexes.len()
        invariant
            i <= indexes@.len(),
            indexes@ == def.indexes@,
            key_contents(out@) == all_entry_keys(
                indexes@.take(i as int),
                store.spec_bytes(),
                key_bytes@,
                *doc,
            ),
        decreases indexes@.len() - i,
    {
        assert(indexes@.take(i + 1).drop_last() =~= indexes@.take(i as int));
        let idx = &indexes[i];
        let rows = extract_index_values(doc, idx);
        let ghost start = key_contents(out@);
        let ghost keys = entry_keys(*idx, store.spec_bytes(), key_bytes@, *doc);
        let mut k: usize = 0;
        assert(key_contents(out@) =~= start + keys.take(0));
        while k < rows.len()
            invariant
                k <= rows@.len(),
                row_values(rows@) == index_values(*doc, *idx),
                keys == entry_keys(*idx, store.spec_bytes(), key_bytes@, *doc),
                key_contents(out@) == start + keys.take(k as int),
            decreases rows@.len() - k,
        {
            let encoded = encode_composite_value(&rows[k]);
            let key = idx_key(store, idx.name.as_str(), &encoded, key_bytes);
            let ghost before = key_contents(out@);
            proof {
                assert(row_values(rows@)[k as int] == encoding::values_of(rows@[k as int]@));
                assert(keys[k as int] == key@);
            }
            out.push(key);
            assert(key_contents(out@) =~= before.push(keys[k as int]));
            assert(start + keys.take(k + 1) =~= (start + keys.take(k as int)).push(keys[k as int]));
            k += 1;
        }
        assert(row_values(rows@).len() == keys.len());
        assert(keys.take(k as int) =~= keys);
        i += 1;
    }
    assert(indexes@.take(i as int) =~= indexes@);
    out
}

/// A search that decides whether a value of a unique index is free.
#[derive(Debug)]
pub struct UniqueProbe {
    /// The name of the index.
    pub index: String,
    /// The range in which the entries with the value stand.
    pub range: ScanRange,
    /// The values of the index entry, as an error shows them.
    pub shown: String,
}

/// What a probe found.
#[derive(Debug)]
pub struct ProbeResult {
    /// The entries in the probe's range.
    pub entries: Vec<Record>,
}

/// The probes for the rows of a document in an index.
pub open spec fn index_probes(idx: IndexDef, store: Seq<u8>, doc: JsonValue) -> Seq<
    (Seq<char>, Seq<u8>, Seq<char>),
> {
    if idx.unique {
        index_values(doc, idx).map_values(
            |values: Seq<JsonValue>|
                (
                    idx.name@,
                    encoding::idx_value_prefix_bytes(
                        store,
                        text::utf8(idx.name@),
                        encoding::composite_bytes(values),
                    ),
                    json::shown_values(values),
                ),
        )
    } else {
        Seq::empty()
    }
}

/// The probes for a document: for each of its rows in each unique index the
/// index's name, what the keys begin with that are looked for, and the row as an error
/// shows it.
pub open spec fn all_probes(indexes: Seq<IndexDef>, store: Seq<u8>, doc: JsonValue) -> Seq<
    (Seq<char>, Seq<u8>, Seq<char>),
>
    decreases indexes.len(),
{
    if indexes.len() == 0 {
        Seq::empty()
    } else {
        all_probes(indexes.drop_last(), store, doc) + index_probes(indexes.last(), store, doc)
    }
}

/// Whether these are the probes.
pub open spec fn probes_are(
    probes: Seq<UniqueProbe>,
    wanted: Seq<(Seq<char>, Seq<u8>, Seq<char>)>,
) -> bool {
    &&& probes.len() == wanted.len()
    &&& forall|i: int|
        0 <= i < probes.len() ==> (#[trigger] probes[i]).index@ == wanted[i].0
            && probes[i].range.key_filter() == record::KeyFilterView::Prefix(wanted[i].1)
            && probes[i].range.times() is None && probes[i].shown@ == wanted[i].2
}

/// The probes that decide whether a document keeps the unique indexes unique.
pub fn unique_probes(def: &StoreDef, store: &str, doc: &JsonValue) -> (r: Vec<UniqueProbe>)
    ensures
        probes_are(r@, all_probes(def.indexes@, store.spec_bytes(), *doc)),
{
    let indexes = &def.indexes;
    let mut out: Vec<UniqueProbe> = Vec::new();
    let mut i: usize = 0;
    assert(indexes@.take(0) =~= Seq::<IndexDef>::empty());
    while i < indexes.len()
        invariant
            i <= indexes@.len(),
            indexes@ == def.indexes@,
            probes_are(out@, all_probes(indexes@.take(i as int), store.spec_bytes(), *doc)),
        decreases indexes@.len() - i,
    {
        assert(indexes@.take(i + 1).drop_last() =~= indexes@.take(i as int));
        let idx = &indexes[i];
        let ghost start = all_probes(indexes@.take(i as int), store.spec_bytes(), *doc);
        let ghost mine = index_probes(*idx, store.spec_bytes(), *doc);
        if idx.unique {
            let rows = extract_index_values(doc, idx);
            let mut k: usize = 0;
            assert(start + mine.take(0) =~= start);
            while k < rows.len()
                invariant
                    k <= rows@.len(),
                    idx.unique,
                    row_values(rows@) == index_values(*doc, *idx),
                    mine == index_probes(*idx, store.spec_bytes(), *doc),
                    probes_are(out@, start + mine.take(k as int)),
                decreases rows@.len() - k,
            {
                let encoded = encode_composite_value(&rows[k]);
                let prefix = idx_value_prefix(store, idx.name.as_str(), &encoded);
                let shown = json::show_values(&rows[k]);
                proof {
                    assert(row_values(rows@)[k as int] == encoding::values_of(rows@[k as int]@));
                    assert(mine[k as int] == (idx.name@, prefix@, shown@));
                    assert(start + mine.take(k + 1) =~= (start + mine.take(k as int)).push(
                        mine[k as int],
                    ));
                }
                out.push(
                    UniqueProbe { index: idx.name.clone(), range: prefix_range(&prefix), shown },
                );
                k += 1;
            }
            assert(row_values(rows@).len() == mine.len());
            assert(mine.take(k as int) =~= mine);
        } else {
            assert(start + mine =~= start);
        }
        i += 1;
    }
    assert(indexes@.take(i as int) =~= indexes@);
    out
}

/// Whether these are the records that a scan of the keys with the prefix gives.
pub open spec fn scanned(
    engine: Engine,
    tables: Seq<Table>,
    prefix: Seq<u8>,
    now: i64,
    found: Seq<RecordView>,
) -> bool {
    exists|query: Query, iter: ScanIterator|
        query.key_filter@ == record::KeyFilterView::Prefix(prefix) && query.time_range is None
            && #[trigger] engine.scans(tables, query, now, iter) && found == iter.output()
}

/// Runs the probes: what each finds.
pub fn run_probes(
    engine: &mut Engine,
    probes: &Vec<UniqueProbe>,
    now_us: i64,
    tables: &[Table],
) -> (r: Vec<ProbeResult>)
    requires
        old(engine).wf(),
        lookup::coherent(old(engine).block_cache(), tables@),
        forall|i: int|
            0 <= i < probes@.len() ==> (#[trigger] probes@[i]).range.key_filter() is Prefix
                && probes@[i].range.times() is None,
    ensures
        final(engine).wf(),
        old(engine).only_cached(*final(engine), tables@),
        r@.len() == probes@.len(),
        forall|i: int|
            0 <= i < r@.len() ==> scanned(
                *old(engine),
                tables@,
                probes@[i].range.key_filter()->Prefix_0,
                now_us,
                record::record_views((#[trigger] r@[i]).entries@),
            ),
{
    let mut out: Vec<ProbeResult> = Vec::new();
    let ghost start = *engine;
    while out.len() < probes.len()
        invariant
            out@.len() <= probes@.len(),
            start == *old(engine),
            engine.wf(),
            start.only_cached(*engine, tables@),
            forall|i: int|
                0 <= i < probes@.len() ==> (#[trigger] probes@[i]).range.key_filter() is Prefix
                    && probes@[i].range.times() is None,
            forall|i: int|
                0 <= i < out@.len() ==> scanned(
                    start,
                    tables@,
                    probes@[i].range.key_filter()->Prefix_0,
                    now_us,
                    record::record_views((#[trigger] out@[i]).entries@),
                ),
        decreases probes@.len() - out@.len(),
    {
        let i: usize = out.len();
        let range = &probes[i].range;
        let ghost prior = *engine;
        let mut iter = engine.scan(range, now_us, tables);
        let ghost opened = iter;
        let entries = iter.collect();
        proof {
            let query = choose|query: Query|
                query.key_filter@ == range.key_filter() && query.time_range == range.times()
                    && #[trigger] prior.scans(tables@, query, now_us, opened);
            assert(start.scans(tables@, query, now_us, opened));
        }
        out.push(ProbeResult { entries });
    }
    out
}

/// The document that is stored under the key, as its record.
pub fn stored_document(
    engine: &mut Engine,
    store: &str,
    key_bytes: &[u8],
    now_us: i64,
    tables: &[Table],
) -> (r: Option<Record>)
    requires
        old(engine).wf(),
        lookup::coherent(old(engine).block_cache(), tables@),
    ensures
        final(engine).wf(),
        old(engine).only_cached(*final(engine), tables@),
        exists|told: lookup::LookupView| #[trigger]
            old(engine).tells(
                tables@,
                document_wanted(store.spec_bytes(), key_bytes@, now_us),
                told,
            ) && engine::opt_record(r) == told.record(),
{
    let found = engine.get_bytes(&doc_key(store, key_bytes), 0, now_us, tables);
    let ghost wanted = document_wanted(store.spec_bytes(), key_bytes@, now_us);
    let ghost told = choose|told: lookup::LookupView| #[trigger]
        old(engine).tells(tables@, wanted, told) && engine::opt_record(found) == told.record();
    assert(old(engine).tells(tables@, wanted, told));
    found
}

/// Whether a probe found an entry of another document.
pub open spec fn is_taken(found: ProbeResult, key: Seq<u8>) -> bool {
    exists|j: int| 0 <= j < found.entries@.len() && (#[trigger] found.entries@[j]).value@ != key
}

/// The first probe that found an entry of another document.
pub open spec fn first_taken(found: Seq<ProbeResult>, key: Seq<u8>) -> Option<int>
    decreases found.len(),
{
    if found.len() == 0 {
        None
    } else {
        match first_taken(found.drop_last(), key) {
            Some(i) => Some(i),
            None => if is_taken(found.last(), key) {
                Some(found.len() - 1)
            } else {
                None
            },
        }
    }
}

fn probe_is_taken(found: &ProbeResult, key: &[u8]) -> (r: bool)
    ensures
        r == is_taken(*found, key@),
{
    let mut j: usize = 0;
    while j < found.entries.len()
        invariant
            j <= found.entries@.len(),
            forall|k: int| 0 <= k < j ==> (#[trigger] found.entries@[k]).value@ == key@,
        decreases found.entries@.len() - j,
    {
        if !bytes_eq(&found.entries[j].value, key) {
            return true;
        }
        j += 1;
    }
    false
}

fn find_taken(found: &Vec<ProbeResult>, key: &[u8]) -> (r: Option<usize>)
    ensures
        match r {
            Some(i) => first_taken(found@, key@) == Some(i as int) && i < found@.len(),
            None => first_taken(found@, key@) is None,
        },
{
    let mut i: usize = 0;
    while i < found.len()
        invariant
            i <= found@.len(),
            first_taken(found@.take(i as int), key@) is None,
        decreases found@.len() - i,
    {
        assert(found@.take(i + 1).drop_last() =~= found@.take(i as int));
        if probe_is_taken(&found[i], key) {
            proof {
                lemma_first_taken(found@, i + 1, key@);
            }
            return Some(i);
        }
        i += 1;
    }
    assert(found@.take(i as int) =~= found@);
    None
}

proof fn lemma_first_taken(found: Seq<ProbeResult>, n: int, key: Seq<u8>)
    requires
        0 <= n <= found.len(),
        first_taken(found.take(n), key) is Some,
    ensures
        first_taken(found, key) == first_taken(found.take(n), key),
    decreases found.len() - n,
{
    if n < found.len() {
        assert(found.take(n + 1).drop_last() =~= found.take(n));
        lemma_first_taken(found, n + 1, key);
    } else {
        assert(found.take(n) =~= found);
    }
}

/// Appends the rows that delete the keys.
fn push_deletions(records: &mut Vec<InternalRecord>, keys: Vec<Vec<u8>>)
    ensures
        record::views(final(records)@) == record::views(old(records)@) + key_contents(
            keys@,
        ).map_values(|k: Seq<u8>| deletion(k)),
{
    let ghost start = record::views(records@);
    let ghost rows = key_contents(keys@).map_values(|k: Seq<u8>| deletion(k));
    let mut i: usize = 0;
    assert(record::views(records@) =~= start + rows.take(0));
    while i < keys.len()
        invariant
            i <= keys@.len(),
            rows == key_contents(keys@).map_values(|k: Seq<u8>| deletion(k)),
            record::views(records@) == start + rows.take(i as int),
        decreases keys@.len() - i,
    {
        let ghost before = record::views(records@);
        let rec = InternalRecord::delete(copy_bytes(&keys[i]), 0, 0);
        assert(rec@ == rows[i as int]);
        records.push(rec);
        assert(record::views(records@) =~= before.push(rows[i as int]));
        assert(start + rows.take(i + 1) =~= (start + rows.take(i as int)).push(rows[i as int]));
        i += 1;
    }
    assert(rows.take(i as int) =~= rows);
}

/// What putting a document over another one comes to: the deletion of the index entries
/// of the document that it replaces, the document, and its index entries; or the
/// error, where a probe found an entry of another document.
pub open spec fn puts(
    indexes: Seq<IndexDef>,
    store: Seq<u8>,
    key: Seq<u8>,
    doc_bytes: Seq<u8>,
    doc: JsonValue,
    old_doc: Option<JsonValue>,
    found: Seq<ProbeResult>,
    r: Result<Vec<InternalRecord>, FlowError>,
) -> bool {
    match first_taken(found, key) {
        None => r matches Ok(records) && record::views(records@) == entry_deletions(
            indexes,
            store,
            key,
            old_doc,
        ) + seq![insertion(encoding::doc_key_bytes(store, key), doc_bytes)] + entry_insertions(
            indexes,
            store,
            key,
            doc,
        ),
        Some(i) => r matches Err(FlowError::JsonDb(msg)) && msg@
            == "unique constraint violation: index '"@ + all_probes(indexes, store, doc)[i].0
            + "' value '"@ + all_probes(indexes, store, doc)[i].2 + "' already exists"@,
    }
}

/// The records that putting a document writes: the deletion of the index entries
/// of the document that it replaces, the document, and its index entries. An
/// entry of another document under a value of a unique index is an error.
/// `old_doc` is the document that it replaces, and `found` what the probes of
/// [`unique_probes`] found.
pub fn put_records(
    def: &StoreDef,
    store: &str,
    key_bytes: &[u8],
    doc_bytes: &[u8],
    doc: &JsonValue,
    old_doc: Option<&JsonValue>,
    found: &Vec<ProbeResult>,
) -> (r: Result<Vec<InternalRecord>, FlowError>)
    requires
        found@.len() == all_probes(def.indexes@, store.spec_bytes(), *doc).len(),
    ensures
        puts(
            def.indexes@,
            store.spec_bytes(),
            key_bytes@,
            doc_bytes@,
            *doc,
            encoding::opt_value(old_doc),
            found@,
            r,
        ),
{
    let mut records: Vec<InternalRecord> = Vec::new();
    let ghost s = store.spec_bytes();
    let ghost gone = entry_deletions(
        def.indexes@,
        s,
        key_bytes@,
        encoding::opt_value(old_doc),
    );
    assert(record::views(records@) =~= Seq::<InternalRecordView>::empty());
    if let Some(old_doc) = old_doc {
        push_deletions(&mut records, index_entry_keys(def, store, key_bytes, old_doc));
    }
    assert(record::views(records@) =~= gone);
    let document = Record::new(doc_key(store, key_bytes), 0, copy_bytes(doc_bytes));
    records.push(InternalRecord::from_record(&document, 0));
    let ghost put = insertion(encoding::doc_key_bytes(s, key_bytes@), doc_bytes@);
    assert(record::views(records@) =~= gone + seq![put]);
    if let Some(i) = find_taken(found, key_bytes) {
        let probes = unique_probes(def, store, doc);
        let a = join("unique constraint violation: index '", probes[i].index.as_str());
        let b = join(a.as_str(), "' value '");
        let c = join(b.as_str(), probes[i].shown.as_str());
        return Err(FlowError::JsonDb(join(c.as_str(), "' already exists")));
    }
    let keys = index_entry_keys(def, store, key_bytes, doc);
    let ghost start = record::views(records@);
    let ghost rows = entry_insertions(def.indexes@, s, key_bytes@, *doc);
    let mut k: usize = 0;
    assert(start + rows.take(0) =~= start);
    while k < keys.len()
        invariant
            k <= keys@.len(),
            rows.len() == keys@.len(),
            forall|j: int|
                0 <= j < rows.len() ==> #[trigger] rows[j] == insertion(keys@[j]@, key_bytes@),
            record::views(records@) == start + rows.take(k as int),
        decreases keys@.len() - k,
    {
        let ghost before = record::views(records@);
        let entry = Record::new(copy_bytes(&keys[k]), 0, copy_bytes(key_bytes));
        let rec = InternalRecord::from_record(&entry, 0);
        assert(rec@ == rows[k as int]);
        records.push(rec);
        assert(record::views(records@) =~= before.push(rows[k as int]));
        assert(start + rows.take(k + 1) =~= (start + rows.take(k as int)).push(rows[k as int]));
        k += 1;
    }
    assert(rows.take(k as int) =~= rows);
    Ok(records)
}

/// The records that deleting a document writes: the deletion of its index
/// entries, and of the document. `old_doc` is the document.
pub fn delete_records(
    def: &StoreDef,
    store: &str,
    key_bytes: &[u8],
    old_doc: Option<&JsonValue>,
) -> (r: Vec<InternalRecord>)
    ensures
        record::views(r@) == entry_deletions(
            def.indexes@,
            store.spec_bytes(),
            key_bytes@,
            encoding::opt_value(old_doc),
        ).push(deletion(encoding::doc_key_bytes(store.spec_bytes(), key_bytes@))),
{
    let mut records: Vec<InternalRecord> = Vec::new();
    let ghost gone = entry_deletions(
        def.indexes@,
        store.spec_bytes(),
        key_bytes@,
        encoding::opt_value(old_doc),
    );
    assert(record::views(records@) =~= Seq::<InternalRecordView>::empty());
    if let Some(old_doc) = old_doc {
        push_deletions(&mut records, index_entry_keys(def, store, key_bytes, old_doc));
    }
    assert(record::views(records@) =~= gone);
    records.push(InternalRecord::delete(doc_key(store, key_bytes), 0, 0));
    assert(record::views(records@) =~= gone.push(
        deletion(encoding::doc_key_bytes(store.spec_bytes(), key_bytes@)),
    ));
    records
}

/// What a document that cannot be parsed is reported as.
pub open spec fn corrupted(key: Seq<u8>, why: Seq<char>) -> Seq<char> {
    "corrupted document at key "@ + text::debug_text(record::utf8_lossy(key)) + ": "@
        + "JSON error: "@ + why
}

/// The document that a record holds, where there is one, or what it is reported as
/// where it cannot be parsed.
pub open spec fn document_of(stored: Option<RecordView>, key: Seq<u8>) -> Result<
    Option<JsonValue>,
    Seq<char>,
> {
    match stored {
        None => Ok(None),
        Some(rec) => match json::json_parsed(rec.value) {
            Ok(doc) => Ok(Some(doc)),
            Err(why) => Err(corrupted(key, why)),
        },
    }
}

/// The document that is stored under the key, as its record holds it.
pub fn old_document(key_bytes: &[u8], stored: &Option<Record>) -> (r: Result<
    Option<JsonValue>,
    FlowError,
>)
    ensures
        match document_of(engine::opt_record(*stored), key_bytes@) {
            Ok(doc) => r matches Ok(v) && encoding::same_option(v, doc),
            Err(why) => r matches Err(FlowError::JsonDb(msg)) && msg@ == why,
        },
{
    match stored {
        None => Ok(None),
        Some(rec) => match decode_doc(rec.value.as_slice()) {
            Ok(doc) => Ok(Some(doc)),
            Err(e) => {
                let key = from_utf8_lossy(key_bytes);
                let shown = debug_str(key.as_str());
                let a = join("corrupted document at key ", shown.as_str());
                let b = join(a.as_str(), ": ");
                let why = e.message();
                let msg = join(b.as_str(), why.as_str());
                assert(document_of(engine::opt_record(*stored), key_bytes@) matches Err(text)
                    && msg@ =~= text);
                Err(FlowError::JsonDb(msg))
            },
        },
    }
}

/// The fields of documents that are the same are.
proof fn lemma_same_fields(a: JsonValue, b: JsonValue, paths: Seq<String>)
    requires
        encoding::same_value(a, b),
    ensures
        match (fields(a, paths), fields(b, paths)) {
            (Some(x), Some(y)) => encoding::same_values(x, y),
            (None, None) => true,
            _ => false,
        },
    decreases paths.len(),
{
    if paths.len() > 0 {
        lemma_same_fields(a, b, paths.drop_last());
        encoding::lemma_same_field(a, b, text::utf8(paths.last()@));
    }
}

/// Documents that are the same have the same keys in an index.
proof fn lemma_same_keys(idx: IndexDef, store: Seq<u8>, key: Seq<u8>, a: JsonValue, b: JsonValue)
    requires
        encoding::same_value(a, b),
    ensures
        entry_keys(idx, store, key, a) == entry_keys(idx, store, key, b),
{
    let x = index_values(a, idx);
    let y = index_values(b, idx);
    lemma_same_fields(a, b, idx.key_paths@);
    if let (Some(p), Some(q)) = (fields(a, idx.key_paths@), fields(b, idx.key_paths@)) {
        if p.len() == 1 {
            assert(encoding::same_value(p[0], q[0]));
        }
    }
    assert(x.len() == y.len());
    assert forall|i: int| 0 <= i < x.len() implies encoding::composite_bytes(#[trigger] x[i])
        == encoding::composite_bytes(y[i]) by {
        encoding::lemma_same_composite(x[i], y[i]);
    }
    assert(entry_keys(idx, store, key, a) =~= entry_keys(idx, store, key, b));
}

/// Documents that are the same have the same keys in the indexes.
proof fn lemma_same_entries(
    indexes: Seq<IndexDef>,
    store: Seq<u8>,
    key: Seq<u8>,
    a: JsonValue,
    b: JsonValue,
)
    requires
        encoding::same_value(a, b),
    ensures
        all_entry_keys(indexes, store, key, a) == all_entry_keys(indexes, store, key, b),
    decreases indexes.len(),
{
    if indexes.len() > 0 {
        lemma_same_entries(indexes.drop_last(), store, key, a, b);
        lemma_same_keys(indexes.last(), store, key, a, b);
    }
}

/// The lookup of a document.
pub open spec fn document_wanted(store: Seq<u8>, key: Seq<u8>, now: i64) -> Wanted {
    Wanted { key: encoding::doc_key_bytes(store, key), ts: 0, now }
}

/// Whether the probes find this in the engine.
pub open spec fn probed(
    engine: Engine,
    tables: Seq<Table>,
    probes: Seq<(Seq<char>, Seq<u8>, Seq<char>)>,
    now: i64,
    found: Seq<ProbeResult>,
) -> bool {
    &&& found.len() == probes.len()
    &&& forall|i: int|
        0 <= i < found.len() ==> scanned(
            engine,
            tables,
            probes[i].1,
            now,
            record::record_views((#[trigger] found[i]).entries@),
        )
}

/// The records that putting a document writes, as [`put_records`] says, with the
/// document that the engine keeps under the key and what the probes find in the engine.
/// A record under the key that holds no document is an error.
pub fn build_put_batch(
    def: &StoreDef,
    store: &str,
    key_bytes: &[u8],
    doc_bytes: &[u8],
    doc: &JsonValue,
    engine: &mut Engine,
    now_us: i64,
    tables: &[Table],
) -> (r: Result<Vec<InternalRecord>, FlowError>)
    requires
        old(engine).wf(),
        lookup::coherent(old(engine).block_cache(), tables@),
    ensures
        final(engine).wf(),
        old(engine).only_cached(*final(engine), tables@),
        exists|told: lookup::LookupView| #[trigger]
            old(engine).tells(
                tables@,
                document_wanted(store.spec_bytes(), key_bytes@, now_us),
                told,
            ) && match document_of(told.record(), key_bytes@) {
                Err(why) => r matches Err(FlowError::JsonDb(msg)) && msg@ == why,
                Ok(old_doc) => exists|found: Seq<ProbeResult>| #[trigger]
                    probed(
                        *old(engine),
                        tables@,
                        all_probes(def.indexes@, store.spec_bytes(), *doc),
                        now_us,
                        found,
                    ) && puts(
                        def.indexes@,
                        store.spec_bytes(),
                        key_bytes@,
                        doc_bytes@,
                        *doc,
                        old_doc,
                        found,
                        r,
                    ),
            },
{
    let ghost s = store.spec_bytes();
    let ghost start = *engine;
    let stored = stored_document(engine, store, key_bytes, now_us, tables);
    let ghost told = choose|told: lookup::LookupView| #[trigger]
        start.tells(tables@, document_wanted(s, key_bytes@, now_us), told) && engine::opt_record(
            stored,
        ) == told.record();
    assert(start.tells(tables@, document_wanted(s, key_bytes@, now_us), told));
    let old_doc = match old_document(key_bytes, &stored) {
        Ok(old_doc) => old_doc,
        Err(e) => {
            return Err(e);
        },
    };
    let ghost middle = *engine;
    let probes = unique_probes(def, store, doc);
    let ghost wanted = all_probes(def.indexes@, s, *doc);
    let found = run_probes(engine, &probes, now_us, tables);
    let r = put_records(def, store, key_bytes, doc_bytes, doc, old_doc.as_ref(), &found);
    proof {
        if old_doc is Some {
            lemma_same_entries(
                def.indexes@,
                s,
                key_bytes@,
                old_doc->0,
                (document_of(told.record(), key_bytes@)->Ok_0)->0,
            );
        }
        assert forall|i: int| 0 <= i < found@.len() implies scanned(
            start,
            tables@,
            wanted[i].1,
            now_us,
            record::record_views((#[trigger] found@[i]).entries@),
        ) by {
            assert(probes@[i].range.key_filter() == record::KeyFilterView::Prefix(wanted[i].1));
            lemma_scanned_alike(
                start,
                middle,
                tables@,
                wanted[i].1,
                now_us,
                record::record_views(found@[i].entries@),
            );
        }
        assert(probed(start, tables@, wanted, now_us, found@));
    }
    r
}

/// Engines that differ in their block caches alone scan alike.
proof fn lemma_scanned_alike(
    a: Engine,
    b: Engine,
    tables: Seq<Table>,
    prefix: Seq<u8>,
    now: i64,
    found: Seq<RecordView>,
)
    requires
        a.only_cached(b, tables),
        scanned(b, tables, prefix, now, found),
    ensures
        scanned(a, tables, prefix, now, found),
{
    let (query, iter) = choose|query: Query, iter: ScanIterator|
        query.key_filter@ == record::KeyFilterView::Prefix(prefix) && query.time_range is None
            && #[trigger] b.scans(tables, query, now, iter) && found == iter.output();
    assert(a.scans(tables, query, now, iter));
}

/// The records that deleting a document writes, as [`delete_records`] says, with the
/// document that the engine keeps under the key. A record under the key that holds no
/// document is an error.
pub fn build_delete_batch(
    def: &StoreDef,
    store: &str,
    key_bytes: &[u8],
    engine: &mut Engine,
    now_us: i64,
    tables: &[Table],
) -> (r: Result<Vec<InternalRecord>, FlowError>)
    requires
        old(engine).wf(),
        lookup::coherent(old(engine).block_cache(), tables@),
    ensures
        final(engine).wf(),
        old(engine).only_cached(*final(engine), tables@),
        exists|told: lookup::LookupView| #[trigger]
            old(engine).tells(
                tables@,
                document_wanted(store.spec_bytes(), key_bytes@, now_us),
                told,
            ) && match document_of(told.record(), key_bytes@) {
                Err(why) => r matches Err(FlowError::JsonDb(msg)) && msg@ == why,
                Ok(old_doc) => r matches Ok(records) && record::views(records@) == entry_deletions(
                    def.indexes@,
                    store.spec_bytes(),
                    key_bytes@,
                    old_doc,
                ).push(deletion(encoding::doc_key_bytes(store.spec_bytes(), key_bytes@))),
            },
{
    let ghost s = store.spec_bytes();
    let ghost start = *engine;
    let stored = stored_document(engine, store, key_bytes, now_us, tables);
    let ghost told = choose|told: lookup::LookupView| #[trigger]
        start.tells(tables@, document_wanted(s, key_bytes@, now_us), told) && engine::opt_record(
            stored,
        ) == told.record();
    assert(start.tells(tables@, document_wanted(s, key_bytes@, now_us), told));
    let old_doc = match old_document(key_bytes, &stored) {
        Ok(old_doc) => old_doc,
        Err(e) => {
            return Err(e);
        },
    };
    proof {
        if old_doc is Some {
            lemma_same_entries(
                def.indexes@,
                s,
                key_bytes@,
                old_doc->0,
                (document_of(told.record(), key_bytes@)->Ok_0)->0,
            );
        }
    }
    Ok(delete_records(def, store, key_bytes, old_doc.as_ref()))
}

/// The next value of a store's counter, and the record that keeps it. `current`
/// is what the counter's record holds, if there is one.
pub fn prepare_counter(current: Option<&[u8]>, store: &str) -> (r: Result<
    (u64, InternalRecord),
    FlowError,
>)
    requires
        current matches Some(value) ==> value@.len() == 8 ==> bytes::be_nat(value@) < u64::MAX,
    ensures
        match current {
            Some(value) if value@.len() != 8 => r matches Err(FlowError::JsonDb(msg)) && msg@
                == "corrupted auto-increment counter for store '"@ + store@ + "'"@,
            _ => {
                let next = match current {
                    Some(value) => bytes::be_nat(value@) + 1,
                    None => 1,
                };
                r matches Ok((n, rec)) && n == next && rec@ == insertion(
                    seq![CTR_PREFIX] + store.spec_bytes(),
                    bytes::be_bytes(next as nat, 8),
                )
            },
        },
{
    let now: u64 = match current {
        Some(value) => {
            if value.len() != 8 {
                let front = join("corrupted auto-increment counter for store '", store);
                return Err(FlowError::JsonDb(join(front.as_str(), "'")));
            }
            assert(value@.subrange(0, 8) =~= value@);
            read_be(value, 0, 8)
        },
        None => 0,
    };
    let next: u64 = now + 1;
    let mut value: Vec<u8> = Vec::new();
    push_be(&mut value, next, 8);
    assert(value@ =~= bytes::be_bytes(next as nat, 8));
    let rec = Record::new(counter_key(store), 0, value);
    Ok((next, InternalRecord::from_record(&rec, 0)))
}

/// The next value of a store's counter as the engine keeps it, and the record
/// that keeps the new value.
pub fn next_counter(engine: &mut Engine, store: &str, now_us: i64, tables: &[Table]) -> (r: Result<
    (u64, InternalRecord),
    FlowError,
>)
    requires
        old(engine).wf(),
        lookup::coherent(old(engine).block_cache(), tables@),
        forall|told: lookup::LookupView| #[trigger]
            old(engine).tells(tables@, counter_wanted(store.spec_bytes(), now_us), told) ==> (
            told.record() matches Some(rec) ==> rec.value.len() == 8 ==> bytes::be_nat(rec.value)
                < u64::MAX),
    ensures
        final(engine).wf(),
        old(engine).only_cached(*final(engine), tables@),
        exists|told: lookup::LookupView| #[trigger]
            old(engine).tells(tables@, counter_wanted(store.spec_bytes(), now_us), told) && counted(
                told.record(),
                store,
                r,
            ),
{
    let found = engine.get_bytes(&counter_key(store), 0, now_us, tables);
    let ghost told = choose|told: lookup::LookupView| #[trigger]
        old(engine).tells(tables@, counter_wanted(store.spec_bytes(), now_us), told)
            && engine::opt_record(found) == told.record();
    let r = match &found {
        Some(rec) => prepare_counter(Some(rec.value.as_slice()), store),
        None => prepare_counter(None, store),
    };
    assert(old(engine).tells(tables@, counter_wanted(store.spec_bytes(), now_us), told));
    r
}

/// The lookup of a store's counter.
pub open spec fn counter_wanted(store: Seq<u8>, now: i64) -> Wanted {
    Wanted { key: seq![CTR_PREFIX] + store, ts: 0, now }
}

/// What counting on from the counter's record gives.
pub open spec fn counted(
    current: Option<RecordView>,
    store: &str,
    r: Result<(u64, InternalRecord), FlowError>,
) -> bool {
    match current {
        Some(rec) if rec.value.len() != 8 => r matches Err(FlowError::JsonDb(msg)) && msg@
            == "corrupted auto-increment counter for store '"@ + store@ + "'"@,
        _ => {
            let next = match current {
                Some(rec) => bytes::be_nat(rec.value) + 1,
                None => 1,
            };
            r matches Ok((n, rec)) && n == next && rec@ == insertion(
                seq![CTR_PREFIX] + store.spec_bytes(),
                bytes::be_bytes(next as nat, 8),
            )
        },
    }
}

/// A counter counts: what it keeps is what it reads next time.
pub proof fn law_counter_counts(value: Seq<u8>, next: nat)
    requires
        next <= u64::MAX,
        value == bytes::be_bytes(next, 8),
    ensures
        value.len() == 8,
        bytes::be_nat(value) == next,
{
    bytes::lemma_pow256_values();
    bytes::lemma_be_round_trip(next, 8);
}

/// Putting a document and then deleting it leaves no index entry behind: each key
/// that the put writes is deleted.
pub proof fn law_delete_undoes_put(
    indexes: Seq<IndexDef>,
    store: Seq<u8>,
    key: Seq<u8>,
    doc: JsonValue,
    row: InternalRecordView,
)
    requires
        entry_insertions(indexes, store, key, doc).contains(row),
    ensures
        entry_deletions(indexes, store, key, Some(doc)).contains(deletion(row.key)),
{
    let keys = all_entry_keys(indexes, store, key, doc);
    let puts = entry_insertions(indexes, store, key, doc);
    let i = choose|i: int| 0 <= i < puts.len() && puts[i] == row;
    assert(keys[i] == row.key);
    assert(entry_deletions(indexes, store, key, Some(doc))[i] == deletion(row.key));
}

/// The entries of an index are among those of all the indexes.
proof fn lemma_entry_among(
    indexes: Seq<IndexDef>,
    store: Seq<u8>,
    key: Seq<u8>,
    doc: JsonValue,
    k: int,
    j: int,
)
    requires
        0 <= k < indexes.len(),
        0 <= j < index_values(doc, indexes[k]).len(),
    ensures
        all_entry_keys(indexes, store, key, doc).contains(
            encoding::idx_key_bytes(
                store,
                text::utf8(indexes[k].name@),
                encoding::composite_bytes(index_values(doc, indexes[k])[j]),
                key,
            ),
        ),
    decreases indexes.len(),
{
    let front = indexes.drop_last();
    let before = all_entry_keys(front, store, key, doc);
    let mine = entry_keys(indexes.last(), store, key, doc);
    let all = all_entry_keys(indexes, store, key, doc);
    if k < front.len() {
        assert(front[k] == indexes[k]);
        lemma_entry_among(front, store, key, doc, k, j);
        let wanted = encoding::idx_key_bytes(
            store,
            text::utf8(indexes[k].name@),
            encoding::composite_bytes(index_values(doc, indexes[k])[j]),
            key,
        );
        let i = choose|i: int| 0 <= i < before.len() && before[i] == wanted;
        assert(all[i] == before[i]);
    } else {
        assert(all[before.len() + j] == mine[j]);
    }
}

/// A document that is put is found under each of its rows in each index: a put without
/// an error writes, for every row, an entry under the row's value that names the
/// document, and the document itself.
pub proof fn law_put_indexes_rows(
    indexes: Seq<IndexDef>,
    store: Seq<u8>,
    key: Seq<u8>,
    doc_bytes: Seq<u8>,
    doc: JsonValue,
    old_doc: Option<JsonValue>,
    found: Seq<ProbeResult>,
    r: Result<Vec<InternalRecord>, FlowError>,
    k: int,
    j: int,
)
    requires
        puts(indexes, store, key, doc_bytes, doc, old_doc, found, r),
        r is Ok,
        0 <= k < indexes.len(),
        0 <= j < index_values(doc, indexes[k]).len(),
    ensures
        ({
            let rows = record::views(r->Ok_0@);
            let entry = encoding::idx_key_bytes(
                store,
                text::utf8(indexes[k].name@),
                encoding::composite_bytes(index_values(doc, indexes[k])[j]),
                key,
            );
            &&& exists|i: int|
                0 <= i < rows.len() && (#[trigger] rows[i]).op == Op::Put && rows[i].key == entry
                    && rows[i].value == key && forall|m: int|
                    i < m < rows.len() && (#[trigger] rows[m]).key == entry ==> rows[m].op
                        == Op::Put && rows[m].value == key
            &&& exists|i: int|
                0 <= i < rows.len() && (#[trigger] rows[i]).op == Op::Put && rows[i].key
                    == encoding::doc_key_bytes(store, key) && rows[i].value == doc_bytes
        }),
{
    let rows = record::views(r->Ok_0@);
    let gone = entry_deletions(indexes, store, key, old_doc);
    let put = insertion(encoding::doc_key_bytes(store, key), doc_bytes);
    let added = entry_insertions(indexes, store, key, doc);
    let keys = all_entry_keys(indexes, store, key, doc);
    let entry = encoding::idx_key_bytes(
        store,
        text::utf8(indexes[k].name@),
        encoding::composite_bytes(index_values(doc, indexes[k])[j]),
        key,
    );
    let n = gone.len() as int;
    assert(rows == gone + seq![put] + added);
    assert(rows[n] == put);
    lemma_entry_among(indexes, store, key, doc, k, j);
    let i = choose|i: int| 0 <= i < keys.len() && keys[i] == entry;
    assert(added[i] == insertion(entry, key));
    assert(rows[n + 1 + i] == added[i]);
    assert forall|m: int|
        n + 1 + i < m < rows.len() && (#[trigger] rows[m]).key == entry implies rows[m].op
        == Op::Put && rows[m].value == key by {
        assert(rows[m] == added[m - n - 1]);
        assert(added[m - n - 1] == insertion(keys[m - n - 1], key));
    }
}

/// A document that is replaced or deleted is no longer found under its old rows: for each
/// of them there is a tombstone for its entry, before anything that the put writes.
pub proof fn law_old_rows_deleted(
    indexes: Seq<IndexDef>,
    store: Seq<u8>,
    key: Seq<u8>,
    old_doc: JsonValue,
    k: int,
    j: int,
)
    requires
        0 <= k < indexes.len(),
        0 <= j < index_values(old_doc, indexes[k]).len(),
    ensures
        exists|i: int|
            0 <= i < entry_deletions(indexes, store, key, Some(old_doc)).len() && (
            #[trigger] entry_deletions(indexes, store, key, Some(old_doc))[i]).op == Op::Delete
                && entry_deletions(indexes, store, key, Some(old_doc))[i].key
                == encoding::idx_key_bytes(
                store,
                text::utf8(indexes[k].name@),
                encoding::composite_bytes(index_values(old_doc, indexes[k])[j]),
                key,
            ),
{
    let keys = all_entry_keys(indexes, store, key, old_doc);
    let rows = entry_deletions(indexes, store, key, Some(old_doc));
    lemma_entry_among(indexes, store, key, old_doc, k, j);
    let entry = encoding::idx_key_bytes(
        store,
        text::utf8(indexes[k].name@),
        encoding::composite_bytes(index_values(old_doc, indexes[k])[j]),
        key,
    );
    let i = choose|i: int| 0 <= i < keys.len() && keys[i] == entry;
    assert(rows[i] == deletion(entry));
}

/// A put is refused where, and only where, a probe found an entry that names another
/// document; the first such probe is told.
pub proof fn law_refused_when_taken(found: Seq<ProbeResult>, key: Seq<u8>)
    ensures
        match first_taken(found, key) {
            Some(i) => {
                &&& 0 <= i < found.len()
                &&& exists|j: int|
                    0 <= j < found[i].entries@.len() && (#[trigger] found[i].entries@[j]).value@ != key
                &&& forall|k: int, j: int|
                    0 <= k < i && 0 <= j < found[k].entries@.len() ==> (
                    #[trigger] found[k].entries@[j]).value@ == key
            },
            None => forall|k: int, j: int|
                0 <= k < found.len() && 0 <= j < found[k].entries@.len() ==> (
                #[trigger] found[k].entries@[j]).value@ == key,
        },
    decreases found.len(),
{
    if found.len() > 0 {
        let front = found.drop_last();
        law_refused_when_taken(front, key);
        assert(found[found.len() - 1] == found.last());
        assert forall|k: int| 0 <= k < front.len() implies #[trigger] found[k] == front[k] by {}
        if first_taken(front, key) is None {
            assert forall|k: int, j: int|
                0 <= k < front.len() && 0 <= j < found[k].entries@.len() implies (
            #[trigger] found[k].entries@[j]).value@ == key by {
                assert(found[k] == front[k]);
            }
        } else {
            let i = first_taken(front, key)->0;
            assert forall|k: int, j: int| 0 <= k < i && 0 <= j < found[k].entries@.len() implies (
            #[trigger] found[k].entries@[j]).value@ == key by {
                assert(found[k] == front[k]);
            }
            assert(found[i] == front[i]);
        }
    }
}

/// Every row of a document in a unique index is looked for, in the range in which an entry
/// of any document with that value stands.
pub proof fn law_unique_rows_probed(
    indexes: Seq<IndexDef>,
    store: Seq<u8>,
    doc: JsonValue,
    k: int,
    j: int,
    other: Seq<u8>,
)
    requires
        0 <= k < indexes.len(),
        indexes[k].unique,
        0 <= j < index_values(doc, indexes[k]).len(),
    ensures
        exists|i: int|
            0 <= i < all_probes(indexes, store, doc).len() && (#[trigger] all_probes(
                indexes,
                store,
                doc,
            )[i]).0 == indexes[k].name@ && bytes::has_prefix(
                encoding::idx_key_bytes(
                    store,
                    text::utf8(indexes[k].name@),
                    encoding::composite_bytes(index_values(doc, indexes[k])[j]),
                    other,
                ),
                all_probes(indexes, store, doc)[i].1,
            ),
    decreases indexes.len(),
{
    let front = indexes.drop_last();
    let before = all_probes(front, store, doc);
    let mine = index_probes(indexes.last(), store, doc);
    let all = all_probes(indexes, store, doc);
    let entry = encoding::idx_key_bytes(
        store,
        text::utf8(indexes[k].name@),
        encoding::composite_bytes(index_values(doc, indexes[k])[j]),
        other,
    );
    if k < front.len() {
        assert(front[k] == indexes[k]);
        law_unique_rows_probed(front, store, doc, k, j, other);
        let i = choose|i: int|
            0 <= i < before.len() && (#[trigger] before[i]).0 == indexes[k].name@
                && bytes::has_prefix(entry, before[i].1);
        assert(all[i] == before[i]);
    } else {
        encoding::law_index_value_prefix(
            store,
            text::utf8(indexes[k].name@),
            encoding::composite_bytes(index_values(doc, indexes[k])[j]),
            Seq::empty(),
            other,
        );
        assert(all[before.len() + j] == mine[j]);
    }
}

/// A counter counts up: it begins with one, and where it gave a number and what it kept
/// is read again, it gives the next.
pub proof fn law_counter_counts_up(
    store: &str,
    first: Result<(u64, InternalRecord), FlowError>,
    second: Result<(u64, InternalRecord), FlowError>,
    current: Option<RecordView>,
)
    requires
        counted(current, store, first),
        first is Ok,
        first->Ok_0.0 < u64::MAX,
        counted(Some(first->Ok_0.1@.record()), store, second),
    ensures
        current is None ==> first->Ok_0.0 == 1,
        second matches Ok((n, rec)) && n == first->Ok_0.0 + 1 && rec@.key == first->Ok_0.1@.key
            && rec@.op == Op::Put,
{
    let n = first->Ok_0.0;
    law_counter_counts(bytes::be_bytes(n as nat, 8), n as nat);
}

} // verus!
