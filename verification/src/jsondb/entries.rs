//! What the calls on documents, their keys and their index entries promise: which entries
//! a document has, how they are ordered, and what is written and deleted with it.

use vstd::prelude::*;
use vstd::string::*;
use crate::bytes;
use crate::calls;
use crate::engine;
use crate::engine::Engine;
use crate::error::FlowError;
use crate::jsondb::derive::{FieldAttrs, MetaItem};
use crate::jsondb::encoding;
use crate::jsondb::encoding::JsonValue;
use crate::jsondb::helpers;
use crate::jsondb::helpers::{ProbeResult, UniqueProbe};
use crate::jsondb::json;
use crate::jsondb::numbers;
use crate::jsondb::schema;
use crate::jsondb::schema::{IndexDef, Schema, StoreDef};
use crate::jsondb::written;
use crate::lookup::{LookupView, Table};
use crate::record;
use crate::record::{InternalRecord, InternalRecordView, KeyFilter, Op, Query, Record, ScanRange};
use crate::scan::ScanIterator;
use crate::text;

verus! {

/// A document has an entry for each item of an array that an index takes item by item.
/// Else it has one entry with all the fields that the index names, or none where it lacks
/// one of them.
pub proof fn law_entries_extracted<'a>(
    doc: &'a JsonValue,
    idx: &IndexDef,
    r: Vec<Vec<&'a JsonValue>>,
    k: int,
    path: &str,
    found: Option<&'a JsonValue>,
    i: int,
)
    requires
        call_ensures(helpers::extract_index_values, (doc, idx), r),
        0 <= k < idx.key_paths.len(),
        path@ == idx.key_paths@[k]@,
        call_ensures(encoding::extract_field, (doc, path), found),
    ensures
        found is None ==> r.len() == 0,
        idx.multi_entry && idx.key_paths.len() == 1 ==> (found matches Some(
            JsonValue::Array { items },
        ) ==> r.len() == items.len() && (0 <= i < items.len() ==> r@[i].len() == 1 && *r@[i]@[0]
            == items@[i])),
        !(idx.multi_entry && idx.key_paths.len() == 1 && found matches Some(
            JsonValue::Array { .. },
        )) && r.len() > 0 ==> {
            &&& r.len() == 1
            &&& r@[0].len() == idx.key_paths.len()
            &&& found == Some(r@[0]@[k])
        },
{
    let rows = helpers::row_values(r@);
    assert(rows.len() == r.len());
    if idx.multi_entry && idx.key_paths.len() == 1 && found matches Some(
        JsonValue::Array { items },
    ) {
        let items = found->0->items;
        helpers::law_each_item_indexed(*doc, *idx, items);
    } else {
        helpers::law_one_row_indexed(*doc, *idx);
        if r.len() > 0 {
            assert(rows[0] == encoding::values_of(r@[0]@));
            assert(rows[0].len() == r@[0].len());
            assert(rows[0][k] == *r@[0]@[k]);
        }
    }
}

/// The key of a document begins as the keys of its store's documents do, and ends with its
/// own key; it tells both where the names of the stores are valid.
pub proof fn law_document_keys(
    store: &str,
    key: &[u8],
    other: &str,
    other_key: &[u8],
    a: Vec<u8>,
    b: Vec<u8>,
    prefix: Vec<u8>,
    x: Result<(), FlowError>,
    y: Result<(), FlowError>,
)
    requires
        call_ensures(encoding::doc_key, (store, key), a),
        call_ensures(encoding::doc_key, (other, other_key), b),
        call_ensures(encoding::doc_prefix, (store,), prefix),
        call_ensures(encoding::validate_name, (store,), x),
        call_ensures(encoding::validate_name, (other,), y),
    ensures
        a@ == prefix@ + key@,
        x is Ok && y is Ok && a@ == b@ ==> store.spec_bytes() == other.spec_bytes() && key@
            == other_key@,
        x is Ok && y is Ok ==> (prefix@.is_prefix_of(b@) <==> store.spec_bytes()
            == other.spec_bytes()),
{
    if x is Ok && y is Ok {
        if a@ == b@ {
            encoding::law_doc_keys_distinct(
                store.spec_bytes(),
                key@,
                other.spec_bytes(),
                other_key@,
            );
        }
        encoding::law_doc_prefix(store.spec_bytes(), other.spec_bytes(), other_key@);
        bytes::law_prefix(b@, prefix@);
    }
}

/// The key of an index entry begins as the keys of the index do, and of those with its
/// value, and ends with the key of the document. The keys of documents, entries, schemas
/// and counters are told apart by their first byte.
pub proof fn law_entry_keys(
    store: &str,
    index: &str,
    value: &[u8],
    key: &[u8],
    entry: Vec<u8>,
    of_index: Vec<u8>,
    of_value: Vec<u8>,
    document: Vec<u8>,
    schema: Vec<u8>,
    counter: Vec<u8>,
    schemas: [u8; 1],
)
    requires
        call_ensures(encoding::idx_key, (store, index, value, key), entry),
        call_ensures(encoding::idx_prefix, (store, index), of_index),
        call_ensures(encoding::idx_value_prefix, (store, index, value), of_value),
        call_ensures(encoding::doc_key, (store, key), document),
        call_ensures(encoding::schema_key, (store,), schema),
        call_ensures(encoding::counter_key, (store,), counter),
        call_ensures(encoding::schema_prefix, (), schemas),
    ensures
        entry@ == of_value@ + key@,
        of_index@.is_prefix_of(of_value@),
        of_value@.len() == of_index@.len() + value@.len() + 1,
        of_value@.subrange(of_index@.len() as int, of_value@.len() - 1) == value@,
        schemas@.is_prefix_of(schema@),
        schema@.skip(1) == store.spec_bytes(),
        counter@.skip(1) == store.spec_bytes(),
        entry@[0] != document@[0] && entry@[0] != schema@[0] && entry@[0] != counter@[0],
        document@[0] != schema@[0] && document@[0] != counter@[0] && schema@[0] != counter@[0],
{
    assert(of_value@.subrange(of_index@.len() as int, of_value@.len() - 1) =~= value@);
    assert(schema@.skip(1) =~= store.spec_bytes());
    assert(counter@.skip(1) =~= store.spec_bytes());
}

/// A name is accepted where it is of 1 to 255 bytes, each a letter, a digit, an underscore
/// or a dash.
pub proof fn law_name_accepted(name: &str, r: Result<(), FlowError>)
    requires
        call_ensures(encoding::validate_name, (name,), r),
    ensures
        r is Ok <==> 0 < name.spec_bytes().len() <= 255 && forall|i: int|
            0 <= i < name.spec_bytes().len() ==> {
                let b = #[trigger] name.spec_bytes()[i];
                97 <= b <= 122 || 65 <= b <= 90 || 48 <= b <= 57 || b == 95 || b == 45
            },
        r matches Err(e) ==> e is JsonDb,
{
    let s = name.spec_bytes();
    assert forall|i: int| 0 <= i < s.len() implies encoding::name_byte(#[trigger] s[i]) == (97
        <= s[i] <= 122 || 65 <= s[i] <= 90 || 48 <= s[i] <= 57 || s[i] == 95 || s[i] == 45) by {}
    if encoding::valid_name(s) {
        assert forall|i: int| 0 <= i < s.len() implies ({
            let b = #[trigger] s[i];
            97 <= b <= 122 || 65 <= b <= 90 || 48 <= b <= 57 || b == 95 || b == 45
        }) by {
            assert(encoding::name_byte(s[i]));
        }
    }
}

/// A scan by a prefix of keys asks for exactly the keys that begin so, at all times.
pub proof fn law_prefix_scanned(
    prefix: &[u8],
    range: &ScanRange,
    p: (KeyFilter, Option<(i64, i64)>),
    key: Seq<u8>,
    ts: i64,
)
    requires
        call_ensures(encoding::prefix_range, (prefix,), *range),
        call_ensures(ScanRange::to_query_params, (range,), p),
    ensures
        calls::asks(p.0@, p.1, key, ts) <==> prefix@.is_prefix_of(key),
{
    bytes::law_prefix(key, prefix@);
}

/// Values stand in an index in the order of their kinds: nothing, the truth values,
/// numbers, texts, and the rest.
pub proof fn law_kinds_ordered(
    number: JsonValue,
    string: String,
    other: JsonValue,
    a: Vec<u8>,
    f: Vec<u8>,
    t: Vec<u8>,
    n: Vec<u8>,
    s: Vec<u8>,
    o: Vec<u8>,
)
    requires
        call_ensures(encoding::encode_index_value, (&JsonValue::Null,), a),
        call_ensures(encoding::encode_index_value, (&JsonValue::Bool(false),), f),
        call_ensures(encoding::encode_index_value, (&JsonValue::Bool(true),), t),
        number is Int || number is UInt || number is Float,
        call_ensures(encoding::encode_index_value, (&number,), n),
        call_ensures(encoding::encode_index_value, (&JsonValue::Str(string),), s),
        other is Array || other is Object,
        call_ensures(encoding::encode_index_value, (&other,), o),
    ensures
        bytes::lex_lt(a@, f@),
        bytes::lex_lt(f@, t@),
        bytes::lex_lt(t@, n@),
        bytes::lex_lt(n@, s@),
        bytes::lex_lt(s@, o@),
{
    encoding::law_kind_order(JsonValue::Null, JsonValue::Bool(false));
    encoding::law_kind_order(JsonValue::Bool(false), JsonValue::Bool(true));
    encoding::law_kind_order(JsonValue::Bool(true), number);
    encoding::law_kind_order(number, JsonValue::Str(string));
    encoding::law_kind_order(JsonValue::Str(string), other);
}

/// Integers stand in an index in their order, whether they are signed or not, and texts in
/// the order of their bytes.
pub proof fn law_values_ordered(
    m: i64,
    n: i64,
    u: u64,
    v: u64,
    s: String,
    w: String,
    a: Vec<u8>,
    b: Vec<u8>,
    c: Vec<u8>,
    d: Vec<u8>,
    x: Vec<u8>,
    y: Vec<u8>,
)
    requires
        call_ensures(encoding::encode_index_value, (&JsonValue::Int(m),), a),
        call_ensures(encoding::encode_index_value, (&JsonValue::Int(n),), b),
        call_ensures(encoding::encode_index_value, (&JsonValue::UInt(u),), c),
        call_ensures(encoding::encode_index_value, (&JsonValue::UInt(v),), d),
        call_ensures(encoding::encode_index_value, (&JsonValue::Str(s),), x),
        call_ensures(encoding::encode_index_value, (&JsonValue::Str(w),), y),
    ensures
        m < n ==> bytes::lex_lt(a@, b@),
        u < v ==> bytes::lex_lt(c@, d@),
        m < u ==> bytes::lex_lt(a@, c@),
        u < m ==> bytes::lex_lt(c@, a@),
        m == u ==> a@ == c@,
        bytes::lex_lt(x@, y@) <==> bytes::lex_lt(text::utf8(s@), text::utf8(w@)),
{
    if m < n {
        encoding::law_integer_order(JsonValue::Int(m), JsonValue::Int(n));
    }
    if u < v {
        encoding::law_integer_order(JsonValue::UInt(u), JsonValue::UInt(v));
    }
    if m < u {
        encoding::law_integer_order(JsonValue::Int(m), JsonValue::UInt(u));
    }
    if u < m {
        encoding::law_integer_order(JsonValue::UInt(u), JsonValue::Int(m));
    }
    encoding::law_text_order(s, w);
}

/// A store that is defined has the name, the key path and the indexes that it was given,
/// in order.
pub proof fn law_store_defined(
    name: &str,
    key_path: &str,
    index: &str,
    paths: &[&str],
    unique: bool,
    plain: StoreDef,
    indexed: StoreDef,
    counting: StoreDef,
    k: int,
)
    requires
        call_ensures(StoreDef::new, (name, key_path), plain),
        call_ensures(StoreDef::with_index, (plain, index, paths, unique), indexed),
        call_ensures(StoreDef::with_auto_increment, (indexed,), counting),
    ensures
        indexed.name@ == name@ && indexed.key_path@ == key_path@ && !indexed.auto_increment,
        indexed.indexes.len() == 1,
        indexed.indexes@[0].name@ == index@ && indexed.indexes@[0].unique == unique,
        !indexed.indexes@[0].multi_entry,
        indexed.indexes@[0].key_paths.len() == paths@.len(),
        0 <= k < paths@.len() ==> indexed.indexes@[0].key_paths@[k]@ == paths@[k]@,
        counting.auto_increment,
        counting.name == indexed.name && counting.key_path == indexed.key_path && counting.indexes
            == indexed.indexes,
{
    let texts = schema::path_texts(indexed.indexes@.last().key_paths@);
    assert(texts.len() == indexed.indexes@.last().key_paths.len());
    if 0 <= k < paths@.len() {
        assert(texts[k] == indexed.indexes@.last().key_paths@[k]@);
    }
}

proof fn lemma_store_at(stores: Seq<StoreDef>, name: Seq<char>)
    ensures
        match schema::store_at(stores, name) {
            Some(i) => 0 <= i < stores.len() && stores[i].name@ == name,
            None => forall|k: int| 0 <= k < stores.len() ==> (#[trigger] stores[k]).name@ != name,
        },
    decreases stores.len(),
{
    if stores.len() > 0 {
        let front = stores.drop_last();
        lemma_store_at(front, name);
        assert(stores[stores.len() - 1] == stores.last());
        assert forall|k: int| 0 <= k < front.len() implies #[trigger] stores[k] == front[k] by {}
    }
}

/// A definition that is put into a schema is found by its name, and those of other names
/// stay.
pub proof fn law_schema_entered(
    s: &mut Schema,
    def: StoreDef,
    name: &str,
    before: Option<&StoreDef>,
    after: Option<&StoreDef>,
)
    requires
        old(s).wf(),
        call_ensures(Schema::get, (old(s), name), before),
        call_ensures(Schema::insert, (s, def), ()),
        call_ensures(Schema::get, (final(s), name), after),
    ensures
        name@ == def.name@ ==> (after matches Some(found) && *found == def),
        name@ != def.name@ ==> (before is Some <==> after is Some),
        name@ != def.name@ ==> before is Some ==> *before->0 == *after->0,
{
    let x = old(s).stores();
    let y = final(s).stores();
    if name@ == def.name@ {
        schema::law_insert_found(*old(s), *final(s), def);
    } else {
        lemma_store_at(x, name@);
        lemma_store_at(y, name@);
        lemma_store_at(x, def.name@);
        if let Some(i) = schema::store_at(x, name@) {
            assert(y[i] == x[i]);
        }
        if let Some(j) = schema::store_at(y, name@) {
            if j < x.len() {
                assert(x[j] == y[j]);
            }
        }
    }
}

/// A definition that is taken out of a schema is given back and found no more, and those
/// of other names stay.
pub proof fn law_schema_removed(
    s: &mut Schema,
    gone: &str,
    name: &str,
    r: Option<StoreDef>,
    before: Option<&StoreDef>,
    after: Option<&StoreDef>,
)
    requires
        old(s).wf(),
        call_ensures(Schema::get, (old(s), name), before),
        call_ensures(Schema::remove, (s, gone), r),
        call_ensures(Schema::get, (final(s), name), after),
    ensures
        name@ == gone@ ==> after is None && (r is Some <==> before is Some),
        name@ == gone@ && before is Some ==> r->0 == *before->0,
        name@ != gone@ ==> (before is Some <==> after is Some),
        name@ != gone@ && before is Some ==> *before->0 == *after->0,
{
    let x = old(s).stores();
    let y = final(s).stores();
    lemma_store_at(x, name@);
    lemma_store_at(y, name@);
    lemma_store_at(x, gone@);
    if let Some(i) = schema::store_at(x, gone@) {
        if let Some(j) = schema::store_at(x, name@) {
            if j < i {
                assert(y[j] == x[j]);
            } else if j > i {
                assert(y[j - 1] == x[j]);
            }
        }
        if let Some(j) = schema::store_at(y, name@) {
            if j < i {
                assert(y[j] == x[j]);
            } else {
                assert(y[j] == x[j + 1]);
            }
        }
    }
}

/// Of the definitions that are loaded, the last of each name is found.
pub proof fn law_schemas_loaded(
    defs: Vec<StoreDef>,
    s: &Schema,
    k: int,
    name: &str,
    r: Option<&StoreDef>,
)
    requires
        call_ensures(schema::load_schemas, (defs,), *s),
        0 <= k < defs.len(),
        forall|j: int| k < j < defs.len() ==> (#[trigger] defs@[j]).name@ != defs@[k].name@,
        name@ == defs@[k].name@,
        call_ensures(Schema::get, (s, name), r),
    ensures
        r matches Some(found) && *found == defs@[k],
{
    schema::law_last_definition_counts(defs@, k);
}

/// A definition is accepted where its name is and its key path is not empty; that of an
/// index, where the store has none of that name besides.
pub proof fn law_definitions_accepted(
    store: &StoreDef,
    name: &str,
    key_path: &str,
    named: Result<(), FlowError>,
    of_store: Result<(), FlowError>,
    of_index: Result<(), FlowError>,
)
    requires
        call_ensures(encoding::validate_name, (name,), named),
        call_ensures(schema::validate_store_def, (name, key_path), of_store),
        call_ensures(schema::validate_index_def, (store, name, key_path), of_index),
    ensures
        of_store is Ok <==> named is Ok && key_path.spec_bytes().len() > 0,
        of_index is Ok <==> of_store is Ok && forall|i: int|
            0 <= i < store.indexes.len() ==> (#[trigger] store.indexes@[i]).name@ != name@,
{
}

/// A schema is written under its key, and deleted there.
pub proof fn law_schema_written(
    store: &str,
    json: Vec<u8>,
    key: Vec<u8>,
    put: Record,
    deleted: InternalRecord,
)
    requires
        call_ensures(encoding::schema_key, (store,), key),
        call_ensures(schema::schema_record, (store, json), put),
        call_ensures(schema::schema_delete_record, (store,), deleted),
    ensures
        put@.key == key@ && put@.value == json@ && put@.expire_at == i64::MAX,
        deleted@.op == Op::Delete && deleted@.key == key@ && deleted@.ts == put@.ts,
{
}

/// A counter counts from one on, by one, and what it writes is what it counts on from.
pub proof fn law_counter_prepared(
    store: &str,
    key: Vec<u8>,
    first: Result<(u64, InternalRecord), FlowError>,
    current: Option<&[u8]>,
    a: Result<(u64, InternalRecord), FlowError>,
    stored: &[u8],
    b: Result<(u64, InternalRecord), FlowError>,
)
    requires
        call_ensures(encoding::counter_key, (store,), key),
        call_ensures(helpers::prepare_counter, (None::<&[u8]>, store), first),
        call_ensures(helpers::prepare_counter, (current, store), a),
        a is Ok,
        a->Ok_0.0 < u64::MAX,
        stored@ == a->Ok_0.1@.value,
        call_ensures(helpers::prepare_counter, (Some(stored), store), b),
    ensures
        first matches Ok((n, rec)) && n == 1,
        a->Ok_0.1@.key == key@ && a->Ok_0.1@.op == Op::Put && a->Ok_0.1@.expire_at == i64::MAX,
        b matches Ok((n, rec)) && n == a->Ok_0.0 + 1 && rec@.key == key@,
{
    helpers::law_counter_counts(stored@, a->Ok_0.0 as nat);
}

/// Documents that are written the same are the same, where they are such as a parse gives.
pub proof fn law_documents_told(
    a: &JsonValue,
    b: &JsonValue,
    reads: spec_fn(Seq<char>) -> u64,
    x: Result<Vec<u8>, FlowError>,
    y: Result<Vec<u8>, FlowError>,
)
    requires
        written::as_parsed(*a, reads),
        written::as_parsed(*b, reads),
        call_ensures(json::encode_doc, (a,), x),
        call_ensures(json::encode_doc, (b,), y),
    ensures
        x matches Ok(p) && (y matches Ok(q) && (p@ == q@ <==> encoding::same_value(*a, *b))),
{
    if x->Ok_0@ == y->Ok_0@ {
        written::law_bytes_tell_document(*a, *b, reads);
    }
    if encoding::same_value(*a, *b) {
        json::lemma_same_text(*a, *b);
    }
}

/// A copy of a value is written as the value is, and stands at its place in an index.
pub proof fn law_value_copied(
    value: &JsonValue,
    copy: JsonValue,
    x: String,
    y: String,
    a: Vec<u8>,
    b: Vec<u8>,
)
    requires
        call_ensures(encoding::copy_value, (value,), copy),
        call_ensures(json::write_json, (value,), x),
        call_ensures(json::write_json, (&copy,), y),
        call_ensures(encoding::encode_index_value, (value,), a),
        call_ensures(encoding::encode_index_value, (&copy,), b),
    ensures
        x@ == y@,
        a@ == b@,
{
    json::lemma_same_text(*value, copy);
    encoding::lemma_same_bytes(*value, copy);
}

/// What deletes a document deletes the row under its key, and the entry of each of its
/// rows in each index.
pub proof fn law_document_deleted(
    def: &StoreDef,
    store: &str,
    key: &[u8],
    doc: &JsonValue,
    r: Vec<InternalRecord>,
    at: Vec<u8>,
    k: int,
    values: Vec<Vec<&JsonValue>>,
    j: int,
    value: Vec<u8>,
    index: &str,
    data: &[u8],
    entry: Vec<u8>,
)
    requires
        call_ensures(helpers::delete_records, (def, store, key, Some(doc)), r),
        call_ensures(encoding::doc_key, (store, key), at),
        0 <= k < def.indexes.len(),
        call_ensures(helpers::extract_index_values, (doc, &def.indexes@[k]), values),
        0 <= j < values.len(),
        call_ensures(encoding::encode_composite_value, (&values@[j],), value),
        index@ == def.indexes@[k].name@,
        data@ == value@,
        call_ensures(encoding::idx_key, (store, index, data, key), entry),
    ensures
        exists|i: int|
            0 <= i < r.len() && (#[trigger] r@[i])@.op == Op::Delete && r@[i]@.key == at@,
        exists|i: int|
            0 <= i < r.len() && (#[trigger] r@[i])@.op == Op::Delete && r@[i]@.key == entry@,
{
    let rows = record::views(r@);
    assert(rows.len() == r.len());
    let lists = helpers::row_values(values@);
    assert(lists[j] == encoding::values_of(values@[j]@));
    assert(lists.len() == values.len());
    helpers::law_old_rows_deleted(def.indexes@, store.spec_bytes(), key@, *doc, k, j);
    let gone = helpers::entry_deletions(def.indexes@, store.spec_bytes(), key@, Some(*doc));
    let i = choose|i: int|
        0 <= i < gone.len() && (#[trigger] gone[i]).op == Op::Delete && gone[i].key
            == encoding::idx_key_bytes(
            store.spec_bytes(),
            text::utf8(def.indexes@[k].name@),
            encoding::composite_bytes(helpers::index_values(*doc, def.indexes@[k])[j]),
            key@,
        );
    assert(rows[i] == gone[i]);
    assert(r@[i]@ == rows[i]);
    assert(r@[gone.len() as int]@ == rows[gone.len() as int]);
}

/// What puts a document puts its bytes under its key, and, for each of its rows in each
/// index, an entry that leads to the key and that nothing behind it deletes.
pub proof fn law_document_put(
    def: &StoreDef,
    store: &str,
    key: &[u8],
    doc_bytes: &[u8],
    doc: &JsonValue,
    old_doc: Option<&JsonValue>,
    found: &Vec<ProbeResult>,
    r: Result<Vec<InternalRecord>, FlowError>,
    at: Vec<u8>,
    k: int,
    values: Vec<Vec<&JsonValue>>,
    j: int,
    value: Vec<u8>,
    index: &str,
    data: &[u8],
    entry: Vec<u8>,
)
    requires
        call_ensures(
            helpers::put_records,
            (def, store, key, doc_bytes, doc, old_doc, found),
            r,
        ),
        r is Ok,
        call_ensures(encoding::doc_key, (store, key), at),
        0 <= k < def.indexes.len(),
        call_ensures(helpers::extract_index_values, (doc, &def.indexes@[k]), values),
        0 <= j < values.len(),
        call_ensures(encoding::encode_composite_value, (&values@[j],), value),
        index@ == def.indexes@[k].name@,
        data@ == value@,
        call_ensures(encoding::idx_key, (store, index, data, key), entry),
    ensures
        ({
            let rows = record::views(r->Ok_0@);
            &&& exists|i: int|
                0 <= i < rows.len() && (#[trigger] rows[i]).op == Op::Put && rows[i].key == at@
                    && rows[i].value == doc_bytes@
            &&& exists|i: int|
                0 <= i < rows.len() && (#[trigger] rows[i]).op == Op::Put && rows[i].key == entry@
                    && rows[i].value == key@ && forall|m: int|
                    i < m < rows.len() && (#[trigger] rows[m]).key == entry@ ==> rows[m].op
                        == Op::Put && rows[m].value == key@
        }),
{
    let lists = helpers::row_values(values@);
    assert(lists[j] == encoding::values_of(values@[j]@));
    assert(lists.len() == values.len());
    helpers::law_put_indexes_rows(
        def.indexes@,
        store.spec_bytes(),
        key@,
        doc_bytes@,
        *doc,
        encoding::opt_value(old_doc),
        found@,
        r,
        k,
        j,
    );
}

/// A put is refused exactly where what was found under a unique value leads to another key.
pub proof fn law_put_refused(
    def: &StoreDef,
    store: &str,
    key: &[u8],
    doc_bytes: &[u8],
    doc: &JsonValue,
    old_doc: Option<&JsonValue>,
    found: &Vec<ProbeResult>,
    r: Result<Vec<InternalRecord>, FlowError>,
    i: int,
    j: int,
)
    requires
        call_ensures(
            helpers::put_records,
            (def, store, key, doc_bytes, doc, old_doc, found),
            r,
        ),
    ensures
        0 <= i < found.len() && 0 <= j < found@[i].entries.len() && found@[i].entries@[j].value@
            != key@ ==> r is Err,
        r is Err ==> exists|k: int, m: int|
            0 <= k < found.len() && 0 <= m < found@[k].entries.len() && (
            #[trigger] found@[k].entries@[m]).value@ != key@,
        r matches Err(e) ==> e is JsonDb,
{
    helpers::law_refused_when_taken(found@, key@);
    if 0 <= i < found.len() && 0 <= j < found@[i].entries.len() {
        assert(found@[i].entries@[j].value@ == found@[i].entries@[j].value@);
    }
}

/// Whole numbers have their places in their order, the negative ones below the others.
pub proof fn law_places_ordered(a: u64, b: u64, x: u128, y: u128, p: u128, q: u128)
    requires
        call_ensures(numbers::integer_place, (false, a), x),
        call_ensures(numbers::integer_place, (false, b), y),
        call_ensures(numbers::integer_place, (true, a), p),
        call_ensures(numbers::integer_place, (true, b), q),
        0 < a <= 0x8000_0000_0000_0000,
        0 < b <= 0x8000_0000_0000_0000,
    ensures
        a < b ==> x < y,
        a < b ==> q < p,
        p < x,
{
    if a < b {
        numbers::law_integers_ordered(a as int, b as int);
        numbers::law_integers_ordered(-(b as int), -(a as int));
    }
    numbers::law_integers_ordered(-(a as int), a as int);
}

/// A text and a whole number are keys as they are written; different ones are different
/// keys, and a number is the same key whether it is signed or not.
pub proof fn law_primary_keys(
    s: String,
    t: String,
    m: i64,
    n: i64,
    u: u64,
    a: Vec<u8>,
    b: Vec<u8>,
    x: Vec<u8>,
    y: Vec<u8>,
    z: Vec<u8>,
)
    requires
        call_ensures(encoding::encode_primary_key, (&JsonValue::Str(s),), a),
        call_ensures(encoding::encode_primary_key, (&JsonValue::Str(t),), b),
        call_ensures(encoding::encode_primary_key, (&JsonValue::Int(m),), x),
        call_ensures(encoding::encode_primary_key, (&JsonValue::Int(n),), y),
        call_ensures(encoding::encode_primary_key, (&JsonValue::UInt(u),), z),
    ensures
        a@ == text::utf8(s@),
        a@ == b@ <==> s@ == t@,
        x@ == y@ <==> m == n,
        m == u ==> x@ == z@,
{
    encoding::law_primary_keys_apart(s, t);
    assert(encoding::primary_key_bytes(JsonValue::Int(m)) == x@);
    assert(encoding::primary_key_bytes(JsonValue::Int(n)) == y@);
    assert(encoding::primary_key_bytes(JsonValue::UInt(u)) == z@);
}

proof fn lemma_no_probes(indexes: Seq<IndexDef>, store: Seq<u8>, doc: JsonValue)
    requires
        forall|k: int| 0 <= k < indexes.len() ==> !(#[trigger] indexes[k]).unique,
    ensures
        helpers::all_probes(indexes, store, doc).len() == 0,
    decreases indexes.len(),
{
    if indexes.len() > 0 {
        let front = indexes.drop_last();
        assert forall|k: int| 0 <= k < front.len() implies !(#[trigger] front[k]).unique by {
            assert(front[k] == indexes[k]);
        }
        assert(!indexes[indexes.len() - 1].unique);
        lemma_no_probes(front, store, doc);
    }
}

/// A document is probed for under each of its rows in each unique index, by a range that
/// holds the entries with the row's value, and under nothing where no index is unique.
pub proof fn law_uniqueness_probed(
    def: &StoreDef,
    store: &str,
    doc: &JsonValue,
    r: Vec<UniqueProbe>,
    k: int,
    values: Vec<Vec<&JsonValue>>,
    j: int,
    value: Vec<u8>,
    index: &str,
    data: &[u8],
    other: &[u8],
    entry: Vec<u8>,
)
    requires
        call_ensures(helpers::unique_probes, (def, store, doc), r),
        0 <= k < def.indexes.len(),
        call_ensures(helpers::extract_index_values, (doc, &def.indexes@[k]), values),
        0 <= j < values.len(),
        call_ensures(encoding::encode_composite_value, (&values@[j],), value),
        index@ == def.indexes@[k].name@,
        data@ == value@,
        call_ensures(encoding::idx_key, (store, index, data, other), entry),
    ensures
        def.indexes@[k].unique ==> exists|i: int|
            0 <= i < r.len() && (#[trigger] r@[i]).index@ == index@ && calls::asks(
                r@[i].range.key_filter(),
                r@[i].range.times(),
                entry@,
                0,
            ),
        (forall|i: int| 0 <= i < def.indexes.len() ==> !(#[trigger] def.indexes@[i]).unique)
            ==> r.len() == 0,
{
    let lists = helpers::row_values(values@);
    assert(lists[j] == encoding::values_of(values@[j]@));
    assert(lists.len() == values.len());
    let probes = helpers::all_probes(def.indexes@, store.spec_bytes(), *doc);
    if def.indexes@[k].unique {
        helpers::law_unique_rows_probed(
            def.indexes@,
            store.spec_bytes(),
            *doc,
            k,
            j,
            other@,
        );
        let i = choose|i: int|
            0 <= i < probes.len() && (#[trigger] probes[i]).0 == def.indexes@[k].name@
                && bytes::has_prefix(
                encoding::idx_key_bytes(
                    store.spec_bytes(),
                    text::utf8(def.indexes@[k].name@),
                    encoding::composite_bytes(helpers::index_values(*doc, def.indexes@[k])[j]),
                    other@,
                ),
                probes[i].1,
            );
        assert(r@[i].index@ == probes[i].0);
    }
    if forall|i: int| 0 <= i < def.indexes.len() ==> !(#[trigger] def.indexes@[i]).unique {
        lemma_no_probes(def.indexes@, store.spec_bytes(), *doc);
    }
}

/// What was stored under a key is its document; where nothing is, there is none.
pub proof fn law_document_read(
    key: &[u8],
    stored: &Option<Record>,
    r: Result<Option<JsonValue>, FlowError>,
    data: &[u8],
    parsed: Result<JsonValue, FlowError>,
)
    requires
        call_ensures(helpers::old_document, (key, stored), r),
        stored matches Some(rec) ==> rec@.value == data@,
        call_ensures(json::decode_doc, (data,), parsed),
    ensures
        stored is None <==> r matches Ok(None),
        stored is Some ==> (r is Ok <==> parsed is Ok),
        r matches Err(e) ==> e is JsonDb,
{
}

/// A store that is derived has the name and the key path that its attributes give, the
/// name of the type where they give no name, and is derived only where they give a path.
pub proof fn law_store_derived(
    ident: &str,
    items: &Vec<MetaItem>,
    fields: &Vec<FieldAttrs>,
    r: Option<StoreDef>,
    k: int,
)
    requires
        call_ensures(crate::jsondb::derive::derive_object_store, (ident, items, fields), r),
    ensures
        (forall|i: int|
            0 <= i < items.len() ==> !(#[trigger] items@[i] matches MetaItem::Text(w, _) && w@
                == "key_path"@)) ==> r is None,
        r matches Some(def) ==> (forall|i: int|
            0 <= i < items.len() ==> !(#[trigger] items@[i] matches MetaItem::Text(w, _) && w@
                == "name"@)) ==> def.name@ == ident@,
        r matches Some(def) ==> (def.auto_increment <==> exists|i: int|
            0 <= i < items.len() && crate::jsondb::derive::word(#[trigger] items@[i])
                == "auto_increment"@),
        r matches Some(def) ==> def.indexes.len()
            == crate::jsondb::derive::attribute_count(fields@),
{
    crate::jsondb::derive::law_last_text(items@, "key_path"@, k);
    crate::jsondb::derive::law_last_text(items@, "name"@, k);
    if let Some(def) = r {
        crate::jsondb::derive::lemma_described_count(fields@, def.indexes@);
    }
}

/// The values of an entry stand one after another, parted by a zero; one alone stands as it
/// is.
pub proof fn law_composite_joined(
    values: &Vec<&JsonValue>,
    more: &Vec<&JsonValue>,
    value: &JsonValue,
    a: Vec<u8>,
    b: Vec<u8>,
    c: Vec<u8>,
)
    requires
        call_ensures(encoding::encode_composite_value, (values,), a),
        call_ensures(encoding::encode_composite_value, (more,), b),
        call_ensures(encoding::encode_index_value, (value,), c),
        encoding::values_of(more@) == encoding::values_of(values@).push(*value),
    ensures
        values.len() == 0 ==> b@ == c@,
        values.len() > 0 ==> b@ == a@ + seq![0u8] + c@,
{
    let list = encoding::values_of(values@);
    let longer = encoding::values_of(more@);
    assert(list.len() == values.len());
    assert(longer.drop_last() =~= list);
    assert(longer.last() == *value);
    if values.len() > 0 {
        assert(b@ =~= a@ + seq![0u8] + c@);
    }
}

/// The schemas are scanned for by the keys that schemas have, and by no others.
pub proof fn law_schemas_scanned(
    range: &ScanRange,
    p: (KeyFilter, Option<(i64, i64)>),
    store: &str,
    key: Vec<u8>,
    document: &[u8],
    at: Vec<u8>,
    counter: Vec<u8>,
    ts: i64,
)
    requires
        call_ensures(schema::schema_range, (), *range),
        call_ensures(ScanRange::to_query_params, (range,), p),
        call_ensures(encoding::schema_key, (store,), key),
        call_ensures(encoding::doc_key, (store, document), at),
        call_ensures(encoding::counter_key, (store,), counter),
    ensures
        calls::asks(p.0@, p.1, key@, ts),
        !calls::asks(p.0@, p.1, at@, ts),
        !calls::asks(p.0@, p.1, counter@, ts),
{
    let front = seq![encoding::SCH_PREFIX];
    assert(key@ == front + store.spec_bytes());
    bytes::law_prefix(key@, front);
    assert(bytes::has_prefix(key@, front));
}

/// What is stored of a document is read from under its key, and has not expired.
pub proof fn law_stored_read(
    e: &mut Engine,
    store: &str,
    key: &[u8],
    now: i64,
    tables: &[Table],
    r: Option<Record>,
    at: Vec<u8>,
)
    requires
        call_ensures(helpers::stored_document, (e, store, key, now, tables), r),
        call_ensures(encoding::doc_key, (store, key), at),
    ensures
        r matches Some(rec) ==> rec@.key == at@ && rec@.expire_at >= now,
        final(e).writer() == old(e).writer(),
        final(e).tables() == old(e).tables(),
{
    let wanted = helpers::document_wanted(store.spec_bytes(), key@, now);
    let told = choose|told: LookupView| #[trigger]
        old(e).tells(tables@, wanted, told) && engine::opt_record(r) == told.record();
    calls::lemma_found_place(*old(e), tables@, wanted, told);
}

/// What errors show of the values of an entry tells truth values and whole numbers apart.
pub proof fn law_values_shown(m: i64, n: i64)
    ensures
        json::shown(JsonValue::Bool(true)) != json::shown(JsonValue::Bool(false)),
        json::shown(JsonValue::Null) != json::shown(JsonValue::Bool(false)),
        json::shown(JsonValue::Null) != json::shown(JsonValue::Bool(true)),
        json::shown(JsonValue::Int(m)) == json::shown(JsonValue::Int(n)) ==> m == n,
{
    reveal_strlit("Bool(true)");
    reveal_strlit("Bool(false)");
    reveal_strlit("Null");
    reveal_strlit("Number(");
    reveal_strlit(")");
    assert(json::shown(JsonValue::Bool(true))[5] == 't');
    assert(json::shown(JsonValue::Bool(false))[5] == 'f');
    assert(json::shown(JsonValue::Bool(true))[0] == 'B');
    assert(json::shown(JsonValue::Bool(false))[0] == 'B');
    assert(json::shown(JsonValue::Null)[0] == 'N');
    let a = text::signed_text(m as int);
    let b = text::signed_text(n as int);
    let x = json::shown(JsonValue::Int(m));
    let y = json::shown(JsonValue::Int(n));
    assert(x == "Number("@ + a + ")"@ && y == "Number("@ + b + ")"@);
    if x == y {
        assert(x.subrange(7, x.len() - 1) =~= a);
        assert(y.subrange(7, y.len() - 1) =~= b);
        written::law_integer_text_told(m as int, n as int);
    }
}

/// A probe finds what a query for the keys with its prefix returns.
pub proof fn law_probes_query(
    e: &mut Engine,
    g: &mut Engine,
    probes: &Vec<UniqueProbe>,
    now: i64,
    tables: &[Table],
    r: Vec<ProbeResult>,
    i: int,
    q: &Query,
    s: Vec<Record>,
)
    requires
        call_ensures(helpers::run_probes, (e, probes, now, tables), r),
        0 <= i < probes.len(),
        probes@[i].range.key_filter() is Prefix,
        call_ensures(
            ScanRange::to_query_params,
            (&probes@[i].range,),
            (q.key_filter, q.time_range),
        ),
        q.time_range is None,
        call_ensures(Engine::query, (g, q, now, tables), s),
        *old(e) == *old(g),
    ensures
        r.len() == probes.len(),
        record::record_views(r@[i].entries@) == record::record_views(s@),
{
    let prefix = probes@[i].range.key_filter()->Prefix_0;
    let found = record::record_views(r@[i].entries@);
    assert(helpers::scanned(*old(e), tables@, prefix, now, found));
    let (query, iter) = choose|query: Query, iter: ScanIterator|
        query.key_filter@ == record::KeyFilterView::Prefix(prefix) && query.time_range is None
            && #[trigger] old(e).scans(tables@, query, now, iter) && found == iter.output();
    calls::lemma_same_asked(*old(e), tables@, query, *q, now, found);
    calls::lemma_one_answer(*old(e), tables@, *q, now, found, record::record_views(s@));
}

/// Whether the rows delete each entry that the document has in the indexes.
pub open spec fn entries_deleted(
    rows: Seq<InternalRecordView>,
    indexes: Seq<IndexDef>,
    store: Seq<u8>,
    key: Seq<u8>,
    doc: JsonValue,
) -> bool {
    forall|k: int, j: int|
        0 <= k < indexes.len() && 0 <= j < helpers::index_values(doc, indexes[k]).len()
            ==> deletes(
            rows,
            #[trigger] encoding::idx_key_bytes(
                store,
                text::utf8(indexes[k].name@),
                encoding::composite_bytes(helpers::index_values(doc, indexes[k])[j]),
                key,
            ),
        )
}

/// Whether one of the rows deletes what is under the key.
pub open spec fn deletes(rows: Seq<InternalRecordView>, key: Seq<u8>) -> bool {
    exists|i: int| 0 <= i < rows.len() && (#[trigger] rows[i]).op == Op::Delete && rows[i].key
        == key
}

proof fn lemma_entries_deleted(
    indexes: Seq<IndexDef>,
    store: Seq<u8>,
    key: Seq<u8>,
    doc: JsonValue,
    rest: Seq<InternalRecordView>,
)
    ensures
        entries_deleted(
            helpers::entry_deletions(indexes, store, key, Some(doc)) + rest,
            indexes,
            store,
            key,
            doc,
        ),
{
    let gone = helpers::entry_deletions(indexes, store, key, Some(doc));
    let rows = gone + rest;
    assert forall|k: int, j: int|
        0 <= k < indexes.len() && 0 <= j < helpers::index_values(
            doc,
            indexes[k],
        ).len() implies deletes(
        rows,
        #[trigger] encoding::idx_key_bytes(
            store,
            text::utf8(indexes[k].name@),
            encoding::composite_bytes(helpers::index_values(doc, indexes[k])[j]),
            key,
        ),
    ) by {
        helpers::law_old_rows_deleted(indexes, store, key, doc, k, j);
        let entry = encoding::idx_key_bytes(
            store,
            text::utf8(indexes[k].name@),
            encoding::composite_bytes(helpers::index_values(doc, indexes[k])[j]),
            key,
        );
        let i = choose|i: int|
            0 <= i < gone.len() && (#[trigger] gone[i]).op == Op::Delete && gone[i].key == entry;
        assert(rows[i].op == Op::Delete && rows[i].key == entry);
    }
}

/// What puts a document deletes the entries of the document that the engine kept under the
/// key, where it kept one, and puts the new bytes there.
pub proof fn law_put_replaces(
    def: &StoreDef,
    store: &str,
    key: &[u8],
    doc_bytes: &[u8],
    doc: &JsonValue,
    e: &mut Engine,
    now: i64,
    tables: &[Table],
    r: Result<Vec<InternalRecord>, FlowError>,
    at: Vec<u8>,
)
    requires
        call_ensures(
            helpers::build_put_batch,
            (def, store, key, doc_bytes, doc, e, now, tables),
            r,
        ),
        call_ensures(encoding::doc_key, (store, key), at),
    ensures
        r matches Ok(records) ==> {
            let rows = record::views(records@);
            &&& exists|i: int|
                0 <= i < rows.len() && (#[trigger] rows[i]).op == Op::Put && rows[i].key == at@
                    && rows[i].value == doc_bytes@
            &&& exists|told: LookupView| #[trigger]
                old(e).tells(
                    tables@,
                    helpers::document_wanted(store.spec_bytes(), key@, now),
                    told,
                ) && (told.record() matches Some(rec) ==> (json::json_parsed(rec.value) matches Ok(
                    kept,
                ) && entries_deleted(rows, def.indexes@, store.spec_bytes(), key@, kept)))
        },
        final(e).writer() == old(e).writer(),
        final(e).tables() == old(e).tables(),
{
    if let Ok(records) = r {
        let rows = record::views(records@);
        let names = def.indexes@;
        let bytes = store.spec_bytes();
        let wanted = helpers::document_wanted(bytes, key@, now);
        let told = choose|told: LookupView| #[trigger]
            old(e).tells(tables@, wanted, told) && match helpers::document_of(
                told.record(),
                key@,
            ) {
                Err(why) => false,
                Ok(old_doc) => exists|found: Seq<ProbeResult>| #[trigger]
                    helpers::probed(
                        *old(e),
                        tables@,
                        helpers::all_probes(names, bytes, *doc),
                        now,
                        found,
                    ) && helpers::puts(
                        names,
                        bytes,
                        key@,
                        doc_bytes@,
                        *doc,
                        old_doc,
                        found,
                        r,
                    ),
            };
        let old_doc = helpers::document_of(told.record(), key@)->Ok_0;
        let gone = helpers::entry_deletions(names, bytes, key@, old_doc);
        let put = helpers::insertion(encoding::doc_key_bytes(bytes, key@), doc_bytes@);
        let more = helpers::entry_insertions(names, bytes, key@, *doc);
        assert(rows == gone + seq![put] + more);
        assert(rows[gone.len() as int] == put);
        if let Some(kept) = old_doc {
            lemma_entries_deleted(names, bytes, key@, kept, seq![put] + more);
            assert(rows =~= gone + (seq![put] + more));
        }
    }
}

/// What deletes a document deletes what is under its key, and the entries of the document
/// that the engine kept there, where it kept one.
pub proof fn law_delete_clears(
    def: &StoreDef,
    store: &str,
    key: &[u8],
    e: &mut Engine,
    now: i64,
    tables: &[Table],
    r: Result<Vec<InternalRecord>, FlowError>,
    at: Vec<u8>,
)
    requires
        call_ensures(helpers::build_delete_batch, (def, store, key, e, now, tables), r),
        call_ensures(encoding::doc_key, (store, key), at),
    ensures
        r matches Ok(records) ==> {
            let rows = record::views(records@);
            &&& deletes(rows, at@)
            &&& exists|told: LookupView| #[trigger]
                old(e).tells(
                    tables@,
                    helpers::document_wanted(store.spec_bytes(), key@, now),
                    told,
                ) && (told.record() matches Some(rec) ==> (json::json_parsed(rec.value) matches Ok(
                    kept,
                ) && entries_deleted(rows, def.indexes@, store.spec_bytes(), key@, kept)))
        },
        final(e).writer() == old(e).writer(),
        final(e).tables() == old(e).tables(),
{
    if let Ok(records) = r {
        let rows = record::views(records@);
        let names = def.indexes@;
        let bytes = store.spec_bytes();
        let wanted = helpers::document_wanted(bytes, key@, now);
        let told = choose|told: LookupView| #[trigger]
            old(e).tells(tables@, wanted, told) && match helpers::document_of(
                told.record(),
                key@,
            ) {
                Err(why) => false,
                Ok(old_doc) => rows == helpers::entry_deletions(
                    names,
                    bytes,
                    key@,
                    old_doc,
                ).push(helpers::deletion(encoding::doc_key_bytes(bytes, key@))),
            };
        let old_doc = helpers::document_of(told.record(), key@)->Ok_0;
        let gone = helpers::entry_deletions(names, bytes, key@, old_doc);
        let last = helpers::deletion(encoding::doc_key_bytes(bytes, key@));
        assert(rows[gone.len() as int] == last);
        if let Some(kept) = old_doc {
            lemma_entries_deleted(names, bytes, key@, kept, seq![last]);
            assert(rows =~= gone + seq![last]);
        }
    }
}

/// The values of an entry are shown one after another, parted by a comma and a blank, in
/// square brackets.
pub proof fn law_values_listed(
    values: &Vec<&JsonValue>,
    more: &Vec<&JsonValue>,
    value: &JsonValue,
    a: String,
    b: String,
)
    requires
        call_ensures(json::show_values, (values,), a),
        call_ensures(json::show_values, (more,), b),
        encoding::values_of(more@) == encoding::values_of(values@).push(*value),
    ensures
        a@.len() >= 2 && a@[0] == '[' && a@.last() == ']',
        values.len() == 0 ==> a@.len() == 2,
        b@ == a@.drop_last() + (if values.len() > 0 {
            seq![',', ' ']
        } else {
            Seq::empty()
        }) + json::shown(*value) + seq![']'],
{
    reveal_strlit("[");
    reveal_strlit("]");
    reveal_strlit(", ");
    let list = encoding::values_of(values@);
    let longer = encoding::values_of(more@);
    let n = list.len();
    assert(n == values.len());
    lemma_shown_same(longer, list, n);
    assert(longer[n as int] == *value);
    let items = json::shown_items(list, n);
    assert(a@.drop_last() =~= seq!['['] + items);
    assert(", "@ =~= seq![',', ' ']);
    assert("]"@ =~= seq![']']);
    if n > 0 {
        assert(json::shown_items(longer, n + 1) == items + ", "@ + json::shown(*value));
        assert(b@ =~= seq!['['] + items + seq![',', ' '] + json::shown(*value) + seq![']']);
    } else {
        assert(items =~= Seq::<char>::empty());
        assert(b@ =~= seq!['['] + json::shown(*value) + seq![']']);
    }
}

proof fn lemma_shown_same(a: Seq<JsonValue>, b: Seq<JsonValue>, n: nat)
    requires
        n <= a.len(),
        n <= b.len(),
        forall|i: int| 0 <= i < n ==> #[trigger] a[i] == b[i],
    ensures
        json::shown_items(a, n) == json::shown_items(b, n),
    decreases n,
{
    if n > 1 {
        lemma_shown_same(a, b, (n - 1) as nat);
        assert(a[n - 1] == b[n - 1]);
    } else if n == 1 {
        assert(a[0] == b[0]);
    }
}

/// The counter of a store is looked up under its key, where it is written.
pub proof fn law_counter_kept(
    store: &str,
    key: Vec<u8>,
    now: i64,
    current: Option<&[u8]>,
    r: Result<(u64, InternalRecord), FlowError>,
)
    requires
        call_ensures(encoding::counter_key, (store,), key),
        call_ensures(helpers::prepare_counter, (current, store), r),
    ensures
        helpers::counter_wanted(store.spec_bytes(), now).key == key@,
        helpers::counter_wanted(store.spec_bytes(), now).now == now,
        r matches Ok((n, rec)) ==> rec@.key == key@ && rec@.ts == helpers::counter_wanted(
            store.spec_bytes(),
            now,
        ).ts && bytes::be_nat(rec@.value) == n && rec@.value.len() == 8,
{
    if let Ok((n, rec)) = r {
        helpers::law_counter_counts(rec@.value, n as nat);
    }
}

} // verus!
