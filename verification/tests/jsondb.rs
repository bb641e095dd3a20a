use flowdb::jsondb::derive::{derive_object_store, FieldAttrs, MetaItem};
use flowdb::jsondb::encoding::{
    counter_key, doc_key, doc_prefix, encode_composite_value, encode_index_value, encode_primary_key,
    extract_field, idx_key, idx_prefix, idx_value_prefix, prefix_range, schema_key, schema_prefix,
    validate_name, DOC_PREFIX, IDX_PREFIX, SEP,
};
use flowdb::engine::Engine;
use flowdb::jsondb::helpers::{
    build_delete_batch, build_put_batch, delete_records, extract_index_values, next_counter, old_document,
    prepare_counter, put_records, run_probes, stored_document, unique_probes, ProbeResult,
};
use flowdb::jsondb::json::{decode_doc, encode_doc};
use flowdb::jsondb::schema::{
    load_schemas, schema_delete_record, schema_record, validate_index_def, validate_store_def, Schema,
};
use flowdb::jsondb::{IndexSchema, JsonValue, KeyArg, StoreSchema, TransactionMode};
use flowdb::{Config, FlowError, InternalRecord, KeyFilter, Op, Record};

fn text(s: &str) -> JsonValue {
    JsonValue::Str(s.to_string())
}

fn float(x: f64) -> JsonValue {
    JsonValue::Float { bits: x.to_bits(), text: format!("{:?}", x) }
}

fn object(entries: Vec<(&str, JsonValue)>) -> JsonValue {
    JsonValue::Object { entries: entries.into_iter().map(|(k, v)| (k.to_string(), v)).collect() }
}

fn array(items: Vec<JsonValue>) -> JsonValue {
    JsonValue::Array { items }
}

fn index(name: &str, paths: &[&str], unique: bool, multi_entry: bool) -> IndexSchema {
    IndexSchema {
        name: name.to_string(),
        key_paths: paths.iter().map(|p| p.to_string()).collect(),
        unique,
        multi_entry,
    }
}

#[test]
fn test_doc_key() {
    let key = doc_key("users", b"u1");
    assert_eq!(&key[..1], &[DOC_PREFIX]);
    assert_eq!(&key[1..6], b"users");
    assert_eq!(key[6], SEP);
    assert_eq!(&key[7..], b"u1");
}

#[test]
fn test_idx_key() {
    let key = idx_key("users", "by_email", b"a@b.com", b"u1");
    assert_eq!(&key[..1], &[IDX_PREFIX]);
}

#[test]
fn test_encode_index_value_ordering() {
    let values = vec![
        JsonValue::Null,
        JsonValue::Bool(false),
        JsonValue::Bool(true),
        JsonValue::Int(-100),
        JsonValue::Int(-1),
        JsonValue::Int(0),
        JsonValue::Int(1),
        JsonValue::Int(42),
        JsonValue::Int(100),
        text("a"),
        text("b"),
        text("hello"),
    ];
    let encoded: Vec<Vec<u8>> = values.iter().map(encode_index_value).collect();
    for i in 0..encoded.len() - 1 {
        assert!(
            encoded[i] <= encoded[i + 1],
            "ordering violation at index {}: {:?} > {:?}",
            i,
            encoded[i],
            encoded[i + 1]
        );
    }
}

#[test]
fn test_encode_index_value_float_ordering() {
    let values = [float(-3.14), float(-1.0), float(0.0), float(0.5), float(1.0), float(3.14)];
    let encoded: Vec<Vec<u8>> = values.iter().map(encode_index_value).collect();
    for i in 0..encoded.len() - 1 {
        assert!(encoded[i] < encoded[i + 1], "float ordering violation at index {}", i);
    }
}

#[test]
fn test_encode_primary_key() {
    assert_eq!(encode_primary_key(&text("hello")), b"hello");
    assert_eq!(encode_primary_key(&JsonValue::Int(42)), b"42");
    assert_eq!(encode_primary_key(&JsonValue::Bool(true)), b"true");
}

fn user_doc() -> JsonValue {
    let tags = array(vec![text("a"), text("b")]);
    object(vec![("user", object(vec![("name", text("Alice")), ("tags", tags)]))])
}

#[test]
fn test_extract_field() {
    let doc = user_doc();
    assert_eq!(extract_field(&doc, "user.name"), Some(&text("Alice")));
    assert_eq!(extract_field(&doc, "user.tags.0"), Some(&text("a")));
    assert_eq!(extract_field(&doc, "user.tags.1"), Some(&text("b")));
    assert_eq!(extract_field(&doc, "missing"), None);
    assert_eq!(extract_field(&doc, "user.missing"), None);
    assert_eq!(extract_field(&doc, ""), Some(&doc));
}

#[test]
fn paths_to_array_items() {
    let doc = user_doc();
    assert_eq!(extract_field(&doc, "user.tags.+1"), Some(&text("b")));
    assert_eq!(extract_field(&doc, "user.tags.00"), Some(&text("a")));
    assert_eq!(extract_field(&doc, "user.tags.2"), None);
    assert_eq!(extract_field(&doc, "user.tags.x"), None);
    assert_eq!(extract_field(&doc, "user.tags.+"), None);
    assert_eq!(extract_field(&doc, "user.tags."), None);
    assert_eq!(extract_field(&doc, "user.tags.99999999999999999999999"), None);
    assert_eq!(extract_field(&doc, "user.name.0"), None);
}

#[test]
fn test_validate_name() {
    assert!(validate_name("users").is_ok());
    assert!(validate_name("by_email").is_ok());
    assert!(validate_name("store-1").is_ok());
    assert!(validate_name("").is_err());
    assert!(validate_name("has space").is_err());
    assert!(validate_name("has\x00null").is_err());
}

#[test]
fn name_errors() {
    let long = "x".repeat(256);
    assert_eq!(validate_name(""), Err(FlowError::JsonDb("name cannot be empty".to_string())));
    assert_eq!(
        validate_name(&long),
        Err(FlowError::JsonDb("name too long (max 255 bytes)".to_string()))
    );
    assert_eq!(
        validate_name("a.b"),
        Err(FlowError::JsonDb(
            "invalid name 'a.b': only alphanumeric, underscore and dash are allowed".to_string()
        ))
    );
    assert!(validate_name(&"x".repeat(255)).is_ok());
}

#[test]
fn index_values_as_bytes() {
    assert_eq!(encode_index_value(&JsonValue::Int(0)), [5, 127, 47, 255, 255, 255, 255, 255, 255]);
    assert_eq!(encode_index_value(&JsonValue::Int(1)), [5, 191, 31, 255, 255, 255, 255, 255, 255]);
    assert_eq!(encode_index_value(&JsonValue::Int(-1)), [5, 63, 63, 255, 255, 255, 255, 255, 255]);
    assert_eq!(encode_index_value(&JsonValue::UInt(1)), encode_index_value(&JsonValue::Int(1)));
    assert_eq!(encode_index_value(&JsonValue::UInt(u64::MAX)), [6, 194, 79, 255, 255, 255, 255, 255, 254]);
    assert_eq!(encode_index_value(&JsonValue::Int(i64::MIN)), [4, 188, 15, 255, 255, 255, 255, 255, 255]);
    assert_eq!(encode_index_value(&float(1.5)), [5, 191, 39, 255, 255, 255, 255, 255, 255]);
    assert_eq!(encode_index_value(&text("hi")), [7, b'h', b'i']);
    assert_eq!(encode_index_value(&array(vec![])), [8, b'[', b']']);
    let big = encode_index_value(&JsonValue::UInt(u64::MAX));
    let small = encode_index_value(&JsonValue::Int(i64::MAX));
    assert!(small < big);
    assert!(big < encode_index_value(&text("")));
    assert!(encode_index_value(&text("zz")) < encode_index_value(&array(vec![])));
}

#[test]
fn numbers_of_both_kinds_stand_in_one_order() {
    let ascending = vec![
        float(-f64::MAX),
        float(-1.0e300),
        float(-18446744073709551616.0),
        float(-9.3e18),
        JsonValue::Int(i64::MIN),
        JsonValue::Int(i64::MIN + 1),
        JsonValue::Int(-9007199254740994),
        JsonValue::Int(-9007199254740993),
        float(-9007199254740992.0),
        JsonValue::Int(-2),
        float(-1.5),
        JsonValue::Int(-1),
        float(-0.25),
        JsonValue::Int(0),
        float(5.0e-324),
        float(0.5),
        JsonValue::Int(1),
        float(1.5),
        JsonValue::Int(2),
        float(2.5),
        float(9007199254740992.0),
        JsonValue::Int(9007199254740993),
        float(9007199254740994.0),
        JsonValue::Int(i64::MAX - 1),
        JsonValue::Int(i64::MAX),
        float(9223372036854775808.0),
        JsonValue::UInt(9223372036854775809),
        JsonValue::UInt(u64::MAX - 1),
        JsonValue::UInt(u64::MAX),
        float(18446744073709551616.0),
        float(18446744073709555712.0),
        float(1.0e300),
        float(f64::MAX),
    ];
    let encoded: Vec<Vec<u8>> = ascending.iter().map(encode_index_value).collect();
    for pair in encoded.windows(2) {
        assert!(pair[0] < pair[1]);
    }
    assert!(encoded.iter().all(|bytes| bytes.len() == 9));
    assert_eq!(encode_index_value(&float(2.0)), encode_index_value(&JsonValue::Int(2)));
}

#[test]
fn composite_values_keep_the_order_of_their_fields() {
    let a = text("ab");
    let b = text("abc");
    let one = JsonValue::Int(1);
    let two = JsonValue::Int(2);
    let x = encode_composite_value(&vec![&a, &two]);
    let y = encode_composite_value(&vec![&b, &one]);
    let z = encode_composite_value(&vec![&b, &two]);
    assert!(x < y);
    assert!(y < z);
    assert_eq!(x[3], SEP);
    assert!(encode_composite_value(&vec![]).is_empty());
}

#[test]
fn primary_keys_as_bytes() {
    assert_eq!(encode_primary_key(&JsonValue::Null), [0]);
    assert_eq!(encode_primary_key(&JsonValue::Int(-7)), b"-7");
    assert_eq!(encode_primary_key(&JsonValue::UInt(u64::MAX)), b"18446744073709551615");
    assert_eq!(encode_primary_key(&float(1.5)), b"1.5");
    assert_eq!(encode_primary_key(&JsonValue::Bool(false)), b"false");
    assert_eq!(encode_primary_key(&array(vec![])), [0xff, b'[', b']']);
    assert_eq!(encode_primary_key(&object(vec![])), [0xff, b'{', b'}']);
}

#[test]
fn keys_of_the_document_layer() {
    assert_eq!(doc_prefix("s"), [1, b's', 0]);
    assert_eq!(idx_prefix("s", "i"), [2, b's', 0, b'i', 0]);
    assert_eq!(idx_value_prefix("s", "i", b"v"), [2, b's', 0, b'i', 0, b'v', 0]);
    assert_eq!(idx_key("s", "i", b"v", b"k"), [2, b's', 0, b'i', 0, b'v', 0, b'k']);
    assert_eq!(counter_key("s"), [4, b's']);
    assert_eq!(schema_prefix(), [3]);
    let (filter, times) = prefix_range(&doc_prefix("s")).to_query_params();
    assert!(matches!(filter, KeyFilter::Prefix(p) if p == [1, b's', 0]));
    assert_eq!(times, None);
}

#[test]
fn key_arguments() {
    assert_eq!("a".into_value(), text("a"));
    assert_eq!("a".to_string().into_value(), text("a"));
    assert_eq!(5i64.into_value(), JsonValue::Int(5));
    assert_eq!((-5i32).into_value(), JsonValue::Int(-5));
    assert_eq!(encode_primary_key(&5u32.into_value()), b"5");
    assert_eq!(encode_primary_key(&5u64.into_value()), b"5");
    assert_eq!(JsonValue::Null.into_value(), JsonValue::Null);
    let doc = user_doc();
    assert_eq!((&doc).into_value(), doc);
    assert_ne!(TransactionMode::ReadOnly, TransactionMode::ReadWrite);
}

#[test]
fn test_schema_basic() {
    let mut schema = Schema::new();
    let def = StoreSchema {
        name: "users".into(),
        key_path: "id".into(),
        auto_increment: false,
        indexes: vec![index("by_email", &["email"], true, false)],
        next_auto_id: 0,
    };
    schema.insert(def.clone());
    assert_eq!(schema.get("users").unwrap().name, "users");
    assert_eq!(schema.list().len(), 1);
    schema.remove("users");
    assert!(schema.get("users").is_none());
}

#[test]
fn test_validate_store_def() {
    assert!(validate_store_def("users", "id").is_ok());
    assert!(validate_store_def("", "id").is_err());
    assert!(validate_store_def("users", "").is_err());
    assert!(validate_store_def("has space", "id").is_err());
}

#[test]
fn test_validate_index_def_cases() {
    let store = StoreSchema {
        name: "users".into(),
        key_path: "id".into(),
        auto_increment: false,
        indexes: vec![index("existing", &["f"], true, false)],
        next_auto_id: 0,
    };
    assert!(validate_index_def(&store, "", "f").is_err());
    assert!(validate_index_def(&store, "new", "").is_err());
    assert!(validate_index_def(&store, "existing", "f").is_err());
    assert!(validate_index_def(&store, "new", "f").is_ok());
    assert_eq!(
        validate_index_def(&store, "existing", "f"),
        Err(FlowError::JsonDb("index 'existing' already exists in store 'users'".to_string()))
    );
}

#[test]
fn test_schema_delete_record_roundtrip() {
    let rec = schema_delete_record("test_store");
    assert_eq!(rec.key, schema_key("test_store"));
    assert_eq!(rec.op, Op::Delete);
}

#[test]
fn test_schema_list_empty() {
    let schema = Schema::new();
    assert!(schema.list().is_empty());
    assert!(schema.get("x").is_none());
}

#[test]
fn test_schema_default() {
    let schema: Schema = Default::default();
    assert!(schema.list().is_empty());
}

#[test]
fn schemas_are_loaded_and_recorded() {
    let first = StoreSchema::new("a", "id");
    let second = StoreSchema::new("b", "id").with_index("i", &["x", "y"], true).with_auto_increment();
    let again = StoreSchema::new("a", "key");
    let schema = load_schemas(vec![first, second, again]);
    assert_eq!(schema.list().len(), 2);
    assert_eq!(schema.get("a").unwrap().key_path, "key");
    let b = schema.get("b").unwrap();
    assert!(b.auto_increment);
    assert_eq!(b.indexes[0].key_paths, vec!["x".to_string(), "y".to_string()]);
    let rec = schema_record("a", b"{}".to_vec());
    assert_eq!(rec.key, schema_key("a"));
    assert_eq!(rec.value, b"{}");
}

fn user(email: &str, age: i64) -> JsonValue {
    object(vec![("email", text(email)), ("age", JsonValue::Int(age))])
}

fn users() -> StoreSchema {
    StoreSchema::new("users", "id").with_index("by_email", &["email"], true).with_index(
        "by_age",
        &["age"],
        false,
    )
}

fn entry(owner: &str) -> Record {
    Record::new(vec![], 0, owner.as_bytes().to_vec())
}

#[test]
fn putting_a_document_writes_it_and_its_index_entries() {
    let def = users();
    let doc = user("a@x", 30);
    assert_eq!(unique_probes(&def, "users", &doc).len(), 1);
    let found = vec![ProbeResult { entries: vec![] }];
    let records = put_records(&def, "users", b"u1", b"json", &doc, None, &found).unwrap();
    assert_eq!(records.len(), 3);
    assert_eq!(records[0].key, doc_key("users", b"u1"));
    assert_eq!(records[0].value, b"json");
    let email = encode_index_value(&text("a@x"));
    assert_eq!(records[1].key, idx_key("users", "by_email", &email, b"u1"));
    assert_eq!(records[1].value, b"u1");
    assert!(records.iter().all(|r| r.op == Op::Put && r.seq == 0 && r.ts == 0));
}

#[test]
fn replacing_a_document_deletes_its_old_index_entries() {
    let def = users();
    let old = user("a@x", 30);
    let new = user("b@x", 30);
    let found = vec![ProbeResult { entries: vec![entry("u1")] }];
    let records = put_records(&def, "users", b"u1", b"json", &new, Some(&old), &found).unwrap();
    assert_eq!(records.len(), 5);
    assert_eq!(records[0].op, Op::Delete);
    let email = encode_index_value(&text("a@x"));
    assert_eq!(records[0].key, idx_key("users", "by_email", &email, b"u1"));
    assert_eq!(records[1].op, Op::Delete);
    assert_eq!(records[2].op, Op::Put);
}

#[test]
fn a_taken_value_of_a_unique_index_is_refused() {
    let def = users();
    let doc = user("a@x", 30);
    assert_eq!(unique_probes(&def, "users", &doc)[0].shown, "[String(\"a@x\")]");
    let found = vec![ProbeResult { entries: vec![entry("u2")] }];
    let refused = put_records(&def, "users", b"u1", b"json", &doc, None, &found);
    assert_eq!(
        refused.unwrap_err().message(),
        "JsonDB: unique constraint violation: index 'by_email' value '[String(\"a@x\")]' already exists"
    );
}

#[test]
fn deleting_a_document_deletes_its_index_entries() {
    let def = users();
    let doc = user("a@x", 30);
    let records = delete_records(&def, "users", b"u1", Some(&doc));
    assert_eq!(records.len(), 3);
    assert!(records.iter().all(|r| r.op == Op::Delete));
    assert_eq!(records[2].key, doc_key("users", b"u1"));
    assert_eq!(delete_records(&def, "users", b"u1", None).len(), 1);
}

#[test]
fn test_encode_decode_doc() {
    let doc = object(vec![("id", JsonValue::Int(1)), ("name", text("Alice"))]);
    let bytes = encode_doc(&doc).unwrap();
    let back = decode_doc(&bytes).unwrap();
    assert_eq!(doc, back);
}

#[test]
fn documents_are_parsed_as_json() {
    let parsed = |json: &str| decode_doc(json.as_bytes()).unwrap();
    assert_eq!(parsed("null"), JsonValue::Null);
    assert_eq!(parsed(" true "), JsonValue::Bool(true));
    assert_eq!(parsed("-7"), JsonValue::Int(-7));
    assert_eq!(parsed("18446744073709551615"), JsonValue::UInt(u64::MAX));
    assert_eq!(parsed("1.5"), float(1.5));
    assert_eq!(parsed("\"a\\nb\""), text("a\nb"));
    assert_eq!(parsed("[1, {}]"), array(vec![JsonValue::Int(1), object(vec![])]));
    assert_eq!(
        decode_doc(b"{\"a\":").unwrap_err().message(),
        "JSON error: EOF while parsing a value at line 1 column 5"
    );
}

#[test]
fn documents_are_written_as_json() {
    let written = |doc: &JsonValue| String::from_utf8(encode_doc(doc).unwrap()).unwrap();
    assert_eq!(written(&JsonValue::Null), "null");
    assert_eq!(written(&JsonValue::Bool(true)), "true");
    assert_eq!(written(&JsonValue::Bool(false)), "false");
    assert_eq!(written(&JsonValue::Int(-7)), "-7");
    assert_eq!(written(&JsonValue::UInt(u64::MAX)), "18446744073709551615");
    assert_eq!(written(&float(1.5)), "1.5");
    assert_eq!(written(&text("a\"b\n")), "\"a\\\"b\\n\"");
    assert_eq!(written(&array(vec![])), "[]");
    assert_eq!(written(&array(vec![JsonValue::Int(1), text("x")])), "[1,\"x\"]");
    assert_eq!(
        written(&object(vec![("a", object(vec![])), ("b", JsonValue::Null)])),
        "{\"a\":{},\"b\":null}"
    );
}

/// An engine without tables that keeps the document under the key.
fn engine_with(store: &str, key: &[u8], doc: &[u8]) -> Engine {
    let (mut engine, _) = Engine::open(Config::default(), true, &vec![], &vec![]).unwrap();
    let rec = Record::new(doc_key(store, key), 0, doc.to_vec());
    let staged = engine.write_batch(&[rec]).unwrap();
    engine.commit(&staged);
    engine
}

#[test]
fn the_stored_document_tells_which_index_entries_go() {
    let def = users();
    let mut engine = engine_with("users", b"u1", b"{\"email\":\"a@x\",\"age\":30}");
    let new = user("b@x", 30);
    let records = build_put_batch(&def, "users", b"u1", b"json", &new, &mut engine, 0, &[]).unwrap();
    assert_eq!(records.len(), 5);
    let email = encode_index_value(&text("a@x"));
    assert_eq!(records[0].op, Op::Delete);
    assert_eq!(records[0].key, idx_key("users", "by_email", &email, b"u1"));
    let age = encode_index_value(&JsonValue::Int(30));
    assert_eq!(records[1].op, Op::Delete);
    assert_eq!(records[1].key, idx_key("users", "by_age", &age, b"u1"));
    let gone = build_delete_batch(&def, "users", b"u1", &mut engine, 0, &[]).unwrap();
    assert_eq!(gone.len(), 3);
    assert_eq!(gone[0].key, records[0].key);
    assert_eq!(gone[2].key, doc_key("users", b"u1"));
    assert_eq!(build_delete_batch(&def, "users", b"u2", &mut engine, 0, &[]).unwrap().len(), 1);
}

#[test]
fn a_document_that_cannot_be_parsed_is_reported() {
    let def = users();
    let mut engine = engine_with("users", b"u\n1", b"json");
    let expected = "JsonDB: corrupted document at key \"u\\n1\": JSON error: expected value at line 1 column 1";
    let refused = build_delete_batch(&def, "users", b"u\n1", &mut engine, 0, &[]);
    assert_eq!(refused.unwrap_err().message(), expected);
    let doc = user("a@x", 30);
    let refused = build_put_batch(&def, "users", b"u\n1", b"json", &doc, &mut engine, 0, &[]);
    assert_eq!(refused.unwrap_err().message(), expected);
    assert!(old_document(b"u1", &None).unwrap().is_none());
}

#[test]
fn values_are_shown_in_errors() {
    let def = StoreSchema::new("s", "id").with_index("pair", &["a", "b"], true);
    let doc = object(vec![("a", JsonValue::Int(7)), ("b", array(vec![JsonValue::Null]))]);
    assert_eq!(unique_probes(&def, "s", &doc)[0].shown, "[Number(7), Array [Null]]");
    let def = StoreSchema::new("s", "id").with_index("all", &[""], true);
    let doc = object(vec![("k", text("v\n")), ("x", array(vec![float(1.5), JsonValue::Bool(true)]))]);
    assert_eq!(
        unique_probes(&def, "s", &doc)[0].shown,
        "[Object {\"k\": String(\"v\\n\"), \"x\": Array [Number(1.5), Bool(true)]}]"
    );
}

#[test]
fn index_rows_of_a_document() {
    let doc = object(vec![("tags", array(vec![text("x"), text("y")])), ("city", text("B"))]);
    let multi = index("i", &["tags"], false, true);
    assert_eq!(extract_index_values(&doc, &multi), vec![vec![&text("x")], vec![&text("y")]]);
    let whole = index("i", &["tags"], false, false);
    assert_eq!(extract_index_values(&doc, &whole).len(), 1);
    let composite = index("i", &["city", "tags.0"], false, true);
    assert_eq!(extract_index_values(&doc, &composite), vec![vec![&text("B"), &text("x")]]);
    let missing = index("i", &["city", "nothing"], false, false);
    assert!(extract_index_values(&doc, &missing).is_empty());
}

#[test]
fn counters_count() {
    let (first, rec) = prepare_counter(None, "s").unwrap();
    assert_eq!(first, 1);
    assert_eq!(rec.key, counter_key("s"));
    let (second, _) = prepare_counter(Some(&rec.value), "s").unwrap();
    assert_eq!(second, 2);
    assert_eq!(
        prepare_counter(Some(b"bad"), "s").unwrap_err().message(),
        "JsonDB: corrupted auto-increment counter for store 's'"
    );
}

/// Writes the puts of a batch to an engine without tables.
fn put_all(engine: &mut Engine, records: &[InternalRecord]) {
    let batch: Vec<Record> = records.iter().map(|r| r.to_record()).collect();
    let staged = engine.write_batch(&batch).unwrap();
    engine.commit(&staged);
}

#[test]
fn documents_are_put_through_the_engine() {
    let (mut engine, _) = Engine::open(Config::default(), true, &vec![], &vec![]).unwrap();
    let def = users();
    let doc = user("a@x", 30);
    let json = encode_doc(&doc).unwrap();
    assert!(stored_document(&mut engine, "users", b"u1", 0, &[]).is_none());
    let probes = unique_probes(&def, "users", &doc);
    assert!(run_probes(&mut engine, &probes, 0, &[])[0].entries.is_empty());
    let records = build_put_batch(&def, "users", b"u1", &json, &doc, &mut engine, 0, &[]).unwrap();
    put_all(&mut engine, &records);
    assert_eq!(stored_document(&mut engine, "users", b"u1", 0, &[]).unwrap().value, json);

    let taken = run_probes(&mut engine, &probes, 0, &[]);
    assert_eq!(taken[0].entries.len(), 1);
    assert_eq!(taken[0].entries[0].value, b"u1");
    assert!(build_put_batch(&def, "users", b"u1", &json, &doc, &mut engine, 0, &[]).is_ok());
    assert_eq!(
        build_put_batch(&def, "users", b"u2", &json, &doc, &mut engine, 0, &[]).unwrap_err().message(),
        "JsonDB: unique constraint violation: index 'by_email' value '[String(\"a@x\")]' already exists"
    );

    let (first, rec) = next_counter(&mut engine, "users", 0, &[]).unwrap();
    assert_eq!(first, 1);
    put_all(&mut engine, &[rec]);
    assert_eq!(next_counter(&mut engine, "users", 0, &[]).unwrap().0, 2);
}

fn word(w: &str) -> MetaItem {
    MetaItem::Word(w.to_string())
}

fn set(w: &str, v: &str) -> MetaItem {
    MetaItem::Text(w.to_string(), v.to_string())
}

#[test]
fn a_struct_describes_a_store() {
    let fields = vec![
        FieldAttrs { name: "id".to_string(), indexes: vec![] },
        FieldAttrs { name: "email".to_string(), indexes: vec![vec![word("unique")]] },
        FieldAttrs { name: "age".to_string(), indexes: vec![vec![set("name", "by_age")], vec![]] },
    ];
    let def = derive_object_store("User", &vec![set("key_path", "id"), word("auto_increment")], &fields).unwrap();
    assert_eq!(def.name, "User");
    assert_eq!(def.key_path, "id");
    assert!(def.auto_increment);
    let names: Vec<&str> = def.indexes.iter().map(|i| i.name.as_str()).collect();
    assert_eq!(names, vec!["email", "by_age", "age"]);
    assert!(def.indexes[0].unique);
    assert_eq!(def.indexes[1].key_paths, vec!["age".to_string()]);
    let named = derive_object_store("User", &vec![set("name", "people"), set("key_path", "k")], &vec![]);
    assert_eq!(named.unwrap().name, "people");
    assert!(derive_object_store("User", &vec![word("auto_increment")], &fields).is_none());
}
