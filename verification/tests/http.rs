use base64::engine::general_purpose;
use base64::Engine as Base64;
use flowdb::auth::AuthState;
use flowdb::http::{
    action_done, authorize, build_query, check_auth, compaction_response, gc_response, health_response,
    patch_value, query_response, refuse, requested_records, PatchRequest, QueryParams, Route, Status,
    WriteRecord, WriteRequest,
};
use flowdb::{FlowError, KeyFilter, Record};

fn params() -> QueryParams {
    QueryParams { prefix: None, key_start: None, key_end: None, ts_start: None, ts_end: None }
}

#[test]
fn test_build_query_prefix() {
    let q = build_query(&QueryParams { prefix: Some("key1".into()), ..params() });
    match q.key_filter {
        KeyFilter::Prefix(k) => assert_eq!(k, b"key1".as_slice()),
        _ => panic!("expected prefix"),
    }
}

#[test]
fn test_build_query_key_range() {
    let q = build_query(&QueryParams { key_start: Some("a".into()), key_end: Some("b".into()), ..params() });
    match q.key_filter {
        KeyFilter::Range { start, end } => {
            assert_eq!(start, b"a".as_slice());
            assert_eq!(end, b"b".as_slice());
        }
        _ => panic!("expected range"),
    }
}

#[test]
fn test_build_query_time_range() {
    let q = build_query(&QueryParams { ts_start: Some(100), ts_end: Some(200), ..params() });
    assert_eq!(q.time_range, Some((100, 200)));
}

#[test]
fn test_write_record_to_record() {
    let wr = WriteRecord {
        key: "test".into(),
        ts: 100,
        ttl_secs: Some(3600),
        value_base64: Some(general_purpose::STANDARD.encode(b"hello")),
        value: None,
    };
    let rec = wr.to_record().unwrap();
    assert_eq!(rec.key, b"test");
    assert_eq!(rec.value, b"hello");
}

#[test]
fn test_build_query_prefix_time_range() {
    let q = build_query(&QueryParams {
        prefix: Some("key1".into()),
        ts_start: Some(100),
        ts_end: Some(200),
        ..params()
    });
    match q.key_filter {
        KeyFilter::Prefix(k) => assert_eq!(k, b"key1".as_slice()),
        _ => panic!("expected prefix"),
    }
    assert_eq!(q.time_range, Some((100, 200)));
}

#[test]
fn test_build_query_prefix_time_range_no_end() {
    let q = build_query(&QueryParams { prefix: Some("key1".into()), ts_start: Some(100), ..params() });
    match q.key_filter {
        KeyFilter::Prefix(k) => assert_eq!(k, b"key1".as_slice()),
        _ => panic!("expected prefix"),
    }
    assert_eq!(q.time_range, Some((100, i64::MAX)));
}

#[test]
fn test_build_query_key_time_range() {
    let q = build_query(&QueryParams {
        key_start: Some("a".into()),
        key_end: Some("z".into()),
        ts_start: Some(100),
        ts_end: Some(200),
        ..params()
    });
    match q.key_filter {
        KeyFilter::Range { start, end } => {
            assert_eq!(start, b"a".as_slice());
            assert_eq!(end, b"z".as_slice());
        }
        _ => panic!("expected range"),
    }
    assert_eq!(q.time_range, Some((100, 200)));
}

#[test]
fn test_build_query_key_time_range_no_end() {
    let q = build_query(&QueryParams { key_start: Some("a".into()), ts_start: Some(100), ..params() });
    match q.key_filter {
        KeyFilter::Range { start, end } => {
            assert_eq!(start, b"a".as_slice());
            assert_eq!(end, b"~".as_slice());
        }
        _ => panic!("expected range"),
    }
    assert_eq!(q.time_range, Some((100, i64::MAX)));
}

#[test]
fn test_build_query_default() {
    let q = build_query(&params());
    match q.key_filter {
        KeyFilter::Prefix(k) => assert_eq!(k, b"".as_slice()),
        _ => panic!("expected prefix"),
    }
    assert!(q.time_range.is_none());
}

#[test]
fn test_write_record_to_record_plain_value() {
    let wr = WriteRecord {
        key: "test".into(),
        ts: 100,
        ttl_secs: None,
        value: Some("hello".into()),
        value_base64: None,
    };
    let rec = wr.to_record().unwrap();
    assert_eq!(rec.value, b"hello");
}

#[test]
fn test_write_record_to_record_empty() {
    let wr = WriteRecord { key: "test".into(), ts: 100, ttl_secs: None, value: None, value_base64: None };
    let rec = wr.to_record().unwrap();
    assert!(rec.value.is_empty());
}

#[test]
fn test_write_record_to_record_invalid_base64() {
    let wr = WriteRecord {
        key: "test".into(),
        ts: 100,
        ttl_secs: None,
        value: None,
        value_base64: Some("!!!invalid".into()),
    };
    assert!(wr.to_record().is_err());
}

#[test]
fn test_write_record_to_record_base64_preferred() {
    let wr = WriteRecord {
        key: "test".into(),
        ts: 100,
        ttl_secs: None,
        value: Some("plain".into()),
        value_base64: Some(general_purpose::STANDARD.encode(b"binary")),
    };
    let rec = wr.to_record().unwrap();
    assert_eq!(rec.value, b"binary");
}

fn write_record(base64: &str) -> WriteRecord {
    WriteRecord {
        key: "k".into(),
        ts: 1,
        ttl_secs: None,
        value: None,
        value_base64: Some(base64.to_string()),
    }
}

#[test]
fn base64_is_strict() {
    assert_eq!(write_record("aGk=").to_record().unwrap().value, b"hi");
    assert_eq!(write_record("").to_record().unwrap().value, b"");
    // Without padding, with bits left over, and with other letters.
    assert!(write_record("aGk").to_record().is_err());
    assert!(write_record("aGl=").to_record().is_err());
    assert!(write_record("a-_=").to_record().is_err());
}

#[test]
fn a_bad_value_makes_a_bad_request() {
    let req = WriteRequest { records: vec![write_record("aGk="), write_record("*")] };
    let (status, body) = requested_records(&req).unwrap_err();
    assert_eq!(status.code(), 400);
    assert!(!body.ok);
    assert!(body.message.starts_with("base64 decode: "));
    let good = WriteRequest { records: vec![write_record("aGk="), write_record("")] };
    assert_eq!(requested_records(&good).unwrap().len(), 2);
}

#[test]
fn patches_set_a_value_or_none() {
    let mut req =
        PatchRequest { key: "k".into(), ts: 1, value: None, value_base64: None, ttl_secs: None };
    assert_eq!(patch_value(&req).unwrap(), None);
    req.value = Some("text".into());
    assert_eq!(patch_value(&req).unwrap(), Some(b"text".to_vec()));
    req.value_base64 = Some("AAEC".into());
    assert_eq!(patch_value(&req).unwrap(), Some(vec![0, 1, 2]));
    req.value_base64 = Some("?".into());
    assert_eq!(patch_value(&req).unwrap_err().0, Status::BadRequest);
}

#[test]
fn records_are_shown_in_base64() {
    let records = vec![Record { key: vec![b'a', 0xff], ts: 5, expire_at: 9, value: vec![0, 1, 2, 3] }];
    let shown = query_response(&records);
    assert_eq!(shown.count, 1);
    assert_eq!(shown.records[0].key, "a\u{fffd}");
    assert_eq!(shown.records[0].value, "AAECAw==");
    assert_eq!((shown.records[0].ts, shown.records[0].expire_at), (5, 9));
}

#[test]
fn base64_round_trip() {
    for len in 0..40u8 {
        let value: Vec<u8> = (0..len).map(|i| i.wrapping_mul(37).wrapping_add(len)).collect();
        let shown = query_response(&vec![Record { key: vec![], ts: 0, expire_at: 0, value: value.clone() }]);
        let back = write_record(&shown.records[0].value).to_record().unwrap();
        assert_eq!(back.value, value);
    }
}

#[test]
fn admin_routes_need_a_key_where_keys_are_set() {
    let auth = AuthState::new(vec!["correct".to_string()]);
    for route in [
        Route::Write,
        Route::Query,
        Route::AdminFlush,
        Route::AdminGc,
        Route::AdminCompact,
        Route::AdminQuery,
        Route::AdminDelete,
        Route::AdminPatch,
    ] {
        let (status, body) = authorize(&auth, route, None).unwrap_err();
        assert_eq!(status.code(), 401);
        assert_eq!(body.message, "unauthorized");
        assert!(authorize(&auth, route, Some("wrong")).is_err());
        assert!(authorize(&auth, route, Some("correct")).is_ok());
        assert!(authorize(&AuthState::new(vec![]), route, None).is_ok());
    }
    assert!(authorize(&auth, Route::AdminPage, None).is_ok());
    assert!(authorize(&auth, Route::Health, None).is_ok());
    assert_eq!(check_auth(&auth, Some("correct")), Status::Success);
}

#[test]
fn answers() {
    assert_eq!(gc_response(12).message, "gc completed, purged 12");
    assert_eq!(compaction_response(true).message, "compaction: ran=true");
    assert_eq!(action_done("deleted").message, "deleted");
    assert_eq!(health_response().status, "ok");
    let (status, body) = refuse(Status::InternalServerError, &FlowError::Closed);
    assert_eq!(status.code(), 500);
    assert_eq!(body.message, "Engine is closed");
    assert_eq!(Status::Success.code(), 200);
}
