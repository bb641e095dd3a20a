use flowdb::udp::{decode_frame, encode_frame, read_i64, read_record, read_u16, read_u32, MAGIC, VERSION_V1};
use flowdb::{FlowError, Record};

#[test]
fn test_encode_decode_single() {
    let rec = Record {
        key: "test-key".into(),
        ts: 1234567890,
        expire_at: 1234567890 + 3600 * 1_000_000,
        value: b"hello".to_vec(),
    };
    let encoded = encode_frame(std::slice::from_ref(&rec), None);
    let decoded = decode_frame(&encoded, None).unwrap();
    assert_eq!(decoded.len(), 1);
    assert_eq!(decoded[0].key, b"test-key");
    assert_eq!(decoded[0].ts, 1234567890);
    assert_eq!(decoded[0].value, b"hello");
    assert!(decoded[0].expire_at < i64::MAX);
}

#[test]
fn test_encode_decode_no_ttl() {
    let rec = Record { key: "key".into(), ts: 100, expire_at: i64::MAX, value: b"val".to_vec() };
    let encoded = encode_frame(&[rec], None);
    let decoded = decode_frame(&encoded, None).unwrap();
    assert_eq!(decoded[0].expire_at, i64::MAX);
}

#[test]
fn test_encode_decode_batch() {
    let recs = vec![
        Record { key: "a".into(), ts: 100, expire_at: i64::MAX, value: b"v1".to_vec() },
        Record { key: "b".into(), ts: 200, expire_at: i64::MAX, value: b"v2".to_vec() },
    ];
    let encoded = encode_frame(&recs, None);
    let decoded = decode_frame(&encoded, None).unwrap();
    assert_eq!(decoded.len(), 2);
    assert_eq!(decoded[0].key, b"a");
    assert_eq!(decoded[1].key, b"b");
}

#[test]
fn test_decode_corrupt_magic() {
    let rec = Record { key: "key".into(), ts: 100, expire_at: i64::MAX, value: b"val".to_vec() };
    let mut encoded = encode_frame(&[rec], None);
    encoded[0] = 0x00;
    assert!(decode_frame(&encoded, None).is_err());
}

#[test]
fn test_decode_truncated() {
    assert!(decode_frame(&[MAGIC, VERSION_V1], None).is_err());
    assert!(decode_frame(&[MAGIC, VERSION_V1, 0x00, 0x01], None).is_err());
}

#[test]
fn test_read_u16_with_position() {
    let data = [0x01, 0x02, 0x03, 0x04];
    let (v, pos) = read_u16(&data, 0).unwrap();
    assert_eq!(v, 0x0102);
    assert_eq!(pos, 2);

    let (v, pos) = read_u16(&data, 2).unwrap();
    assert_eq!(v, 0x0304);
    assert_eq!(pos, 4);
}

#[test]
fn test_read_u16_oob() {
    assert!(read_u16(&[0x01], 0).is_none());
    assert!(read_u16(&[0x01, 0x02], 1).is_none());
}

#[test]
fn test_read_u32_with_position() {
    let data = [0x01, 0x02, 0x03, 0x04, 0x05, 0x06, 0x07, 0x08];
    let (v, pos) = read_u32(&data, 0).unwrap();
    assert_eq!(v, 0x01020304);
    assert_eq!(pos, 4);

    let (v, pos) = read_u32(&data, 4).unwrap();
    assert_eq!(v, 0x05060708);
    assert_eq!(pos, 8);
}

#[test]
fn test_read_u32_oob() {
    assert!(read_u32(&[0; 3], 0).is_none());
    assert!(read_u32(&[0; 4], 1).is_none());
}

#[test]
fn test_read_i64_with_position() {
    let n: i64 = -0x0102030405060708;
    let bytes = n.to_be_bytes();
    let (v, pos) = read_i64(&bytes, 0).unwrap();
    assert_eq!(v, n);
    assert_eq!(pos, 8);
}

#[test]
fn test_read_i64_oob() {
    assert!(read_i64(&[0; 7], 0).is_none());
    assert!(read_i64(&[0; 8], 1).is_none());
}

#[test]
fn test_udp_v2_frame_round_trip() {
    let key = "the-key";
    let rec = Record { key: b"k".to_vec(), ts: 42, expire_at: i64::MAX, value: b"value".to_vec() };
    let frame = encode_frame(&[rec.clone()], Some(key));
    assert_eq!(frame[1], 0x02);
    let decoded = decode_frame(&frame, Some(key)).unwrap();
    assert_eq!(decoded.len(), 1);
    assert_eq!(decoded[0].key, b"k");
    assert_eq!(decoded[0].value, b"value");
}

#[test]
fn test_udp_v2_wrong_key_rejected() {
    let rec = Record { key: b"k".to_vec(), ts: 1, expire_at: i64::MAX, value: vec![] };
    let frame = encode_frame(&[rec], Some("right"));
    assert!(decode_frame(&frame, Some("wrong")).is_err());
}

#[test]
fn test_udp_v2_frame_no_server_key() {
    let rec = Record { key: b"k".to_vec(), ts: 1, expire_at: i64::MAX, value: vec![] };
    let frame = encode_frame(&[rec], Some("any"));
    assert!(decode_frame(&frame, None).is_err());
}

#[test]
fn test_udp_v1_frame_with_server_key() {
    let rec = Record { key: b"k".to_vec(), ts: 1, expire_at: i64::MAX, value: vec![] };
    let frame = encode_frame(&[rec], None);
    assert!(decode_frame(&frame, Some("any")).is_err());
}

#[test]
fn test_udp_unknown_version() {
    let frame = [0x54, 0xFF, 0x00, 0x00];
    assert!(decode_frame(&frame, None).is_err());
    assert!(decode_frame(&frame, Some("k")).is_err());
}

#[test]
fn test_udp_bad_magic() {
    let frame = [0xFF, 0x01, 0x00, 0x00];
    assert!(decode_frame(&frame, None).is_err());
}

#[test]
fn test_udp_frame_too_short() {
    assert!(decode_frame(&[0x54, 0x01], None).is_err());
    assert!(decode_frame(&[], None).is_err());
}

#[test]
fn test_udp_record_with_ttl() {
    let rec = Record {
        key: b"ttl".to_vec(),
        ts: 1_000,
        expire_at: 1_000 + 60 * 1_000_000,
        value: b"v".to_vec(),
    };
    let frame = encode_frame(&[rec], None);
    let decoded = decode_frame(&frame, None).unwrap();
    assert_eq!(decoded[0].expire_at, 1_000 + 60 * 1_000_000);
}

#[test]
fn test_udp_oversize_key_value() {
    let mut bad = vec![0x54, 0x01];
    bad.extend_from_slice(&1u16.to_be_bytes());
    bad.extend_from_slice(&4097u16.to_be_bytes());
    bad.extend_from_slice(&[0u8; 8]);
    assert!(decode_frame(&bad, None).is_err());

    let mut bad2 = vec![0x54, 0x01];
    bad2.extend_from_slice(&1u16.to_be_bytes());
    bad2.extend_from_slice(&1u16.to_be_bytes());
    bad2.push(b'k');
    bad2.extend_from_slice(&0i64.to_be_bytes());
    bad2.extend_from_slice(&0u32.to_be_bytes());
    bad2.extend_from_slice(&65535u16.to_be_bytes());
    bad2.extend_from_slice(&[0u8; 8]);
    assert!(decode_frame(&bad2, None).is_err());
}

#[test]
fn test_udp_frame_count_exceeds_max() {
    let mut bad = vec![0x54, 0x01];
    bad.extend_from_slice(&1025u16.to_be_bytes());
    bad.extend_from_slice(&[0u8; 8]);
    let result = decode_frame(&bad, None);
    assert!(result.is_err(), "should reject count > 1024");
    let msg = result.unwrap_err().message();
    assert!(msg.contains("too large"), "error should mention count too large, got: {}", msg);
}

fn error_of(data: &[u8], key: Option<&str>) -> String {
    match decode_frame(data, key) {
        Err(FlowError::Other(msg)) => msg,
        _ => panic!("expected an error"),
    }
}

#[test]
fn each_fault_has_its_message() {
    assert_eq!(error_of(&[0x54], None), "frame too short");
    assert_eq!(error_of(&[0xab, 1, 0, 0], None), "invalid magic: 0xab");
    assert_eq!(error_of(&[0x54, 9, 0, 0], None), "unsupported version: 9");
    assert_eq!(
        error_of(&[0x54, 1, 0, 0], Some("k")),
        "authentication required; upgrade client to V2 protocol"
    );
    assert_eq!(
        error_of(&[0x54, 2, 0, 0], None),
        "v2 frame received but server has no api_key configured"
    );
    assert_eq!(error_of(&[0x54, 2, 0, 0], Some("k")), "frame too short for v2 auth tag");
    assert_eq!(
        error_of(&[0x54, 2, 0, 0, 1, 2, 3, 4, 5, 6, 7, 8], Some("k")),
        "authentication failed: invalid key hash"
    );
    assert_eq!(error_of(&[0x54, 1, 0, 1], None), "truncated record");
    assert_eq!(error_of(&[0x54, 1, 4, 1], None), "record count too large: 1025");
}

#[test]
fn a_frame_is_laid_out_as_told() {
    let rec = Record { key: b"k".to_vec(), ts: 1, expire_at: 2_000_001, value: b"v".to_vec() };
    let frame = encode_frame(&[rec], None);
    let mut expected = vec![0x54, 1, 0, 1, 0, 1, b'k'];
    expected.extend_from_slice(&1i64.to_be_bytes());
    expected.extend_from_slice(&2u32.to_be_bytes());
    expected.extend_from_slice(&[0, 1, b'v']);
    assert_eq!(frame, expected);
    let (back, next) = read_record(&frame, 4).unwrap();
    assert_eq!(next, frame.len());
    assert_eq!(back.expire_at, 2_000_001);
}

#[test]
fn a_tag_depends_on_every_part() {
    let rec = Record { key: b"k".to_vec(), ts: 1, expire_at: i64::MAX, value: b"v".to_vec() };
    let mut frame = encode_frame(&[rec.clone()], Some("key"));
    assert_ne!(frame[4..12], encode_frame(&[rec], Some("other"))[4..12]);
    let last = frame.len() - 1;
    frame[last] ^= 1;
    assert!(decode_frame(&frame, Some("key")).is_err());
}

#[test]
fn nothing_is_read_past_the_end() {
    assert!(read_record(&[], 0).is_none());
    assert!(read_record(&[0; 20], 21).is_none());
    assert!(read_record(&[0; 20], usize::MAX).is_none());
}
