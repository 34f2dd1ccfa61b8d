use bettermq::codec::{decode_index, decode_request, encode_index, encode_request, EnqueueRequest};
use bettermq::utils::{msgid_from_u64, msgid_to_raw, msgid_to_str, msgid_to_u64, parse_msgid, u64_to_decimal};

#[test]
fn message_id_round_trips_through_decimal() {
    let raw = msgid_from_u64(1234567890123);
    assert_eq!(raw, vec![0, 0, 1, 31, 113, 251, 4, 203]);
    assert_eq!(msgid_to_str(&raw), "1234567890123");
    assert_eq!(msgid_to_raw(&"1234567890123".to_string()), Some(raw.clone()));
    assert_eq!(msgid_to_u64(&raw), 1234567890123);
}

#[test]
fn decimal_forms() {
    assert_eq!(u64_to_decimal(0), "0");
    assert_eq!(u64_to_decimal(7), "7");
    assert_eq!(u64_to_decimal(10), "10");
    assert_eq!(u64_to_decimal(u64::MAX), "18446744073709551615");
}

#[test]
fn bad_decimal_ids_are_refused() {
    assert_eq!(parse_msgid(""), None);
    assert_eq!(parse_msgid("12a"), None);
    assert_eq!(parse_msgid("-1"), None);
    assert_eq!(parse_msgid("18446744073709551616"), None);
    assert_eq!(parse_msgid("18446744073709551615"), Some(u64::MAX));
    assert_eq!(parse_msgid("007"), Some(7));
    assert_eq!(msgid_to_raw(&"x".to_string()), None);
}

#[test]
fn stored_record_round_trips() {
    let req = EnqueueRequest {
        topic: "t".to_string(),
        payload: vec![0, 255, 7, 0],
        meta: "métadonnée".to_string(),
        priority: -3,
        deliver_after: 2000,
    };
    let bytes = encode_request(&req);
    let back = decode_request(&bytes).expect("decodes");
    assert_eq!(back.topic, "t");
    assert_eq!(back.payload, vec![0, 255, 7, 0]);
    assert_eq!(back.meta, "métadonnée");
    assert_eq!(back.priority, -3);
    assert_eq!(back.deliver_after, 2000);
}

#[test]
fn extreme_priorities_round_trip() {
    for p in [i32::MIN, -1, 0, 1, i32::MAX] {
        let req = EnqueueRequest { topic: String::new(), payload: vec![], meta: String::new(), priority: p, deliver_after: u32::MAX };
        let back = decode_request(&encode_request(&req)).expect("decodes");
        assert_eq!(back.priority, p);
        assert_eq!(back.deliver_after, u32::MAX);
    }
}

#[test]
fn damaged_records_are_refused() {
    let req = EnqueueRequest { topic: "a".to_string(), payload: vec![1, 2], meta: "m".to_string(), priority: 1, deliver_after: 0 };
    let mut bytes = encode_request(&req);
    bytes.push(0);
    assert!(decode_request(&bytes).is_none());
    bytes.truncate(bytes.len() - 3);
    assert!(decode_request(&bytes).is_none());
    let mut bad_text = encode_request(&req);
    bad_text[8] = 0xFF;
    assert!(decode_request(&bad_text).is_none());
    assert!(decode_request(&[]).is_none());
}

#[test]
fn index_record_round_trips() {
    let bytes = encode_index(-7, 123456, 42);
    assert_eq!(bytes.len(), 24);
    let rec = decode_index(&bytes).expect("decodes");
    assert_eq!(rec.priority, -7);
    assert_eq!(rec.timestamp, 123456);
    assert_eq!(rec.message_id, 42u64.to_be_bytes().to_vec());
    assert!(decode_index(&bytes[..23]).is_none());
}

#[test]
fn millis_from_seconds_and_nanoseconds() {
    assert_eq!(bettermq::utils::millis(0, 0), 0);
    assert_eq!(bettermq::utils::millis(2, 999_999), 2000);
    assert_eq!(bettermq::utils::millis(2, 1_000_000), 2001);
    assert_eq!(bettermq::utils::millis(1_700_000_000, 123_456_789), 1_700_000_000_123);
    assert_eq!(bettermq::utils::millis(u64::MAX / 1000 + 1, 0), u64::MAX);
    assert_eq!(bettermq::utils::millis(u64::MAX / 1000, 999_999_999), u64::MAX);
}
