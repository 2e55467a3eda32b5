use event_ingestion::codec::{decode, decode_array, DecodeError};
use event_ingestion::config::Config;

const NOW: u64 = 1_700_000_000_000;

fn payload(event_type: &str, user_id: &str, timestamp: i64, properties: &str) -> Vec<u8> {
    format!(
        "{{\"event_type\":\"{}\",\"user_id\":\"{}\",\"timestamp\":{},\"properties\":{}}}",
        event_type, user_id, timestamp, properties
    )
    .into_bytes()
}

#[test]
fn accepts_valid_payload() {
    let cfg = Config::defaults();
    let p = payload("click", "u1", NOW as i64, "{}");
    let e = decode(&p, NOW, &cfg).expect("valid payload must decode");
    assert_eq!(e.event_type, "click");
    assert_eq!(e.user_id, "u1");
    assert_eq!(e.timestamp, NOW as i64);
    assert_eq!(e.properties, b"{}".to_vec());
}

#[test]
fn keeps_structured_properties() {
    let cfg = Config::defaults();
    let p = payload("click", "u1", NOW as i64, "{\"a\":1,\"b\":[true,null]}");
    let e = decode(&p, NOW, &cfg).expect("valid payload must decode");
    assert_eq!(e.properties, b"{\"a\":1,\"b\":[true,null]}".to_vec());
}

#[test]
fn rejects_non_json() {
    let cfg = Config::defaults();
    let r = decode(b"not json at all", NOW, &cfg);
    assert_eq!(r, Err(DecodeError::MalformedPayload));
}

#[test]
fn rejects_non_object() {
    let cfg = Config::defaults();
    let r = decode(b"[1,2,3]", NOW, &cfg);
    assert_eq!(r, Err(DecodeError::MalformedPayload));
}

#[test]
fn rejects_missing_user_id() {
    let cfg = Config::defaults();
    let p = format!(
        "{{\"event_type\":\"click\",\"timestamp\":{},\"properties\":{{}}}}",
        NOW
    )
    .into_bytes();
    assert_eq!(decode(&p, NOW, &cfg), Err(DecodeError::FieldMissing));
}

#[test]
fn rejects_wrongly_typed_timestamp() {
    let cfg = Config::defaults();
    let p = b"{\"event_type\":\"click\",\"user_id\":\"u1\",\"timestamp\":\"soon\",\"properties\":{}}";
    assert_eq!(decode(p, NOW, &cfg), Err(DecodeError::FieldMissing));
}

#[test]
fn rejects_empty_event_type() {
    let cfg = Config::defaults();
    let p = payload("", "u1", NOW as i64, "{}");
    assert_eq!(decode(&p, NOW, &cfg), Err(DecodeError::FieldMissing));
}

#[test]
fn rejects_empty_user_id() {
    let cfg = Config::defaults();
    let p = payload("click", "", NOW as i64, "{}");
    assert_eq!(decode(&p, NOW, &cfg), Err(DecodeError::FieldMissing));
}

#[test]
fn rejects_oversized_properties() {
    let cfg = Config::defaults();
    let big = format!("\"{}\"", "x".repeat(17_000));
    let p = payload("click", "u1", NOW as i64, &big);
    assert_eq!(decode(&p, NOW, &cfg), Err(DecodeError::FieldTooLarge));
}

#[test]
fn accepts_properties_at_bound() {
    let mut cfg = Config::defaults();
    cfg.max_properties_bytes = 6;
    // the serialized value "xxxx" is exactly 6 bytes
    let p = payload("click", "u1", NOW as i64, "\"xxxx\"");
    assert!(decode(&p, NOW, &cfg).is_ok());
    cfg.max_properties_bytes = 5;
    assert_eq!(decode(&p, NOW, &cfg), Err(DecodeError::FieldTooLarge));
}

#[test]
fn timestamp_skew_boundaries() {
    let cfg = Config::defaults();
    let oldest = NOW as i64 - 86_400_000;
    let newest = NOW as i64 + 300_000;
    assert!(decode(&payload("c", "u", oldest, "{}"), NOW, &cfg).is_ok());
    assert!(decode(&payload("c", "u", newest, "{}"), NOW, &cfg).is_ok());
    assert_eq!(
        decode(&payload("c", "u", oldest - 1, "{}"), NOW, &cfg),
        Err(DecodeError::TimestampOutOfRange)
    );
    assert_eq!(
        decode(&payload("c", "u", newest + 1, "{}"), NOW, &cfg),
        Err(DecodeError::TimestampOutOfRange)
    );
}

#[test]
fn splits_json_arrays() {
    let one = String::from_utf8(payload("click", "u1", NOW as i64, "{}")).unwrap();
    let arr = format!("[{},{}]", one, one).into_bytes();
    let items = decode_array(&arr).expect("array payload must split");
    assert_eq!(items.len(), 2);
    let cfg = Config::defaults();
    for item in &items {
        assert!(decode(item, NOW, &cfg).is_ok());
    }
    assert!(decode_array(b"{\"not\":\"an array\"}").is_none());
    assert!(decode_array(b"junk").is_none());
}
