//! Event envelope codec: turns a wire payload into a validated [`Event`] or a
//! [`DecodeError`], before anything enters the pipeline.
//!
//! Extracting the fields from the JSON payload is delegated to serde_json
//! behind a trusted wrapper; every rule about which payloads are accepted is
//! stated and proved here.

use vstd::prelude::*;

use crate::config::Config;

verus! {

/// A validated event envelope.  `properties` is carried as an opaque,
/// size-bounded re-serialized JSON value; the ingestion core never looks
/// inside it.
#[derive(Clone, Debug, PartialEq, Eq)]
pub struct Event {
    pub event_type: String,
    pub user_id: String,
    pub timestamp: i64,
    pub properties: Vec<u8>,
}

/// How field extraction can fail before validation starts.
#[derive(Clone, Copy, Debug, PartialEq, Eq, Structural)]
pub enum ParseFail {
    /// The payload is not a JSON object at all.
    NotAnObject,
    /// A required field is absent or has the wrong JSON type.
    BadField,
}

/// Why a payload was refused, reported to the caller as a client fault.
#[derive(Clone, Copy, Debug, PartialEq, Eq, Structural)]
pub enum DecodeError {
    MalformedPayload,
    FieldMissing,
    FieldTooLarge,
    TimestampOutOfRange,
}

/// The fields serde_json extracts from one payload: a function of the bytes
/// alone.
pub uninterp spec fn json_fields_of(b: Seq<u8>) -> Result<Event, ParseFail>;

/// The elements serde_json extracts from a JSON array payload, each
/// re-serialized on its own: a function of the bytes alone.
pub uninterp spec fn json_array_of(b: Seq<u8>) -> Option<Vec<Vec<u8>>>;

/// Relies on serde_json::from_slice to parse the payload and on
/// serde_json::Value::{as_object, get, as_str, as_i64} and serde_json::to_vec
/// to pull out the four envelope fields; the outcome depends on the bytes
/// alone.
#[verifier::external_body]
fn parse_fields(bytes: &[u8]) -> (r: Result<Event, ParseFail>)
    ensures
        r == json_fields_of(bytes@),
{
    let v: serde_json::Value = match serde_json::from_slice(bytes) {
        Ok(v) => v,
        Err(_) => return Err(ParseFail::NotAnObject),
    };
    let o = match v.as_object() { Some(o) => o, None => return Err(ParseFail::NotAnObject) };
    match (o.get("event_type").and_then(serde_json::Value::as_str),
           o.get("user_id").and_then(serde_json::Value::as_str),
           o.get("timestamp").and_then(serde_json::Value::as_i64),
           o.get("properties").and_then(|p| serde_json::to_vec(p).ok())) {
        (Some(t), Some(u), Some(ts), Some(p)) =>
            Ok(Event { event_type: t.to_string(), user_id: u.to_string(), timestamp: ts, properties: p }),
        _ => Err(ParseFail::BadField),
    }
}

/// Relies on serde_json::from_slice to parse a JSON array and on
/// serde_json::Value::to_string to re-serialize each element; the outcome
/// depends on the bytes alone.
#[verifier::external_body]
fn split_array(bytes: &[u8]) -> (r: Option<Vec<Vec<u8>>>)
    ensures
        r == json_array_of(bytes@),
{
    match serde_json::from_slice::<Vec<serde_json::Value>>(bytes) {
        Ok(vals) => Some(vals.iter().map(|v| v.to_string().into_bytes()).collect()),
        Err(_) => None,
    }
}

/// An event timestamp is acceptable when it lies within the configured skew
/// window around the current time.
pub open spec fn timestamp_in_range(ts: int, now: int, cfg: Config) -> bool {
    now - cfg.max_skew_past <= ts <= now + cfg.max_skew_future
}

/// The validation verdict on already-extracted fields: the first violated
/// constraint decides the error, in the order missing/empty field, oversized
/// properties, timestamp out of range.
pub open spec fn validate_spec(e: Event, now: u64, cfg: Config) -> Result<Event, DecodeError> {
    if e.event_type@.len() == 0 || e.user_id@.len() == 0 {
        Err(DecodeError::FieldMissing)
    } else if e.properties@.len() > cfg.max_properties_bytes {
        Err(DecodeError::FieldTooLarge)
    } else if !timestamp_in_range(e.timestamp as int, now as int, cfg) {
        Err(DecodeError::TimestampOutOfRange)
    } else {
        Ok(e)
    }
}

/// The full decode verdict on a payload, including the parse step.
pub open spec fn decode_spec(b: Seq<u8>, now: u64, cfg: Config) -> Result<Event, DecodeError> {
    match json_fields_of(b) {
        Err(ParseFail::NotAnObject) => Err(DecodeError::MalformedPayload),
        Err(ParseFail::BadField) => Err(DecodeError::FieldMissing),
        Ok(e) => validate_spec(e, now, cfg),
    }
}

/// Validate extracted fields against the configured limits.  Accepts exactly
/// the envelopes whose `event_type` and `user_id` are non-empty, whose
/// re-serialized `properties` fit the size bound, and whose timestamp lies in
/// the skew window; the envelope comes back unchanged.
pub fn validate(e: Event, now: u64, cfg: &Config) -> (r: Result<Event, DecodeError>)
    ensures
        r == validate_spec(e, now, *cfg),
{
    if e.event_type.as_str().is_empty() || e.user_id.as_str().is_empty() {
        return Err(DecodeError::FieldMissing);
    }
    if e.properties.len() > cfg.max_properties_bytes {
        return Err(DecodeError::FieldTooLarge);
    }
    let ts: i128 = e.timestamp as i128;
    let lo: i128 = now as i128 - cfg.max_skew_past as i128;
    let hi: i128 = now as i128 + cfg.max_skew_future as i128;
    if ts < lo || ts > hi {
        return Err(DecodeError::TimestampOutOfRange);
    }
    Ok(e)
}

/// Decode one wire payload: parse the JSON envelope, then validate its
/// fields.  Returns `Ok` exactly when the payload parses as an object with
/// the four required fields and every field constraint holds.
pub fn decode(bytes: &[u8], now: u64, cfg: &Config) -> (r: Result<Event, DecodeError>)
    ensures
        r == decode_spec(bytes@, now, *cfg),
{
    match parse_fields(bytes) {
        Err(ParseFail::NotAnObject) => Err(DecodeError::MalformedPayload),
        Err(ParseFail::BadField) => Err(DecodeError::FieldMissing),
        Ok(e) => validate(e, now, cfg),
    }
}

/// Split a JSON array payload into its re-serialized elements, for the batch
/// ingestion endpoint.  `None` exactly when the payload is not a JSON array.
pub fn decode_array(bytes: &[u8]) -> (r: Option<Vec<Vec<u8>>>)
    ensures
        r == json_array_of(bytes@),
{
    split_array(bytes)
}

} // verus!
