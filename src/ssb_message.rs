//! The envelope that each log payload carries: a message key and a value that
//! names its author and its sequence in the author's feed.
use crate::error::Error;
use vstd::prelude::*;

verus! {

/// The string at `pointer` (a JSON pointer) in the JSON document `b`, if `b` parses
/// as JSON and a string stands there.
pub uninterp spec fn json_str_at(b: Seq<u8>, pointer: Seq<char>) -> Option<Seq<char>>;

/// The unsigned integer at `pointer` in the JSON document `b`, if `b` parses as JSON
/// and a number that fits in 64 unsigned bits stands there.
pub uninterp spec fn json_u64_at(b: Seq<u8>, pointer: Seq<char>) -> Option<u64>;

/// Relies on serde_json::from_slice into serde_json::Value, then Value::pointer and
/// Value::as_str: the string found at `pointer`. The input must be JSON with nothing
/// after it; an empty input, or one that starts with a zero byte, is not JSON.
#[verifier::external_body]
fn str_at(b: &[u8], pointer: &str) -> (r: Option<String>)
    ensures
        match r {
            Some(s) => json_str_at(b@, pointer@) == Some(s@),
            None => json_str_at(b@, pointer@) is None,
        },
        (b@.len() == 0 || b@[0] == 0u8) ==> r is None,
{
    let v = serde_json::from_slice::<serde_json::Value>(b).ok()?;
    v.pointer(pointer).and_then(|x| x.as_str()).map(|s| s.to_string())
}

/// Relies on serde_json::from_slice into serde_json::Value, then Value::pointer and
/// Value::as_u64: the unsigned integer found at `pointer`.
#[verifier::external_body]
fn u64_at(b: &[u8], pointer: &str) -> (r: Option<u64>)
    ensures
        r == json_u64_at(b@, pointer@),
        (b@.len() == 0 || b@[0] == 0u8) ==> r is None,
{
    let v = serde_json::from_slice::<serde_json::Value>(b).ok()?;
    v.pointer(pointer).and_then(|x| x.as_u64())
}

/// The value of an envelope: who wrote it, and where it stands in that feed.
#[derive(Debug)]
pub struct SsbValue {
    pub author: String,
    pub sequence: u32,
}

/// An envelope: the message key and its value.
#[derive(Debug)]
pub struct SsbMessage {
    pub key: String,
    pub value: SsbValue,
}

/// What the indexer reads from an envelope: (key, author, sequence).
pub type EnvelopeView = (Seq<char>, Seq<char>, u32);

impl View for SsbMessage {
    type V = EnvelopeView;

    open spec fn view(&self) -> EnvelopeView {
        (self.key@, self.value.author@, self.value.sequence)
    }
}

/// The envelope that payload `b` holds: a JSON object whose `key` is a string and
/// whose `value` holds a string `author` and a `sequence` that fits in 32 unsigned
/// bits. Any other payload, a zeroed tombstone among them, holds none.
pub open spec fn envelope_of(b: Seq<u8>) -> Option<EnvelopeView> {
    match (
        json_str_at(b, "/key"@),
        json_str_at(b, "/value/author"@),
        json_u64_at(b, "/value/sequence"@),
    ) {
        (Some(k), Some(a), Some(n)) => if n <= u32::MAX {
            Some((k, a, n as u32))
        } else {
            None
        },
        _ => None,
    }
}

/// Parses the envelope in payload `b`.
pub fn parse_message(b: &[u8]) -> (r: Option<SsbMessage>)
    ensures
        match r {
            Some(m) => envelope_of(b@) == Some(m@),
            None => envelope_of(b@) is None,
        },
        // a zeroed tombstone holds no envelope
        b@.len() == 0 || b@[0] == 0u8 ==> r is None,
{
    let key = str_at(b, "/key");
    let author = str_at(b, "/value/author");
    let sequence = u64_at(b, "/value/sequence");
    match (key, author, sequence) {
        (Some(k), Some(a), Some(n)) => {
            if n <= u32::MAX as u64 {
                Some(SsbMessage { key: k, value: SsbValue { author: a, sequence: n as u32 } })
            } else {
                None
            }
        },
        _ => None,
    }
}


/// Whether `b` parses as a legacy message value: JSON as the legacy feed format
/// admits it, with nothing after it.
pub uninterp spec fn legacy_json_ok(b: Seq<u8>) -> bool;

/// The entry called `name` of the legacy JSON object `b`, written back as legacy
/// JSON: `None` where `b` is not a legacy JSON object with that entry, `Some(None)`
/// where the entry cannot be written back.
pub uninterp spec fn legacy_entry_json(b: Seq<u8>, name: Seq<char>) -> Option<Option<Seq<u8>>>;

/// Relies on ssb_legacy_msg_data::json::from_slice into a legacy Value: whether it
/// succeeds depends on the input alone. That parser recurses once per nesting level
/// with no limit of its own, so it is only handed payloads that serde_json parsed,
/// which refuses nesting deeper than 128 levels.
#[verifier::external_body]
fn legacy_parses(b: &[u8]) -> (r: bool)
    requires
        envelope_of(b@) is Some,
    ensures
        r == legacy_json_ok(b@),
{
    ssb_legacy_msg_data::json::from_slice::<ssb_legacy_msg_data::value::Value>(b).is_ok()
}

/// Relies on ssb_legacy_msg_data::json::from_slice into a legacy Value, then
/// RidiculousStringMap::get of the entry `name` of an object, then json::to_vec in
/// its non-compact form, which writes object entries in their stored order. Only
/// payloads that serde_json parsed are handed to it (see `legacy_parses`).
#[verifier::external_body]
fn legacy_entry(b: &[u8], name: &str) -> (r: Option<Option<Vec<u8>>>)
    requires
        envelope_of(b@) is Some,
    ensures
        match r {
            None => legacy_entry_json(b@, name@) is None,
            Some(None) => legacy_entry_json(b@, name@) == Some(None::<Seq<u8>>),
            Some(Some(v)) => legacy_entry_json(b@, name@) == Some(Some(v@)),
        },
        r is Some ==> legacy_json_ok(b@),
{
    match ssb_legacy_msg_data::json::from_slice::<ssb_legacy_msg_data::value::Value>(b) {
        Ok(ssb_legacy_msg_data::value::Value::Object(m)) => m.get(name).map(
            |v| ssb_legacy_msg_data::json::to_vec(v, false).ok(),
        ),
        _ => None,
    }
}

/// What projecting the value of payload `b` gives: nothing for a payload that holds
/// no envelope or does not parse as legacy JSON (such an entry is left out of a
/// result), the envelope's `value` entry written back as legacy JSON, or an error
/// where that entry is missing or cannot be written back.
pub open spec fn value_projection(b: Seq<u8>) -> Result<Option<Seq<u8>>, Error> {
    if envelope_of(b) is None || !legacy_json_ok(b) {
        Ok(None)
    } else {
        match legacy_entry_json(b, "value"@) {
            None => Err(Error::ErrorParsingAsLegacyValue),
            Some(None) => Err(Error::EncodingValueAsVecError),
            Some(Some(v)) => Ok(Some(v)),
        }
    }
}

/// The `value` of the envelope in `payload`, written back as legacy JSON with its
/// entries in their stored order; see `value_projection`.
pub fn project_value(payload: &[u8]) -> (r: Result<Option<Vec<u8>>, Error>)
    ensures
        match r {
            Ok(None) => value_projection(payload@) == Ok::<Option<Seq<u8>>, Error>(None),
            Ok(Some(v)) => value_projection(payload@) == Ok::<Option<Seq<u8>>, Error>(Some(v@)),
            Err(e) => value_projection(payload@) == Err::<Option<Seq<u8>>, Error>(e),
        },
{
    if parse_message(payload).is_none() || !legacy_parses(payload) {
        return Ok(None);
    }
    match legacy_entry(payload, "value") {
        None => Err(Error::ErrorParsingAsLegacyValue),
        Some(None) => Err(Error::EncodingValueAsVecError),
        Some(Some(v)) => Ok(Some(v)),
    }
}

} // verus!
