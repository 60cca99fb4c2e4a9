//! Response validation: locating and parsing the JSON document in a
//! response body, and reading its string fields.

use vstd::prelude::*;

verus! {

use crate::http::ProbeError;
use crate::text::{find_char, find_char_spec, find_last_char, find_last_char_spec, trim, trim_spec};

/// Whether serde_json accepts the text as one JSON document; a function of
/// the text alone.
pub uninterp spec fn json_accepts(s: Seq<char>) -> bool;

/// The string value at top-level key `key` of the JSON document `doc`
/// parses to: `None` when `doc` does not parse, is not an object, lacks
/// the key, or holds a non-string there. A function of the text and key
/// alone.
pub uninterp spec fn field_str_of(doc: Seq<char>, key: Seq<char>) -> Option<Seq<char>>;

/// Relies on serde_json::from_str::<Value>: whether the parse succeeds
/// depends on the text alone.
#[verifier::external_body]
fn text_parses(s: &str) -> (r: bool)
    ensures
        r == json_accepts(s@),
{
    serde_json::from_str::<serde_json::Value>(s).is_ok()
}

/// Relies on serde_json::from_str::<Value> and Value::get: parses `doc`
/// and looks up `key`, yielding the value only when it is a JSON string.
/// Both steps depend on the text and key alone.
#[verifier::external_body]
pub(crate) fn parse_string_field(doc: &str, key: &str) -> (r: Option<String>)
    ensures
        match r {
            Some(s) => field_str_of(doc@, key@) == Some(s@),
            None => field_str_of(doc@, key@) is None,
        },
{
    match serde_json::from_str::<serde_json::Value>(doc) {
        Ok(v) => match v.get(key) {
            Some(serde_json::Value::String(s)) => Some(s.clone()),
            _ => None,
        },
        Err(_) => None,
    }
}

/// The brace-to-brace slice of a trimmed body: from the first `{` to the
/// last `}`, when both exist in that order.
pub open spec fn brace_slice(t: Seq<char>) -> Option<Seq<char>> {
    match (find_char_spec(t, '{'), find_last_char_spec(t, '}')) {
        (Some(i), Some(j)) => if i <= j {
            Some(t.subrange(i, j + 1))
        } else {
            None
        },
        _ => None,
    }
}

/// The text that response-body salvage hands to the JSON parser: the
/// trimmed body when accepted directly, otherwise its brace-to-brace slice
/// when that is accepted; `None` when neither parses.
pub open spec fn json_salvage(s: Seq<char>) -> Option<Seq<char>> {
    let t = trim_spec(s);
    if t.len() == 0 {
        None
    } else if json_accepts(t) {
        Some(t)
    } else {
        match brace_slice(t) {
            Some(u) => if json_accepts(u) {
                Some(u)
            } else {
                None
            },
            None => None,
        }
    }
}

/// Parses a response body as JSON, tolerating leading and trailing noise
/// around the outermost `{…}`: yields exactly the document text that the
/// salvage rule names, so callers can speak of its fields.
pub fn parse_json_response(body: &str) -> (r: Result<String, ProbeError>)
    ensures
        match r {
            Ok(doc) => json_salvage(body@) == Some(doc@),
            Err(e) => json_salvage(body@) is None && e == ProbeError::InvalidJson,
        },
{
    let t = trim(body);
    if t.as_str().is_empty() {
        return Err(ProbeError::InvalidJson);
    }
    if text_parses(t.as_str()) {
        return Ok(t);
    }
    let n = t.as_str().unicode_len();
    let start = find_char(t.as_str(), '{');
    let end = find_last_char(t.as_str(), '}');
    proof {
        crate::text::lemma_find_char_spec(t@, '{');
        crate::text::lemma_find_last_char_spec(t@, '}');
    }
    match (start, end) {
        (Some(i), Some(j)) => {
            if i <= j {
                let sub = t.as_str().substring_char(i, j + 1);
                if text_parses(sub) {
                    Ok(sub.to_owned())
                } else {
                    Err(ProbeError::InvalidJson)
                }
            } else {
                Err(ProbeError::InvalidJson)
            }
        },
        _ => Err(ProbeError::InvalidJson),
    }
}

} // verus!
