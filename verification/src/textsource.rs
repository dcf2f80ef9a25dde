//! The text-item source: ordered extraction of payloads from the operation
//! log.
//!
//! Each log line is one operation record, a JSON object. An operation may or
//! may not carry a text payload: the payload is the string value of the
//! record's payload field. Extraction is deterministic across runs — the same
//! log yields the same item sequence — because resumption skips by item
//! count, not by raw line count. A malformed line is a fatal parse error: no
//! line is ever skipped silently.

use vstd::prelude::*;
use crate::errors::{ParseError, VectorizationError};

verus! {

/// The name of the payload field in an operation record.
pub const PAYLOAD_FIELD: &'static str = "string";

/// What parsing one log line yields: `None` when the line is not well-formed
/// JSON, `Some(None)` for a record without a string payload under `key`, and
/// `Some(Some(payload))` for a record that carries one. The result depends
/// on the line and the key alone.
pub uninterp spec fn json_string_field(line: Seq<char>, key: Seq<char>) -> Option<
    Option<Seq<char>>,
>;

/// Relies on serde_json::from_str::<Value> to parse one log line, and on
/// serde_json::Value::get and Value::as_str to pick out the payload: the
/// outcome is a function of the line and the key alone.
#[verifier::external_body]
fn parse_payload(line: &str, key: &str) -> (r: Result<Option<String>, ParseError>)
    ensures
        match r {
            Ok(Some(s)) => json_string_field(line@, key@) == Some(Some(s@)),
            Ok(None) => json_string_field(line@, key@) == Some(None::<Seq<char>>),
            Err(_) => json_string_field(line@, key@) is None,
        },
{
    match serde_json::from_str::<serde_json::Value>(line) {
        Ok(v) => Ok(v.get(key).and_then(serde_json::Value::as_str).map(|s| s.to_string())),
        Err(_) => Err(ParseError),
    }
}

/// The views of a sequence of strings.
pub open spec fn lines_view(lines: Seq<String>) -> Seq<Seq<char>> {
    lines.map_values(|s: String| s@)
}

/// The ordered payload sequence a log denotes: the payloads of the
/// payload-bearing records, in record order — or `None` when any line is
/// malformed.
pub open spec fn spec_extract(lines: Seq<Seq<char>>, key: Seq<char>) -> Option<Seq<Seq<char>>>
    decreases lines.len(),
{
    if lines.len() == 0 {
        Some(Seq::empty())
    } else {
        match spec_extract(lines.drop_last(), key) {
            Some(items) => match json_string_field(lines.last(), key) {
                Some(Some(s)) => Some(items.push(s)),
                Some(None) => Some(items),
                None => None,
            },
            None => None,
        }
    }
}

/// One malformed line anywhere makes the whole extraction fail: nothing is
/// skipped silently.
pub proof fn lemma_extract_malformed(lines: Seq<Seq<char>>, key: Seq<char>, j: int)
    requires
        0 <= j < lines.len(),
        json_string_field(lines[j], key) is None,
    ensures
        spec_extract(lines, key) is None,
    decreases lines.len(),
{
    if j == lines.len() - 1 {
    } else {
        assert(lines.drop_last()[j] == lines[j]);
        lemma_extract_malformed(lines.drop_last(), key, j);
    }
}

/// Extracts the ordered text payloads of the log `lines`, reading each line
/// as one operation record with payload field `key`. Succeeds if and only if
/// every line parses; the first malformed line makes the whole run fail with
/// a parse error.
pub fn extract_text_items(lines: &Vec<String>, key: &str) -> (r: Result<
    Vec<String>,
    VectorizationError,
>)
    ensures
        match r {
            Ok(items) => spec_extract(lines_view(lines@), key@) == Some(lines_view(items@)),
            Err(e) => {
                &&& spec_extract(lines_view(lines@), key@) is None
                &&& e == VectorizationError::Parse(ParseError)
            },
        },
{
    let ghost model = lines_view(lines@);
    let mut items: Vec<String> = Vec::new();
    let mut i: usize = 0;
    proof {
        assert(model.take(0) =~= Seq::<Seq<char>>::empty());
        assert(lines_view(items@) =~= Seq::<Seq<char>>::empty());
    }
    while i < lines.len()
        invariant
            i <= lines@.len(),
            model == lines_view(lines@),
            spec_extract(model.take(i as int), key@) == Some(lines_view(items@)),
        decreases lines@.len() - i,
    {
        let ghost items0 = items@;
        let line = &lines[i];
        let parsed = parse_payload(line.as_str(), key);
        proof {
            assert(model.take(i + 1).drop_last() =~= model.take(i as int));
            assert(model.take(i + 1).last() == model[i as int]);
            assert(model[i as int] == line@);
        }
        match parsed {
            Ok(Some(payload)) => {
                items.push(payload);
                proof {
                    assert(lines_view(items@) =~= lines_view(items0).push(items@.last()@));
                }
            },
            Ok(None) => {},
            Err(_) => {
                proof {
                    lemma_extract_malformed(model, key@, i as int);
                }
                return Err(VectorizationError::Parse(ParseError));
            },
        }
        i = i + 1;
    }
    proof {
        assert(model.take(lines@.len() as int) =~= model);
    }
    Ok(items)
}

/// Drops the first `cursor` items: resumption processes only the items after
/// the checkpointed count. A cursor at or beyond the end leaves nothing to
/// do.
pub fn skip_processed(items: Vec<String>, cursor: u64) -> (r: Vec<String>)
    ensures
        cursor <= items@.len() ==> r@ == items@.skip(cursor as int),
        cursor > items@.len() ==> r@ == Seq::<String>::empty(),
{
    let ghost items0 = items@;
    let len = items.len();
    let n: usize = if cursor <= len as u64 {
        cursor as usize
    } else {
        len
    };
    let mut items = items;
    let r = items.split_off(n);
    proof {
        if cursor <= items0.len() {
            assert(r@ =~= items0.skip(cursor as int));
        } else {
            assert(r@ =~= Seq::<String>::empty());
        }
    }
    r
}

} // verus!
