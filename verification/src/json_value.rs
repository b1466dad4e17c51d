//! JSON documents as plain values, parsed by serde_json.

use vstd::prelude::*;
use crate::order::str_eq;

verus! {

/// A JSON value: numbers are kept as their text, objects as their entries in
/// key order.
pub enum JsonValue {
    Null,
    Bool(bool),
    Number(String),
    String(String),
    Array(Vec<JsonValue>),
    Object(Vec<(String, JsonValue)>),
}

pub enum JsonValueView {
    Null,
    Bool(bool),
    Number(Seq<char>),
    String(Seq<char>),
    Array(Seq<JsonValueView>),
    Object(Seq<(Seq<char>, JsonValueView)>),
}

pub open spec fn json_view(v: JsonValue) -> JsonValueView
    decreases v, 0nat,
{
    match v {
        JsonValue::Null => JsonValueView::Null,
        JsonValue::Bool(b) => JsonValueView::Bool(b),
        JsonValue::Number(n) => JsonValueView::Number(n@),
        JsonValue::String(s) => JsonValueView::String(s@),
        JsonValue::Array(a) => JsonValueView::Array(json_views(a@, a@.len() as int)),
        JsonValue::Object(m) => JsonValueView::Object(json_entries(m@, m@.len() as int)),
    }
}

/// The views of the first `n` values.
pub open spec fn json_views(s: Seq<JsonValue>, n: int) -> Seq<JsonValueView>
    decreases s, n,
{
    if n <= 0 || n > s.len() {
        seq![]
    } else {
        json_views(s, n - 1).push(json_view(s[n - 1]))
    }
}

/// The views of the first `n` entries.
pub open spec fn json_entries(s: Seq<(String, JsonValue)>, n: int) -> Seq<(Seq<char>, JsonValueView)>
    decreases s, n,
{
    if n <= 0 || n > s.len() {
        seq![]
    } else {
        json_entries(s, n - 1).push((s[n - 1].0@, json_view(s[n - 1].1)))
    }
}

proof fn lemma_json_views(s: Seq<JsonValue>, n: int)
    requires
        0 <= n <= s.len(),
    ensures
        json_views(s, n).len() == n,
        forall|k: int| 0 <= k < n ==> #[trigger] json_views(s, n)[k] == json_view(s[k]),
    decreases n,
{
    if n > 0 {
        lemma_json_views(s, n - 1);
    }
}

proof fn lemma_json_entries(s: Seq<(String, JsonValue)>, n: int)
    requires
        0 <= n <= s.len(),
    ensures
        json_entries(s, n).len() == n,
        forall|k: int| 0 <= k < n ==> #[trigger] json_entries(s, n)[k] == (s[k].0@, json_view(s[k].1)),
    decreases n,
{
    if n > 0 {
        lemma_json_entries(s, n - 1);
    }
}

/// The views of all the values.
pub proof fn lemma_json_views_all(s: Seq<JsonValue>)
    ensures
        json_views(s, s.len() as int).len() == s.len(),
        forall|k: int| 0 <= k < s.len() ==> #[trigger] json_views(s, s.len() as int)[k] == json_view(s[k]),
{
    lemma_json_views(s, s.len() as int);
}

/// The views of all the entries.
pub proof fn lemma_json_entries_all(s: Seq<(String, JsonValue)>)
    ensures
        json_entries(s, s.len() as int).len() == s.len(),
        forall|k: int| 0 <= k < s.len() ==> #[trigger] json_entries(s, s.len() as int)[k] == (s[k].0@, json_view(s[k].1)),
{
    lemma_json_entries(s, s.len() as int);
}

/// The first entry of an object under `key`.
pub open spec fn entry_of(entries: Seq<(Seq<char>, JsonValueView)>, key: Seq<char>) -> Option<JsonValueView>
    decreases entries.len(),
{
    if entries.len() == 0 {
        None
    } else if entries[0].0 == key {
        Some(entries[0].1)
    } else {
        entry_of(entries.drop_first(), key)
    }
}

impl View for JsonValue {
    type V = JsonValueView;

    open spec fn view(&self) -> JsonValueView {
        json_view(*self)
    }
}

pub open spec fn opt_json(o: Option<JsonValue>) -> Option<JsonValueView> {
    match o {
        Some(v) => Some(v@),
        None => None,
    }
}

#[verifier::external_type_specification]
#[verifier::external_body]
pub struct ExSerdeJsonValue(serde_json::Value);

/// What `serde_json::from_str::<serde_json::Value>` reads a text as: `None`
/// when it is not JSON.
pub uninterp spec fn json_parse(text: Seq<char>) -> Option<JsonValueView>;

/// `serde_json::from_str::<serde_json::Value>`, the value converted one for
/// one by `json_value`. The result is named by `json_parse`; nothing more is
/// claimed of it.
#[verifier::external_body]
pub(crate) fn parse_json(text: &str) -> (r: Option<JsonValue>)
    ensures
        opt_json(r) == json_parse(text@),
{
    match serde_json::from_str::<serde_json::Value>(text) {
        Ok(v) => Some(json_value(v)),
        Err(_) => None,
    }
}

/// A `serde_json::Value` as a `JsonValue`, variant for variant (a number by
/// its `Display` text); only `parse_json` calls it.
#[verifier::external_body]
fn json_value(v: serde_json::Value) -> JsonValue {
    match v {
        serde_json::Value::Null => JsonValue::Null,
        serde_json::Value::Bool(b) => JsonValue::Bool(b),
        serde_json::Value::Number(n) => JsonValue::Number(n.to_string()),
        serde_json::Value::String(s) => JsonValue::String(s),
        serde_json::Value::Array(a) => JsonValue::Array(a.into_iter().map(json_value).collect()),
        serde_json::Value::Object(m) => JsonValue::Object(m.into_iter().map(|(k, x)| (k, json_value(x))).collect()),
    }
}

/// The value under `key` when `v` is an object; `None` otherwise.
pub open spec fn field_of(v: JsonValueView, key: Seq<char>) -> Option<JsonValueView> {
    match v {
        JsonValueView::Object(entries) => entry_of(entries, key),
        _ => None,
    }
}

pub open spec fn viewed(o: Option<&JsonValue>) -> Option<JsonValueView> {
    match o {
        Some(x) => Some(x@),
        None => None,
    }
}

/// The value under `key` when `v` is an object.
pub fn field<'a>(v: &'a JsonValue, key: &str) -> (r: Option<&'a JsonValue>)
    ensures
        viewed(r) == field_of(v@, key@),
{
    match v {
        JsonValue::Object(entries) => {
            let ghost ev = json_entries(entries@, entries@.len() as int);
            proof {
                lemma_json_entries_all(entries@);
                assert(ev.skip(0) =~= ev);
            }
            let n = entries.len();
            let mut i: usize = 0;
            while i < n
                invariant
                    n == entries@.len(),
                    ev == json_entries(entries@, entries@.len() as int),
                    field_of(v@, key@) == entry_of(ev, key@),
                    ev.len() == n,
                    forall|k: int| 0 <= k < n ==> #[trigger] ev[k] == (entries@[k].0@, json_view(entries@[k].1)),
                    i <= n,
                    entry_of(ev, key@) == entry_of(ev.skip(i as int), key@),
                decreases n - i,
            {
                proof {
                    assert(ev.skip(i as int)[0] == ev[i as int]);
                    assert(ev.skip(i as int).drop_first() =~= ev.skip(i + 1));
                }
                if str_eq(entries[i].0.as_str(), key) {
                    return Some(&entries[i].1);
                }
                i += 1;
            }
            None
        },
        _ => None,
    }
}

} // verus!
