//! Envelopes read from any JSON spelling: a parsed JSON value is read as an
//! envelope the way serde's derived `Deserialize` reads the structs and the
//! externally tagged payload enum (each struct as an object, fields by name
//! in any order, unknown fields ignored, a missing `after` read as none, or
//! as an array of all its fields in order).

use vstd::prelude::*;
use crate::envelope::{ids_view, CoreView, EnvelopeCore, EnvelopeView, OperationEnvelope, Payload, PayloadView};
use crate::hex::chars_of;
use crate::id::{BlockId, DeviceId, DocumentId, OpId, WorkspaceId};
use crate::json_value::{
    entry_of, field, json_view, json_views, lemma_json_entries_all, lemma_json_views_all, viewed, JsonValue,
    JsonValueView,
};
use crate::order::str_eq;
use crate::text::{dec_value, is_dec_digit, lemma_dec_value_grows};

verus! {

/// A string's text.
pub open spec fn str_of(v: Option<JsonValueView>) -> Option<Seq<char>> {
    match v {
        Some(JsonValueView::String(s)) => Some(s),
        _ => None,
    }
}

/// An optional string: absent or `null` is none.
pub open spec fn opt_str_of(v: Option<JsonValueView>) -> Option<Option<Seq<char>>> {
    match v {
        None => Some(None),
        Some(JsonValueView::Null) => Some(None),
        Some(JsonValueView::String(s)) => Some(Some(s)),
        _ => None,
    }
}

/// The texts of items that are all strings.
pub open spec fn strs_of(items: Seq<JsonValueView>) -> Option<Seq<Seq<char>>>
    decreases items.len(),
{
    if items.len() == 0 {
        Some(seq![])
    } else {
        match (strs_of(items.drop_last()), items.last()) {
            (Some(a), JsonValueView::String(s)) => Some(a.push(s)),
            _ => None,
        }
    }
}

/// An array of strings.
pub open spec fn list_of(v: Option<JsonValueView>) -> Option<Seq<Seq<char>>> {
    match v {
        Some(JsonValueView::Array(items)) => strs_of(items),
        _ => None,
    }
}

/// The value of a non-empty run of decimal digits.
pub open spec fn digits_of(t: Seq<char>) -> Option<nat> {
    if t.len() > 0 && forall|i: int| 0 <= i < t.len() ==> is_dec_digit(#[trigger] t[i]) {
        Some(dec_value(t))
    } else {
        None
    }
}

/// A number that is a `u32`.
pub open spec fn u32_of(v: Option<JsonValueView>) -> Option<u32> {
    match v {
        Some(JsonValueView::Number(t)) => match digits_of(t) {
            Some(n) => if n <= u32::MAX { Some(n as u32) } else { None },
            None => None,
        },
        _ => None,
    }
}

/// A number that is an `i64`.
pub open spec fn i64_of(v: Option<JsonValueView>) -> Option<i64> {
    match v {
        Some(JsonValueView::Number(t)) => if t.len() > 0 && t[0] == '-' {
            match digits_of(t.drop_first()) {
                Some(n) => if n <= 9223372036854775808 { Some((0 - n) as i64) } else { None },
                None => None,
            }
        } else {
            match digits_of(t) {
                Some(n) => if n <= i64::MAX { Some(n as i64) } else { None },
                None => None,
            }
        },
        _ => None,
    }
}

/// The field `key` of a struct written as an object, or its element `pos`
/// when the struct is written as an array of all `count` fields in order.
pub open spec fn member(c: JsonValueView, key: Seq<char>, pos: int, count: int) -> Option<JsonValueView> {
    match c {
        JsonValueView::Object(es) => entry_of(es, key),
        JsonValueView::Array(items) => if items.len() == count { Some(items[pos]) } else { None },
        _ => None,
    }
}

/// The payload variant `tag` with the fields that `c` holds.
pub open spec fn variant_of(tag: Seq<char>, c: JsonValueView) -> Option<PayloadView> {
    if tag == "CreateWorkspace"@ {
        match (str_of(member(c, "workspace"@, 0, 2)), str_of(member(c, "name"@, 1, 2))) {
            (Some(w), Some(n)) => Some(PayloadView::CreateWorkspace { workspace: w, name: n }),
            _ => None,
        }
    } else if tag == "CreateDocument"@ {
        match (
            str_of(member(c, "workspace"@, 0, 3)),
            str_of(member(c, "document"@, 1, 3)),
            str_of(member(c, "title"@, 2, 3)),
        ) {
            (Some(w), Some(d), Some(t)) => Some(PayloadView::CreateDocument { workspace: w, document: d, title: t }),
            _ => None,
        }
    } else if tag == "InsertBlock"@ {
        match (
            str_of(member(c, "document"@, 0, 4)),
            str_of(member(c, "block"@, 1, 4)),
            opt_str_of(member(c, "after"@, 2, 4)),
            str_of(member(c, "text"@, 3, 4)),
        ) {
            (Some(d), Some(b), Some(a), Some(t)) => Some(
                PayloadView::InsertBlock { document: d, block: b, after: a, text: t },
            ),
            _ => None,
        }
    } else if tag == "EditBlock"@ {
        match (
            str_of(member(c, "document"@, 0, 3)),
            str_of(member(c, "block"@, 1, 3)),
            str_of(member(c, "text"@, 2, 3)),
        ) {
            (Some(d), Some(b), Some(t)) => Some(PayloadView::EditBlock { document: d, block: b, text: t }),
            _ => None,
        }
    } else if tag == "RemoveBlock"@ {
        match (str_of(member(c, "document"@, 0, 2)), str_of(member(c, "block"@, 1, 2))) {
            (Some(d), Some(b)) => Some(PayloadView::RemoveBlock { document: d, block: b }),
            _ => None,
        }
    } else {
        None
    }
}

/// The payload an externally tagged value holds: an object with one entry,
/// the variant's name to the variant's fields.
pub open spec fn payload_of(v: Option<JsonValueView>) -> Option<PayloadView> {
    match v {
        Some(JsonValueView::Object(es)) => if es.len() == 1 { variant_of(es[0].0, es[0].1) } else { None },
        _ => None,
    }
}

/// The envelope core a value holds.
pub open spec fn core_of(v: Option<JsonValueView>) -> Option<CoreView> {
    match v {
        Some(c) => match (
            u32_of(member(c, "v"@, 0, 5)),
            str_of(member(c, "actor"@, 1, 5)),
            list_of(member(c, "parents"@, 2, 5)),
            i64_of(member(c, "authored_ms"@, 3, 5)),
            payload_of(member(c, "payload"@, 4, 5)),
        ) {
            (Some(ver), Some(a), Some(ps), Some(ms), Some(p)) => Some(
                CoreView { v: ver, actor: a, parents: ps, authored_ms: ms, payload: p },
            ),
            _ => None,
        },
        None => None,
    }
}

/// The envelope a JSON value holds.
pub open spec fn envelope_of_json(v: JsonValueView) -> Option<EnvelopeView> {
    match (str_of(member(v, "id"@, 0, 2)), core_of(member(v, "core"@, 1, 2))) {
        (Some(id), Some(c)) => Some(EnvelopeView { id, core: c }),
        _ => None,
    }
}

pub open spec fn opt_payload(o: Option<Payload>) -> Option<PayloadView> {
    match o {
        Some(p) => Some(p@),
        None => None,
    }
}

pub open spec fn opt_core(o: Option<EnvelopeCore>) -> Option<CoreView> {
    match o {
        Some(c) => Some(c@),
        None => None,
    }
}

pub open spec fn opt_envelope(o: Option<OperationEnvelope>) -> Option<EnvelopeView> {
    match o {
        Some(e) => Some(e@),
        None => None,
    }
}

pub open spec fn opt_string(o: Option<String>) -> Option<Seq<char>> {
    match o {
        Some(s) => Some(s@),
        None => None,
    }
}

fn text_in(v: Option<&JsonValue>) -> (r: Option<String>)
    ensures
        opt_string(r) == str_of(viewed(v)),
{
    match v {
        Some(JsonValue::String(s)) => Some(s.clone()),
        _ => None,
    }
}

fn member_at<'a>(v: &'a JsonValue, key: &str, pos: usize, count: usize) -> (r: Option<&'a JsonValue>)
    requires
        pos < count,
    ensures
        viewed(r) == member(v@, key@, pos as int, count as int),
{
    match v {
        JsonValue::Object(_) => field(v, key),
        JsonValue::Array(items) => {
            proof {
                lemma_json_views_all(items@);
            }
            if items.len() == count {
                Some(&items[pos])
            } else {
                None
            }
        },
        _ => None,
    }
}

fn opt_text_in(v: Option<&JsonValue>) -> (r: Option<Option<String>>)
    ensures
        match r {
            Some(o) => opt_str_of(viewed(v)) == Some(opt_string(o)),
            None => opt_str_of(viewed(v)) is None,
        },
{
    match v {
        None => Some(None),
        Some(JsonValue::Null) => Some(None),
        Some(JsonValue::String(s)) => Some(Some(s.clone())),
        _ => None,
    }
}

fn ids_in(v: Option<&JsonValue>) -> (r: Option<Vec<OpId>>)
    ensures
        match r {
            Some(ids) => list_of(viewed(v)) == Some(ids_view(ids@)),
            None => list_of(viewed(v)) is None,
        },
{
    match v {
        Some(JsonValue::Array(items)) => {
            let ghost iv = json_views(items@, items@.len() as int);
            proof {
                lemma_json_views_all(items@);
            }
            let n = items.len();
            let mut out: Vec<OpId> = Vec::new();
            let mut i: usize = 0;
            assert(iv.take(0) =~= Seq::<JsonValueView>::empty());
            assert(ids_view(out@) =~= Seq::<Seq<char>>::empty());
            while i < n
                invariant
                    n == items@.len(),
                    iv == json_views(items@, items@.len() as int),
                    list_of(viewed(v)) == strs_of(iv),
                    iv.len() == n,
                    forall|k: int| 0 <= k < n ==> #[trigger] iv[k] == json_view(items@[k]),
                    i <= n,
                    strs_of(iv.take(i as int)) == Some(ids_view(out@)),
                decreases n - i,
            {
                proof {
                    assert(iv.take(i + 1).drop_last() =~= iv.take(i as int));
                    assert(iv.take(i + 1).last() == json_view(items@[i as int]));
                }
                match &items[i] {
                    JsonValue::String(s) => {
                        let ghost pre = ids_view(out@);
                        out.push(OpId(s.clone()));
                        assert(ids_view(out@) =~= pre.push(s@));
                    },
                    _ => {
                        proof {
                            lemma_strs_prefix(iv, i + 1);
                        }
                        return None;
                    },
                }
                i += 1;
            }
            assert(iv.take(n as int) =~= iv);
            Some(out)
        },
        _ => None,
    }
}

/// Items that are not all strings from the start never become so.
proof fn lemma_strs_prefix(items: Seq<JsonValueView>, k: int)
    requires
        0 <= k <= items.len(),
        strs_of(items.take(k)) is None,
    ensures
        strs_of(items) is None,
    decreases items.len() - k,
{
    if k < items.len() {
        assert(items.take(k + 1).drop_last() =~= items.take(k));
        lemma_strs_prefix(items, k + 1);
    } else {
        assert(items.take(k) =~= items);
    }
}

/// The value of the digits `cs[from..]`, or `None` when they are not a
/// non-empty run of digits or their value does not fit in a `u64`.
fn digits_at(cs: &Vec<char>, from: usize) -> (r: Option<u64>)
    requires
        from <= cs@.len(),
    ensures
        match r {
            Some(n) => digits_of(cs@.skip(from as int)) == Some(n as nat),
            None => digits_of(cs@.skip(from as int)) matches Some(n) ==> n > u64::MAX,
        },
{
    let ghost ds = cs@.skip(from as int);
    let n = cs.len();
    if from == n {
        return None;
    }
    let mut v: u64 = 0;
    let mut i: usize = from;
    while i < n
        invariant
            n == cs@.len(),
            from < n,
            from <= i <= n,
            ds == cs@.skip(from as int),
            forall|k: int| 0 <= k < i - from ==> is_dec_digit(#[trigger] ds[k]),
            v as nat == dec_value(ds.take(i - from)),
        decreases n - i,
    {
        let c = cs[i];
        if !('0' <= c && c <= '9') {
            assert(!is_dec_digit(ds[i - from]));
            return None;
        }
        let d = (c as u32 - 48) as u64;
        proof {
            assert(ds.take(i - from + 1).drop_last() =~= ds.take(i - from));
            assert(ds.take(i - from + 1).last() == c);
        }
        let next = match v.checked_mul(10) {
            Some(t) => t.checked_add(d),
            None => None,
        };
        match next {
            Some(u) => {
                v = u;
            },
            None => {
                proof {
                    if forall|k: int| 0 <= k < ds.len() ==> is_dec_digit(#[trigger] ds[k]) {
                        lemma_dec_value_grows(ds, i - from + 1);
                    }
                }
                return None;
            },
        }
        i += 1;
    }
    assert(ds.take(n - from) =~= ds);
    Some(v)
}

fn u32_in(v: Option<&JsonValue>) -> (r: Option<u32>)
    ensures
        r == u32_of(viewed(v)),
{
    match v {
        Some(JsonValue::Number(t)) => {
            let cs = chars_of(t.as_str());
            assert(cs@.skip(0) =~= cs@);
            match digits_at(&cs, 0) {
                Some(n) => if n <= 4294967295 { Some(n as u32) } else { None },
                None => None,
            }
        },
        _ => None,
    }
}

fn i64_in(v: Option<&JsonValue>) -> (r: Option<i64>)
    ensures
        r == i64_of(viewed(v)),
{
    match v {
        Some(JsonValue::Number(t)) => {
            let cs = chars_of(t.as_str());
            if cs.len() > 0 && cs[0] == '-' {
                assert(cs@.skip(1) =~= cs@.drop_first());
                match digits_at(&cs, 1) {
                    Some(n) => if n <= 9223372036854775808 {
                        Some((0i128 - n as i128) as i64)
                    } else {
                        None
                    },
                    None => None,
                }
            } else {
                assert(cs@.skip(0) =~= cs@);
                match digits_at(&cs, 0) {
                    Some(n) => if n <= 9223372036854775807 { Some(n as i64) } else { None },
                    None => None,
                }
            }
        },
        _ => None,
    }
}

fn variant_at(tag: &str, c: &JsonValue) -> (r: Option<Payload>)
    ensures
        opt_payload(r) == variant_of(tag@, c@),
{
    if str_eq(tag, "CreateWorkspace") {
        match (text_in(member_at(c, "workspace", 0, 2)), text_in(member_at(c, "name", 1, 2))) {
            (Some(w), Some(n)) => Some(Payload::CreateWorkspace { workspace: WorkspaceId(w), name: n }),
            _ => None,
        }
    } else if str_eq(tag, "CreateDocument") {
        match (
            text_in(member_at(c, "workspace", 0, 3)),
            text_in(member_at(c, "document", 1, 3)),
            text_in(member_at(c, "title", 2, 3)),
        ) {
            (Some(w), Some(d), Some(t)) => Some(
                Payload::CreateDocument { workspace: WorkspaceId(w), document: DocumentId(d), title: t },
            ),
            _ => None,
        }
    } else if str_eq(tag, "InsertBlock") {
        match (
            text_in(member_at(c, "document", 0, 4)),
            text_in(member_at(c, "block", 1, 4)),
            opt_text_in(member_at(c, "after", 2, 4)),
            text_in(member_at(c, "text", 3, 4)),
        ) {
            (Some(d), Some(b), Some(a), Some(t)) => {
                let after = match a {
                    Some(s) => Some(BlockId(s)),
                    None => None,
                };
                Some(Payload::InsertBlock { document: DocumentId(d), block: BlockId(b), after, text: t })
            },
            _ => None,
        }
    } else if str_eq(tag, "EditBlock") {
        match (
            text_in(member_at(c, "document", 0, 3)),
            text_in(member_at(c, "block", 1, 3)),
            text_in(member_at(c, "text", 2, 3)),
        ) {
            (Some(d), Some(b), Some(t)) => Some(
                Payload::EditBlock { document: DocumentId(d), block: BlockId(b), text: t },
            ),
            _ => None,
        }
    } else if str_eq(tag, "RemoveBlock") {
        match (text_in(member_at(c, "document", 0, 2)), text_in(member_at(c, "block", 1, 2))) {
            (Some(d), Some(b)) => Some(Payload::RemoveBlock { document: DocumentId(d), block: BlockId(b) }),
            _ => None,
        }
    } else {
        None
    }
}

fn payload_in(v: Option<&JsonValue>) -> (r: Option<Payload>)
    ensures
        opt_payload(r) == payload_of(viewed(v)),
{
    match v {
        Some(JsonValue::Object(es)) => {
            proof {
                lemma_json_entries_all(es@);
            }
            if es.len() == 1 {
                variant_at(es[0].0.as_str(), &es[0].1)
            } else {
                None
            }
        },
        _ => None,
    }
}

fn core_in(v: Option<&JsonValue>) -> (r: Option<EnvelopeCore>)
    ensures
        opt_core(r) == core_of(viewed(v)),
{
    match v {
        Some(c) => match (
            u32_in(member_at(c, "v", 0, 5)),
            text_in(member_at(c, "actor", 1, 5)),
            ids_in(member_at(c, "parents", 2, 5)),
            i64_in(member_at(c, "authored_ms", 3, 5)),
            payload_in(member_at(c, "payload", 4, 5)),
        ) {
            (Some(ver), Some(a), Some(ps), Some(ms), Some(p)) => Some(
                EnvelopeCore { v: ver, actor: DeviceId(a), parents: ps, authored_ms: ms, payload: p },
            ),
            _ => None,
        },
        None => None,
    }
}

/// Reads an envelope out of a parsed JSON value the way serde's derived
/// `Deserialize` reads one: each struct as an object (fields by name in any
/// order, unknown fields ignored, a missing or `null` `after` read as none)
/// or as an array of all its fields in order, the payload as an object with
/// the variant's name as its one key. `None` when the value holds no
/// envelope.
pub fn envelope_from_json(v: &JsonValue) -> (r: Option<OperationEnvelope>)
    ensures
        opt_envelope(r) == envelope_of_json(v@),
{
    match (text_in(member_at(v, "id", 0, 2)), core_in(member_at(v, "core", 1, 2))) {
        (Some(id), Some(c)) => Some(OperationEnvelope { id: OpId(id), core: c }),
        _ => None,
    }
}

/// The name that tags a payload's variant in JSON.
pub open spec fn variant_name(p: PayloadView) -> Seq<char> {
    match p {
        PayloadView::CreateWorkspace { .. } => "CreateWorkspace"@,
        PayloadView::CreateDocument { .. } => "CreateDocument"@,
        PayloadView::InsertBlock { .. } => "InsertBlock"@,
        PayloadView::EditBlock { .. } => "EditBlock"@,
        PayloadView::RemoveBlock { .. } => "RemoveBlock"@,
    }
}

/// The object entries `es` hold each field of `p` under the field's own
/// name, as a JSON string (`after`: a string, or absent or `null` for none);
/// they may hold other keys, in any order.
pub open spec fn fields_named(es: Seq<(Seq<char>, JsonValueView)>, p: PayloadView) -> bool {
    match p {
        PayloadView::CreateWorkspace { workspace, name } => {
            &&& entry_of(es, "workspace"@) == Some(JsonValueView::String(workspace))
            &&& entry_of(es, "name"@) == Some(JsonValueView::String(name))
        },
        PayloadView::CreateDocument { workspace, document, title } => {
            &&& entry_of(es, "workspace"@) == Some(JsonValueView::String(workspace))
            &&& entry_of(es, "document"@) == Some(JsonValueView::String(document))
            &&& entry_of(es, "title"@) == Some(JsonValueView::String(title))
        },
        PayloadView::InsertBlock { document, block, after, text } => {
            &&& entry_of(es, "document"@) == Some(JsonValueView::String(document))
            &&& entry_of(es, "block"@) == Some(JsonValueView::String(block))
            &&& entry_of(es, "text"@) == Some(JsonValueView::String(text))
            &&& match after {
                Some(a) => entry_of(es, "after"@) == Some(JsonValueView::String(a)),
                None => entry_of(es, "after"@) is None || entry_of(es, "after"@) == Some(JsonValueView::Null),
            }
        },
        PayloadView::EditBlock { document, block, text } => {
            &&& entry_of(es, "document"@) == Some(JsonValueView::String(document))
            &&& entry_of(es, "block"@) == Some(JsonValueView::String(block))
            &&& entry_of(es, "text"@) == Some(JsonValueView::String(text))
        },
        PayloadView::RemoveBlock { document, block } => {
            &&& entry_of(es, "document"@) == Some(JsonValueView::String(document))
            &&& entry_of(es, "block"@) == Some(JsonValueView::String(block))
        },
    }
}

proof fn lemma_variant_names_differ()
    ensures
        "CreateWorkspace"@ != "CreateDocument"@,
        "CreateWorkspace"@ != "InsertBlock"@,
        "CreateWorkspace"@ != "EditBlock"@,
        "CreateWorkspace"@ != "RemoveBlock"@,
        "CreateDocument"@ != "InsertBlock"@,
        "CreateDocument"@ != "EditBlock"@,
        "CreateDocument"@ != "RemoveBlock"@,
        "InsertBlock"@ != "EditBlock"@,
        "InsertBlock"@ != "RemoveBlock"@,
        "EditBlock"@ != "RemoveBlock"@,
{
    reveal_strlit("CreateWorkspace");
    reveal_strlit("CreateDocument");
    reveal_strlit("InsertBlock");
    reveal_strlit("EditBlock");
    reveal_strlit("RemoveBlock");
    assert("CreateWorkspace"@.len() == 15);
    assert("CreateDocument"@.len() == 14);
    assert("InsertBlock"@.len() == 11);
    assert("EditBlock"@.len() == 9);
    assert("RemoveBlock"@.len() == 11);
    assert("InsertBlock"@[0] != "RemoveBlock"@[0]);
}

/// A payload written as an object with its variant's name as the one key,
/// and its fields under their own names, reads back as that payload: each
/// field is read from the key of the same name, whatever the order of the
/// keys and whatever other keys stand beside them.
pub proof fn law_payload_fields_by_name(es: Seq<(Seq<char>, JsonValueView)>, p: PayloadView)
    requires
        fields_named(es, p),
    ensures
        payload_of(Some(JsonValueView::Object(seq![(variant_name(p), JsonValueView::Object(es))]))) == Some(p),
{
    lemma_variant_names_differ();
}

/// JSON strings for texts.
pub open spec fn json_strings(ss: Seq<Seq<char>>) -> Seq<JsonValueView> {
    ss.map_values(|s: Seq<char>| JsonValueView::String(s))
}

proof fn lemma_strs_of_strings(ss: Seq<Seq<char>>)
    ensures
        strs_of(json_strings(ss)) == Some(ss),
    decreases ss.len(),
{
    if ss.len() > 0 {
        lemma_strs_of_strings(ss.drop_last());
        assert(json_strings(ss).drop_last() =~= json_strings(ss.drop_last()));
        assert(ss.drop_last().push(ss.last()) =~= ss);
    }
}

/// `t` is a non-empty run of decimal digits of value `n`.
pub open spec fn decimal_text(t: Seq<char>, n: int) -> bool {
    t.len() > 0 && (forall|i: int| 0 <= i < t.len() ==> '0' <= #[trigger] t[i] && t[i] <= '9') && dec_value(t) == n
}

/// An envelope written as JSON objects with every field under its own name
/// (the numbers as decimal text, `authored_ms` with a leading `-` when
/// negative, the payload as in `law_payload_fields_by_name`) reads back as
/// that envelope, whatever the order of the keys and whatever other keys
/// stand beside them.
pub proof fn law_envelope_fields_by_name(
    es: Seq<(Seq<char>, JsonValueView)>,
    ces: Seq<(Seq<char>, JsonValueView)>,
    pes: Seq<(Seq<char>, JsonValueView)>,
    tv: Seq<char>,
    tms: Seq<char>,
    e: EnvelopeView,
)
    requires
        entry_of(es, "id"@) == Some(JsonValueView::String(e.id)),
        entry_of(es, "core"@) == Some(JsonValueView::Object(ces)),
        entry_of(ces, "v"@) == Some(JsonValueView::Number(tv)),
        decimal_text(tv, e.core.v as int),
        entry_of(ces, "actor"@) == Some(JsonValueView::String(e.core.actor)),
        entry_of(ces, "parents"@) == Some(JsonValueView::Array(json_strings(e.core.parents))),
        entry_of(ces, "authored_ms"@) == Some(JsonValueView::Number(tms)),
        if e.core.authored_ms >= 0 {
            decimal_text(tms, e.core.authored_ms as int)
        } else {
            tms.len() > 0 && tms[0] == '-' && decimal_text(tms.drop_first(), -e.core.authored_ms)
        },
        entry_of(ces, "payload"@) == Some(
            JsonValueView::Object(seq![(variant_name(e.core.payload), JsonValueView::Object(pes))]),
        ),
        fields_named(pes, e.core.payload),
    ensures
        envelope_of_json(JsonValueView::Object(es)) == Some(e),
{
    law_payload_fields_by_name(pes, e.core.payload);
    lemma_strs_of_strings(e.core.parents);
    assert(forall|i: int| 0 <= i < tv.len() ==> is_dec_digit(#[trigger] tv[i]));
    if e.core.authored_ms >= 0 {
        assert(is_dec_digit(tms[0]));
        assert(forall|i: int| 0 <= i < tms.len() ==> is_dec_digit(#[trigger] tms[i]));
    } else {
        let ds = tms.drop_first();
        assert(forall|i: int| 0 <= i < ds.len() ==> is_dec_digit(#[trigger] ds[i]));
    }
}

} // verus!
