//! Reading envelopes back from JSON bytes. The canonical encodings are read
//! directly: reading an encoding gives back what was encoded, and whatever
//! is read that way re-encodes to the bytes it was read from. Other JSON
//! spellings of an envelope go through serde_json.

use vstd::prelude::*;
use crate::envelope::{
    close2, encode_core, encode_envelope, encode_payload, json_list, json_list_items, json_opt_string,
    k_actor, k_after, k_authored, k_block, k_core, k_document, k_id, k_name, k_parents, k_payload,
    k_text, k_title, k_v, null, t_create_doc, t_create_ws, t_edit, t_insert, t_remove, CoreView,
    EnvelopeCore, EnvelopeView, OperationEnvelope, Payload, PayloadView,
};
use crate::envelope_json::{envelope_from_json, envelope_of_json, opt_envelope};
use crate::id::{BlockId, DeviceId, DocumentId, OpId, WorkspaceId};
use crate::json_value::{json_parse, parse_json};
use crate::text::string_from_utf8;
use vstd::utf8::{decode_utf8, valid_utf8};
use crate::json::{
    at, decimal, ends_number, json_int, json_string, lemma_at_concat, lemma_read_i64_complete,
    lemma_read_i64_sound, lemma_read_nat_complete, lemma_read_nat_sound, lemma_read_string_complete,
    lemma_read_string_sound, read_i64, read_i64_exec, read_nat, read_string, read_string_exec,
    read_u32, read_u32_exec, COMMA, LBRACKET, RBRACE, RBRACKET,
};

verus! {

/// `key` at `pos`, followed by a string literal.
pub open spec fn read_field_str(b: Seq<u8>, pos: int, key: Seq<u8>) -> Option<(Seq<char>, int)> {
    if at(b, pos, key) {
        read_string(b, pos + key.len())
    } else {
        None
    }
}

/// `key` at `pos`, followed by `null` or a string literal.
pub open spec fn read_field_opt(b: Seq<u8>, pos: int, key: Seq<u8>) -> Option<(Option<Seq<char>>, int)> {
    if at(b, pos, key) {
        let p = pos + key.len();
        if at(b, p, null()) {
            Some((None, p + 4))
        } else {
            match read_string(b, p) {
                Some((s, e)) => Some((Some(s), e)),
                None => None,
            }
        }
    } else {
        None
    }
}

/// Items of a string array from `i`, after those in `acc`.
pub open spec fn read_items(b: Seq<u8>, i: int, acc: Seq<Seq<char>>) -> Option<(Seq<Seq<char>>, int)>
    decreases b.len() - i,
{
    match read_string(b, i) {
        Some((s, j)) => {
            proof {
                lemma_read_string_sound(b, i);
            }
            if 0 <= j < b.len() && b[j] == COMMA {
                read_items(b, j + 1, acc.push(s))
            } else if 0 <= j < b.len() && b[j] == RBRACKET {
                Some((acc.push(s), j + 1))
            } else {
                None
            }
        },
        None => None,
    }
}

/// A JSON array of strings at `pos`.
#[verifier::opaque]
pub open spec fn read_list(b: Seq<u8>, pos: int) -> Option<(Seq<Seq<char>>, int)> {
    if at(b, pos, seq![LBRACKET]) {
        if at(b, pos + 1, seq![RBRACKET]) {
            Some((seq![], pos + 2))
        } else {
            read_items(b, pos + 1, seq![])
        }
    } else {
        None
    }
}

/// `CreateWorkspace` at `pos`.
#[verifier::opaque]
pub open spec fn read_create_ws(b: Seq<u8>, pos: int) -> Option<(PayloadView, int)> {
    match read_field_str(b, pos, t_create_ws()) {
        Some((w, p1)) => match read_field_str(b, p1, k_name()) {
            Some((n, p2)) => if at(b, p2, close2()) {
                Some((PayloadView::CreateWorkspace { workspace: w, name: n }, p2 + 2))
            } else {
                None
            },
            None => None,
        },
        None => None,
    }
}

/// `CreateDocument` at `pos`.
#[verifier::opaque]
pub open spec fn read_create_doc(b: Seq<u8>, pos: int) -> Option<(PayloadView, int)> {
    match read_field_str(b, pos, t_create_doc()) {
        Some((w, p1)) => match read_field_str(b, p1, k_document()) {
            Some((d, p2)) => match read_field_str(b, p2, k_title()) {
                Some((t, p3)) => if at(b, p3, close2()) {
                    Some((PayloadView::CreateDocument { workspace: w, document: d, title: t }, p3 + 2))
                } else {
                    None
                },
                None => None,
            },
            None => None,
        },
        None => None,
    }
}

/// `InsertBlock` at `pos`.
#[verifier::opaque]
pub open spec fn read_insert(b: Seq<u8>, pos: int) -> Option<(PayloadView, int)> {
    match read_field_str(b, pos, t_insert()) {
        Some((d, p1)) => match read_field_str(b, p1, k_block()) {
            Some((bl, p2)) => match read_field_opt(b, p2, k_after()) {
                Some((a, p3)) => match read_field_str(b, p3, k_text()) {
                    Some((t, p4)) => if at(b, p4, close2()) {
                        Some((PayloadView::InsertBlock { document: d, block: bl, after: a, text: t }, p4 + 2))
                    } else {
                        None
                    },
                    None => None,
                },
                None => None,
            },
            None => None,
        },
        None => None,
    }
}

/// `EditBlock` at `pos`.
#[verifier::opaque]
pub open spec fn read_edit(b: Seq<u8>, pos: int) -> Option<(PayloadView, int)> {
    match read_field_str(b, pos, t_edit()) {
        Some((d, p1)) => match read_field_str(b, p1, k_block()) {
            Some((bl, p2)) => match read_field_str(b, p2, k_text()) {
                Some((t, p3)) => if at(b, p3, close2()) {
                    Some((PayloadView::EditBlock { document: d, block: bl, text: t }, p3 + 2))
                } else {
                    None
                },
                None => None,
            },
            None => None,
        },
        None => None,
    }
}

/// `RemoveBlock` at `pos`.
#[verifier::opaque]
pub open spec fn read_remove(b: Seq<u8>, pos: int) -> Option<(PayloadView, int)> {
    match read_field_str(b, pos, t_remove()) {
        Some((d, p1)) => match read_field_str(b, p1, k_block()) {
            Some((bl, p2)) => if at(b, p2, close2()) {
                Some((PayloadView::RemoveBlock { document: d, block: bl }, p2 + 2))
            } else {
                None
            },
            None => None,
        },
        None => None,
    }
}

/// A payload at `pos`, told apart by its tag.
pub open spec fn read_payload(b: Seq<u8>, pos: int) -> Option<(PayloadView, int)> {
    if at(b, pos, t_create_ws()) {
        read_create_ws(b, pos)
    } else if at(b, pos, t_create_doc()) {
        read_create_doc(b, pos)
    } else if at(b, pos, t_insert()) {
        read_insert(b, pos)
    } else if at(b, pos, t_edit()) {
        read_edit(b, pos)
    } else if at(b, pos, t_remove()) {
        read_remove(b, pos)
    } else {
        None
    }
}

/// An envelope core at `pos`.
#[verifier::opaque]
pub open spec fn read_core(b: Seq<u8>, pos: int) -> Option<(CoreView, int)> {
    if !at(b, pos, k_v()) {
        None
    } else {
        match read_u32(b, pos + 5) {
            Some((v, p1)) => match read_field_str(b, p1, k_actor()) {
                Some((actor, p2)) => if at(b, p2, k_parents()) {
                    match read_list(b, p2 + 11) {
                        Some((parents, p3)) => if at(b, p3, k_authored()) {
                            match read_i64(b, p3 + 15) {
                                Some((ms, p4)) => if at(b, p4, k_payload()) {
                                    match read_payload(b, p4 + 11) {
                                        Some((payload, p5)) => if at(b, p5, seq![RBRACE]) {
                                            Some((
                                                CoreView { v, actor, parents, authored_ms: ms, payload },
                                                p5 + 1,
                                            ))
                                        } else {
                                            None
                                        },
                                        None => None,
                                    }
                                } else {
                                    None
                                },
                                None => None,
                            }
                        } else {
                            None
                        },
                        None => None,
                    }
                } else {
                    None
                },
                None => None,
            },
            None => None,
        }
    }
}

/// A whole envelope filling `b`.
pub open spec fn read_envelope(b: Seq<u8>) -> Option<EnvelopeView> {
    match read_field_str(b, 0, k_id()) {
        Some((id, p1)) => if at(b, p1, k_core()) {
            match read_core(b, p1 + 8) {
                Some((core, p2)) => if at(b, p2, seq![RBRACE]) && p2 + 1 == b.len() {
                    Some(EnvelopeView { id, core })
                } else {
                    None
                },
                None => None,
            }
        } else {
            None
        },
        None => None,
    }
}


// ---------------------------------------------------------------------------
// Reading what was written gives it back; what is read was written so.

proof fn lemma_at_index(b: Seq<u8>, pos: int, w: Seq<u8>, k: int)
    requires
        at(b, pos, w),
        0 <= k < w.len(),
    ensures
        b[pos + k] == w[k],
{
    assert(b.subrange(pos, pos + w.len())[k] == b[pos + k]);
}

proof fn lemma_at_differ(b: Seq<u8>, pos: int, w1: Seq<u8>, w2: Seq<u8>, k: int)
    requires
        0 <= k < w1.len(),
        k < w2.len(),
        w1[k] != w2[k],
        at(b, pos, w1),
    ensures
        !at(b, pos, w2),
{
    lemma_at_index(b, pos, w1, k);
    if at(b, pos, w2) {
        lemma_at_index(b, pos, w2, k);
    }
}

proof fn lemma_at3(b: Seq<u8>, pos: int, x: Seq<u8>, y: Seq<u8>, z: Seq<u8>)
    ensures
        at(b, pos, x + y + z) <==> at(b, pos, x) && at(b, pos + x.len(), y) && at(b, pos + x.len() + y.len(), z),
{
    lemma_at_concat(b, pos, x + y, z);
    lemma_at_concat(b, pos, x, y);
}

proof fn lemma_at4(b: Seq<u8>, pos: int, x: Seq<u8>, y: Seq<u8>, z: Seq<u8>, w: Seq<u8>)
    ensures
        at(b, pos, x + y + z + w) <==> at(b, pos, x) && at(b, pos + x.len(), y) && at(b, pos + x.len() + y.len(), z)
            && at(b, pos + x.len() + y.len() + z.len(), w),
{
    lemma_at_concat(b, pos, x + y + z, w);
    lemma_at3(b, pos, x, y, z);
}

proof fn lemma_at5(b: Seq<u8>, pos: int, x: Seq<u8>, y: Seq<u8>, z: Seq<u8>, w: Seq<u8>, v: Seq<u8>)
    ensures
        at(b, pos, x + y + z + w + v) <==> at(b, pos, x) && at(b, pos + x.len(), y) && at(b, pos + x.len() + y.len(), z)
            && at(b, pos + x.len() + y.len() + z.len(), w) && at(b, pos + x.len() + y.len() + z.len() + w.len(), v),
{
    lemma_at_concat(b, pos, x + y + z + w, v);
    lemma_at4(b, pos, x, y, z, w);
}

proof fn lemma_at6(b: Seq<u8>, pos: int, x: Seq<u8>, y: Seq<u8>, z: Seq<u8>, w: Seq<u8>, v: Seq<u8>, u: Seq<u8>)
    ensures
        at(b, pos, x + y + z + w + v + u) <==> at(b, pos, x) && at(b, pos + x.len(), y) && at(b, pos + x.len() + y.len(), z)
            && at(b, pos + x.len() + y.len() + z.len(), w) && at(b, pos + x.len() + y.len() + z.len() + w.len(), v)
            && at(b, pos + x.len() + y.len() + z.len() + w.len() + v.len(), u),
{
    lemma_at_concat(b, pos, x + y + z + w + v, u);
    lemma_at5(b, pos, x, y, z, w, v);
}

proof fn lemma_field_str_complete(b: Seq<u8>, pos: int, key: Seq<u8>, s: Seq<char>)
    requires
        at(b, pos, key + json_string(s)),
    ensures
        read_field_str(b, pos, key) == Some((s, pos + key.len() + json_string(s).len())),
{
    lemma_at_concat(b, pos, key, json_string(s));
    lemma_read_string_complete(b, pos + key.len(), s);
}

proof fn lemma_field_str_sound(b: Seq<u8>, pos: int, key: Seq<u8>)
    requires
        read_field_str(b, pos, key) is Some,
    ensures
        ({
            let (s, e) = read_field_str(b, pos, key).unwrap();
            e == pos + key.len() + json_string(s).len() && at(b, pos, key + json_string(s))
        }),
{
    lemma_read_string_sound(b, pos + key.len());
    let (s, e) = read_field_str(b, pos, key).unwrap();
    lemma_at_concat(b, pos, key, json_string(s));
}

proof fn lemma_field_opt_complete(b: Seq<u8>, pos: int, key: Seq<u8>, o: Option<Seq<char>>)
    requires
        at(b, pos, key + json_opt_string(o)),
    ensures
        read_field_opt(b, pos, key) == Some((o, pos + key.len() + json_opt_string(o).len())),
{
    lemma_at_concat(b, pos, key, json_opt_string(o));
    let p = pos + key.len();
    match o {
        Some(s) => {
            lemma_at_differ(b, p, json_string(s), null(), 0);
            lemma_read_string_complete(b, p, s);
        },
        None => {},
    }
}

proof fn lemma_field_opt_sound(b: Seq<u8>, pos: int, key: Seq<u8>)
    requires
        read_field_opt(b, pos, key) is Some,
    ensures
        ({
            let (o, e) = read_field_opt(b, pos, key).unwrap();
            e == pos + key.len() + json_opt_string(o).len() && at(b, pos, key + json_opt_string(o))
        }),
{
    let p = pos + key.len();
    let (o, e) = read_field_opt(b, pos, key).unwrap();
    if !at(b, p, null()) {
        lemma_read_string_sound(b, p);
    }
    lemma_at_concat(b, pos, key, json_opt_string(o));
}

proof fn lemma_items_complete(b: Seq<u8>, i: int, acc: Seq<Seq<char>>, rest: Seq<Seq<char>>)
    requires
        rest.len() >= 1,
        at(b, i, json_list_items(rest) + seq![RBRACKET]),
    ensures
        read_items(b, i, acc) == Some((acc + rest, i + json_list_items(rest).len() + 1)),
    decreases rest.len(),
{
    let s = rest[0];
    if rest.len() == 1 {
        lemma_at_concat(b, i, json_string(s), seq![RBRACKET]);
        lemma_read_string_complete(b, i, s);
        lemma_at_index(b, i + json_string(s).len(), seq![RBRACKET], 0);
        assert(acc.push(s) =~= acc + rest);
    } else {
        let tail = rest.drop_first();
        assert(json_list_items(rest) + seq![RBRACKET] =~= json_string(s) + seq![COMMA] + (json_list_items(tail) + seq![RBRACKET]));
        lemma_at3(b, i, json_string(s), seq![COMMA], json_list_items(tail) + seq![RBRACKET]);
        lemma_read_string_complete(b, i, s);
        lemma_at_index(b, i + json_string(s).len(), seq![COMMA], 0);
        lemma_items_complete(b, i + json_string(s).len() + 1, acc.push(s), tail);
        assert(acc.push(s) + tail =~= acc + rest);
    }
}

proof fn lemma_items_sound(b: Seq<u8>, i: int, acc: Seq<Seq<char>>)
    requires
        read_items(b, i, acc) is Some,
    ensures
        ({
            let (r, e) = read_items(b, i, acc).unwrap();
            let rest = r.subrange(acc.len() as int, r.len() as int);
            &&& r.len() > acc.len()
            &&& r.subrange(0, acc.len() as int) == acc
            &&& at(b, i, json_list_items(rest) + seq![RBRACKET])
            &&& e == i + json_list_items(rest).len() + 1
        }),
    decreases b.len() - i,
{
    lemma_read_string_sound(b, i);
    let (s, j) = read_string(b, i).unwrap();
    let (r, e) = read_items(b, i, acc).unwrap();
    let rest = r.subrange(acc.len() as int, r.len() as int);
    if b[j] == COMMA {
        lemma_items_sound(b, j + 1, acc.push(s));
        let rest2 = r.subrange(acc.len() + 1int, r.len() as int);
        assert(r.subrange(0, acc.len() + 1int)[acc.len() as int] == s);
        assert(rest =~= seq![s] + rest2);
        assert(rest.drop_first() =~= rest2);
        assert(r.subrange(0, acc.len() as int) =~= r.subrange(0, acc.len() + 1int).subrange(0, acc.len() as int));
        assert(json_list_items(rest) + seq![RBRACKET] =~= json_string(s) + seq![COMMA] + (json_list_items(rest2) + seq![RBRACKET]));
        assert(b.subrange(j, j + 1) =~= seq![COMMA]);
        lemma_at3(b, i, json_string(s), seq![COMMA], json_list_items(rest2) + seq![RBRACKET]);
    } else {
        assert(rest =~= seq![s]);
        assert(r.subrange(0, acc.len() as int) =~= acc);
        assert(b.subrange(j, j + 1) =~= seq![RBRACKET]);
        lemma_at_concat(b, i, json_string(s), seq![RBRACKET]);
    }
}

proof fn lemma_list_complete(b: Seq<u8>, pos: int, items: Seq<Seq<char>>)
    requires
        at(b, pos, json_list(items)),
    ensures
        read_list(b, pos) == Some((items, pos + json_list(items).len())),
{
    reveal(read_list);
    lemma_at_concat(b, pos, seq![LBRACKET], json_list_items(items) + seq![RBRACKET]);
    assert(json_list(items) =~= seq![LBRACKET] + (json_list_items(items) + seq![RBRACKET]));
    if items.len() == 0 {
        assert(json_list_items(items) + seq![RBRACKET] =~= seq![RBRACKET]);
        assert(items =~= Seq::<Seq<char>>::empty());
    } else {
        assert((json_list_items(items) + seq![RBRACKET])[0] == json_string(items[0])[0]);
        lemma_at_differ(b, pos + 1, json_list_items(items) + seq![RBRACKET], seq![RBRACKET], 0);
        lemma_items_complete(b, pos + 1, seq![], items);
        assert(Seq::<Seq<char>>::empty() + items =~= items);
    }
}

proof fn lemma_list_sound(b: Seq<u8>, pos: int)
    requires
        read_list(b, pos) is Some,
    ensures
        ({
            let (items, e) = read_list(b, pos).unwrap();
            e == pos + json_list(items).len() && at(b, pos, json_list(items))
        }),
{
    reveal(read_list);
    let (items, e) = read_list(b, pos).unwrap();
    assert(json_list(items) =~= seq![LBRACKET] + (json_list_items(items) + seq![RBRACKET]));
    if at(b, pos + 1, seq![RBRACKET]) {
        assert(json_list_items(items) + seq![RBRACKET] =~= seq![RBRACKET]);
    } else {
        lemma_items_sound(b, pos + 1, seq![]);
        assert(items.subrange(0, items.len() as int) =~= items);
    }
    lemma_at_concat(b, pos, seq![LBRACKET], json_list_items(items) + seq![RBRACKET]);
}


proof fn lemma_create_ws(b: Seq<u8>, pos: int, w: Seq<char>, n: Seq<char>)
    ensures
        ({
            let p = PayloadView::CreateWorkspace { workspace: w, name: n };
            at(b, pos, encode_payload(p)) ==> read_create_ws(b, pos) == Some((p, pos + encode_payload(p).len()))
        }),
        read_create_ws(b, pos) is Some ==> ({
            let (p, e) = read_create_ws(b, pos).unwrap();
            e == pos + encode_payload(p).len() && at(b, pos, encode_payload(p))
        }),
{
    reveal(read_create_ws);
    let p = PayloadView::CreateWorkspace { workspace: w, name: n };
    if at(b, pos, encode_payload(p)) {
        let f1 = t_create_ws() + json_string(w);
        let f2 = k_name() + json_string(n);
        lemma_at3(b, pos, f1, f2, close2());
        lemma_field_str_complete(b, pos, t_create_ws(), w);
        lemma_field_str_complete(b, pos + f1.len(), k_name(), n);
    }
    if read_create_ws(b, pos) is Some {
        lemma_field_str_sound(b, pos, t_create_ws());
        let (w2, p1) = read_field_str(b, pos, t_create_ws()).unwrap();
        lemma_field_str_sound(b, p1, k_name());
        let (n2, p2) = read_field_str(b, p1, k_name()).unwrap();
        let f1 = t_create_ws() + json_string(w2);
        let f2 = k_name() + json_string(n2);
        let q = PayloadView::CreateWorkspace { workspace: w2, name: n2 };
        lemma_at3(b, pos, f1, f2, close2());
    }
}

proof fn lemma_create_doc(b: Seq<u8>, pos: int, w: Seq<char>, d: Seq<char>, t: Seq<char>)
    ensures
        ({
            let p = PayloadView::CreateDocument { workspace: w, document: d, title: t };
            at(b, pos, encode_payload(p)) ==> read_create_doc(b, pos) == Some((p, pos + encode_payload(p).len()))
        }),
        read_create_doc(b, pos) is Some ==> ({
            let (p, e) = read_create_doc(b, pos).unwrap();
            e == pos + encode_payload(p).len() && at(b, pos, encode_payload(p))
        }),
{
    reveal(read_create_doc);
    let p = PayloadView::CreateDocument { workspace: w, document: d, title: t };
    if at(b, pos, encode_payload(p)) {
        let f1 = t_create_doc() + json_string(w);
        let f2 = k_document() + json_string(d);
        let f3 = k_title() + json_string(t);
        lemma_at4(b, pos, f1, f2, f3, close2());
        lemma_field_str_complete(b, pos, t_create_doc(), w);
        lemma_field_str_complete(b, pos + f1.len(), k_document(), d);
        lemma_field_str_complete(b, pos + f1.len() + f2.len(), k_title(), t);
    }
    if read_create_doc(b, pos) is Some {
        lemma_field_str_sound(b, pos, t_create_doc());
        let (w2, p1) = read_field_str(b, pos, t_create_doc()).unwrap();
        lemma_field_str_sound(b, p1, k_document());
        let (d2, p2) = read_field_str(b, p1, k_document()).unwrap();
        lemma_field_str_sound(b, p2, k_title());
        let (t2, p3) = read_field_str(b, p2, k_title()).unwrap();
        let f1 = t_create_doc() + json_string(w2);
        let f2 = k_document() + json_string(d2);
        let f3 = k_title() + json_string(t2);
        let q = PayloadView::CreateDocument { workspace: w2, document: d2, title: t2 };
        lemma_at4(b, pos, f1, f2, f3, close2());
    }
}

#[verifier::spinoff_prover]
proof fn lemma_insert(b: Seq<u8>, pos: int, d: Seq<char>, bl: Seq<char>, a: Option<Seq<char>>, t: Seq<char>)
    ensures
        ({
            let p = PayloadView::InsertBlock { document: d, block: bl, after: a, text: t };
            at(b, pos, encode_payload(p)) ==> read_insert(b, pos) == Some((p, pos + encode_payload(p).len()))
        }),
        read_insert(b, pos) is Some ==> ({
            let (p, e) = read_insert(b, pos).unwrap();
            e == pos + encode_payload(p).len() && at(b, pos, encode_payload(p))
        }),
{
    reveal(read_insert);
    let p = PayloadView::InsertBlock { document: d, block: bl, after: a, text: t };
    if at(b, pos, encode_payload(p)) {
        let f1 = t_insert() + json_string(d);
        let f2 = k_block() + json_string(bl);
        let f3 = k_after() + json_opt_string(a);
        let f4 = k_text() + json_string(t);
        lemma_at5(b, pos, f1, f2, f3, f4, close2());
        lemma_field_str_complete(b, pos, t_insert(), d);
        lemma_field_str_complete(b, pos + f1.len(), k_block(), bl);
        lemma_field_opt_complete(b, pos + f1.len() + f2.len(), k_after(), a);
        lemma_field_str_complete(b, pos + f1.len() + f2.len() + f3.len(), k_text(), t);
    }
    if read_insert(b, pos) is Some {
        lemma_field_str_sound(b, pos, t_insert());
        let (d2, p1) = read_field_str(b, pos, t_insert()).unwrap();
        lemma_field_str_sound(b, p1, k_block());
        let (bl2, p2) = read_field_str(b, p1, k_block()).unwrap();
        lemma_field_opt_sound(b, p2, k_after());
        let (a2, p3) = read_field_opt(b, p2, k_after()).unwrap();
        lemma_field_str_sound(b, p3, k_text());
        let (t2, p4) = read_field_str(b, p3, k_text()).unwrap();
        let f1 = t_insert() + json_string(d2);
        let f2 = k_block() + json_string(bl2);
        let f3 = k_after() + json_opt_string(a2);
        let f4 = k_text() + json_string(t2);
        let q = PayloadView::InsertBlock { document: d2, block: bl2, after: a2, text: t2 };
        lemma_at5(b, pos, f1, f2, f3, f4, close2());
    }
}

proof fn lemma_edit(b: Seq<u8>, pos: int, d: Seq<char>, bl: Seq<char>, t: Seq<char>)
    ensures
        ({
            let p = PayloadView::EditBlock { document: d, block: bl, text: t };
            at(b, pos, encode_payload(p)) ==> read_edit(b, pos) == Some((p, pos + encode_payload(p).len()))
        }),
        read_edit(b, pos) is Some ==> ({
            let (p, e) = read_edit(b, pos).unwrap();
            e == pos + encode_payload(p).len() && at(b, pos, encode_payload(p))
        }),
{
    reveal(read_edit);
    let p = PayloadView::EditBlock { document: d, block: bl, text: t };
    if at(b, pos, encode_payload(p)) {
        let f1 = t_edit() + json_string(d);
        let f2 = k_block() + json_string(bl);
        let f3 = k_text() + json_string(t);
        lemma_at4(b, pos, f1, f2, f3, close2());
        lemma_field_str_complete(b, pos, t_edit(), d);
        lemma_field_str_complete(b, pos + f1.len(), k_block(), bl);
        lemma_field_str_complete(b, pos + f1.len() + f2.len(), k_text(), t);
    }
    if read_edit(b, pos) is Some {
        lemma_field_str_sound(b, pos, t_edit());
        let (d2, p1) = read_field_str(b, pos, t_edit()).unwrap();
        lemma_field_str_sound(b, p1, k_block());
        let (bl2, p2) = read_field_str(b, p1, k_block()).unwrap();
        lemma_field_str_sound(b, p2, k_text());
        let (t2, p3) = read_field_str(b, p2, k_text()).unwrap();
        let f1 = t_edit() + json_string(d2);
        let f2 = k_block() + json_string(bl2);
        let f3 = k_text() + json_string(t2);
        let q = PayloadView::EditBlock { document: d2, block: bl2, text: t2 };
        lemma_at4(b, pos, f1, f2, f3, close2());
    }
}

proof fn lemma_remove(b: Seq<u8>, pos: int, d: Seq<char>, bl: Seq<char>)
    ensures
        ({
            let p = PayloadView::RemoveBlock { document: d, block: bl };
            at(b, pos, encode_payload(p)) ==> read_remove(b, pos) == Some((p, pos + encode_payload(p).len()))
        }),
        read_remove(b, pos) is Some ==> ({
            let (p, e) = read_remove(b, pos).unwrap();
            e == pos + encode_payload(p).len() && at(b, pos, encode_payload(p))
        }),
{
    reveal(read_remove);
    let p = PayloadView::RemoveBlock { document: d, block: bl };
    if at(b, pos, encode_payload(p)) {
        let f1 = t_remove() + json_string(d);
        let f2 = k_block() + json_string(bl);
        lemma_at3(b, pos, f1, f2, close2());
        lemma_field_str_complete(b, pos, t_remove(), d);
        lemma_field_str_complete(b, pos + f1.len(), k_block(), bl);
    }
    if read_remove(b, pos) is Some {
        lemma_field_str_sound(b, pos, t_remove());
        let (d2, p1) = read_field_str(b, pos, t_remove()).unwrap();
        lemma_field_str_sound(b, p1, k_block());
        let (bl2, p2) = read_field_str(b, p1, k_block()).unwrap();
        let f1 = t_remove() + json_string(d2);
        let f2 = k_block() + json_string(bl2);
        let q = PayloadView::RemoveBlock { document: d2, block: bl2 };
        lemma_at3(b, pos, f1, f2, close2());
    }
}

#[verifier::spinoff_prover]
#[verifier::rlimit(40)]
proof fn lemma_payload_tag(b: Seq<u8>, pos: int, p: PayloadView)
    requires
        at(b, pos, encode_payload(p)),
    ensures
        p is CreateWorkspace ==> at(b, pos, t_create_ws()),
        p is CreateDocument ==> at(b, pos, t_create_doc()) && !at(b, pos, t_create_ws()),
        p is InsertBlock ==> at(b, pos, t_insert()) && !at(b, pos, t_create_ws()) && !at(b, pos, t_create_doc()),
        p is EditBlock ==> at(b, pos, t_edit()) && !at(b, pos, t_create_ws()) && !at(b, pos, t_create_doc())
            && !at(b, pos, t_insert()),
        p is RemoveBlock ==> at(b, pos, t_remove()) && !at(b, pos, t_create_ws()) && !at(b, pos, t_create_doc())
            && !at(b, pos, t_insert()) && !at(b, pos, t_edit()),
{
    let tag = match p {
        PayloadView::CreateWorkspace { .. } => t_create_ws(),
        PayloadView::CreateDocument { .. } => t_create_doc(),
        PayloadView::InsertBlock { .. } => t_insert(),
        PayloadView::EditBlock { .. } => t_edit(),
        PayloadView::RemoveBlock { .. } => t_remove(),
    };
    match p {
        PayloadView::CreateWorkspace { workspace, name } => {
            let a = t_create_ws() + json_string(workspace);
            lemma_at_concat(b, pos, a + (k_name() + json_string(name)), close2());
            lemma_at_concat(b, pos, a, k_name() + json_string(name));
            lemma_at_concat(b, pos, t_create_ws(), json_string(workspace));
        },
        PayloadView::CreateDocument { workspace, document, title } => {
            let a = t_create_doc() + json_string(workspace);
            let a2 = a + (k_document() + json_string(document));
            lemma_at_concat(b, pos, a2 + (k_title() + json_string(title)), close2());
            lemma_at_concat(b, pos, a2, k_title() + json_string(title));
            lemma_at_concat(b, pos, a, k_document() + json_string(document));
            lemma_at_concat(b, pos, t_create_doc(), json_string(workspace));
        },
        PayloadView::InsertBlock { document, block, after, text } => {
            let a = t_insert() + json_string(document);
            let a2 = a + (k_block() + json_string(block));
            let a3 = a2 + (k_after() + json_opt_string(after));
            lemma_at_concat(b, pos, a3 + (k_text() + json_string(text)), close2());
            lemma_at_concat(b, pos, a3, k_text() + json_string(text));
            lemma_at_concat(b, pos, a2, k_after() + json_opt_string(after));
            lemma_at_concat(b, pos, a, k_block() + json_string(block));
            lemma_at_concat(b, pos, t_insert(), json_string(document));
        },
        PayloadView::EditBlock { document, block, text } => {
            let a = t_edit() + json_string(document);
            let a2 = a + (k_block() + json_string(block));
            lemma_at_concat(b, pos, a2 + (k_text() + json_string(text)), close2());
            lemma_at_concat(b, pos, a2, k_text() + json_string(text));
            lemma_at_concat(b, pos, a, k_block() + json_string(block));
            lemma_at_concat(b, pos, t_edit(), json_string(document));
        },
        PayloadView::RemoveBlock { document, block } => {
            let a = t_remove() + json_string(document);
            lemma_at_concat(b, pos, a + (k_block() + json_string(block)), close2());
            lemma_at_concat(b, pos, a, k_block() + json_string(block));
            lemma_at_concat(b, pos, t_remove(), json_string(document));
        },
    }
    if p is CreateDocument {
        lemma_at_differ(b, pos, tag, t_create_ws(), 8);
    } else if !(p is CreateWorkspace) {
        lemma_at_differ(b, pos, tag, t_create_ws(), 2);
        lemma_at_differ(b, pos, tag, t_create_doc(), 2);
        if !(p is InsertBlock) {
            lemma_at_differ(b, pos, tag, t_insert(), 2);
            if !(p is EditBlock) {
                lemma_at_differ(b, pos, tag, t_edit(), 2);
            }
        }
    }
}

proof fn lemma_payload_complete(b: Seq<u8>, pos: int, p: PayloadView)
    requires
        at(b, pos, encode_payload(p)),
    ensures
        read_payload(b, pos) == Some((p, pos + encode_payload(p).len())),
{
    lemma_payload_tag(b, pos, p);
    match p {
        PayloadView::CreateWorkspace { workspace, name } => lemma_create_ws(b, pos, workspace, name),
        PayloadView::CreateDocument { workspace, document, title } => lemma_create_doc(b, pos, workspace, document, title),
        PayloadView::InsertBlock { document, block, after, text } => lemma_insert(b, pos, document, block, after, text),
        PayloadView::EditBlock { document, block, text } => lemma_edit(b, pos, document, block, text),
        PayloadView::RemoveBlock { document, block } => lemma_remove(b, pos, document, block),
    }
}

proof fn lemma_payload_sound(b: Seq<u8>, pos: int)
    requires
        read_payload(b, pos) is Some,
    ensures
        ({
            let (p, e) = read_payload(b, pos).unwrap();
            e == pos + encode_payload(p).len() && at(b, pos, encode_payload(p))
        }),
{
    let e = seq![];
    if at(b, pos, t_create_ws()) {
        lemma_create_ws(b, pos, e, e);
    } else if at(b, pos, t_create_doc()) {
        lemma_create_doc(b, pos, e, e, e);
    } else if at(b, pos, t_insert()) {
        lemma_insert(b, pos, e, e, None, e);
    } else if at(b, pos, t_edit()) {
        lemma_edit(b, pos, e, e, e);
    } else {
        lemma_remove(b, pos, e, e);
    }
}

proof fn lemma_read_u32_sound(b: Seq<u8>, pos: int)
    requires
        read_u32(b, pos) is Some,
    ensures
        ({
            let (v, e) = read_u32(b, pos).unwrap();
            e == pos + decimal(v as nat).len() && at(b, pos, decimal(v as nat))
        }),
{
    lemma_read_nat_sound(b, pos);
    assert(decimal(0).len() == 1);
}

proof fn lemma_core_complete(b: Seq<u8>, pos: int, c: CoreView)
    requires
        at(b, pos, encode_core(c)),
    ensures
        read_core(b, pos) == Some((c, pos + encode_core(c).len())),
{
    reveal(read_core);
    let f1 = k_v() + decimal(c.v as nat);
    let f2 = k_actor() + json_string(c.actor);
    let f3 = k_parents() + json_list(c.parents);
    let f4 = k_authored() + json_int(c.authored_ms as int);
    let f5 = k_payload() + encode_payload(c.payload);
    lemma_at6(b, pos, f1, f2, f3, f4, f5, seq![RBRACE]);
    let p1 = pos + f1.len();
    let p2 = p1 + f2.len();
    let p3 = p2 + f3.len();
    let p4 = p3 + f4.len();
    let p5 = p4 + f5.len();
    lemma_at_concat(b, pos, k_v(), decimal(c.v as nat));
    lemma_at_index(b, p1, f2, 0);
    lemma_read_nat_complete(b, pos + 5, c.v as nat);
    lemma_field_str_complete(b, p1, k_actor(), c.actor);
    lemma_at_concat(b, p2, k_parents(), json_list(c.parents));
    lemma_list_complete(b, p2 + 11, c.parents);
    lemma_at_concat(b, p3, k_authored(), json_int(c.authored_ms as int));
    lemma_at_index(b, p4, f5, 0);
    lemma_read_i64_complete(b, p3 + 15, c.authored_ms);
    lemma_at_concat(b, p4, k_payload(), encode_payload(c.payload));
    lemma_payload_complete(b, p4 + 11, c.payload);
}

#[verifier::spinoff_prover]
#[verifier::rlimit(60)]
proof fn lemma_core_sound(b: Seq<u8>, pos: int)
    requires
        read_core(b, pos) is Some,
    ensures
        ({
            let (c, e) = read_core(b, pos).unwrap();
            e == pos + encode_core(c).len() && at(b, pos, encode_core(c))
        }),
{
    reveal(read_core);
    let (c, e) = read_core(b, pos).unwrap();
    lemma_read_u32_sound(b, pos + 5);
    let (v, p1) = read_u32(b, pos + 5).unwrap();
    lemma_field_str_sound(b, p1, k_actor());
    let (actor, p2) = read_field_str(b, p1, k_actor()).unwrap();
    lemma_list_sound(b, p2 + 11);
    let (parents, p3) = read_list(b, p2 + 11).unwrap();
    lemma_read_i64_sound(b, p3 + 15);
    let (ms, p4) = read_i64(b, p3 + 15).unwrap();
    lemma_payload_sound(b, p4 + 11);
    let (payload, p5) = read_payload(b, p4 + 11).unwrap();
    let f1 = k_v() + decimal(c.v as nat);
    let f2 = k_actor() + json_string(c.actor);
    let f3 = k_parents() + json_list(c.parents);
    let f4 = k_authored() + json_int(c.authored_ms as int);
    let f5 = k_payload() + encode_payload(c.payload);
    lemma_at_concat(b, pos, k_v(), decimal(c.v as nat));
    lemma_at_concat(b, p2, k_parents(), json_list(c.parents));
    lemma_at_concat(b, p3, k_authored(), json_int(c.authored_ms as int));
    lemma_at_concat(b, p4, k_payload(), encode_payload(c.payload));
    lemma_at6(b, pos, f1, f2, f3, f4, f5, seq![RBRACE]);
}

/// Reading an envelope's canonical bytes gives the envelope back.
pub proof fn lemma_envelope_roundtrip(e: EnvelopeView)
    ensures
        read_envelope(encode_envelope(e)) == Some(e),
{
    let b = encode_envelope(e);
    let f1 = k_id() + json_string(e.id);
    let f2 = k_core() + encode_core(e.core);
    assert(at(b, 0, b)) by {
        assert(b.subrange(0, b.len() as int) =~= b);
    }
    lemma_at3(b, 0, f1, f2, seq![RBRACE]);
    lemma_field_str_complete(b, 0, k_id(), e.id);
    lemma_at_concat(b, f1.len() as int, k_core(), encode_core(e.core));
    lemma_core_complete(b, f1.len() + 8int, e.core);
}

/// Whatever is read as an envelope is exactly that envelope's canonical bytes.
pub proof fn lemma_envelope_read_sound(b: Seq<u8>)
    requires
        read_envelope(b) is Some,
    ensures
        encode_envelope(read_envelope(b).unwrap()) == b,
{
    let e = read_envelope(b).unwrap();
    lemma_field_str_sound(b, 0, k_id());
    let (id, p1) = read_field_str(b, 0, k_id()).unwrap();
    lemma_core_sound(b, p1 + 8);
    let (core, p2) = read_core(b, p1 + 8).unwrap();
    let f1 = k_id() + json_string(e.id);
    let f2 = k_core() + encode_core(e.core);
    lemma_at_concat(b, p1, k_core(), encode_core(e.core));
    lemma_at3(b, 0, f1, f2, seq![RBRACE]);
    assert(b.subrange(0, b.len() as int) =~= b);
}


// ---------------------------------------------------------------------------
// Executable reading.

fn one(x: u8) -> (r: [u8; 1])
    ensures
        r@ == seq![x],
{
    let r = [x];
    assert(r@ =~= seq![x]);
    r
}

fn k_v_bytes() -> (r: [u8; 5])
    ensures
        r@ == k_v(),
{
    let r = [123u8, 34, 118, 34, 58];
    assert(r@ =~= k_v());
    r
}

fn k_actor_bytes() -> (r: [u8; 9])
    ensures
        r@ == k_actor(),
{
    let r = [44u8, 34, 97, 99, 116, 111, 114, 34, 58];
    assert(r@ =~= k_actor());
    r
}

fn k_parents_bytes() -> (r: [u8; 11])
    ensures
        r@ == k_parents(),
{
    let r = [44u8, 34, 112, 97, 114, 101, 110, 116, 115, 34, 58];
    assert(r@ =~= k_parents());
    r
}

fn k_authored_bytes() -> (r: [u8; 15])
    ensures
        r@ == k_authored(),
{
    let r = [44u8, 34, 97, 117, 116, 104, 111, 114, 101, 100, 95, 109, 115, 34, 58];
    assert(r@ =~= k_authored());
    r
}

fn k_payload_bytes() -> (r: [u8; 11])
    ensures
        r@ == k_payload(),
{
    let r = [44u8, 34, 112, 97, 121, 108, 111, 97, 100, 34, 58];
    assert(r@ =~= k_payload());
    r
}

fn k_id_bytes() -> (r: [u8; 6])
    ensures
        r@ == k_id(),
{
    let r = [123u8, 34, 105, 100, 34, 58];
    assert(r@ =~= k_id());
    r
}

fn k_core_bytes() -> (r: [u8; 8])
    ensures
        r@ == k_core(),
{
    let r = [44u8, 34, 99, 111, 114, 101, 34, 58];
    assert(r@ =~= k_core());
    r
}

fn t_create_ws_bytes() -> (r: [u8; 32])
    ensures
        r@ == t_create_ws(),
{
    let r = [123u8, 34, 67, 114, 101, 97, 116, 101, 87, 111, 114, 107, 115, 112, 97, 99, 101, 34, 58, 123, 34, 119, 111, 114, 107, 115, 112, 97, 99, 101, 34, 58];
    assert(r@ =~= t_create_ws());
    r
}

fn k_name_bytes() -> (r: [u8; 8])
    ensures
        r@ == k_name(),
{
    let r = [44u8, 34, 110, 97, 109, 101, 34, 58];
    assert(r@ =~= k_name());
    r
}

fn t_create_doc_bytes() -> (r: [u8; 31])
    ensures
        r@ == t_create_doc(),
{
    let r = [123u8, 34, 67, 114, 101, 97, 116, 101, 68, 111, 99, 117, 109, 101, 110, 116, 34, 58, 123, 34, 119, 111, 114, 107, 115, 112, 97, 99, 101, 34, 58];
    assert(r@ =~= t_create_doc());
    r
}

fn k_document_bytes() -> (r: [u8; 12])
    ensures
        r@ == k_document(),
{
    let r = [44u8, 34, 100, 111, 99, 117, 109, 101, 110, 116, 34, 58];
    assert(r@ =~= k_document());
    r
}

fn k_title_bytes() -> (r: [u8; 9])
    ensures
        r@ == k_title(),
{
    let r = [44u8, 34, 116, 105, 116, 108, 101, 34, 58];
    assert(r@ =~= k_title());
    r
}

fn t_insert_bytes() -> (r: [u8; 27])
    ensures
        r@ == t_insert(),
{
    let r = [123u8, 34, 73, 110, 115, 101, 114, 116, 66, 108, 111, 99, 107, 34, 58, 123, 34, 100, 111, 99, 117, 109, 101, 110, 116, 34, 58];
    assert(r@ =~= t_insert());
    r
}

fn k_block_bytes() -> (r: [u8; 9])
    ensures
        r@ == k_block(),
{
    let r = [44u8, 34, 98, 108, 111, 99, 107, 34, 58];
    assert(r@ =~= k_block());
    r
}

fn k_after_bytes() -> (r: [u8; 9])
    ensures
        r@ == k_after(),
{
    let r = [44u8, 34, 97, 102, 116, 101, 114, 34, 58];
    assert(r@ =~= k_after());
    r
}

fn k_text_bytes() -> (r: [u8; 8])
    ensures
        r@ == k_text(),
{
    let r = [44u8, 34, 116, 101, 120, 116, 34, 58];
    assert(r@ =~= k_text());
    r
}

fn t_edit_bytes() -> (r: [u8; 25])
    ensures
        r@ == t_edit(),
{
    let r = [123u8, 34, 69, 100, 105, 116, 66, 108, 111, 99, 107, 34, 58, 123, 34, 100, 111, 99, 117, 109, 101, 110, 116, 34, 58];
    assert(r@ =~= t_edit());
    r
}

fn t_remove_bytes() -> (r: [u8; 27])
    ensures
        r@ == t_remove(),
{
    let r = [123u8, 34, 82, 101, 109, 111, 118, 101, 66, 108, 111, 99, 107, 34, 58, 123, 34, 100, 111, 99, 117, 109, 101, 110, 116, 34, 58];
    assert(r@ =~= t_remove());
    r
}

fn null_bytes() -> (r: [u8; 4])
    ensures
        r@ == null(),
{
    let r = [110u8, 117, 108, 108];
    assert(r@ =~= null());
    r
}

fn close2_bytes() -> (r: [u8; 2])
    ensures
        r@ == close2(),
{
    let r = [125u8, 125];
    assert(r@ =~= close2());
    r
}


fn at_exec(b: &[u8], pos: usize, w: &[u8]) -> (r: bool)
    ensures
        r == at(b@, pos as int, w@),
{
    let n = b.len();
    let m = w.len();
    if m > n || pos > n - m {
        return false;
    }
    for k in 0..m
        invariant
            n == b@.len(),
            m == w@.len(),
            pos + m <= n,
            forall|q: int| 0 <= q < k ==> b@[pos + q] == #[trigger] w@[q],
    {
        if b[pos + k] != w[k] {
            assert(b@.subrange(pos as int, pos + m)[k as int] == b@[pos + k]);
            return false;
        }
    }
    assert(b@.subrange(pos as int, pos + m) =~= w@);
    true
}

fn read_field_str_exec(b: &[u8], pos: usize, key: &[u8]) -> (r: Option<(String, usize)>)
    ensures
        r matches Some((s, e)) ==> read_field_str(b@, pos as int, key@) == Some((s@, e as int)) && e <= b@.len(),
        r is None ==> read_field_str(b@, pos as int, key@) is None,
{
    let _n = b.len();
    if !at_exec(b, pos, key) {
        return None;
    }
    read_string_exec(b, pos + key.len())
}

fn read_field_opt_exec(b: &[u8], pos: usize, key: &[u8]) -> (r: Option<(Option<String>, usize)>)
    ensures
        r matches Some((o, e)) ==> read_field_opt(b@, pos as int, key@) == Some((opt_text(o), e as int)) && e <= b@.len(),
        r is None ==> read_field_opt(b@, pos as int, key@) is None,
{
    let _n = b.len();
    if !at_exec(b, pos, key) {
        return None;
    }
    let p = pos + key.len();
    if at_exec(b, p, &null_bytes()) {
        return Some((None, p + 4));
    }
    match read_string_exec(b, p) {
        Some((s, e)) => Some((Some(s), e)),
        None => None,
    }
}

pub open spec fn opt_text(o: Option<String>) -> Option<Seq<char>> {
    match o {
        Some(s) => Some(s@),
        None => None,
    }
}

pub open spec fn ops_ids_view(v: Seq<OpId>) -> Seq<Seq<char>> {
    v.map_values(|p: OpId| p@)
}

fn read_list_exec(b: &[u8], pos: usize) -> (r: Option<(Vec<OpId>, usize)>)
    ensures
        r matches Some((v, e)) ==> read_list(b@, pos as int) == Some((ops_ids_view(v@), e as int)) && e <= b@.len(),
        r is None ==> read_list(b@, pos as int) is None,
{
    reveal(read_list);
    let _n = b.len();
    if !at_exec(b, pos, &one(LBRACKET)) {
        return None;
    }
    let mut items: Vec<OpId> = Vec::new();
    if at_exec(b, pos + 1, &one(RBRACKET)) {
        assert(ops_ids_view(items@) =~= Seq::<Seq<char>>::empty());
        return Some((items, pos + 2));
    }
    let mut i: usize = pos + 1;
    let n = b.len();
    assert(ops_ids_view(items@) =~= Seq::<Seq<char>>::empty());
    loop
        invariant
            n == b@.len(),
            read_list(b@, pos as int) == read_items(b@, i as int, ops_ids_view(items@)),
        decreases n - i,
    {
        match read_string_exec(b, i) {
            Some((s, j)) => {
                proof {
                    lemma_read_string_sound(b@, i as int);
                }
                let ghost pre = ops_ids_view(items@);
                items.push(OpId(s));
                assert(ops_ids_view(items@) =~= pre.push(s@));
                if j < n && b[j] == COMMA {
                    i = j + 1;
                } else if j < n && b[j] == RBRACKET {
                    return Some((items, j + 1));
                } else {
                    return None;
                }
            },
            None => {
                return None;
            },
        }
    }
}

fn read_create_ws_exec(b: &[u8], pos: usize) -> (r: Option<(Payload, usize)>)
    ensures
        r matches Some((p, e)) ==> read_create_ws(b@, pos as int) == Some((p@, e as int)) && e <= b@.len(),
        r is None ==> read_create_ws(b@, pos as int) is None,
{
    reveal(read_create_ws);
    let _n = b.len();
    let (w, p1) = match read_field_str_exec(b, pos, &t_create_ws_bytes()) {
        Some(x) => x,
        None => {
            return None;
        },
    };
    let (n, p2) = match read_field_str_exec(b, p1, &k_name_bytes()) {
        Some(x) => x,
        None => {
            return None;
        },
    };
    if !at_exec(b, p2, &close2_bytes()) {
        return None;
    }
    Some((Payload::CreateWorkspace { workspace: WorkspaceId(w), name: n }, p2 + 2))
}

fn read_create_doc_exec(b: &[u8], pos: usize) -> (r: Option<(Payload, usize)>)
    ensures
        r matches Some((p, e)) ==> read_create_doc(b@, pos as int) == Some((p@, e as int)) && e <= b@.len(),
        r is None ==> read_create_doc(b@, pos as int) is None,
{
    reveal(read_create_doc);
    let _n = b.len();
    let (w, p1) = match read_field_str_exec(b, pos, &t_create_doc_bytes()) {
        Some(x) => x,
        None => {
            return None;
        },
    };
    let (d, p2) = match read_field_str_exec(b, p1, &k_document_bytes()) {
        Some(x) => x,
        None => {
            return None;
        },
    };
    let (t, p3) = match read_field_str_exec(b, p2, &k_title_bytes()) {
        Some(x) => x,
        None => {
            return None;
        },
    };
    if !at_exec(b, p3, &close2_bytes()) {
        return None;
    }
    Some((Payload::CreateDocument { workspace: WorkspaceId(w), document: DocumentId(d), title: t }, p3 + 2))
}

fn read_edit_exec(b: &[u8], pos: usize) -> (r: Option<(Payload, usize)>)
    ensures
        r matches Some((p, e)) ==> read_edit(b@, pos as int) == Some((p@, e as int)) && e <= b@.len(),
        r is None ==> read_edit(b@, pos as int) is None,
{
    reveal(read_edit);
    let _n = b.len();
    let (d, p1) = match read_field_str_exec(b, pos, &t_edit_bytes()) {
        Some(x) => x,
        None => {
            return None;
        },
    };
    let (bl, p2) = match read_field_str_exec(b, p1, &k_block_bytes()) {
        Some(x) => x,
        None => {
            return None;
        },
    };
    let (t, p3) = match read_field_str_exec(b, p2, &k_text_bytes()) {
        Some(x) => x,
        None => {
            return None;
        },
    };
    if !at_exec(b, p3, &close2_bytes()) {
        return None;
    }
    Some((Payload::EditBlock { document: DocumentId(d), block: BlockId(bl), text: t }, p3 + 2))
}

fn read_remove_exec(b: &[u8], pos: usize) -> (r: Option<(Payload, usize)>)
    ensures
        r matches Some((p, e)) ==> read_remove(b@, pos as int) == Some((p@, e as int)) && e <= b@.len(),
        r is None ==> read_remove(b@, pos as int) is None,
{
    reveal(read_remove);
    let _n = b.len();
    let (d, p1) = match read_field_str_exec(b, pos, &t_remove_bytes()) {
        Some(x) => x,
        None => {
            return None;
        },
    };
    let (bl, p2) = match read_field_str_exec(b, p1, &k_block_bytes()) {
        Some(x) => x,
        None => {
            return None;
        },
    };
    if !at_exec(b, p2, &close2_bytes()) {
        return None;
    }
    Some((Payload::RemoveBlock { document: DocumentId(d), block: BlockId(bl) }, p2 + 2))
}

fn read_insert_exec(b: &[u8], pos: usize) -> (r: Option<(Payload, usize)>)
    ensures
        r matches Some((p, e)) ==> read_insert(b@, pos as int) == Some((p@, e as int)) && e <= b@.len(),
        r is None ==> read_insert(b@, pos as int) is None,
{
    reveal(read_insert);
    let _n = b.len();
    let (d, p1) = match read_field_str_exec(b, pos, &t_insert_bytes()) {
        Some(x) => x,
        None => {
            return None;
        },
    };
    let (bl, p2) = match read_field_str_exec(b, p1, &k_block_bytes()) {
        Some(x) => x,
        None => {
            return None;
        },
    };
    let (a, p3) = match read_field_opt_exec(b, p2, &k_after_bytes()) {
        Some(x) => x,
        None => {
            return None;
        },
    };
    let (t, p4) = match read_field_str_exec(b, p3, &k_text_bytes()) {
        Some(x) => x,
        None => {
            return None;
        },
    };
    if !at_exec(b, p4, &close2_bytes()) {
        return None;
    }
    let after = match a {
        Some(s) => Some(BlockId(s)),
        None => None,
    };
    assert(crate::envelope::opt_id_view(after) == opt_text(a));
    Some((Payload::InsertBlock { document: DocumentId(d), block: BlockId(bl), after, text: t }, p4 + 2))
}

fn read_payload_exec(b: &[u8], pos: usize) -> (r: Option<(Payload, usize)>)
    ensures
        r matches Some((p, e)) ==> read_payload(b@, pos as int) == Some((p@, e as int)) && e <= b@.len(),
        r is None ==> read_payload(b@, pos as int) is None,
{
    if at_exec(b, pos, &t_create_ws_bytes()) {
        read_create_ws_exec(b, pos)
    } else if at_exec(b, pos, &t_create_doc_bytes()) {
        read_create_doc_exec(b, pos)
    } else if at_exec(b, pos, &t_insert_bytes()) {
        read_insert_exec(b, pos)
    } else if at_exec(b, pos, &t_edit_bytes()) {
        read_edit_exec(b, pos)
    } else if at_exec(b, pos, &t_remove_bytes()) {
        read_remove_exec(b, pos)
    } else {
        None
    }
}

fn read_core_exec(b: &[u8], pos: usize) -> (r: Option<(EnvelopeCore, usize)>)
    ensures
        r matches Some((c, e)) ==> read_core(b@, pos as int) == Some((c@, e as int)) && e <= b@.len(),
        r is None ==> read_core(b@, pos as int) is None,
{
    reveal(read_core);
    let _n = b.len();
    if !at_exec(b, pos, &k_v_bytes()) {
        return None;
    }
    let (v, p1) = match read_u32_exec(b, pos + 5) {
        Some(x) => x,
        None => {
            return None;
        },
    };
    let (actor, p2) = match read_field_str_exec(b, p1, &k_actor_bytes()) {
        Some(x) => x,
        None => {
            return None;
        },
    };
    if !at_exec(b, p2, &k_parents_bytes()) {
        return None;
    }
    let (parents, p3) = match read_list_exec(b, p2 + 11) {
        Some(x) => x,
        None => {
            return None;
        },
    };
    if !at_exec(b, p3, &k_authored_bytes()) {
        return None;
    }
    let (ms, p4) = match read_i64_exec(b, p3 + 15) {
        Some(x) => x,
        None => {
            return None;
        },
    };
    if !at_exec(b, p4, &k_payload_bytes()) {
        return None;
    }
    let (payload, p5) = match read_payload_exec(b, p4 + 11) {
        Some(x) => x,
        None => {
            return None;
        },
    };
    if !at_exec(b, p5, &one(RBRACE)) {
        return None;
    }
    let c = EnvelopeCore { v, actor: DeviceId(actor), parents, authored_ms: ms, payload };
    assert(c@.parents == ops_ids_view(parents@));
    Some((c, p5 + 1))
}

fn read_envelope_exec(bytes: &[u8]) -> (r: Option<OperationEnvelope>)
    ensures
        r matches Some(e) ==> read_envelope(bytes@) == Some(e@),
        r is None ==> read_envelope(bytes@) is None,
{
    let _n = bytes.len();
    let (id, p1) = match read_field_str_exec(bytes, 0, &k_id_bytes()) {
        Some(x) => x,
        None => {
            return None;
        },
    };
    if !at_exec(bytes, p1, &k_core_bytes()) {
        return None;
    }
    let (core, p2) = match read_core_exec(bytes, p1 + 8) {
        Some(x) => x,
        None => {
            return None;
        },
    };
    if !at_exec(bytes, p2, &one(RBRACE)) || p2 + 1 != bytes.len() {
        return None;
    }
    Some(OperationEnvelope { id: OpId(id), core })
}

/// The envelope that `b` holds: read from the canonical encoding when `b` is
/// one, otherwise from the JSON document that `b` holds as UTF-8 text, read
/// the way `envelope_of_json` says; none when `b` is neither.
pub open spec fn envelope_from_bytes(b: Seq<u8>) -> Option<EnvelopeView> {
    match read_envelope(b) {
        Some(e) => Some(e),
        None => if valid_utf8(b) {
            match json_parse(decode_utf8(b)) {
                Some(v) => envelope_of_json(v),
                None => None,
            }
        } else {
            None
        },
    }
}

impl OperationEnvelope {
    /// Parse an envelope from JSON bytes. The canonical encoding that
    /// `to_bytes` writes is read directly; any other JSON spelling of an
    /// envelope (other whitespace, field order or escapes, unknown fields, a
    /// missing `after`, structs written as arrays) is parsed by serde_json
    /// and read by `envelope_from_json`. `None` for anything else. A key
    /// repeated within one object is read as its last value, as serde_json's
    /// `Value` keeps it.
    pub fn from_bytes(bytes: &[u8]) -> (r: Option<OperationEnvelope>)
        ensures
            opt_envelope(r) == envelope_from_bytes(bytes@),
            read_envelope(bytes@) is Some ==> (r matches Some(e) && encode_envelope(e@) == bytes@),
    {
        match read_envelope_exec(bytes) {
            Some(e) => {
                proof {
                    lemma_envelope_read_sound(bytes@);
                }
                Some(e)
            },
            None => {
                let mut owned: Vec<u8> = Vec::new();
                let mut i: usize = 0;
                while i < bytes.len()
                    invariant
                        i <= bytes@.len(),
                        owned@ == bytes@.take(i as int),
                    decreases bytes@.len() - i,
                {
                    owned.push(bytes[i]);
                    i += 1;
                    assert(owned@ =~= bytes@.take(i as int));
                }
                assert(owned@ =~= bytes@);
                match string_from_utf8(owned) {
                    Some(text) => match parse_json(text.as_str()) {
                        Some(v) => envelope_from_json(&v),
                        None => None,
                    },
                    None => None,
                }
            },
        }
    }
}

/// The canonical encoding names one envelope: two envelopes with the same
/// bytes are the same envelope, so `from_bytes` gives back exactly what
/// `to_bytes` encoded.
pub proof fn law_encoding_is_injective(e: EnvelopeView, f: EnvelopeView)
    requires
        encode_envelope(e) == encode_envelope(f),
    ensures
        e == f,
{
    lemma_envelope_roundtrip(e);
    lemma_envelope_roundtrip(f);
}

} // verus!
