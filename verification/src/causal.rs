//! The replay order of an operation set: operations deduplicated by id and
//! sorted by id (a canonical form of the set), then arranged so that every
//! operation comes after the parents it names (smallest ready id first), and
//! the causal-ancestor relation along that order.

use vstd::prelude::*;
use crate::envelope::{EnvelopeView, OperationEnvelope};
use crate::order::{
    key_lt, lemma_key_lt_irreflexive, lemma_key_lt_total, lemma_key_lt_transitive, str_eq, str_less,
};
use crate::order::lemma_bytes_lt_asymmetric;
use vstd::utf8::encode_utf8;

verus! {

pub open spec fn views(ops: Seq<OperationEnvelope>) -> Seq<EnvelopeView> {
    ops.map_values(|e: OperationEnvelope| e@)
}

/// The envelopes that a list of positions picks out of `vs`.
pub open spec fn pick(vs: Seq<EnvelopeView>, idx: Seq<usize>) -> Seq<EnvelopeView> {
    idx.map_values(|j: usize| vs[j as int])
}

pub open spec fn ids_of(s: Seq<EnvelopeView>) -> Seq<Seq<char>> {
    s.map_values(|e: EnvelopeView| e.id)
}

/// Index of the first key in `keys` that is not below `k`.
pub open spec fn slot(keys: Seq<Seq<char>>, k: Seq<char>) -> int
    decreases keys.len(),
{
    if keys.len() == 0 {
        0
    } else if key_lt(keys[0], k) {
        1 + slot(keys.drop_first(), k)
    } else {
        0
    }
}

/// Insert `e` into an id-sorted sequence, unless its id is already there.
pub open spec fn sort_insert(acc: Seq<EnvelopeView>, e: EnvelopeView) -> Seq<EnvelopeView> {
    let i = slot(ids_of(acc), e.id);
    if i < acc.len() && acc[i].id == e.id {
        acc
    } else {
        acc.insert(i, e)
    }
}

/// The operations sorted by id, the first of each id kept.
pub open spec fn canonical(ops: Seq<EnvelopeView>) -> Seq<EnvelopeView>
    decreases ops.len(),
{
    if ops.len() == 0 {
        seq![]
    } else {
        sort_insert(canonical(ops.drop_last()), ops.last())
    }
}

pub open spec fn has_id(s: Seq<EnvelopeView>, id: Seq<char>) -> bool {
    exists|j: int| 0 <= j < s.len() && s[j].id == id
}

/// No parent of `rem[i]` is still among `rem`.
pub open spec fn ready(rem: Seq<EnvelopeView>, i: int) -> bool {
    forall|p: Seq<char>| #[trigger] rem[i].core.parents.contains(p) ==> !has_id(rem, p)
}

pub open spec fn first_ready_from(rem: Seq<EnvelopeView>, i: int) -> int
    decreases rem.len() - i,
{
    if i >= rem.len() || i < 0 {
        0
    } else if ready(rem, i) {
        i
    } else {
        first_ready_from(rem, i + 1)
    }
}

pub proof fn lemma_first_ready_in_range(rem: Seq<EnvelopeView>, from: int)
    requires
        rem.len() > 0,
    ensures
        0 <= first_ready_from(rem, from) < rem.len(),
    decreases rem.len() - from,
{
    if 0 <= from < rem.len() && !ready(rem, from) {
        lemma_first_ready_in_range(rem, from + 1);
    }
}

/// Repeatedly take the first operation whose parents have all been taken
/// (the first remaining one if none is ready, which only a parent cycle can
/// cause).
pub open spec fn causal_order(rem: Seq<EnvelopeView>) -> Seq<EnvelopeView>
    decreases rem.len(),
{
    if rem.len() == 0 {
        seq![]
    } else {
        let i = first_ready_from(rem, 0);
        proof {
            lemma_first_ready_in_range(rem, 0);
        }
        seq![rem[i]] + causal_order(rem.remove(i))
    }
}

/// The order in which a set of operations is replayed.
pub open spec fn replay_order(ops: Seq<EnvelopeView>) -> Seq<EnvelopeView> {
    causal_order(canonical(ops))
}

pub open spec fn is_parent(o: Seq<EnvelopeView>, i: int, k: int) -> bool {
    o[i].core.parents.contains(o[k].id)
}

pub open spec fn unit_row(n: nat, i: int) -> Seq<bool> {
    Seq::new(n, |j: int| j == i)
}

pub open spec fn or_row(a: Seq<bool>, b: Seq<bool>) -> Seq<bool> {
    Seq::new(a.len(), |j: int| a[j] || b[j])
}

/// Which of `o[0..]` are `o[i]` itself or its ancestors through parents that
/// come earlier in `o`.
pub open spec fn anc_row(o: Seq<EnvelopeView>, i: int) -> Seq<bool>
    decreases i, 1int, 0int,
{
    if i < 0 {
        unit_row(o.len(), i)
    } else {
        row_upto(o, i, i)
    }
}

/// `o[i]` and the ancestors reached through its parents among `o[0..m]`.
pub open spec fn row_upto(o: Seq<EnvelopeView>, i: int, m: int) -> Seq<bool>
    decreases i, 0int, m,
{
    if m <= 0 || m > i {
        unit_row(o.len(), i)
    } else if is_parent(o, i, m - 1) {
        or_row(row_upto(o, i, m - 1), anc_row(o, m - 1))
    } else {
        row_upto(o, i, m - 1)
    }
}

/// First position of `id` in `o`, or `o.len()`.
pub open spec fn find_id(o: Seq<EnvelopeView>, id: Seq<char>) -> int
    decreases o.len(),
{
    if o.len() == 0 {
        0
    } else if o[0].id == id {
        0
    } else {
        1 + find_id(o.drop_first(), id)
    }
}

/// The operation `h` is `o[i]` or one of its causal ancestors.
pub open spec fn observed(o: Seq<EnvelopeView>, i: int, h: Seq<char>) -> bool {
    let k = find_id(o, h);
    0 <= k < o.len() && anc_row(o, i)[k]
}

pub proof fn lemma_slot_at(keys: Seq<Seq<char>>, k: Seq<char>, i: int)
    requires
        0 <= i <= keys.len(),
        forall|j: int| 0 <= j < i ==> key_lt(#[trigger] keys[j], k),
        i == keys.len() || !key_lt(keys[i], k),
    ensures
        slot(keys, k) == i,
    decreases i,
{
    if i > 0 {
        assert(key_lt(keys[0], k));
        lemma_slot_at(keys.drop_first(), k, i - 1);
    }
}

pub proof fn lemma_find_id_at(o: Seq<EnvelopeView>, id: Seq<char>, i: int)
    requires
        0 <= i <= o.len(),
        forall|j: int| 0 <= j < i ==> (#[trigger] o[j]).id != id,
        i == o.len() || o[i].id == id,
    ensures
        find_id(o, id) == i,
    decreases i,
{
    if i > 0 {
        lemma_find_id_at(o.drop_first(), id, i - 1);
    }
}

proof fn lemma_first_ready(rem: Seq<EnvelopeView>, from: int, i: int)
    requires
        0 <= from <= i <= rem.len(),
        forall|j: int| from <= j < i ==> !ready(rem, j),
        i == rem.len() || ready(rem, i),
    ensures
        first_ready_from(rem, from) == if i == rem.len() { 0 } else { i },
    decreases i - from,
{
    if from < i {
        lemma_first_ready(rem, from + 1, i);
    }
}

/// Position where an operation with id `id` belongs among the id-sorted
/// positions `idx`.
fn slot_exec(ops: &[OperationEnvelope], idx: &Vec<usize>, id: &str) -> (r: usize)
    requires
        forall|j: int| 0 <= j < idx@.len() ==> (#[trigger] idx@[j]) < ops@.len(),
    ensures
        r == slot(ids_of(pick(views(ops@), idx@)), id@),
        r <= idx@.len(),
{
    let ghost keys = ids_of(pick(views(ops@), idx@));
    let n = idx.len();
    let mut i: usize = 0;
    while i < n && str_less(ops[idx[i]].id.as_str(), id)
        invariant
            n == idx@.len(),
            i <= n,
            keys == ids_of(pick(views(ops@), idx@)),
            forall|j: int| 0 <= j < idx@.len() ==> (#[trigger] idx@[j]) < ops@.len(),
            forall|j: int| 0 <= j < i ==> key_lt(#[trigger] keys[j], id@),
        decreases n - i,
    {
        assert(keys[i as int] == ops@[idx@[i as int] as int].id@);
        i += 1;
    }
    proof {
        if i < n {
            assert(keys[i as int] == ops@[idx@[i as int] as int].id@);
        }
        lemma_slot_at(keys, id@, i as int);
    }
    i
}

/// Positions of `ops`, deduplicated by id and sorted by id.
pub fn canonical_positions(ops: &[OperationEnvelope]) -> (idx: Vec<usize>)
    ensures
        pick(views(ops@), idx@) == canonical(views(ops@)),
        forall|j: int| 0 <= j < idx@.len() ==> (#[trigger] idx@[j]) < ops@.len(),
{
    let ghost vs = views(ops@);
    let mut idx: Vec<usize> = Vec::new();
    let n = ops.len();
    for t in 0..n
        invariant
            n == ops@.len(),
            vs == views(ops@),
            pick(vs, idx@) == canonical(vs.take(t as int)),
            forall|j: int| 0 <= j < idx@.len() ==> (#[trigger] idx@[j]) < ops@.len(),
    {
        let ghost acc = pick(vs, idx@);
        let i = slot_exec(ops, &idx, ops[t].id.as_str());
        assert(vs.take(t + 1).drop_last() =~= vs.take(t as int));
        assert(vs.take(t + 1).last() == vs[t as int]);
        proof {
            if i < acc.len() {
                assert(acc[i as int].id == ops@[idx@[i as int] as int].id@);
            }
        }
        let dup = i < idx.len() && ops[idx[i]].id.same(&ops[t].id);
        if !dup {
            idx.insert(i, t);
            assert(pick(vs, idx@) =~= acc.insert(i as int, vs[t as int]));
        }
        assert(pick(vs, idx@) =~= canonical(vs.take(t + 1)));
    }
    assert(vs.take(n as int) =~= vs);
    idx
}

fn contains_id(ops: &[OperationEnvelope], rem: &Vec<usize>, id: &str) -> (b: bool)
    requires
        forall|j: int| 0 <= j < rem@.len() ==> (#[trigger] rem@[j]) < ops@.len(),
    ensures
        b == has_id(pick(views(ops@), rem@), id@),
{
    let ghost s = pick(views(ops@), rem@);
    let n = rem.len();
    for j in 0..n
        invariant
            n == rem@.len(),
            s == pick(views(ops@), rem@),
            forall|j: int| 0 <= j < rem@.len() ==> (#[trigger] rem@[j]) < ops@.len(),
            forall|k: int| 0 <= k < j ==> (#[trigger] s[k]).id != id@,
    {
        if str_eq(ops[rem[j]].id.as_str(), id) {
            assert(s[j as int].id == id@);
            return true;
        }
    }
    false
}


fn ready_exec(ops: &[OperationEnvelope], rem: &Vec<usize>, i: usize) -> (b: bool)
    requires
        i < rem@.len(),
        forall|j: int| 0 <= j < rem@.len() ==> (#[trigger] rem@[j]) < ops@.len(),
    ensures
        b == ready(pick(views(ops@), rem@), i as int),
{
    let ghost s = pick(views(ops@), rem@);
    let parents = &ops[rem[i]].core.parents;
    let ghost pv = s[i as int].core.parents;
    assert(pv =~= parents@.map_values(|p: crate::id::OpId| p@));
    let m = parents.len();
    for j in 0..m
        invariant
            m == parents@.len(),
            pv.len() == m,
            s == pick(views(ops@), rem@),
            i < rem@.len(),
            pv == s[i as int].core.parents,
            forall|k: int| 0 <= k < m ==> pv[k] == (#[trigger] parents@[k])@,
            forall|j: int| 0 <= j < rem@.len() ==> (#[trigger] rem@[j]) < ops@.len(),
            forall|k: int| 0 <= k < j ==> !has_id(s, #[trigger] pv[k]),
    {
        if contains_id(ops, rem, parents[j].as_str()) {
            assert(pv.contains(pv[j as int]));
            return false;
        }
    }
    proof {
        assert forall|p: Seq<char>| #[trigger] s[i as int].core.parents.contains(p) implies !has_id(s, p) by {
            let k = choose|k: int| 0 <= k < pv.len() && pv[k] == p;
            assert(!has_id(s, pv[k]));
        }
    }
    true
}

/// The positions of `start`, rearranged into causal order.
pub fn causal_positions(ops: &[OperationEnvelope], start: Vec<usize>) -> (out: Vec<usize>)
    requires
        forall|j: int| 0 <= j < start@.len() ==> (#[trigger] start@[j]) < ops@.len(),
    ensures
        pick(views(ops@), out@) == causal_order(pick(views(ops@), start@)),
        forall|j: int| 0 <= j < out@.len() ==> (#[trigger] out@[j]) < ops@.len(),
{
    let ghost vs = views(ops@);
    let mut rem = start;
    let mut out: Vec<usize> = Vec::new();
    assert(pick(vs, out@) =~= Seq::<EnvelopeView>::empty());
    assert(pick(vs, out@) + causal_order(pick(vs, rem@)) =~= causal_order(pick(vs, start@)));
    while rem.len() > 0
        invariant
            vs == views(ops@),
            pick(vs, out@) + causal_order(pick(vs, rem@)) == causal_order(pick(vs, start@)),
            forall|j: int| 0 <= j < rem@.len() ==> (#[trigger] rem@[j]) < ops@.len(),
            forall|j: int| 0 <= j < out@.len() ==> (#[trigger] out@[j]) < ops@.len(),
        decreases rem@.len(),
    {
        let ghost r = pick(vs, rem@);
        let n = rem.len();
        let mut i: usize = 0;
        while i < n && !ready_exec(ops, &rem, i)
            invariant
                n == rem@.len(),
                i <= n,
                r == pick(vs, rem@),
                vs == views(ops@),
                forall|j: int| 0 <= j < rem@.len() ==> (#[trigger] rem@[j]) < ops@.len(),
                forall|j: int| 0 <= j < i ==> !ready(r, j),
            decreases n - i,
        {
            i += 1;
        }
        proof {
            lemma_first_ready(r, 0, i as int);
        }
        if i == n {
            i = 0;
        }
        let ghost chosen = r[i as int];
        let ghost before = pick(vs, out@);
        out.push(rem[i]);
        rem.remove(i);
        proof {
            assert(pick(vs, rem@) =~= r.remove(i as int));
            assert(pick(vs, out@) =~= before.push(chosen));
            assert(causal_order(r) == seq![chosen] + causal_order(r.remove(i as int)));
            assert(before + causal_order(r) =~= pick(vs, out@) + causal_order(pick(vs, rem@)));
        }
    }
    assert(pick(vs, rem@) =~= Seq::<EnvelopeView>::empty());
    assert(pick(vs, out@) + causal_order(pick(vs, rem@)) =~= pick(vs, out@));
    out
}

pub proof fn lemma_row_len(o: Seq<EnvelopeView>, i: int, m: int)
    ensures
        row_upto(o, i, m).len() == o.len(),
        anc_row(o, i).len() == o.len(),
    decreases i, 0int, m,
{
    if m <= 0 || m > i {
    } else {
        lemma_row_len(o, i, m - 1);
        lemma_row_len(o, m - 1, m - 1);
    }
    if i >= 0 {
        lemma_row_len_top(o, i);
    }
}

proof fn lemma_row_len_top(o: Seq<EnvelopeView>, i: int)
    requires
        i >= 0,
    ensures
        anc_row(o, i).len() == o.len(),
    decreases i, 1int, 0int,
{
    lemma_row_len_upto(o, i, i);
}

proof fn lemma_row_len_upto(o: Seq<EnvelopeView>, i: int, m: int)
    ensures
        row_upto(o, i, m).len() == o.len(),
    decreases i, 0int, m,
{
    if m <= 0 || m > i {
    } else {
        lemma_row_len_upto(o, i, m - 1);
        if is_parent(o, i, m - 1) {
            lemma_row_len_top(o, m - 1);
        }
    }
}

fn is_parent_exec(ops: &[OperationEnvelope], ord: &Vec<usize>, i: usize, k: usize) -> (b: bool)
    requires
        i < ord@.len(),
        k < ord@.len(),
        forall|j: int| 0 <= j < ord@.len() ==> (#[trigger] ord@[j]) < ops@.len(),
    ensures
        b == is_parent(pick(views(ops@), ord@), i as int, k as int),
{
    let ghost o = pick(views(ops@), ord@);
    let parents = &ops[ord[i]].core.parents;
    let target = ops[ord[k]].id.as_str();
    let ghost pv = o[i as int].core.parents;
    assert(pv =~= parents@.map_values(|p: crate::id::OpId| p@));
    let m = parents.len();
    for j in 0..m
        invariant
            m == parents@.len(),
            pv.len() == m,
            o == pick(views(ops@), ord@),
            i < ord@.len(),
            k < ord@.len(),
            pv == o[i as int].core.parents,
            target@ == o[k as int].id,
            forall|q: int| 0 <= q < m ==> pv[q] == (#[trigger] parents@[q])@,
            forall|q: int| 0 <= q < j ==> pv[q] != target@,
    {
        if str_eq(parents[j].as_str(), target) {
            assert(pv[j as int] == target@);
            assert(pv.contains(o[k as int].id));
            return true;
        }
    }
    false
}

/// For each position `i` of the replay order, which positions are `i` itself
/// or its causal ancestors.
pub fn ancestry(ops: &[OperationEnvelope], ord: &Vec<usize>) -> (rows: Vec<Vec<bool>>)
    requires
        forall|j: int| 0 <= j < ord@.len() ==> (#[trigger] ord@[j]) < ops@.len(),
    ensures
        rows@.len() == ord@.len(),
        forall|i: int| 0 <= i < ord@.len() ==> (#[trigger] rows@[i])@ == anc_row(pick(views(ops@), ord@), i),
{
    let ghost o = pick(views(ops@), ord@);
    let n = ord.len();
    let mut rows: Vec<Vec<bool>> = Vec::new();
    for i in 0..n
        invariant
            n == ord@.len(),
            o == pick(views(ops@), ord@),
            forall|j: int| 0 <= j < ord@.len() ==> (#[trigger] ord@[j]) < ops@.len(),
            rows@.len() == i,
            forall|q: int| 0 <= q < i ==> (#[trigger] rows@[q])@ == anc_row(o, q),
    {
        let mut row: Vec<bool> = Vec::new();
        for j in 0..n
            invariant
                n == ord@.len(),
                row@ == unit_row(n as nat, i as int).take(j as int),
        {
            row.push(j == i);
            assert(row@ =~= unit_row(n as nat, i as int).take(j + 1));
        }
        assert(row@ =~= unit_row(n as nat, i as int));
        assert(row@ == row_upto(o, i as int, 0));
        for k in 0..i
            invariant
                n == ord@.len(),
                i < n,
                o == pick(views(ops@), ord@),
                forall|j: int| 0 <= j < ord@.len() ==> (#[trigger] ord@[j]) < ops@.len(),
                rows@.len() == i,
                forall|q: int| 0 <= q < i ==> (#[trigger] rows@[q])@ == anc_row(o, q),
                row@ == row_upto(o, i as int, k as int),
        {
            proof {
                lemma_row_len_upto(o, i as int, k as int);
                lemma_row_len_top(o, k as int);
            }
            if is_parent_exec(ops, ord, i, k) {
                let mut merged: Vec<bool> = Vec::new();
                for j in 0..n
                    invariant
                        n == ord@.len(),
                        row@.len() == n,
                        rows@[k as int]@.len() == n,
                        k < rows@.len(),
                        merged@ == or_row(row@, rows@[k as int]@).take(j as int),
                {
                    merged.push(row[j] || rows[k][j]);
                    assert(merged@ =~= or_row(row@, rows@[k as int]@).take(j + 1));
                }
                assert(merged@ =~= or_row(row@, rows@[k as int]@));
                row = merged;
            }
            assert(row@ == row_upto(o, i as int, k + 1));
        }
        assert(row@ == anc_row(o, i as int));
        rows.push(row);
    }
    rows
}

/// Whether the operation with id `h` is `o[i]` or one of its ancestors.
pub fn observed_exec(
    ops: &[OperationEnvelope],
    ord: &Vec<usize>,
    rows: &Vec<Vec<bool>>,
    i: usize,
    h: &str,
) -> (b: bool)
    requires
        i < ord@.len(),
        forall|j: int| 0 <= j < ord@.len() ==> (#[trigger] ord@[j]) < ops@.len(),
        rows@.len() == ord@.len(),
        forall|q: int| 0 <= q < ord@.len() ==> (#[trigger] rows@[q])@ == anc_row(pick(views(ops@), ord@), q),
    ensures
        b == observed(pick(views(ops@), ord@), i as int, h@),
{
    let ghost o = pick(views(ops@), ord@);
    let n = ord.len();
    let mut k: usize = 0;
    while k < n && !str_eq(ops[ord[k]].id.as_str(), h)
        invariant
            n == ord@.len(),
            k <= n,
            o == pick(views(ops@), ord@),
            forall|j: int| 0 <= j < ord@.len() ==> (#[trigger] ord@[j]) < ops@.len(),
            forall|j: int| 0 <= j < k ==> (#[trigger] o[j]).id != h@,
        decreases n - k,
    {
        k += 1;
    }
    proof {
        lemma_find_id_at(o, h@, k as int);
        lemma_row_len_top(o, i as int);
    }
    if k < n {
        rows[i][k]
    } else {
        false
    }
}


// ---------------------------------------------------------------------------
// The canonical form depends only on the set of operations.

/// Strictly increasing ids.
pub open spec fn id_sorted(s: Seq<EnvelopeView>) -> bool {
    forall|i: int, j: int| 0 <= i < j < s.len() ==> key_lt(s[i].id, s[j].id)
}

/// Envelopes that share an id are the same envelope.
pub open spec fn unique_ids(s: Seq<EnvelopeView>) -> bool {
    forall|i: int, j: int| 0 <= i < s.len() && 0 <= j < s.len() && s[i].id == s[j].id ==> s[i] == s[j]
}

pub proof fn lemma_slot_props(keys: Seq<Seq<char>>, k: Seq<char>)
    ensures
        0 <= slot(keys, k) <= keys.len(),
        forall|j: int| 0 <= j < slot(keys, k) ==> key_lt(#[trigger] keys[j], k),
        slot(keys, k) < keys.len() ==> !key_lt(keys[slot(keys, k)], k),
    decreases keys.len(),
{
    if keys.len() > 0 && key_lt(keys[0], k) {
        let rest = keys.drop_first();
        lemma_slot_props(rest, k);
        assert forall|j: int| 0 <= j < slot(keys, k) implies key_lt(#[trigger] keys[j], k) by {
            if j > 0 {
                assert(keys[j] == rest[j - 1]);
            }
        }
    }
}

proof fn lemma_key_lt_asym(a: Seq<char>, b: Seq<char>)
    requires
        key_lt(a, b),
    ensures
        !key_lt(b, a),
{
    lemma_bytes_lt_asymmetric(encode_utf8(a), encode_utf8(b));
}

proof fn lemma_sort_insert_sorted(acc: Seq<EnvelopeView>, e: EnvelopeView)
    requires
        id_sorted(acc),
    ensures
        id_sorted(sort_insert(acc, e)),
{
    let keys = ids_of(acc);
    let i = slot(keys, e.id);
    lemma_slot_props(keys, e.id);
    if i < acc.len() && acc[i].id == e.id {
    } else {
        let r = acc.insert(i, e);
        assert forall|a: int, b: int| 0 <= a < b < r.len() implies key_lt(r[a].id, r[b].id) by {
            if b < i {
                assert(r[a] == acc[a] && r[b] == acc[b]);
            } else if b == i {
                assert(r[a] == acc[a]);
                assert(keys[a] == acc[a].id);
            } else {
                assert(r[b] == acc[b - 1]);
                // acc[i] is not below e and differs from it, so it is above
                assert(keys[i] == acc[i].id);
                assert(key_lt(e.id, acc[i].id)) by {
                    lemma_key_lt_total(e.id, acc[i].id);
                }
                if a < i {
                    assert(r[a] == acc[a]);
                    assert(keys[a] == acc[a].id);
                    lemma_key_lt_transitive(acc[a].id, e.id, acc[i].id);
                    if b - 1 > i {
                        lemma_key_lt_transitive(acc[a].id, acc[i].id, acc[b - 1].id);
                    }
                } else if a == i {
                    if b - 1 > i {
                        lemma_key_lt_transitive(e.id, acc[i].id, acc[b - 1].id);
                    }
                } else {
                    assert(r[a] == acc[a - 1]);
                }
            }
        }
    }
}

pub proof fn lemma_canonical_props(s: Seq<EnvelopeView>)
    ensures
        id_sorted(canonical(s)),
        forall|x: EnvelopeView| canonical(s).contains(x) ==> s.contains(x),
        forall|k: int| 0 <= k < s.len() ==> has_id(canonical(s), #[trigger] s[k].id),
    decreases s.len(),
{
    if s.len() > 0 {
        let prev = s.drop_last();
        let e = s.last();
        lemma_canonical_props(prev);
        let acc = canonical(prev);
        lemma_sort_insert_sorted(acc, e);
        let keys = ids_of(acc);
        let i = slot(keys, e.id);
        lemma_slot_props(keys, e.id);
        let r = canonical(s);
        assert(r == sort_insert(acc, e));
        // every element of acc is still there
        assert forall|j: int| 0 <= j < acc.len() implies r.contains(#[trigger] acc[j]) by {
            if i < acc.len() && acc[i].id == e.id {
                assert(r[j] == acc[j]);
            } else if j < i {
                assert(r[j] == acc[j]);
            } else {
                assert(r[j + 1] == acc[j]);
            }
        }
        assert forall|x: EnvelopeView| r.contains(x) implies s.contains(x) by {
            let j = choose|j: int| 0 <= j < r.len() && r[j] == x;
            if i < acc.len() && acc[i].id == e.id {
                assert(acc.contains(x));
                assert(prev.contains(x));
                let m = choose|m: int| 0 <= m < prev.len() && prev[m] == x;
                assert(prev[m] == s[m]);
                assert(s.contains(x));
            } else if j == i {
                assert(s[s.len() - 1] == x);
            } else {
                let jj = if j < i { j } else { j - 1 };
                assert(acc[jj] == x);
                assert(acc.contains(x));
                assert(prev.contains(x));
                let m = choose|m: int| 0 <= m < prev.len() && prev[m] == x;
                assert(prev[m] == s[m]);
                assert(s.contains(x));
            }
        }
        assert forall|k: int| 0 <= k < s.len() implies has_id(r, #[trigger] s[k].id) by {
            if k < s.len() - 1 {
                assert(prev[k] == s[k]);
                assert(has_id(acc, prev[k].id));
                let j = choose|j: int| 0 <= j < acc.len() && acc[j].id == prev[k].id;
                assert(r.contains(acc[j]));
                let m = choose|m: int| 0 <= m < r.len() && r[m] == acc[j];
                assert(r[m].id == s[k].id);
            } else {
                if i < acc.len() && acc[i].id == e.id {
                    assert(r[i].id == e.id);
                } else {
                    assert(r[i] == e);
                }
            }
        }
    }
}

proof fn lemma_sorted_unique(a: Seq<EnvelopeView>, b: Seq<EnvelopeView>)
    requires
        id_sorted(a),
        id_sorted(b),
        forall|x: EnvelopeView| a.contains(x) <==> b.contains(x),
    ensures
        a == b,
    decreases a.len(),
{
    if a.len() == 0 {
        if b.len() > 0 {
            assert(b.contains(b[0]));
        }
        assert(a =~= b);
    } else {
        assert(a.contains(a[0]));
        let k = choose|k: int| 0 <= k < b.len() && b[k] == a[0];
        assert(b.contains(b[0]));
        let m = choose|m: int| 0 <= m < a.len() && a[m] == b[0];
        if k > 0 {
            // b[0] sits below a[0] in b, but a[0] is the least of a
            assert(key_lt(b[0].id, b[k].id));
            if m > 0 {
                assert(key_lt(a[0].id, a[m].id));
                lemma_key_lt_asym(b[0].id, b[k].id);
            } else {
                lemma_key_lt_irreflexive(a[0].id);
            }
        }
        assert(k == 0);
        let a1 = a.drop_first();
        let b1 = b.drop_first();
        assert forall|x: EnvelopeView| a1.contains(x) <==> b1.contains(x) by {
            if a1.contains(x) {
                let j = choose|j: int| 0 <= j < a1.len() && a1[j] == x;
                assert(a[j + 1] == x);
                assert(key_lt(a[0].id, x.id));
                lemma_key_lt_irreflexive(x.id);
                assert(a.contains(x));
                let q = choose|q: int| 0 <= q < b.len() && b[q] == x;
                assert(q != 0);
                assert(b1[q - 1] == x);
            }
            if b1.contains(x) {
                let j = choose|j: int| 0 <= j < b1.len() && b1[j] == x;
                assert(b[j + 1] == x);
                assert(key_lt(b[0].id, x.id));
                lemma_key_lt_irreflexive(x.id);
                assert(b.contains(x));
                let q = choose|q: int| 0 <= q < a.len() && a[q] == x;
                assert(q != 0);
                assert(a1[q - 1] == x);
            }
        }
        lemma_sorted_unique(a1, b1);
        assert(a =~= seq![a[0]] + a1);
        assert(b =~= seq![b[0]] + b1);
    }
}

/// Two sequences holding the same envelopes, where an id names one envelope,
/// have the same canonical form.
pub proof fn lemma_canonical_set(p: Seq<EnvelopeView>, q: Seq<EnvelopeView>)
    requires
        forall|x: EnvelopeView| p.contains(x) <==> q.contains(x),
        unique_ids(p),
    ensures
        canonical(p) == canonical(q),
{
    lemma_canonical_props(p);
    lemma_canonical_props(q);
    let a = canonical(p);
    let b = canonical(q);
    assert forall|x: EnvelopeView| a.contains(x) <==> p.contains(x) by {
        if p.contains(x) {
            let k = choose|k: int| 0 <= k < p.len() && p[k] == x;
            assert(has_id(a, p[k].id));
            let j = choose|j: int| 0 <= j < a.len() && a[j].id == p[k].id;
            assert(p.contains(a[j]));
            let m = choose|m: int| 0 <= m < p.len() && p[m] == a[j];
            assert(a[j] == x);
        }
    }
    assert forall|x: EnvelopeView| b.contains(x) <==> q.contains(x) by {
        if q.contains(x) {
            let k = choose|k: int| 0 <= k < q.len() && q[k] == x;
            assert(has_id(b, q[k].id));
            let j = choose|j: int| 0 <= j < b.len() && b[j].id == q[k].id;
            assert(q.contains(b[j]));
            assert(p.contains(b[j]));
            assert(p.contains(x));
            let m1 = choose|m: int| 0 <= m < p.len() && p[m] == b[j];
            let m2 = choose|m: int| 0 <= m < p.len() && p[m] == x;
            assert(b[j] == x);
        }
    }
    lemma_sorted_unique(a, b);
}

/// Each operation names, among the operations listed, only ones listed
/// before it (a log in commit order): no parent cycle.
pub open spec fn parents_first(ops: Seq<EnvelopeView>) -> bool {
    forall|i: int, j: int|
        0 <= i < ops.len() && 0 <= j < ops.len() && (#[trigger] ops[i]).core.parents.contains((#[trigger] ops[j]).id)
            ==> has_id(ops.take(i), ops[j].id)
}

/// No operation of `ops` names `id` as a parent.
pub open spec fn is_head(ops: Seq<EnvelopeView>, id: Seq<char>) -> bool {
    forall|k: int| 0 <= k < ops.len() ==> !(#[trigger] ops[k]).core.parents.contains(id)
}

/// `x` causally follows every operation of `ops`: it names each head of
/// `ops` (each operation that no other one names) as a parent, none of them
/// names it, and its id is new.
pub open spec fn follows_all(ops: Seq<EnvelopeView>, x: EnvelopeView) -> bool {
    &&& forall|j: int| 0 <= j < ops.len() && is_head(ops, ops[j].id) ==> x.core.parents.contains(#[trigger] ops[j].id)
    &&& is_head(ops, x.id)
    &&& !has_id(ops, x.id)
}

/// Every operation of `ops` that names an operation of `rem` is in `rem`.
pub open spec fn closed_in(rem: Seq<EnvelopeView>, ops: Seq<EnvelopeView>) -> bool {
    forall|q: int, k: int|
        0 <= q < rem.len() && 0 <= k < ops.len() && (#[trigger] ops[k]).core.parents.contains((#[trigger] rem[q]).id)
            ==> rem.contains(ops[k])
}

/// A non-empty `rem` closed in a log listed parents first holds a head of
/// the log.
proof fn lemma_head_in(rem: Seq<EnvelopeView>, ops: Seq<EnvelopeView>, q: int)
    requires
        0 <= q < rem.len(),
        forall|m: int| 0 <= m < rem.len() ==> ops.contains(#[trigger] rem[m]),
        unique_ids(ops),
        parents_first(ops),
        closed_in(rem, ops),
    ensures
        exists|h: int| 0 <= h < rem.len() && is_head(ops, #[trigger] rem[h].id),
    decreases ops.len() - find_id(ops, rem[q].id),
{
    if !is_head(ops, rem[q].id) {
        let k = choose|k: int| 0 <= k < ops.len() && (#[trigger] ops[k]).core.parents.contains(rem[q].id);
        assert(rem.contains(ops[k]));
        let q2 = choose|q2: int| 0 <= q2 < rem.len() && rem[q2] == ops[k];
        assert(ops.contains(rem[q]));
        lemma_find_member(ops, rem[q]);
        lemma_find_member(ops, ops[k]);
        let a = find_id(ops, rem[q].id);
        let c = find_id(ops, ops[k].id);
        assert(ops[c] == ops[k]);
        assert(ops[c].core.parents.contains(ops[a].id));
        assert(has_id(ops.take(c), ops[a].id));
        let w = choose|w: int| 0 <= w < ops.take(c).len() && ops.take(c)[w].id == ops[a].id;
        assert(ops[w].id == rem[q].id);
        lemma_head_in(rem, ops, q2);
    }
}

/// The first ready position from `from` on, when one exists.
proof fn lemma_first_ready_found(rem: Seq<EnvelopeView>, from: int, k: int)
    requires
        0 <= from <= k < rem.len(),
        ready(rem, k),
    ensures
        from <= first_ready_from(rem, from) <= k,
        ready(rem, first_ready_from(rem, from)),
        forall|m: int| from <= m < first_ready_from(rem, from) ==> !ready(rem, m),
    decreases k - from,
{
    if !ready(rem, from) {
        lemma_first_ready_found(rem, from + 1, k);
    }
}

proof fn lemma_first_ready_least(rem: Seq<EnvelopeView>, from: int, i: int)
    requires
        0 <= from <= i < rem.len(),
        ready(rem, i),
        forall|m: int| from <= m < i ==> !ready(rem, m),
    ensures
        first_ready_from(rem, from) == i,
    decreases i - from,
{
    if from < i {
        lemma_first_ready_least(rem, from + 1, i);
    }
}

/// The first occurrence of an operation's id in a log whose ids each name
/// one envelope holds that operation.
proof fn lemma_find_member(ops: Seq<EnvelopeView>, e: EnvelopeView)
    requires
        unique_ids(ops),
        ops.contains(e),
    ensures
        0 <= find_id(ops, e.id) < ops.len(),
        ops[find_id(ops, e.id)] == e,
        forall|k: int| 0 <= k < ops.len() && ops[k].id == e.id ==> find_id(ops, e.id) <= k,
{
    let a = choose|a: int| 0 <= a < ops.len() && ops[a] == e;
    lemma_find_first(ops, e.id, a);
}

proof fn lemma_find_first(ops: Seq<EnvelopeView>, id: Seq<char>, a: int)
    requires
        0 <= a < ops.len(),
        ops[a].id == id,
    ensures
        0 <= find_id(ops, id) <= a,
        ops[find_id(ops, id)].id == id,
        forall|k: int| 0 <= k < ops.len() && ops[k].id == id ==> find_id(ops, id) <= k,
    decreases a,
{
    if ops[0].id != id {
        lemma_find_first(ops.drop_first(), id, a - 1);
        assert forall|k: int| 0 <= k < ops.len() && ops[k].id == id implies find_id(ops, id) <= k by {
            if k > 0 {
                assert(ops.drop_first()[k - 1] == ops[k]);
            }
        }
    }
}

/// Among operations drawn from a log listed parents first, one is ready.
proof fn lemma_some_ready(rem: Seq<EnvelopeView>, ops: Seq<EnvelopeView>, k: int)
    requires
        0 <= k < rem.len(),
        forall|q: int| 0 <= q < rem.len() ==> ops.contains(#[trigger] rem[q]),
        unique_ids(ops),
        parents_first(ops),
    ensures
        exists|j: int| 0 <= j < rem.len() && ready(rem, j),
    decreases find_id(ops, rem[k].id),
{
    if !ready(rem, k) {
        let p = choose|p: Seq<char>| #[trigger] rem[k].core.parents.contains(p) && has_id(rem, p);
        let j = choose|j: int| 0 <= j < rem.len() && rem[j].id == p;
        assert(ops.contains(rem[k]));
        assert(ops.contains(rem[j]));
        lemma_find_member(ops, rem[k]);
        lemma_find_member(ops, rem[j]);
        let a = find_id(ops, rem[k].id);
        let b = find_id(ops, rem[j].id);
        assert(ops[a].core.parents.contains(ops[b].id));
        assert(has_id(ops.take(a), ops[b].id));
        let c = choose|c: int| 0 <= c < ops.take(a).len() && ops.take(a)[c].id == ops[b].id;
        assert(ops[c].id == p);
        lemma_some_ready(rem, ops, j);
    }
}

/// Inserting an operation that none of the others names keeps their
/// readiness.
proof fn lemma_ready_insert(rem: Seq<EnvelopeView>, s: int, x: EnvelopeView)
    requires
        0 <= s <= rem.len(),
        forall|q: int| 0 <= q < rem.len() ==> !(#[trigger] rem[q]).core.parents.contains(x.id),
    ensures
        forall|p: Seq<char>| has_id(rem.insert(s, x), p) <==> (has_id(rem, p) || p == x.id),
        forall|m2: int| 0 <= m2 <= rem.len() && m2 != s ==> #[trigger] ready(rem.insert(s, x), m2)
            == ready(rem, if m2 < s { m2 } else { m2 - 1 }),
{
    let r = rem.insert(s, x);
    assert forall|p: Seq<char>| has_id(r, p) <==> (has_id(rem, p) || p == x.id) by {
        if has_id(r, p) {
            let j = choose|j: int| 0 <= j < r.len() && r[j].id == p;
            if j < s {
                assert(rem[j] == r[j]);
            } else if j > s {
                assert(rem[j - 1] == r[j]);
            }
        }
        if has_id(rem, p) {
            let j = choose|j: int| 0 <= j < rem.len() && rem[j].id == p;
            if j < s {
                assert(r[j] == rem[j]);
            } else {
                assert(r[j + 1] == rem[j]);
            }
        }
        if p == x.id {
            assert(r[s] == x);
        }
    }
    assert forall|m2: int| 0 <= m2 <= rem.len() && m2 != s implies #[trigger] ready(r, m2)
        == ready(rem, if m2 < s { m2 } else { m2 - 1 }) by {
        let m = if m2 < s { m2 } else { m2 - 1 };
        assert(r[m2] == rem[m]);
        assert(!rem[m].core.parents.contains(x.id));
    }
}

/// Taking a ready operation keeps `rem` closed.
proof fn lemma_closed_rest(rem: Seq<EnvelopeView>, ops: Seq<EnvelopeView>, i: int)
    requires
        0 <= i < rem.len(),
        ready(rem, i),
        closed_in(rem, ops),
    ensures
        closed_in(rem.remove(i), ops),
{
    let rest = rem.remove(i);
    assert forall|q: int, k2: int|
        0 <= q < rest.len() && 0 <= k2 < ops.len() && (#[trigger] ops[k2]).core.parents.contains((#[trigger] rest[q]).id)
            implies rest.contains(ops[k2]) by {
        let q0 = if q < i { q } else { q + 1 };
        assert(rest[q] == rem[q0]);
        assert(rem.contains(ops[k2]));
        let m = choose|m: int| 0 <= m < rem.len() && rem[m] == ops[k2];
        if m == i {
            assert(has_id(rem, rem[q0].id));
            assert(rem[i].core.parents.contains(rem[q0].id));
            assert(false);
        } else if m < i {
            assert(rest[m] == ops[k2]);
        } else {
            assert(rest[m - 1] == ops[k2]);
        }
    }
}

/// When `x` is not ready, the first ready operation is the one of `rem`.
proof fn lemma_pick_past(rem: Seq<EnvelopeView>, s: int, x: EnvelopeView, i: int)
    requires
        0 <= s <= rem.len(),
        0 <= i < rem.len(),
        forall|q: int| 0 <= q < rem.len() ==> !(#[trigger] rem[q]).core.parents.contains(x.id),
        ready(rem, i),
        forall|m: int| 0 <= m < i ==> !ready(rem, m),
        !ready(rem.insert(s, x), s),
    ensures
        first_ready_from(rem.insert(s, x), 0) == (if i < s { i } else { i + 1 }),
        rem.insert(s, x)[if i < s { i } else { i + 1 }] == rem[i],
        rem.insert(s, x).remove(if i < s { i } else { i + 1 }) == rem.remove(i).insert(if i < s { s - 1 } else { s }, x),
{
    let r = rem.insert(s, x);
    let i2 = if i < s { i } else { i + 1 };
    lemma_ready_insert(rem, s, x);
    assert forall|m: int| 0 <= m < i2 implies !ready(r, m) by {
        if m < s {
            assert(!ready(rem, m));
        } else if m > s {
            assert(!ready(rem, m - 1));
        }
    }
    assert(ready(r, i2));
    lemma_first_ready_least(r, 0, i2);
    assert(r.remove(i2) =~= rem.remove(i).insert(if i < s { s - 1 } else { s }, x));
}

/// An operation that names every head of the log, and that none names, is
/// taken last by the causal order of operations of a log listed parents
/// first, wherever it stands in the input.
#[verifier::rlimit(30)]
proof fn lemma_causal_last(rem: Seq<EnvelopeView>, s: int, x: EnvelopeView, ops: Seq<EnvelopeView>)
    requires
        0 <= s <= rem.len(),
        forall|q: int| 0 <= q < rem.len() ==> ops.contains(#[trigger] rem[q]),
        unique_ids(ops),
        parents_first(ops),
        closed_in(rem, ops),
        forall|q: int| 0 <= q < rem.len() && is_head(ops, rem[q].id) ==> x.core.parents.contains(#[trigger] rem[q].id),
        forall|q: int| 0 <= q < rem.len() ==> !(#[trigger] rem[q]).core.parents.contains(x.id),
    ensures
        causal_order(rem.insert(s, x)) == causal_order(rem).push(x),
    decreases rem.len(),
{
    let r = rem.insert(s, x);
    if rem.len() == 0 {
        assert(r =~= seq![x]);
        lemma_first_ready_in_range(r, 0);
        assert(first_ready_from(r, 0) == 0) by {
            if !ready(r, 0) {
                assert(first_ready_from(r, 1) == 0);
            }
        }
        assert(r.remove(0) =~= Seq::<EnvelopeView>::empty());
        assert(causal_order(r.remove(0)) == Seq::<EnvelopeView>::empty());
        assert(causal_order(r) == seq![r[0]] + causal_order(r.remove(0)));
        assert(causal_order(r) =~= seq![x]);
        assert(causal_order(rem) =~= Seq::<EnvelopeView>::empty());
    } else {
        lemma_some_ready(rem, ops, 0);
        let k = choose|j: int| 0 <= j < rem.len() && ready(rem, j);
        lemma_first_ready_found(rem, 0, k);
        let i = first_ready_from(rem, 0);
        let i2 = if i < s { i } else { i + 1 };
        let s2 = if i < s { s - 1 } else { s };
        assert(!ready(r, s)) by {
            lemma_ready_insert(rem, s, x);
            lemma_head_in(rem, ops, 0);
            let h = choose|h: int| 0 <= h < rem.len() && is_head(ops, #[trigger] rem[h].id);
            assert(x.core.parents.contains(rem[h].id));
            assert(has_id(rem, rem[h].id));
            assert(r[s] == x);
        }
        lemma_pick_past(rem, s, x, i);
        let rest = rem.remove(i);
        assert forall|q: int| 0 <= q < rest.len() implies ops.contains(#[trigger] rest[q])
            && (is_head(ops, rest[q].id) ==> x.core.parents.contains(rest[q].id))
            && !rest[q].core.parents.contains(x.id) by {
            if q < i {
                assert(rest[q] == rem[q]);
            } else {
                assert(rest[q] == rem[q + 1]);
            }
        }
        lemma_closed_rest(rem, ops, i);
        lemma_causal_last(rest, s2, x, ops);
        lemma_first_ready_in_range(rem, 0);
        assert(causal_order(r) == seq![rem[i]] + causal_order(rest).push(x));
        assert(causal_order(rem) == seq![rem[i]] + causal_order(rest));
        assert(causal_order(r) =~= causal_order(rem).push(x));
    }
}

/// An operation that follows every operation of a log listed parents first
/// comes last in the replay order of the log with it.
pub proof fn lemma_replay_order_last(ops: Seq<EnvelopeView>, x: EnvelopeView)
    requires
        unique_ids(ops),
        parents_first(ops),
        follows_all(ops, x),
    ensures
        replay_order(ops.push(x)) == replay_order(ops).push(x),
{
    let c = canonical(ops);
    lemma_canonical_props(ops);
    assert(ops.push(x).drop_last() =~= ops);
    assert(canonical(ops.push(x)) == sort_insert(c, x));
    let i = slot(ids_of(c), x.id);
    lemma_slot_props(ids_of(c), x.id);
    if i < c.len() && c[i].id == x.id {
        assert(c.contains(c[i]));
        assert(ops.contains(c[i]));
        assert(false);
    }
    assert(canonical(ops.push(x)) == c.insert(i, x));
    assert forall|q: int| 0 <= q < c.len() implies ops.contains(#[trigger] c[q])
        && (is_head(ops, c[q].id) ==> x.core.parents.contains(c[q].id))
        && !c[q].core.parents.contains(x.id) by {
        assert(c.contains(c[q]));
        assert(ops.contains(c[q]));
        let j = choose|j: int| 0 <= j < ops.len() && ops[j] == c[q];
        assert(ops[j] == c[q]);
        assert(!ops[j].core.parents.contains(x.id));
    }
    assert forall|q: int, k: int|
        0 <= q < c.len() && 0 <= k < ops.len() && (#[trigger] ops[k]).core.parents.contains((#[trigger] c[q]).id)
            implies c.contains(ops[k]) by {
        assert(has_id(c, ops[k].id));
        let m = choose|m: int| 0 <= m < c.len() && c[m].id == ops[k].id;
        assert(c.contains(c[m]));
        assert(ops.contains(c[m]));
        let w = choose|w: int| 0 <= w < ops.len() && ops[w] == c[m];
        assert(c[m] == ops[k]);
    }
    lemma_causal_last(c, i, x, ops);
}

proof fn lemma_first_ready_cases(rem: Seq<EnvelopeView>, from: int)
    requires
        0 <= from < rem.len(),
    ensures
        ({
            let f = first_ready_from(rem, from);
            ||| from <= f < rem.len() && ready(rem, f) && forall|m: int| from <= m < f ==> !ready(rem, m)
            ||| f == 0 && forall|m: int| from <= m < rem.len() ==> !ready(rem, m)
        }),
    decreases rem.len() - from,
{
    if !ready(rem, from) {
        assert(first_ready_from(rem, from) == first_ready_from(rem, from + 1));
        if from + 1 < rem.len() {
            lemma_first_ready_cases(rem, from + 1);
        } else {
            assert(first_ready_from(rem, from + 1) == 0);
        }
    }
}

pub proof fn lemma_causal_order_len(rem: Seq<EnvelopeView>)
    ensures
        causal_order(rem).len() == rem.len(),
    decreases rem.len(),
{
    if rem.len() > 0 {
        lemma_first_ready_in_range(rem, 0);
        lemma_causal_order_len(rem.remove(first_ready_from(rem, 0)));
    }
}

/// An operation that none of the others names as a parent keeps the causal
/// order of the others: it is taken at some point in between.
pub proof fn lemma_causal_sink(rem: Seq<EnvelopeView>, s: int, x: EnvelopeView) -> (t: int)
    requires
        0 <= s <= rem.len(),
        forall|q: int| 0 <= q < rem.len() ==> !(#[trigger] rem[q]).core.parents.contains(x.id),
    ensures
        0 <= t <= rem.len(),
        causal_order(rem.insert(s, x)) == causal_order(rem).insert(t, x),
    decreases rem.len(),
{
    lemma_causal_order_len(rem);
    let r = rem.insert(s, x);
    lemma_first_ready_in_range(r, 0);
    let i2 = first_ready_from(r, 0);
    assert(r[s] == x);
    if i2 == s {
        assert(r.remove(s) =~= rem);
        assert(causal_order(r) == seq![x] + causal_order(rem));
        assert(causal_order(r) =~= causal_order(rem).insert(0, x));
        0
    } else {
        let i = if i2 < s { i2 } else { i2 - 1 };
        let s2 = if i2 < s { s - 1 } else { s };
        assert(r[i2] == rem[i]);
        assert forall|p: Seq<char>| p != x.id implies has_id(r, p) == has_id(rem, p) by {
            if has_id(r, p) {
                let j = choose|j: int| 0 <= j < r.len() && r[j].id == p;
                if j < s {
                    assert(rem[j] == r[j]);
                } else if j > s {
                    assert(rem[j - 1] == r[j]);
                }
            }
            if has_id(rem, p) {
                let j = choose|j: int| 0 <= j < rem.len() && rem[j].id == p;
                if j < s {
                    assert(r[j] == rem[j]);
                } else {
                    assert(r[j + 1] == rem[j]);
                }
            }
        }
        assert forall|m: int| 0 <= m < rem.len() implies ready(rem, m) == ready(r, if m < s { m } else { m + 1 }) by {
            let m2 = if m < s { m } else { m + 1 };
            assert(r[m2] == rem[m]);
            assert(!rem[m].core.parents.contains(x.id));
        }
        lemma_first_ready_cases(r, 0);
        lemma_first_ready_in_range(rem, 0);
        if ready(r, i2) {
            assert forall|m: int| 0 <= m < i implies !ready(rem, m) by {
                let m2 = if m < s { m } else { m + 1 };
                assert(!ready(r, m2));
            }
            lemma_first_ready_least(rem, 0, i);
        } else {
            assert(i2 == 0 && i == 0);
            assert forall|m: int| 0 <= m < rem.len() implies !ready(rem, m) by {
                let m2 = if m < s { m } else { m + 1 };
                assert(!ready(r, m2));
            }
            lemma_first_ready_cases(rem, 0);
        }
        assert(first_ready_from(rem, 0) == i);
        let rest = rem.remove(i);
        assert(r.remove(i2) =~= rest.insert(s2, x));
        assert forall|q: int| 0 <= q < rest.len() implies !(#[trigger] rest[q]).core.parents.contains(x.id) by {
            if q < i {
                assert(rest[q] == rem[q]);
            } else {
                assert(rest[q] == rem[q + 1]);
            }
        }
        let t2 = lemma_causal_sink(rest, s2, x);
        assert(causal_order(r) == seq![rem[i]] + causal_order(rest).insert(t2, x));
        assert(causal_order(rem) == seq![rem[i]] + causal_order(rest));
        assert(causal_order(r) =~= causal_order(rem).insert(t2 + 1, x));
        t2 + 1
    }
}

/// Adding an operation that no operation of the log names as a parent
/// leaves the replay order of the others as it was: a repeated id changes
/// nothing, a new one is taken at some point in between.
pub proof fn lemma_replay_order_sink(ops: Seq<EnvelopeView>, x: EnvelopeView) -> (t: int)
    requires
        forall|j: int| 0 <= j < ops.len() ==> !(#[trigger] ops[j]).core.parents.contains(x.id),
    ensures
        has_id(ops, x.id) ==> replay_order(ops.push(x)) == replay_order(ops),
        !has_id(ops, x.id) ==> 0 <= t <= replay_order(ops).len() && replay_order(ops.push(x))
            == replay_order(ops).insert(t, x),
{
    let c = canonical(ops);
    lemma_canonical_props(ops);
    assert(ops.push(x).drop_last() =~= ops);
    assert(canonical(ops.push(x)) == sort_insert(c, x));
    let keys = ids_of(c);
    let i = slot(keys, x.id);
    lemma_slot_props(keys, x.id);
    lemma_causal_order_len(c);
    if has_id(ops, x.id) {
        let k = choose|k: int| 0 <= k < ops.len() && ops[k].id == x.id;
        assert(has_id(c, ops[k].id));
        let j = choose|j: int| 0 <= j < c.len() && c[j].id == x.id;
        assert(keys[j] == x.id);
        if j < i {
            lemma_key_lt_irreflexive(x.id);
        } else if j > i {
            assert(key_lt(c[i].id, c[j].id));
        }
        assert(sort_insert(c, x) == c);
        0
    } else {
        if i < c.len() && c[i].id == x.id {
            assert(c.contains(c[i]));
            assert(ops.contains(c[i]));
            assert(false);
        }
        assert(canonical(ops.push(x)) == c.insert(i, x));
        assert forall|q: int| 0 <= q < c.len() implies !(#[trigger] c[q]).core.parents.contains(x.id) by {
            assert(c.contains(c[q]));
            assert(ops.contains(c[q]));
            let j = choose|j: int| 0 <= j < ops.len() && ops[j] == c[q];
            assert(!ops[j].core.parents.contains(x.id));
        }
        lemma_causal_sink(c, i, x)
    }
}

} // verus!
