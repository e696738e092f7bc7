use vstd::prelude::*;
use crate::collection::{CollView, find_result, insert_outcome, scan, usable_index};
use crate::document::{
    DocView, UpdateOp, doc_get, doc_of_value, id_free, op_entries, op_name, run_op, step, then_op,
    update_result, value_of_doc,
};
use crate::error::DbError;
use crate::first::{first_index, is_first, lemma_first_exists, lemma_first_index, lemma_first_index_none};
use crate::index::{
    IndexType, IndexView, candidate_ids, doc_index, field_text, first_usable, index_add, index_key,
    index_remove, joined_text, pinned_value, resolve, without,
};
use crate::keytext::key_text;
use crate::path::{first_dot, path_get, path_set};
use crate::query::{cond_holds, conds_match, field_holds, op_holds, ops_hold, simple_equality};
use crate::value::{
    Json, key_index, lemma_key_index, lemma_key_missing, lemma_lookup_put, lemma_lookup_remove_key,
    lemma_put_put, lookup, put, remove_key,
};

verus! {

/// An update spec with the single operator `op` holding the single entry `(k, x)`.
pub open spec fn single_update(op: UpdateOp, k: Seq<char>, x: Json) -> Json {
    Json::Obj(seq![(op_name(op), Json::Obj(seq![(k, x)]))])
}

proof fn lemma_op_names_distinct()
    ensures
        forall|a: UpdateOp, b: UpdateOp| a != b ==> op_name(a) != op_name(b),
{
    reveal_strlit("$set");
    reveal_strlit("$unset");
    reveal_strlit("$inc");
    reveal_strlit("$push");
    reveal_strlit("$pull");
    assert("$set"@ != "$unset"@) by { assert("$set"@.len() != "$unset"@.len()); }
    assert("$set"@ != "$inc"@) by { assert("$set"@[1] != "$inc"@[1]); }
    assert("$set"@ != "$push"@) by { assert("$set"@.len() != "$push"@.len()); }
    assert("$set"@ != "$pull"@) by { assert("$set"@.len() != "$pull"@.len()); }
    assert("$unset"@ != "$inc"@) by { assert("$unset"@.len() != "$inc"@.len()); }
    assert("$unset"@ != "$push"@) by { assert("$unset"@.len() != "$push"@.len()); }
    assert("$unset"@ != "$pull"@) by { assert("$unset"@.len() != "$pull"@.len()); }
    assert("$inc"@ != "$push"@) by { assert("$inc"@.len() != "$push"@.len()); }
    assert("$inc"@ != "$pull"@) by { assert("$inc"@.len() != "$pull"@.len()); }
    assert("$push"@ != "$pull"@) by { assert("$push"@[3] != "$pull"@[3]); }
}

proof fn lemma_lookup_single<V>(k0: Seq<char>, v: V, k: Seq<char>)
    ensures
        lookup(seq![(k0, v)], k) == if k0 == k {
            Some(v)
        } else {
            None::<V>
        },
{
    let s = seq![(k0, v)];
    if k0 == k {
        lemma_key_index(s, k, 0);
    } else {
        lemma_key_missing(s, k);
    }
}

/// The entries that each operator of a single-operator spec applies.
proof fn lemma_single_entries(op: UpdateOp, k: Seq<char>, x: Json, other: UpdateOp)
    ensures
        op_entries(single_update(op, k, x)->Obj_0, other) == if other == op {
            seq![(k, x)]
        } else {
            Seq::<(Seq<char>, Json)>::empty()
        },
{
    lemma_op_names_distinct();
    lemma_lookup_single(op_name(op), Json::Obj(seq![(k, x)]), op_name(other));
}

/// Running a single-operator spec is running its one step.
proof fn lemma_single_update(f: Seq<(Seq<char>, Json)>, op: UpdateOp, k: Seq<char>, x: Json)
    ensures
        update_result(f, single_update(op, k, x)) == match step(op, f, k, x) {
            Ok(g) => (g, None::<DbError>),
            Err(e) => (f, Some(e)),
        },
{
    let u = single_update(op, k, x);
    let ue = u->Obj_0;
    lemma_single_entries(op, k, x, UpdateOp::SetField);
    lemma_single_entries(op, k, x, UpdateOp::Unset);
    lemma_single_entries(op, k, x, UpdateOp::Inc);
    lemma_single_entries(op, k, x, UpdateOp::Push);
    lemma_single_entries(op, k, x, UpdateOp::Pull);
    let es = seq![(k, x)];
    assert(es.drop_first() =~= Seq::<(Seq<char>, Json)>::empty());
    match step(op, f, k, x) {
        Ok(g) => {
            assert(run_op(op, g, Seq::<(Seq<char>, Json)>::empty()) == (g, None::<DbError>));
        },
        Err(e) => {},
    }
    assert(run_op(op, f, es) == match step(op, f, k, x) {
        Ok(g) => (g, None::<DbError>),
        Err(e) => (f, Some(e)),
    });
}

/// Any update operator aimed at `id` fails with `ReservedField` and leaves the entries as
/// they were.
pub proof fn law_id_is_reserved(f: Seq<(Seq<char>, Json)>, op: UpdateOp, x: Json)
    ensures
        update_result(f, single_update(op, "id"@, x)) == (f, Some(DbError::ReservedField)),
{
    lemma_single_update(f, op, "id"@, x);
}

proof fn lemma_get_after_set(s: Seq<(Seq<char>, Json)>, p: Seq<char>, v: Json)
    ensures
        path_get(path_set(s, p, v), p) == Some(v),
    decreases p.len(),
{
    let k = first_dot(p);
    if 0 <= k < p.len() {
        let head = p.subrange(0, k);
        let rest = p.subrange(k + 1, p.len() as int);
        let child = match lookup(s, head) {
            Some(Json::Obj(o)) => o,
            _ => Seq::empty(),
        };
        lemma_lookup_put(s, head, Json::Obj(path_set(child, rest, v)));
        lemma_get_after_set(child, rest, v);
    } else {
        lemma_lookup_put(s, p, v);
    }
}

/// `$set` of `v` at a path whose first segment is not `id`, then reading that path, gives `v`.
pub proof fn law_set_then_get(d: DocView, p: Seq<char>, v: Json)
    requires
        p != "id"@,
        crate::document::path_head(p) != "id"@,
    ensures
        doc_get(
            DocView { id: d.id, fields: update_result(d.fields, single_update(UpdateOp::SetField, p, v)).0 },
            p,
        ) == Some(v),
{
    lemma_single_update(d.fields, UpdateOp::SetField, p, v);
    lemma_get_after_set(d.fields, p, v);
}

/// `$unset` of a top-level field other than `id`, then reading that field, finds nothing.
/// The field name holds no `.` (a dotted read walks into objects, `$unset` does not), and the
/// document is well formed (its keys are distinct).
pub proof fn law_unset_then_get(d: DocView, k: Seq<char>, x: Json)
    requires
        k != "id"@,
        first_dot(k) == -1,
        crate::document::doc_wf(d),
    ensures
        doc_get(
            DocView { id: d.id, fields: update_result(d.fields, single_update(UpdateOp::Unset, k, x)).0 },
            k,
        ) is None,
{
    lemma_single_update(d.fields, UpdateOp::Unset, k, x);
    lemma_lookup_remove_key(d.fields, k);
}

/// `$inc` by `a` then by `b` gives what `$inc` by `a + b` gives, when the field is absent or
/// numeric and every sum fits a number.
pub proof fn law_inc_adds(f: Seq<(Seq<char>, Json)>, k: Seq<char>, a: int, b: int)
    requires
        k != "id"@,
        i64::MIN <= a <= i64::MAX,
        i64::MIN <= b <= i64::MAX,
        i64::MIN <= a + b <= i64::MAX,
        match lookup(f, k) {
            None => true,
            Some(Json::Num(c)) => i64::MIN <= c + a <= i64::MAX && i64::MIN <= c + a + b <= i64::MAX,
            _ => false,
        },
    ensures
        update_result(
            update_result(f, single_update(UpdateOp::Inc, k, Json::Num(a))).0,
            single_update(UpdateOp::Inc, k, Json::Num(b)),
        ) == update_result(f, single_update(UpdateOp::Inc, k, Json::Num(a + b))),
{
    let c = match lookup(f, k) {
        Some(Json::Num(c)) => c,
        _ => 0,
    };
    lemma_single_update(f, UpdateOp::Inc, k, Json::Num(a));
    lemma_single_update(f, UpdateOp::Inc, k, Json::Num(a + b));
    let g = put(f, k, Json::Num(c + a));
    lemma_lookup_put(f, k, Json::Num(c + a));
    lemma_single_update(g, UpdateOp::Inc, k, Json::Num(b));
    lemma_put_put(f, k, Json::Num(c + a), Json::Num(c + a + b));
    assert(c + a + b == c + (a + b));
}

/// A document inserted into a fresh collection is what a query on its identifier finds.
pub proof fn law_find_inserted_by_id(name: Seq<char>, d: DocView)
    requires
        d.id.len() > 0,
    ensures
        insert_outcome(
            CollView { name, docs: Seq::empty(), indexes: Seq::empty() },
            d,
        ) is Ok,
        find_result(
            insert_outcome(CollView { name, docs: Seq::empty(), indexes: Seq::empty() }, d)->Ok_0,
            seq![("id"@, Json::Str(d.id))],
        ) == seq![d],
{
    let c0 = CollView { name, docs: Seq::empty(), indexes: Seq::empty() };
    lemma_first_index_none(c0.docs, |x: DocView| x.id == d.id);
    let c = insert_outcome(c0, d)->Ok_0;
    assert(c.docs =~= seq![d]);
    assert(c.indexes =~= Seq::<crate::index::IndexView>::empty());
    let q = seq![("id"@, Json::Str(d.id))];
    lemma_first_index_none(c.indexes, |ix: crate::index::IndexView| crate::index::first_usable(ix.fields, q) >= 0);
    reveal_strlit("id");
    reveal_strlit("$and");
    reveal_strlit("$or");
    reveal_strlit("$not");
    assert("id"@ != "$and"@) by { assert("id"@.len() != "$and"@.len()); }
    assert("id"@ != "$or"@) by { assert("id"@[0] != "$or"@[0]); }
    assert("id"@ != "$not"@) by { assert("id"@.len() != "$not"@.len()); }
    assert(cond_holds("id"@, Json::Str(d.id), d));
    assert(q.subrange(1, 1) =~= Seq::<(Seq<char>, Json)>::empty());
    assert(conds_match(q.subrange(1, 1), d));
    assert(conds_match(q, d));
    assert(seq![d].drop_last() =~= Seq::<DocView>::empty());
    assert(scan(Seq::<DocView>::empty(), q) == Seq::<DocView>::empty());
    assert(scan(c.docs, q) =~= seq![d]);
}

/// In a collection with a unique index, a second document whose key equals that of a first,
/// freshly inserted one is refused. `Collection::insert` then leaves the collection and its
/// indexes as they were.
pub proof fn law_unique_refuses_second(c0: CollView, j: int, d1: DocView, d2: DocView)
    requires
        0 <= j < c0.indexes.len(),
        c0.indexes[j].kind == IndexType::Unique,
        insert_outcome(c0, d1) is Ok,
        index_key(c0.indexes[j].fields, d1) == index_key(c0.indexes[j].fields, d2),
    ensures
        insert_outcome(insert_outcome(c0, d1)->Ok_0, d2) is Err,
{
    let c1 = insert_outcome(c0, d1)->Ok_0;
    if d2.id.len() == 0 {
    } else if d2.id == d1.id {
        assert(c1.docs[c0.docs.len() as int] == d1);
        lemma_first_exists(c1.docs, |x: DocView| x.id == d2.id, c0.docs.len() as int);
    } else if first_index(c1.docs, |x: DocView| x.id == d2.id) >= 0 {
    } else {
        let ix = c0.indexes[j];
        let k = index_key(ix.fields, d1);
        assert(crate::collection::accepts(ix, d1));
        let es1 = c1.indexes[j].entries;
        assert(es1 == index_add(ix.kind, ix.entries, k, d1.id)->Ok_0);
        match lookup(ix.entries, k) {
            Some(ids) => {
                lemma_lookup_put(ix.entries, k, seq![d1.id]);
            },
            None => {
                crate::value::lemma_key_absent(ix.entries, k);
                assert(ix.entries.push((k, seq![d1.id])) == put(ix.entries, k, seq![d1.id]));
                lemma_lookup_put(ix.entries, k, seq![d1.id]);
            },
        }
        assert(lookup(es1, k) == Some(seq![d1.id]));
        assert(!crate::collection::accepts(c1.indexes[j], d2));
    }
}

/// The entries after recording each of `ids` under `key` in a multi index, in order.
pub open spec fn add_ids(es: Seq<(Seq<char>, Seq<Seq<char>>)>, key: Seq<char>, ids: Seq<Seq<char>>) -> Seq<
    (Seq<char>, Seq<Seq<char>>),
>
    decreases ids.len(),
{
    if ids.len() == 0 {
        es
    } else {
        index_add(IndexType::Multi, add_ids(es, key, ids.drop_last()), key, ids.last())->Ok_0
    }
}

/// The entries after dropping each of `ids` from `key` in a multi index, in order.
pub open spec fn remove_ids(es: Seq<(Seq<char>, Seq<Seq<char>>)>, key: Seq<char>, ids: Seq<Seq<char>>) -> Seq<
    (Seq<char>, Seq<Seq<char>>),
>
    decreases ids.len(),
{
    if ids.len() == 0 {
        es
    } else {
        index_remove(IndexType::Multi, remove_ids(es, key, ids.drop_last()), key, ids.last())
    }
}

/// At most one entry has key `k`.
pub open spec fn one_key<V>(s: Seq<(Seq<char>, V)>, k: Seq<char>) -> bool {
    forall|i: int, j: int| 0 <= i < s.len() && 0 <= j < s.len() && s[i].0 == k && s[j].0 == k ==> i == j
}

/// The identifiers under `k` are few enough for `bound`: none, or a non-empty list whose
/// every element `bound` holds.
pub open spec fn ids_within(es: Seq<(Seq<char>, Seq<Seq<char>>)>, k: Seq<char>, bound: Seq<Seq<char>>) -> bool {
    match lookup(es, k) {
        Some(l) => l.len() > 0 && forall|t: int| 0 <= t < l.len() ==> bound.contains(#[trigger] l[t]),
        None => true,
    }
}

proof fn lemma_one_key_put<V>(s: Seq<(Seq<char>, V)>, k: Seq<char>, v: V)
    requires
        one_key(s, k),
    ensures
        one_key(put(s, k, v), k),
{
    if key_index(s, k) < 0 {
        crate::value::lemma_key_absent(s, k);
    }
}

proof fn lemma_without(l: Seq<Seq<char>>, x: Seq<char>)
    ensures
        forall|t: int|
            0 <= t < without(l, x).len() ==> l.contains(#[trigger] without(l, x)[t]) && without(l, x)[t] != x,
    decreases l.len(),
{
    if l.len() > 0 {
        lemma_without(l.drop_last(), x);
        let pre = without(l.drop_last(), x);
        assert forall|t: int| 0 <= t < without(l, x).len() implies l.contains(#[trigger] without(l, x)[t])
            && without(l, x)[t] != x by {
            if t < pre.len() {
                assert(without(l, x)[t] == pre[t]);
                assert(l.drop_last().contains(pre[t]));
                let w = choose|w: int| 0 <= w < l.drop_last().len() && l.drop_last()[w] == pre[t];
                assert(l[w] == pre[t]);
            } else {
                assert(without(l, x)[t] == l.last());
                assert(l[l.len() - 1] == l.last());
            }
        }
    }
}

proof fn lemma_add_ids(es: Seq<(Seq<char>, Seq<Seq<char>>)>, k: Seq<char>, ids: Seq<Seq<char>>)
    requires
        lookup(es, k) is None,
    ensures
        one_key(add_ids(es, k, ids), k),
        ids_within(add_ids(es, k, ids), k, ids),
    decreases ids.len(),
{
    if ids.len() == 0 {
        crate::value::lemma_key_absent(es, k);
    } else {
        let pre = ids.drop_last();
        let x = ids.last();
        lemma_add_ids(es, k, pre);
        let a = add_ids(es, k, pre);
        assert forall|y: Seq<char>| pre.contains(y) implies ids.contains(y) by {
            let w = choose|w: int| 0 <= w < pre.len() && pre[w] == y;
            assert(ids[w] == y);
        }
        assert(ids.contains(x)) by {
            assert(ids[ids.len() - 1] == x);
        }
        match lookup(a, k) {
            Some(l) => {
                if !l.contains(x) {
                    lemma_one_key_put(a, k, l.push(x));
                    lemma_lookup_put(a, k, l.push(x));
                    let l2 = l.push(x);
                    assert forall|t: int| 0 <= t < l2.len() implies ids.contains(#[trigger] l2[t]) by {
                        if t < l.len() {
                            assert(l2[t] == l[t]);
                            assert(pre.contains(l[t]));
                        }
                    }
                } else {
                    assert forall|t: int| 0 <= t < l.len() implies ids.contains(#[trigger] l[t]) by {
                        assert(pre.contains(l[t]));
                    }
                }
            },
            None => {
                crate::value::lemma_key_absent(a, k);
                assert(a.push((k, seq![x])) == put(a, k, seq![x]));
                lemma_one_key_put(a, k, seq![x]);
                lemma_lookup_put(a, k, seq![x]);
            },
        }
    }
}

proof fn lemma_remove_prefix(b: Seq<(Seq<char>, Seq<Seq<char>>)>, k: Seq<char>, rs: Seq<Seq<char>>, m: int)
    requires
        0 <= m <= rs.len(),
        one_key(b, k),
        ids_within(b, k, rs),
    ensures
        one_key(remove_ids(b, k, rs.subrange(0, m)), k),
        ids_within(remove_ids(b, k, rs.subrange(0, m)), k, rs.subrange(m, rs.len() as int)),
    decreases m,
{
    if m == 0 {
        assert(rs.subrange(0, 0) =~= Seq::<Seq<char>>::empty());
        assert(rs.subrange(0, rs.len() as int) =~= rs);
    } else {
        lemma_remove_prefix(b, k, rs, m - 1);
        let r = remove_ids(b, k, rs.subrange(0, m - 1));
        let x = rs[m - 1];
        assert(rs.subrange(0, m).drop_last() =~= rs.subrange(0, m - 1));
        assert(rs.subrange(0, m).last() == x);
        let before = rs.subrange(m - 1, rs.len() as int);
        let after = rs.subrange(m, rs.len() as int);
        match lookup(r, k) {
            Some(l) => {
                let rest = without(l, x);
                lemma_without(l, x);
                if rest.len() == 0 {
                    lemma_lookup_remove_key(r, k);
                    crate::value::lemma_key_missing(remove_key(r, k), k);
                } else {
                    lemma_one_key_put(r, k, rest);
                    lemma_lookup_put(r, k, rest);
                    assert forall|t: int| 0 <= t < rest.len() implies after.contains(#[trigger] rest[t]) by {
                        let y = rest[t];
                        assert(l.contains(y));
                        let w = choose|w: int| 0 <= w < l.len() && l[w] == y;
                        assert(before.contains(l[w]));
                        let u = choose|u: int| 0 <= u < before.len() && before[u] == y;
                        assert(u != 0);
                        assert(after[u - 1] == y);
                    }
                }
            },
            None => {},
        }
    }
}

/// In a multi index, recording the identifiers `ids` under a key it did not hold and then
/// dropping them all again leaves the key out of the index: no empty entry stays behind.
pub proof fn law_multi_remove_all(es: Seq<(Seq<char>, Seq<Seq<char>>)>, key: Seq<char>, ids: Seq<Seq<char>>)
    requires
        lookup(es, key) is None,
    ensures
        lookup(remove_ids(add_ids(es, key, ids), key, ids), key) is None,
{
    lemma_add_ids(es, key, ids);
    lemma_remove_prefix(add_ids(es, key, ids), key, ids, ids.len() as int);
    assert(ids.subrange(0, ids.len() as int) =~= ids);
    let r = remove_ids(add_ids(es, key, ids), key, ids);
    match lookup(r, key) {
        Some(l) => {
            assert(ids.subrange(ids.len() as int, ids.len() as int).contains(l[0]));
        },
        None => {},
    }
}

/// A well-formed document turned into its structured value and read back is the same
/// document.
pub proof fn law_document_round_trip(d: DocView)
    requires
        crate::document::doc_wf(d),
    ensures
        doc_of_value(value_of_doc(d)) == Ok::<DocView, DbError>(d),
{
    let es = seq![("id"@, Json::Str(d.id))] + d.fields;
    assert forall|a: int, b: int| 0 <= a < es.len() && 0 <= b < es.len() && es[a].0 == es[b].0 implies a == b by {
        if a > 0 && b > 0 {
            assert(es[a] == d.fields[a - 1] && es[b] == d.fields[b - 1]);
        } else if a > 0 {
            assert(es[a] == d.fields[a - 1]);
        } else if b > 0 {
            assert(es[b] == d.fields[b - 1]);
        }
    }
    lemma_key_index(es, "id"@, 0);
    assert(es.remove(0) =~= d.fields);
}

/// `x` is recorded under the key `k`.
pub open spec fn recorded(es: Seq<(Seq<char>, Seq<Seq<char>>)>, k: Seq<char>, x: Seq<char>) -> bool {
    match lookup(es, k) {
        Some(l) => l.contains(x),
        None => false,
    }
}

/// The index records exactly the documents: every recorded identifier names a document with
/// that key, and every document is recorded under its key.
pub open spec fn index_exact(ix: IndexView, docs: Seq<DocView>) -> bool {
    &&& forall|k: Seq<char>, x: Seq<char>|
        #[trigger] recorded(ix.entries, k, x) ==> exists|i: int|
            0 <= i < docs.len() && docs[i].id == x && index_key(ix.fields, docs[i]) == k
    &&& forall|i: int|
        0 <= i < docs.len() ==> recorded(ix.entries, index_key(ix.fields, #[trigger] docs[i]), docs[i].id)
}

/// No two documents share an identifier.
pub open spec fn ids_distinct(docs: Seq<DocView>) -> bool {
    forall|i: int, j: int| 0 <= i < docs.len() && 0 <= j < docs.len() && docs[i].id == docs[j].id ==> i == j
}

proof fn lemma_same_multiset(s: Seq<DocView>, t: Seq<DocView>)
    requires
        s.no_duplicates(),
        t.no_duplicates(),
        forall|d: DocView| s.contains(d) <==> t.contains(d),
    ensures
        s.to_multiset() == t.to_multiset(),
{
    broadcast use vstd::seq_lib::group_to_multiset_ensures;
    s.lemma_multiset_has_no_duplicates();
    t.lemma_multiset_has_no_duplicates();
    assert(s.to_multiset() =~= t.to_multiset());
}

proof fn lemma_scan_distinct(docs: Seq<DocView>, q: Seq<(Seq<char>, Json)>)
    requires
        ids_distinct(docs),
    ensures
        scan(docs, q).no_duplicates(),
    decreases docs.len(),
{
    if docs.len() > 0 {
        let pre = docs.drop_last();
        assert forall|i: int, j: int|
            0 <= i < pre.len() && 0 <= j < pre.len() && pre[i].id == pre[j].id implies i == j by {
            assert(pre[i] == docs[i] && pre[j] == docs[j]);
        }
        lemma_scan_distinct(pre, q);
        lemma_scan_members(pre, q);
        let sp = scan(pre, q);
        let last = docs[docs.len() - 1];
        if conds_match(q, docs.last()) {
            assert(docs.last() == last);
            assert(!sp.contains(last)) by {
                if sp.contains(last) {
                    let i = choose|i: int| 0 <= i < pre.len() && pre[i] == last && conds_match(q, last);
                    assert(docs[i] == last);
                }
            }
            assert forall|a: int, b: int| 0 <= a < sp.len() + 1 && 0 <= b < sp.len() + 1 && a != b implies
                #[trigger] sp.push(last)[a] != #[trigger] sp.push(last)[b] by {
                if a == sp.len() {
                    assert(sp.contains(sp[b]));
                } else if b == sp.len() {
                    assert(sp.contains(sp[a]));
                }
            }
        }
    }
}

proof fn lemma_resolve_distinct(ids: Seq<Seq<char>>, docs: Seq<DocView>, q: Seq<(Seq<char>, Json)>)
    requires
        ids.no_duplicates(),
    ensures
        resolve(ids, docs, q).no_duplicates(),
        forall|t: int| 0 <= t < resolve(ids, docs, q).len() ==> ids.contains(#[trigger] resolve(ids, docs, q)[t].id),
    decreases ids.len(),
{
    if ids.len() > 0 {
        let pre = ids.drop_last();
        let x = ids.last();
        lemma_resolve_distinct(pre, docs, q);
        let rp = resolve(pre, docs, q);
        let i = doc_index(docs, x);
        assert(ids[ids.len() - 1] == x);
        assert forall|t: int| 0 <= t < rp.len() implies ids.contains(#[trigger] rp[t].id) && rp[t].id != x by {
            assert(pre.contains(rp[t].id));
            let u = choose|u: int| 0 <= u < pre.len() && pre[u] == rp[t].id;
            assert(ids[u] == rp[t].id);
        }
        if i >= 0 && conds_match(q, docs[i]) {
            assert(is_first(docs, |d: DocView| d.id == x, i));
            let r = rp.push(docs[i]);
            assert forall|a: int, b: int| 0 <= a < r.len() && 0 <= b < r.len() && a != b implies
                #[trigger] r[a] != #[trigger] r[b] by {
                if a == rp.len() {
                    assert(rp[b].id != x);
                } else if b == rp.len() {
                    assert(rp[a].id != x);
                }
            }
        }
    }
}

proof fn lemma_conds_each(cs: Seq<(Seq<char>, Json)>, d: DocView, t: int)
    requires
        conds_match(cs, d),
        0 <= t < cs.len(),
    ensures
        cond_holds(cs[t].0, cs[t].1, d),
    decreases t,
{
    if t > 0 {
        let rest = cs.subrange(1, cs.len() as int);
        lemma_conds_each(rest, d, t - 1);
        assert(rest[t - 1] == cs[t]);
    }
}

proof fn lemma_scan_members(docs: Seq<DocView>, q: Seq<(Seq<char>, Json)>)
    ensures
        forall|d: DocView| scan(docs, q).contains(d) <==> exists|i: int|
            0 <= i < docs.len() && docs[i] == d && conds_match(q, d),
    decreases docs.len(),
{
    if docs.len() > 0 {
        let pre = docs.drop_last();
        let last = docs[docs.len() - 1];
        assert(docs.last() == last);
        lemma_scan_members(pre, q);
        let sp = scan(pre, q);
        let sd = scan(docs, q);
        if conds_match(q, last) {
            assert(sd == sp.push(last));
        } else {
            assert(sd == sp);
        }
        assert forall|d: DocView| sd.contains(d) <==> exists|i: int|
            0 <= i < docs.len() && docs[i] == d && conds_match(q, d) by {
            if sd.contains(d) {
                let w = choose|w: int| 0 <= w < sd.len() && sd[w] == d;
                if w < sp.len() {
                    assert(sp[w] == d);
                    assert(sp.contains(d));
                    let i = choose|i: int| 0 <= i < pre.len() && pre[i] == d && conds_match(q, d);
                    assert(docs[i] == d);
                } else {
                    assert(d == last);
                }
            }
            if exists|i: int| 0 <= i < docs.len() && docs[i] == d && conds_match(q, d) {
                let i = choose|i: int| 0 <= i < docs.len() && docs[i] == d && conds_match(q, d);
                if i < docs.len() - 1 {
                    assert(pre[i] == d);
                    assert(sp.contains(d));
                    let w = choose|w: int| 0 <= w < sp.len() && sp[w] == d;
                    assert(sd[w] == d);
                } else {
                    assert(sd[sd.len() - 1] == d);
                }
            }
        }
    }
}

proof fn lemma_resolve_members(ids: Seq<Seq<char>>, docs: Seq<DocView>, q: Seq<(Seq<char>, Json)>)
    ensures
        forall|d: DocView| #[trigger] resolve(ids, docs, q).contains(d) ==> exists|i: int|
            0 <= i < docs.len() && docs[i] == d && conds_match(q, d),
        forall|x: Seq<char>|
            ids.contains(x) && doc_index(docs, x) >= 0 && conds_match(q, docs[doc_index(docs, x)])
                ==> #[trigger] resolve(ids, docs, q).contains(docs[doc_index(docs, x)]),
    decreases ids.len(),
{
    if ids.len() > 0 {
        let pre = ids.drop_last();
        lemma_resolve_members(pre, docs, q);
        let r = resolve(ids, docs, q);
        let rp = resolve(pre, docs, q);
        let i = doc_index(docs, ids.last());
        if i >= 0 {
            assert(is_first(docs, |d: DocView| d.id == ids.last(), i));
        }
        assert forall|d: DocView| #[trigger] r.contains(d) implies exists|k: int|
            0 <= k < docs.len() && docs[k] == d && conds_match(q, d) by {
            let w = choose|w: int| 0 <= w < r.len() && r[w] == d;
            if w < rp.len() {
                assert(rp[w] == d);
                assert(rp.contains(d));
            }
        }
        assert forall|x: Seq<char>|
            ids.contains(x) && doc_index(docs, x) >= 0 && conds_match(q, docs[doc_index(docs, x)])
                implies #[trigger] r.contains(docs[doc_index(docs, x)]) by {
            let w = choose|w: int| 0 <= w < ids.len() && ids[w] == x;
            if w < ids.len() - 1 {
                assert(pre[w] == x);
                assert(rp.contains(docs[doc_index(docs, x)]));
                let v = choose|v: int| 0 <= v < rp.len() && rp[v] == docs[doc_index(docs, x)];
                assert(r[v] == rp[v]);
            } else {
                assert(r[r.len() - 1] == docs[doc_index(docs, x)]);
            }
        }
    }
}

/// The documents that an index offers for `q`, once matched against `q`, are the ones that a
/// scan finds, each as often, when the index is shaped and exact, identifiers are distinct,
/// the index is over one field whose name is not `$and`, `$or` or `$not`, and `q` pins that
/// field to a value that is neither an array nor an object. (Only the order may differ: a scan
/// keeps the collection's order, an index the order of the identifiers under the key.)
pub proof fn law_index_path_matches_scan(ix: IndexView, docs: Seq<DocView>, q: Seq<(Seq<char>, Json)>)
    requires
        ids_distinct(docs),
        crate::exact::index_shaped(ix),
        first_usable(ix.fields, q) >= 0,
        index_exact(ix, docs),
        ix.fields.len() == 1,
        ix.fields[0] != "$and"@,
        ix.fields[0] != "$or"@,
        ix.fields[0] != "$not"@,
        crate::index::is_scalar(pinned_value(q, ix.fields[0])->0),
    ensures
        resolve(candidate_ids(ix, q), docs, q).to_multiset() == scan(docs, q).to_multiset(),
{
    let f = ix.fields[0];
    let pf = |g: Seq<char>| pinned_value(q, g) is Some;
    assert(is_first(ix.fields, pf, first_usable(ix.fields, q)));
    assert(first_usable(ix.fields, q) == 0);
    let v = pinned_value(q, f)->0;
    let key = key_text(v);
    assert(candidate_ids(ix, q) == match lookup(ix.entries, key) {
        Some(ids) => ids,
        None => Seq::<Seq<char>>::empty(),
    });
    let cands = candidate_ids(ix, q);
    lemma_scan_members(docs, q);
    lemma_resolve_members(cands, docs, q);
    assert forall|d: DocView| resolve(cands, docs, q).contains(d) <==> scan(docs, q).contains(d) by {
        if scan(docs, q).contains(d) {
            let i = choose|i: int| 0 <= i < docs.len() && docs[i] == d && conds_match(q, d);
            // the document holds the pinned value at the indexed field
            let t0 = key_index(q, f);
            let w = lookup(q, f)->0;
            assert(q[t0].0 == f && q[t0].1 == w);
            lemma_conds_each(q, d, t0);
            assert(cond_holds(f, w, d));
            assert(field_holds(doc_get(d, f), w));
            if simple_equality(q, f) {
                assert(crate::query::holds_value(doc_get(d, f), v));
                assert(doc_get(d, f) == Some(v));
            } else {
                let o = w->Obj_0;
                let t1 = key_index(o, "$eq"@);
                assert(o[t1].0 == "$eq"@ && o[t1].1 == v);
                assert(ops_hold(o, doc_get(d, f)));
                assert(op_holds(o[t1].0, o[t1].1, doc_get(d, f)));
                assert(crate::query::holds_value(doc_get(d, f), v));
                assert(doc_get(d, f) == Some(v));
            }
            assert(ix.fields.drop_last() =~= Seq::<Seq<char>>::empty());
            assert(joined_text(ix.fields.drop_last(), d) == Seq::<char>::empty());
            assert(ix.fields.last() == f);
            assert(joined_text(ix.fields, d) =~= field_text(d, f));
            assert(index_key(ix.fields, d) == key);
            assert(recorded(ix.entries, index_key(ix.fields, docs[i]), docs[i].id));
            let l = lookup(ix.entries, key)->0;
            assert(cands == l);
            assert(l.contains(d.id));
            let px = |e: DocView| e.id == d.id;
            assert(is_first(docs, px, i));
            lemma_first_index(docs, px, i);
            assert(doc_index(docs, d.id) == i);
            assert(resolve(cands, docs, q).contains(docs[doc_index(docs, d.id)]));
        }
        if resolve(cands, docs, q).contains(d) {
            assert(resolve(cands, docs, q).contains(d));
        }
    }
    lemma_scan_distinct(docs, q);
    let ids = candidate_ids(ix, q);
    match lookup(ix.entries, key) {
        Some(l) => {
            let t = key_index(ix.entries, key);
            assert(crate::value::is_first_key(ix.entries, key, t));
            assert(ix.entries[t].1.no_duplicates());
        },
        None => {},
    }
    lemma_resolve_distinct(ids, docs, q);
    lemma_same_multiset(resolve(ids, docs, q), scan(docs, q));
}

proof fn lemma_run_op_stops_at_id(op: UpdateOp, f: Seq<(Seq<char>, Json)>, es: Seq<(Seq<char>, Json)>, t: int)
    requires
        0 <= t < es.len(),
        es[t].0 == "id"@,
    ensures
        run_op(op, f, es).1 is Some,
    decreases t,
{
    if t > 0 {
        if let Ok(g) = step(op, f, es[0].0, es[0].1) {
            assert(es.drop_first()[t - 1] == es[t]);
            lemma_run_op_stops_at_id(op, g, es.drop_first(), t - 1);
        }
    }
}

/// An update spec one of whose operators names `id` among its entries fails: the run stops
/// with an error at that entry or earlier.
pub proof fn law_update_naming_id_fails(f: Seq<(Seq<char>, Json)>, ue: Seq<(Seq<char>, Json)>, op: UpdateOp, t: int)
    requires
        0 <= t < op_entries(ue, op).len(),
        op_entries(ue, op)[t].0 == "id"@,
    ensures
        update_result(f, Json::Obj(ue)).1 is Some,
{
    let r1 = run_op(UpdateOp::SetField, f, op_entries(ue, UpdateOp::SetField));
    let r2 = then_op(r1, UpdateOp::Unset, ue);
    let r3 = then_op(r2, UpdateOp::Inc, ue);
    let r4 = then_op(r3, UpdateOp::Push, ue);
    match op {
        UpdateOp::SetField => lemma_run_op_stops_at_id(op, f, op_entries(ue, op), t),
        UpdateOp::Unset => if r1.1 is None { lemma_run_op_stops_at_id(op, r1.0, op_entries(ue, op), t) },
        UpdateOp::Inc => if r2.1 is None { lemma_run_op_stops_at_id(op, r2.0, op_entries(ue, op), t) },
        UpdateOp::Push => if r3.1 is None { lemma_run_op_stops_at_id(op, r3.0, op_entries(ue, op), t) },
        UpdateOp::Pull => if r4.1 is None { lemma_run_op_stops_at_id(op, r4.0, op_entries(ue, op), t) },
    }
}

} // verus!
