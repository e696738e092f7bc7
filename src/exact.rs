use vstd::prelude::*;
use crate::collection::{
    CollView, accepts, added, backfill, drop_matching, find_result, insert_outcome, install, keep,
    rebuilt, reload_outcome, removed, scan, update_at, update_upto, usable_index, with_entries,
};
use crate::document::{DocView, update_result};
use crate::first::{first_index, is_first, lemma_first_exists};
use crate::index::{IndexType, IndexView, first_usable, index_add, index_key, index_remove, without};
use crate::laws::{ids_distinct, index_exact, law_index_path_matches_scan, recorded};
use crate::query::conds_match;
use crate::value::{
    Json, is_first_key, key_index, lemma_key_absent, lemma_key_index, lemma_key_missing, lookup, put,
    remove_key,
};

verus! {

/// No two entries share a key.
pub open spec fn keys_distinct<V>(s: Seq<(Seq<char>, V)>) -> bool {
    forall|i: int, j: int| 0 <= i < s.len() && 0 <= j < s.len() && s[i].0 == s[j].0 ==> i == j
}

/// The shape that an index of its kind keeps: distinct keys, non-empty identifier lists
/// without repeats, and one identifier per key unless the index is a multi index.
pub open spec fn index_shaped(ix: IndexView) -> bool {
    &&& keys_distinct(ix.entries)
    &&& crate::index::entries_wf(ix.entries)
    &&& ix.kind != IndexType::Multi ==> forall|i: int|
        0 <= i < ix.entries.len() ==> #[trigger] ix.entries[i].1.len() == 1
    &&& forall|i: int| 0 <= i < ix.entries.len() ==> (#[trigger] ix.entries[i].1).no_duplicates()
}

/// Identifiers are distinct, every index is shaped, and every unique or multi index records
/// exactly the documents.
pub open spec fn coll_exact(c: CollView) -> bool {
    &&& ids_distinct(c.docs)
    &&& all_exact(c.indexes, c.docs)
}

proof fn lemma_lookup_other_put<V>(s: Seq<(Seq<char>, V)>, k: Seq<char>, v: V, k2: Seq<char>)
    requires
        k2 != k,
    ensures
        lookup(put(s, k, v), k2) == lookup(s, k2),
{
    let t = put(s, k, v);
    let i = key_index(s, k2);
    if i >= 0 {
        assert(is_first_key(s, k2, i));
        assert(is_first_key(t, k2, i));
        lemma_key_index(t, k2, i);
    } else {
        lemma_key_absent(s, k2);
        lemma_key_missing(t, k2);
    }
}

proof fn lemma_lookup_other_remove<V>(s: Seq<(Seq<char>, V)>, k: Seq<char>, k2: Seq<char>)
    requires
        k2 != k,
    ensures
        lookup(remove_key(s, k), k2) == lookup(s, k2),
{
    let t = remove_key(s, k);
    let r = key_index(s, k);
    let i = key_index(s, k2);
    if r >= 0 {
        assert(is_first_key(s, k, r));
        if i >= 0 {
            assert(is_first_key(s, k2, i));
            let i2 = if i < r { i } else { i - 1 };
            assert(i != r);
            assert(t[i2] == s[i]);
            assert forall|j: int| 0 <= j < i2 implies #[trigger] t[j].0 != k2 by {
                if j < r {
                    assert(t[j] == s[j]);
                } else {
                    assert(t[j] == s[j + 1]);
                }
            }
            assert(is_first_key(t, k2, i2));
            lemma_key_index(t, k2, i2);
        } else {
            lemma_key_absent(s, k2);
            assert forall|j: int| 0 <= j < t.len() implies t[j].0 != k2 by {
                if j < r {
                    assert(t[j] == s[j]);
                } else {
                    assert(t[j] == s[j + 1]);
                }
            }
            lemma_key_missing(t, k2);
        }
    }
}

pub proof fn lemma_keys_distinct_put<V>(s: Seq<(Seq<char>, V)>, k: Seq<char>, v: V)
    requires
        keys_distinct(s),
    ensures
        keys_distinct(put(s, k, v)),
{
    if key_index(s, k) < 0 {
        lemma_key_absent(s, k);
    }
}

pub proof fn lemma_keys_distinct_remove<V>(s: Seq<(Seq<char>, V)>, k: Seq<char>)
    requires
        keys_distinct(s),
    ensures
        keys_distinct(remove_key(s, k)),
        forall|j: int| 0 <= j < remove_key(s, k).len() ==> remove_key(s, k)[j].0 != k,
{
    let r = key_index(s, k);
    if r >= 0 {
        assert(is_first_key(s, k, r));
        let t = remove_key(s, k);
        assert forall|a: int, b: int| 0 <= a < t.len() && 0 <= b < t.len() && t[a].0 == t[b].0 implies a == b by {
            let a2 = if a < r { a } else { a + 1 };
            let b2 = if b < r { b } else { b + 1 };
            assert(t[a] == s[a2]);
            assert(t[b] == s[b2]);
        }
        assert forall|j: int| 0 <= j < t.len() implies t[j].0 != k by {
            let j2 = if j < r { j } else { j + 1 };
            assert(t[j] == s[j2]);
        }
    } else {
        lemma_key_absent(s, k);
    }
}

proof fn lemma_without_distinct(l: Seq<Seq<char>>, x: Seq<char>)
    requires
        l.no_duplicates(),
    ensures
        without(l, x).no_duplicates(),
    decreases l.len(),
{
    if l.len() > 0 {
        let pre = l.drop_last();
        lemma_without_distinct(pre, x);
        if l.last() != x {
            lemma_without_contains(pre, x, l.last());
            let w = without(pre, x);
            assert forall|a: int, b: int| 0 <= a < w.len() + 1 && 0 <= b < w.len() + 1 && a != b implies
                #[trigger] w.push(l.last())[a] != #[trigger] w.push(l.last())[b] by {
                if a == w.len() {
                    assert(w.contains(w[b]));
                    lemma_without_contains(pre, x, w[b]);
                    assert(pre.contains(w[b]));
                    let u = choose|u: int| 0 <= u < pre.len() && pre[u] == w[b];
                    assert(l[u] == pre[u]);
                    assert(l[l.len() - 1] == l.last());
                } else if b == w.len() {
                    assert(w.contains(w[a]));
                    lemma_without_contains(pre, x, w[a]);
                    assert(pre.contains(w[a]));
                    let u = choose|u: int| 0 <= u < pre.len() && pre[u] == w[a];
                    assert(l[u] == pre[u]);
                    assert(l[l.len() - 1] == l.last());
                }
            }
            assert(without(l, x) == w.push(l.last()));
        }
    }
}

proof fn lemma_without_contains(l: Seq<Seq<char>>, x: Seq<char>, y: Seq<char>)
    ensures
        without(l, x).contains(y) <==> (l.contains(y) && y != x),
    decreases l.len(),
{
    if l.len() > 0 {
        let pre = l.drop_last();
        lemma_without_contains(pre, x, y);
        let w = without(l, x);
        let wp = without(pre, x);
        if l.last() == x {
            assert(w == wp);
        } else {
            assert(w == wp.push(l.last()));
        }
        if w.contains(y) {
            let t = choose|t: int| 0 <= t < w.len() && w[t] == y;
            if t < wp.len() {
                assert(wp[t] == y);
                assert(wp.contains(y));
                let u = choose|u: int| 0 <= u < pre.len() && pre[u] == y;
                assert(l[u] == y);
            } else {
                assert(l[l.len() - 1] == y);
            }
        }
        if l.contains(y) && y != x {
            let u = choose|u: int| 0 <= u < l.len() && l[u] == y;
            if u < l.len() - 1 {
                assert(pre[u] == y);
                assert(wp.contains(y));
                let t = choose|t: int| 0 <= t < wp.len() && wp[t] == y;
                assert(w[t] == y);
            } else {
                assert(w[w.len() - 1] == y);
            }
        }
    }
}

/// Recording `x` under `k` keeps an index shaped; in a unique or multi index it adds exactly
/// that association.
pub proof fn lemma_add_recorded(ix: IndexView, k: Seq<char>, x: Seq<char>)
    requires
        index_shaped(ix),
        index_add(ix.kind, ix.entries, k, x) is Ok,
    ensures
        index_shaped(IndexView { entries: index_add(ix.kind, ix.entries, k, x)->Ok_0, ..ix }),
        ix.kind != IndexType::Single ==> forall|k2: Seq<char>, x2: Seq<char>|
            #[trigger] recorded(index_add(ix.kind, ix.entries, k, x)->Ok_0, k2, x2) <==> (recorded(
                ix.entries,
                k2,
                x2,
            ) || (k2 == k && x2 == x)),
{
    let es = ix.entries;
    let es2 = index_add(ix.kind, es, k, x)->Ok_0;
    match lookup(es, k) {
        Some(ids) => {
            let i = key_index(es, k);
            assert(is_first_key(es, k, i));
            let nl = if ix.kind == IndexType::Multi {
                if ids.contains(x) { ids } else { ids.push(x) }
            } else {
                seq![x]
            };
            if ix.kind == IndexType::Multi && ids.contains(x) {
                assert(es2 == es);
            } else {
                assert(es2 == put(es, k, nl));
                crate::value::lemma_lookup_put(es, k, nl);
                lemma_keys_distinct_put(es, k, nl);
                if ix.kind == IndexType::Unique {
                    assert(ids.len() == 1);
                    assert(ids[0] == x);
                    assert(ids =~= seq![x]);
                }
                assert forall|k2: Seq<char>, x2: Seq<char>| ix.kind != IndexType::Single implies (#[trigger] recorded(es2, k2, x2) <==> (recorded(es, k2, x2) || (k2 == k && x2 == x))) by {
                    if k2 != k {
                        lemma_lookup_other_put(es, k, nl, k2);
                    } else {
                        if ix.kind == IndexType::Multi {
                            if ids.contains(x2) {
                                let t = choose|t: int| 0 <= t < ids.len() && ids[t] == x2;
                                assert(nl[t] == x2);
                            }
                            if nl.contains(x2) && x2 != x {
                                let t = choose|t: int| 0 <= t < nl.len() && nl[t] == x2;
                                assert(ids[t] == x2);
                            }
                            assert(nl[nl.len() - 1] == x);
                        } else {
                            assert(nl[0] == x);
                        }
                    }
                }
                assert forall|t: int| 0 <= t < es2.len() && ix.kind != IndexType::Multi implies #[trigger] es2[t].1.len() == 1 by {
                    if t != i {
                        assert(es2[t] == es[t]);
                    }
                }
                assert forall|t: int| 0 <= t < es2.len() implies #[trigger] es2[t].1.len() > 0 by {
                    if t != i {
                        assert(es2[t] == es[t]);
                    }
                }
            }
        },
        None => {
            lemma_key_absent(es, k);
            assert(es2 == es.push((k, seq![x])));
            assert(es2 == put(es, k, seq![x]));
            crate::value::lemma_lookup_put(es, k, seq![x]);
            lemma_keys_distinct_put(es, k, seq![x]);
            assert forall|k2: Seq<char>, x2: Seq<char>| ix.kind != IndexType::Single implies (#[trigger] recorded(es2, k2, x2) <==> (recorded(es, k2, x2) || (k2 == k && x2 == x))) by {
                if k2 != k {
                    lemma_lookup_other_put(es, k, seq![x], k2);
                } else {
                    assert(seq![x][0] == x);
                }
            }
            assert forall|t: int| 0 <= t < es2.len() && ix.kind != IndexType::Multi implies #[trigger] es2[t].1.len() == 1 by {
                if t < es.len() {
                    assert(es2[t] == es[t]);
                }
            }
            assert forall|t: int| 0 <= t < es2.len() implies #[trigger] es2[t].1.len() > 0 by {
                if t < es.len() {
                    assert(es2[t] == es[t]);
                }
            }
        },
    }
}

/// Dropping `x` from `k` in a shaped index keeps it shaped and removes exactly that
/// association.
pub proof fn lemma_remove_recorded(ix: IndexView, k: Seq<char>, x: Seq<char>)
    requires
        index_shaped(ix),
    ensures
        index_shaped(IndexView { entries: index_remove(ix.kind, ix.entries, k, x), ..ix }),
        forall|k2: Seq<char>, x2: Seq<char>|
            #[trigger] recorded(index_remove(ix.kind, ix.entries, k, x), k2, x2) <==> (recorded(
                ix.entries,
                k2,
                x2,
            ) && !(k2 == k && x2 == x)),
{
    let es = ix.entries;
    let es2 = index_remove(ix.kind, es, k, x);
    match lookup(es, k) {
        Some(ids) => {
            let i = key_index(es, k);
            assert(is_first_key(es, k, i));
            let rest = without(ids, x);
            let drop = if ix.kind == IndexType::Multi { rest.len() == 0 } else { ids[0] == x };
            if drop {
                assert(es2 == remove_key(es, k));
                lemma_keys_distinct_remove(es, k);
                crate::value::lemma_lookup_remove_key(es, k);
                assert forall|k2: Seq<char>, x2: Seq<char>|
                    #[trigger] recorded(es2, k2, x2) <==> (recorded(es, k2, x2) && !(k2 == k && x2 == x)) by {
                    if k2 != k {
                        lemma_lookup_other_remove(es, k, k2);
                    } else {
                        if ix.kind == IndexType::Multi {
                            lemma_without_contains(ids, x, x2);
                            if ids.contains(x2) && x2 != x {
                                assert(rest.contains(x2));
                                assert(rest.len() > 0);
                            }
                        } else {
                            assert(ids.len() == 1);
                            if ids.contains(x2) {
                                let t = choose|t: int| 0 <= t < ids.len() && ids[t] == x2;
                                assert(t == 0);
                            }
                        }
                    }
                }
                let t2 = remove_key(es, k);
                assert forall|t: int| 0 <= t < t2.len() && ix.kind != IndexType::Multi implies #[trigger] t2[t].1.len() == 1 by {
                    let t3 = if t < i { t } else { t + 1 };
                    assert(t2[t] == es[t3]);
                }
                assert forall|t: int| 0 <= t < t2.len() implies #[trigger] t2[t].1.len() > 0 by {
                    let t3 = if t < i { t } else { t + 1 };
                    assert(t2[t] == es[t3]);
                }
                assert forall|t: int| 0 <= t < t2.len() implies (#[trigger] t2[t].1).no_duplicates() by {
                    let t3 = if t < i { t } else { t + 1 };
                    assert(t2[t] == es[t3]);
                }
            } else if ix.kind == IndexType::Multi {
                assert(es2 == put(es, k, rest));
                crate::value::lemma_lookup_put(es, k, rest);
                lemma_keys_distinct_put(es, k, rest);
                assert forall|k2: Seq<char>, x2: Seq<char>|
                    #[trigger] recorded(es2, k2, x2) <==> (recorded(es, k2, x2) && !(k2 == k && x2 == x)) by {
                    if k2 != k {
                        lemma_lookup_other_put(es, k, rest, k2);
                    } else {
                        lemma_without_contains(ids, x, x2);
                    }
                }
                assert forall|t: int| 0 <= t < es2.len() implies #[trigger] es2[t].1.len() > 0 by {
                    if t != i {
                        assert(es2[t] == es[t]);
                    }
                }
                lemma_without_distinct(ids, x);
                assert forall|t: int| 0 <= t < es2.len() implies (#[trigger] es2[t].1).no_duplicates() by {
                    if t != i {
                        assert(es2[t] == es[t]);
                    }
                }
            } else {
                assert(es2 == es);
                assert forall|k2: Seq<char>, x2: Seq<char>|
                    #[trigger] recorded(es2, k2, x2) <==> (recorded(es, k2, x2) && !(k2 == k && x2 == x)) by {
                    if k2 == k && x2 == x && ids.contains(x2) {
                        let t = choose|t: int| 0 <= t < ids.len() && ids[t] == x2;
                        assert(ids.len() == 1);
                        assert(t == 0);
                    }
                }
            }
        },
        None => {
            assert(es2 == es);
        },
    }
}

pub proof fn lemma_no_first<A>(s: Seq<A>, p: spec_fn(A) -> bool)
    requires
        first_index(s, p) < 0,
    ensures
        forall|i: int| 0 <= i < s.len() ==> !p(#[trigger] s[i]),
{
    assert forall|i: int| 0 <= i < s.len() implies !p(#[trigger] s[i]) by {
        if p(s[i]) {
            lemma_first_exists(s, p, i);
        }
    }
}

/// Inserting keeps identifiers distinct and every unique or multi index exact.
pub proof fn law_insert_keeps_exact(c: CollView, d: DocView)
    requires
        coll_exact(c),
        insert_outcome(c, d) is Ok,
    ensures
        coll_exact(insert_outcome(c, d)->Ok_0),
{
    let c2 = insert_outcome(c, d)->Ok_0;
    let n = c.docs.len() as int;
    lemma_no_first(c.docs, |x: DocView| x.id == d.id);
    assert(c2.docs == c.docs.push(d));
    assert forall|i: int, j: int|
        0 <= i < c2.docs.len() && 0 <= j < c2.docs.len() && c2.docs[i].id == c2.docs[j].id implies i == j by {
        if i < n && j < n {
            assert(c2.docs[i] == c.docs[i] && c2.docs[j] == c.docs[j]);
        } else if i < n {
            assert(c2.docs[i] == c.docs[i]);
        } else if j < n {
            assert(c2.docs[j] == c.docs[j]);
        }
    }
    assert forall|j: int| 0 <= j < c2.indexes.len() implies index_shaped(#[trigger] c2.indexes[j]) && (c2.indexes[j].kind != IndexType::Single ==> index_exact(c2.indexes[j], c2.docs)) by {
        let ix = c.indexes[j];
        assert(accepts(ix, d));
        let k = index_key(ix.fields, d);
        lemma_add_recorded(ix, k, d.id);
        let ix2 = c2.indexes[j];
        assert(ix2 == added(ix, d));
        if ix.kind != IndexType::Single {
        assert forall|k2: Seq<char>, x2: Seq<char>| #[trigger] recorded(ix2.entries, k2, x2) implies exists|i: int|
            0 <= i < c2.docs.len() && c2.docs[i].id == x2 && index_key(ix2.fields, c2.docs[i]) == k2 by {
            if recorded(ix.entries, k2, x2) {
                let i = choose|i: int| 0 <= i < c.docs.len() && c.docs[i].id == x2 && index_key(ix.fields, c.docs[i]) == k2;
                assert(c2.docs[i] == c.docs[i]);
            } else {
                assert(c2.docs[n] == d);
            }
        }
        assert forall|i: int| 0 <= i < c2.docs.len() implies recorded(ix2.entries, index_key(ix2.fields, #[trigger] c2.docs[i]), c2.docs[i].id) by {
            if i < n {
                assert(c2.docs[i] == c.docs[i]);
                assert(recorded(ix.entries, index_key(ix.fields, c.docs[i]), c.docs[i].id));
            }
        }
        }
    }
}

/// An index filled from documents with distinct identifiers, starting empty, is shaped; a
/// unique or multi one records exactly those documents.
pub proof fn lemma_backfill_exact(ix: IndexView, docs: Seq<DocView>)
    requires
        ix.entries == Seq::<(Seq<char>, Seq<Seq<char>>)>::empty(),
        ids_distinct(docs),
        backfill(ix, docs) is Ok,
    ensures
        index_shaped(backfill(ix, docs)->Ok_0),
        ix.kind != IndexType::Single ==> index_exact(backfill(ix, docs)->Ok_0, docs),
        backfill(ix, docs)->Ok_0.name == ix.name,
        backfill(ix, docs)->Ok_0.fields == ix.fields,
        backfill(ix, docs)->Ok_0.kind == ix.kind,
    decreases docs.len(),
{
    if docs.len() == 0 {
        assert forall|k: Seq<char>, x: Seq<char>| !#[trigger] recorded(ix.entries, k, x) by {
            lemma_key_missing(ix.entries, k);
        }
    } else {
        let pre = docs.drop_last();
        let d = docs.last();
        let n = pre.len() as int;
        assert(docs[n] == d);
        assert forall|i: int, j: int|
            0 <= i < pre.len() && 0 <= j < pre.len() && pre[i].id == pre[j].id implies i == j by {
            assert(pre[i] == docs[i] && pre[j] == docs[j]);
        }
        lemma_backfill_exact(ix, pre);
        let prev = backfill(ix, pre)->Ok_0;
        assert(accepts(prev, d));
        let k = index_key(prev.fields, d);
        lemma_add_recorded(prev, k, d.id);
        let nx = backfill(ix, docs)->Ok_0;
        assert(nx == added(prev, d));
        if ix.kind != IndexType::Single {
        assert forall|k2: Seq<char>, x2: Seq<char>| #[trigger] recorded(nx.entries, k2, x2) implies exists|i: int|
            0 <= i < docs.len() && docs[i].id == x2 && index_key(nx.fields, docs[i]) == k2 by {
            if recorded(prev.entries, k2, x2) {
                let i = choose|i: int| 0 <= i < pre.len() && pre[i].id == x2 && index_key(prev.fields, pre[i]) == k2;
                assert(docs[i] == pre[i]);
            }
        }
        assert forall|i: int| 0 <= i < docs.len() implies recorded(nx.entries, index_key(nx.fields, #[trigger] docs[i]), docs[i].id) by {
            if i < n {
                assert(docs[i] == pre[i]);
                assert(recorded(prev.entries, index_key(prev.fields, pre[i]), pre[i].id));
            }
        }
        }
    }
}

/// Reloading a collection from documents makes every unique or multi index exact.
pub proof fn law_reload_exact(c: CollView, docs: Seq<DocView>)
    requires
        reload_outcome(c, docs) is Ok,
    ensures
        coll_exact(reload_outcome(c, docs)->Ok_0),
{
    let c2 = reload_outcome(c, docs)->Ok_0;
    assert(!crate::collection::has_duplicate_ids(docs));
    assert forall|i: int, j: int|
        0 <= i < docs.len() && 0 <= j < docs.len() && docs[i].id == docs[j].id implies i == j by {
        if i < j {
            assert(crate::collection::has_duplicate_ids(docs));
        } else if j < i {
            assert(docs[j].id == docs[i].id);
            assert(crate::collection::has_duplicate_ids(docs));
        }
    }
    assert forall|j: int| 0 <= j < c2.indexes.len() implies index_shaped(#[trigger] c2.indexes[j]) && (c2.indexes[j].kind != IndexType::Single ==> index_exact(c2.indexes[j], c2.docs)) by {
        let e = with_entries(c.indexes[j], Seq::empty());
        assert(rebuilt(c.indexes, docs)[j] is Ok);
        lemma_backfill_kind(e, docs);
        lemma_backfill_exact(e, docs);
    }
}

/// Creating an index that fills without refusal keeps every unique or multi index exact.
pub proof fn law_create_index_exact(c: CollView, ix: IndexView)
    requires
        coll_exact(c),
        ix.entries == Seq::<(Seq<char>, Seq<Seq<char>>)>::empty(),
        backfill(ix, c.docs) is Ok,
    ensures
        coll_exact(CollView { name: c.name, docs: c.docs, indexes: install(c.indexes, backfill(ix, c.docs)->Ok_0) }),
{
    let nx = backfill(ix, c.docs)->Ok_0;
    lemma_backfill_exact(ix, c.docs);
    let ixs = install(c.indexes, nx);
    assert forall|j: int| 0 <= j < ixs.len() implies index_shaped(#[trigger] ixs[j]) && (ixs[j].kind != IndexType::Single ==> index_exact(ixs[j], c.docs)) by {
        if ixs[j] != nx {
            assert(ixs[j] == c.indexes[j]);
        } else {
            assert(nx.kind == ix.kind) by {
                if ix.kind == IndexType::Single {
                    lemma_backfill_kind(ix, c.docs);
                }
            }
        }
    }
}

pub proof fn lemma_backfill_kind(ix: IndexView, docs: Seq<DocView>)
    requires
        backfill(ix, docs) is Ok,
    ensures
        backfill(ix, docs)->Ok_0.kind == ix.kind,
        backfill(ix, docs)->Ok_0.fields == ix.fields,
        backfill(ix, docs)->Ok_0.name == ix.name,
    decreases docs.len(),
{
    if docs.len() > 0 {
        lemma_backfill_kind(ix, docs.drop_last());
    }
}

/// Every index of `ixs` is shaped, and every unique or multi one records exactly `docs`.
pub open spec fn all_exact(ixs: Seq<IndexView>, docs: Seq<DocView>) -> bool {
    forall|j: int|
        0 <= j < ixs.len() ==> index_shaped(#[trigger] ixs[j]) && (ixs[j].kind != IndexType::Single
            ==> index_exact(ixs[j], docs))
}

proof fn lemma_exact_after_remove(ix: IndexView, docs: Seq<DocView>, i: int)
    requires
        0 <= i < docs.len(),
        ids_distinct(docs),
        ix.kind != IndexType::Single,
        index_shaped(ix),
        index_exact(ix, docs),
    ensures
        index_shaped(removed(ix, docs[i])),
        index_exact(removed(ix, docs[i]), docs.remove(i)),
        ids_distinct(docs.remove(i)),
{
    let d = docs[i];
    let r = removed(ix, d);
    let ds = docs.remove(i);
    lemma_remove_recorded(ix, index_key(ix.fields, d), d.id);
    assert forall|k2: Seq<char>, x2: Seq<char>| #[trigger] recorded(r.entries, k2, x2) implies exists|t: int|
        0 <= t < ds.len() && ds[t].id == x2 && index_key(r.fields, ds[t]) == k2 by {
        let t = choose|t: int| 0 <= t < docs.len() && docs[t].id == x2 && index_key(ix.fields, docs[t]) == k2;
        assert(t != i);
        if t < i {
            assert(ds[t] == docs[t]);
        } else {
            assert(ds[t - 1] == docs[t]);
        }
    }
    assert forall|t: int| 0 <= t < ds.len() implies recorded(r.entries, index_key(r.fields, #[trigger] ds[t]), ds[t].id) by {
        let t2 = if t < i { t } else { t + 1 };
        assert(ds[t] == docs[t2]);
        assert(recorded(ix.entries, index_key(ix.fields, docs[t2]), docs[t2].id));
        assert(docs[t2].id != d.id);
    }
    assert forall|a: int, b: int| 0 <= a < ds.len() && 0 <= b < ds.len() && ds[a].id == ds[b].id implies a == b by {
        let a2 = if a < i { a } else { a + 1 };
        let b2 = if b < i { b } else { b + 1 };
        assert(ds[a] == docs[a2] && ds[b] == docs[b2]);
    }
}

proof fn lemma_drop_matching_exact(ixs: Seq<IndexView>, docs: Seq<DocView>, q: Seq<(Seq<char>, Json)>, m: int)
    requires
        0 <= m <= docs.len(),
        ids_distinct(docs.subrange(0, m) + keep(docs.subrange(m, docs.len() as int), q)),
        all_exact(ixs, docs.subrange(0, m) + keep(docs.subrange(m, docs.len() as int), q)),
    ensures
        all_exact(drop_matching(ixs, docs, q, m), keep(docs, q)),
    decreases m,
{
    let n = docs.len() as int;
    let dm = docs.subrange(0, m) + keep(docs.subrange(m, n), q);
    if m == 0 {
        assert(docs.subrange(0, n) =~= docs);
        assert(dm =~= keep(docs, q));
    } else {
        let d = docs[m - 1];
        let tail = docs.subrange(m - 1, n);
        assert(tail.subrange(1, tail.len() as int) =~= docs.subrange(m, n));
        assert(tail[0] == d);
        let kt = keep(docs.subrange(m, n), q);
        let d1 = docs.subrange(0, m - 1) + keep(tail, q);
        if conds_match(q, d) {
            assert(keep(tail, q) =~= kt);
            assert(dm[m - 1] == d);
            assert(d1 =~= dm.remove(m - 1));
            let next = Seq::new(ixs.len(), |j: int| removed(ixs[j], d));
            assert forall|j: int| 0 <= j < next.len() implies index_shaped(#[trigger] next[j]) && (next[j].kind != IndexType::Single ==> index_exact(next[j], d1)) by {
                if ixs[j].kind != IndexType::Single {
                    lemma_exact_after_remove(ixs[j], dm, m - 1);
                } else {
                    lemma_remove_recorded(ixs[j], index_key(ixs[j].fields, d), d.id);
                }
            }
            assert(ids_distinct(d1)) by {
                assert forall|a: int, b: int| 0 <= a < d1.len() && 0 <= b < d1.len() && d1[a].id == d1[b].id implies a == b by {
                    let a2 = if a < m - 1 { a } else { a + 1 };
                    let b2 = if b < m - 1 { b } else { b + 1 };
                    assert(d1[a] == dm[a2] && d1[b] == dm[b2]);
                }
            }
            lemma_drop_matching_exact(next, docs, q, m - 1);
        } else {
            assert(keep(tail, q) =~= seq![d] + kt);
            assert(d1 =~= dm);
            lemma_drop_matching_exact(ixs, docs, q, m - 1);
        }
    }
}

/// Deleting keeps identifiers distinct and every unique or multi index exact.
pub proof fn law_delete_keeps_exact(c: CollView, q: Seq<(Seq<char>, Json)>)
    requires
        coll_exact(c),
    ensures
        ids_distinct(keep(c.docs, q)),
        all_exact(drop_matching(c.indexes, c.docs, q, c.docs.len() as int), keep(c.docs, q)),
{
    let n = c.docs.len() as int;
    assert(c.docs.subrange(n, n) =~= Seq::<DocView>::empty());
    assert(c.docs.subrange(0, n) + keep(c.docs.subrange(n, n), q) =~= c.docs);
    lemma_drop_matching_exact(c.indexes, c.docs, q, n);
    lemma_keep_distinct(c.docs, q);
}

pub proof fn lemma_keep_distinct(docs: Seq<DocView>, q: Seq<(Seq<char>, Json)>)
    requires
        ids_distinct(docs),
    ensures
        ids_distinct(keep(docs, q)),
        forall|d: DocView| #[trigger] keep(docs, q).contains(d) ==> docs.contains(d),
    decreases docs.len(),
{
    if docs.len() > 0 {
        let rest = docs.subrange(1, docs.len() as int);
        assert forall|a: int, b: int| 0 <= a < rest.len() && 0 <= b < rest.len() && rest[a].id == rest[b].id implies a == b by {
            assert(rest[a] == docs[a + 1] && rest[b] == docs[b + 1]);
        }
        lemma_keep_distinct(rest, q);
        let kr = keep(rest, q);
        let k = keep(docs, q);
        assert forall|d: DocView| k.contains(d) implies docs.contains(d) by {
            let w = choose|w: int| 0 <= w < k.len() && k[w] == d;
            if conds_match(q, docs[0]) {
                assert(k =~= kr);
                assert(kr.contains(d));
                let v = choose|v: int| 0 <= v < rest.len() && rest[v] == d;
                assert(docs[v + 1] == d);
            } else {
                assert(k =~= seq![docs[0]] + kr);
                if w > 0 {
                    assert(kr[w - 1] == d);
                    assert(kr.contains(d));
                    let v = choose|v: int| 0 <= v < rest.len() && rest[v] == d;
                    assert(docs[v + 1] == d);
                } else {
                    assert(docs[0] == d);
                }
            }
        }
        assert forall|a: int, b: int| 0 <= a < k.len() && 0 <= b < k.len() && k[a].id == k[b].id implies a == b by {
            if conds_match(q, docs[0]) {
                assert(k =~= kr);
            } else {
                assert(k =~= seq![docs[0]] + kr);
                if a > 0 && b > 0 {
                    assert(k[a] == kr[a - 1] && k[b] == kr[b - 1]);
                } else if a == 0 && b > 0 {
                    assert(kr.contains(k[b]));
                    let v = choose|v: int| 0 <= v < rest.len() && rest[v] == k[b];
                    assert(docs[v + 1] == k[b]);
                    assert(docs[0].id == docs[v + 1].id);
                } else if b == 0 && a > 0 {
                    assert(kr.contains(k[a]));
                    let v = choose|v: int| 0 <= v < rest.len() && rest[v] == k[a];
                    assert(docs[v + 1] == k[a]);
                    assert(docs[0].id == docs[v + 1].id);
                }
            }
        }
    }
}

pub proof fn lemma_update_at_exact(c: CollView, i: int, u: Json)
    requires
        0 <= i < c.docs.len(),
        coll_exact(c),
    ensures
        coll_exact(update_at(c, i, u).0),
        update_at(c, i, u).0.docs.len() == c.docs.len(),
{
    let d = c.docs[i];
    let res = update_result(d.fields, u);
    let nd = DocView { id: d.id, fields: res.0 };
    let c2 = update_at(c, i, u).0;
    if res.1 is None && !(exists|j: int| 0 <= j < c.indexes.len() && !accepts(removed(c.indexes[j], d), nd)) {
        let docs2 = c.docs.update(i, nd);
        assert(c2.docs == docs2);
        assert forall|a: int, b: int| 0 <= a < docs2.len() && 0 <= b < docs2.len() && docs2[a].id == docs2[b].id implies a == b by {
            assert(docs2[a].id == c.docs[a].id && docs2[b].id == c.docs[b].id);
        }
        assert forall|j: int| 0 <= j < c2.indexes.len() implies index_shaped(#[trigger] c2.indexes[j]) && (c2.indexes[j].kind != IndexType::Single ==> index_exact(c2.indexes[j], c2.docs)) by {
            let ix = c.indexes[j];
            let r = removed(ix, d);
            lemma_remove_recorded(ix, index_key(ix.fields, d), d.id);
            assert(accepts(r, nd));
            lemma_add_recorded(r, index_key(r.fields, nd), nd.id);
            let ix2 = c2.indexes[j];
            assert(ix2 == added(r, nd));
            if ix.kind != IndexType::Single {
            assert forall|k2: Seq<char>, x2: Seq<char>| #[trigger] recorded(ix2.entries, k2, x2) implies exists|t: int|
                0 <= t < docs2.len() && docs2[t].id == x2 && index_key(ix2.fields, docs2[t]) == k2 by {
                if recorded(r.entries, k2, x2) {
                    let t = choose|t: int| 0 <= t < c.docs.len() && c.docs[t].id == x2 && index_key(ix.fields, c.docs[t]) == k2;
                    assert(t != i);
                    assert(docs2[t] == c.docs[t]);
                } else {
                    assert(docs2[i] == nd);
                }
            }
            assert forall|t: int| 0 <= t < docs2.len() implies recorded(ix2.entries, index_key(ix2.fields, #[trigger] docs2[t]), docs2[t].id) by {
                if t != i {
                    assert(docs2[t] == c.docs[t]);
                    assert(recorded(ix.entries, index_key(ix.fields, c.docs[t]), c.docs[t].id));
                    assert(c.docs[t].id != d.id);
                }
            }
            }
        }
    }
}

/// Updating keeps identifiers distinct and every unique or multi index exact.
pub proof fn law_update_keeps_exact(c: CollView, q: Seq<(Seq<char>, Json)>, u: Json, n: int)
    requires
        coll_exact(c),
        0 <= n <= c.docs.len(),
    ensures
        coll_exact(update_upto(c, q, u, n).0),
        update_upto(c, q, u, n).0.docs.len() == c.docs.len(),
    decreases n,
{
    if n > 0 {
        law_update_keeps_exact(c, q, u, n - 1);
        let prev = update_upto(c, q, u, n - 1);
        if conds_match(q, c.docs[n - 1]) {
            lemma_update_at_exact(prev.0, n - 1, u);
        }
    }
}

proof fn lemma_backfill_ok(ix: IndexView, docs: Seq<DocView>)
    requires
        ix.entries == Seq::<(Seq<char>, Seq<Seq<char>>)>::empty(),
        ids_distinct(docs),
        ix.kind == IndexType::Unique ==> forall|a: int, b: int|
            0 <= a < docs.len() && 0 <= b < docs.len() && index_key(ix.fields, docs[a]) == index_key(
                ix.fields,
                docs[b],
            ) ==> a == b,
    ensures
        backfill(ix, docs) is Ok,
    decreases docs.len(),
{
    if docs.len() > 0 {
        let pre = docs.drop_last();
        let d = docs.last();
        let n = pre.len() as int;
        assert(docs[n] == d);
        assert forall|i: int, j: int|
            0 <= i < pre.len() && 0 <= j < pre.len() && pre[i].id == pre[j].id implies i == j by {
            assert(pre[i] == docs[i] && pre[j] == docs[j]);
        }
        assert forall|a: int, b: int|
            0 <= a < pre.len() && 0 <= b < pre.len() && index_key(ix.fields, pre[a]) == index_key(ix.fields, pre[b])
                && ix.kind == IndexType::Unique implies a == b by {
            assert(pre[a] == docs[a] && pre[b] == docs[b]);
        }
        lemma_backfill_ok(ix, pre);
        lemma_backfill_kind(ix, pre);
        let prev = backfill(ix, pre)->Ok_0;
        if ix.kind == IndexType::Unique {
            lemma_backfill_exact(ix, pre);
            let k = index_key(ix.fields, d);
            match lookup(prev.entries, k) {
                Some(ids) => {
                    let t = key_index(prev.entries, k);
                    assert(is_first_key(prev.entries, k, t));
                    assert(ids.len() > 0);
                    assert(ids.contains(ids[0]));
                    assert(recorded(prev.entries, k, ids[0]));
                    let i = choose|i: int| 0 <= i < pre.len() && pre[i].id == ids[0] && index_key(prev.fields, pre[i]) == k;
                    assert(docs[i] == pre[i]);
                    assert(index_key(ix.fields, docs[i]) == index_key(ix.fields, docs[n]));
                },
                None => {},
            }
        }
    }
}

/// Reloading a well-formed collection from its own documents succeeds, keeps the documents,
/// and gives every unique or multi index the same key-to-identifier associations.
pub proof fn law_reload_round_trip(c: CollView)
    requires
        coll_exact(c),
    ensures
        reload_outcome(c, c.docs) is Ok,
        reload_outcome(c, c.docs)->Ok_0.docs == c.docs,
        reload_outcome(c, c.docs)->Ok_0.indexes.len() == c.indexes.len(),
        forall|j: int, k: Seq<char>, x: Seq<char>|
            0 <= j < c.indexes.len() && c.indexes[j].kind != IndexType::Single ==> (recorded(
                reload_outcome(c, c.docs)->Ok_0.indexes[j].entries,
                k,
                x,
            ) <==> #[trigger] recorded(c.indexes[j].entries, k, x)),
{
    let docs = c.docs;
    assert(!crate::collection::has_duplicate_ids(docs));
    assert forall|j: int| 0 <= j < c.indexes.len() implies #[trigger] rebuilt(c.indexes, docs)[j] is Ok by {
        let ix = c.indexes[j];
        let e = with_entries(ix, Seq::empty());
        if ix.kind == IndexType::Unique {
            assert forall|a: int, b: int|
                0 <= a < docs.len() && 0 <= b < docs.len() && index_key(e.fields, docs[a]) == index_key(e.fields, docs[b])
                    implies a == b by {
                let k = index_key(ix.fields, docs[a]);
                assert(recorded(ix.entries, k, docs[a].id));
                assert(recorded(ix.entries, index_key(ix.fields, docs[b]), docs[b].id));
                let l = lookup(ix.entries, k)->0;
                let t = key_index(ix.entries, k);
                assert(is_first_key(ix.entries, k, t));
                assert(l.len() == 1);
                let wa = choose|w: int| 0 <= w < l.len() && l[w] == docs[a].id;
                let wb = choose|w: int| 0 <= w < l.len() && l[w] == docs[b].id;
            }
        }
        lemma_backfill_ok(e, docs);
    }
    let c2 = reload_outcome(c, docs)->Ok_0;
    assert forall|j: int, k: Seq<char>, x: Seq<char>|
        0 <= j < c.indexes.len() && c.indexes[j].kind != IndexType::Single implies (recorded(
            c2.indexes[j].entries,
            k,
            x,
        ) <==> #[trigger] recorded(c.indexes[j].entries, k, x)) by {
        let ix = c.indexes[j];
        let e = with_entries(ix, Seq::empty());
        lemma_backfill_kind(e, docs);
        lemma_backfill_exact(e, docs);
        let nx = c2.indexes[j];
        if recorded(nx.entries, k, x) {
            let i = choose|i: int| 0 <= i < docs.len() && docs[i].id == x && index_key(nx.fields, docs[i]) == k;
            assert(recorded(ix.entries, index_key(ix.fields, docs[i]), docs[i].id));
        }
        if recorded(ix.entries, k, x) {
            let i = choose|i: int| 0 <= i < docs.len() && docs[i].id == x && index_key(ix.fields, docs[i]) == k;
            assert(recorded(nx.entries, index_key(nx.fields, docs[i]), docs[i].id));
        }
    }
}

/// In a collection whose identifiers are distinct and whose unique and multi indexes are
/// shaped and exact, `find` gives the documents that a scan gives, each as often.
pub proof fn law_find_matches_scan(c: CollView, q: Seq<(Seq<char>, Json)>)
    requires
        coll_exact(c),
    ensures
        find_result(c, q).to_multiset() == scan(c.docs, q).to_multiset(),
{
    let j = usable_index(c.indexes, q);
    if j >= 0 {
        assert(is_first(c.indexes, |ix: IndexView| crate::index::stands_in(ix, q), j));
        let ix = c.indexes[j];
        let pf = |g: Seq<char>| crate::index::pinned_value(q, g) is Some;
        assert(is_first(ix.fields, pf, first_usable(ix.fields, q)));
        assert(index_exact(ix, c.docs));
        law_index_path_matches_scan(ix, c.docs, q);
    }
}

/// In a well-formed collection with a unique index, a document whose key under that index
/// equals the key of any stored document is refused.
pub proof fn law_unique_refuses_existing_key(c: CollView, j: int, i: int, d: DocView)
    requires
        coll_exact(c),
        0 <= j < c.indexes.len(),
        c.indexes[j].kind == IndexType::Unique,
        0 <= i < c.docs.len(),
        index_key(c.indexes[j].fields, c.docs[i]) == index_key(c.indexes[j].fields, d),
    ensures
        insert_outcome(c, d) is Err,
{
    if d.id.len() == 0 {
    } else if d.id == c.docs[i].id {
        lemma_first_exists(c.docs, |x: DocView| x.id == d.id, i);
    } else if first_index(c.docs, |x: DocView| x.id == d.id) >= 0 {
    } else {
        let ix = c.indexes[j];
        let k = index_key(ix.fields, d);
        assert(index_shaped(ix) && index_exact(ix, c.docs));
        assert(recorded(ix.entries, index_key(ix.fields, c.docs[i]), c.docs[i].id));
        let l = lookup(ix.entries, k)->0;
        let t = key_index(ix.entries, k);
        assert(is_first_key(ix.entries, k, t));
        assert(l.len() == 1);
        let w = choose|w: int| 0 <= w < l.len() && l[w] == c.docs[i].id;
        assert(l[0] == c.docs[i].id);
        assert(!accepts(ix, d));
    }
}

/// No two indexes share a name.
pub open spec fn names_distinct(ixs: Seq<IndexView>) -> bool {
    forall|i: int, j: int| 0 <= i < ixs.len() && 0 <= j < ixs.len() && ixs[i].name == ixs[j].name ==> i == j
}

/// `a` and `b` hold indexes of the same names, in the same order.
pub open spec fn same_names(a: Seq<IndexView>, b: Seq<IndexView>) -> bool {
    a.len() == b.len() && forall|j: int| 0 <= j < a.len() ==> #[trigger] a[j].name == b[j].name
}

pub proof fn lemma_drop_matching_names(ixs: Seq<IndexView>, docs: Seq<DocView>, q: Seq<(Seq<char>, Json)>, m: int)
    ensures
        same_names(drop_matching(ixs, docs, q, m), ixs),
    decreases m,
{
    if m > 0 {
        let d = docs[m - 1];
        let next = if conds_match(q, d) {
            Seq::new(ixs.len(), |j: int| removed(ixs[j], d))
        } else {
            ixs
        };
        lemma_drop_matching_names(next, docs, q, m - 1);
    }
}

pub proof fn lemma_update_names(c: CollView, q: Seq<(Seq<char>, Json)>, u: Json, n: int)
    ensures
        same_names(update_upto(c, q, u, n).0.indexes, c.indexes),
    decreases n,
{
    if n > 0 {
        lemma_update_names(c, q, u, n - 1);
    }
}

} // verus!
