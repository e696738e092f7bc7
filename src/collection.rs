use vstd::prelude::*;
use crate::document::{DocView, Document, doc_wf, update_result};
use crate::error::DbError;
use crate::exact::{
    coll_exact, law_create_index_exact, names_distinct, same_names, lemma_drop_matching_names,
    lemma_update_names, lemma_no_first, lemma_backfill_kind, law_delete_keeps_exact, law_insert_keeps_exact,
    law_reload_exact, lemma_update_at_exact,
};
use crate::first::{first_index, lemma_first_index, lemma_first_index_none};
use crate::index::{
    Index, IndexType, IndexView, candidate_ids, doc_index, stands_in, scan_docs, docs_view, entries_wf, find_doc, index_wf,
    first_usable, index_add, index_key, index_remove, kind_of_name, resolve, strs_view,
};
use crate::query::{Query, conds_match};
use crate::value::{Json, Value, text_eq};

verus! {

/// The abstract content of a collection: its name, its documents in order, and its indexes.
pub ghost struct CollView {
    pub name: Seq<char>,
    pub docs: Seq<DocView>,
    pub indexes: Seq<IndexView>,
}

/// An ordered set of documents with the indexes kept over them.
#[derive(Debug)]
pub struct Collection {
    name: String,
    documents: Vec<Document>,
    indexes: Vec<Index>,
}

pub open spec fn indexes_view(v: Seq<Index>) -> Seq<IndexView> {
    Seq::new(v.len(), |i: int| v[i]@)
}

impl View for Collection {
    type V = CollView;

    closed spec fn view(&self) -> CollView {
        CollView {
            name: self.name@,
            docs: docs_view(self.documents@),
            indexes: indexes_view(self.indexes@),
        }
    }
}

/// Every index of `ixs` keeps no key with an empty identifier list.
pub open spec fn indexes_wf(ixs: Seq<IndexView>) -> bool {
    forall|j: int| 0 <= j < ixs.len() ==> #[trigger] index_wf(ixs[j])
}

/// A well-formed collection: no index keeps an empty identifier list, identifiers are
/// distinct, every unique or multi index records exactly the documents, every document is
/// well formed, and no two indexes share a name.
pub open spec fn coll_ok(c: CollView) -> bool {
    indexes_wf(c.indexes) && coll_exact(c) && docs_wf(c.docs) && names_distinct(c.indexes)
}

/// Every document is well formed.
pub open spec fn docs_wf(docs: Seq<DocView>) -> bool {
    forall|i: int| 0 <= i < docs.len() ==> doc_wf(#[trigger] docs[i])
}

/// `ix` with the entries `es`.
pub open spec fn with_entries(ix: IndexView, es: Seq<(Seq<char>, Seq<Seq<char>>)>) -> IndexView {
    IndexView { name: ix.name, fields: ix.fields, kind: ix.kind, entries: es }
}

/// Whether `ix` accepts `d`.
pub open spec fn accepts(ix: IndexView, d: DocView) -> bool {
    index_add(ix.kind, ix.entries, index_key(ix.fields, d), d.id) is Ok
}

/// `ix` after recording `d` (when it accepts it).
pub open spec fn added(ix: IndexView, d: DocView) -> IndexView {
    with_entries(ix, index_add(ix.kind, ix.entries, index_key(ix.fields, d), d.id)->Ok_0)
}

/// `ix` after dropping `d`.
pub open spec fn removed(ix: IndexView, d: DocView) -> IndexView {
    with_entries(ix, index_remove(ix.kind, ix.entries, index_key(ix.fields, d), d.id))
}

/// The document inserted for `d`: `d` itself, or `d` with identifier `fresh` when it has none.
pub open spec fn assigned(d: DocView, fresh: Seq<char>) -> DocView {
    if d.id.len() > 0 {
        d
    } else {
        DocView { id: fresh, fields: d.fields }
    }
}

/// The outcome of inserting `d` into `c`.
pub open spec fn insert_outcome(c: CollView, d: DocView) -> Result<CollView, DbError> {
    if d.id.len() == 0 {
        Err(DbError::MalformedInput)
    } else if doc_index(c.docs, d.id) >= 0 {
        Err(DbError::DuplicateId)
    } else if exists|j: int| 0 <= j < c.indexes.len() && !accepts(c.indexes[j], d) {
        Err(DbError::UniqueViolation)
    } else {
        Ok(
            CollView {
                name: c.name,
                docs: c.docs.push(d),
                indexes: Seq::new(c.indexes.len(), |j: int| added(c.indexes[j], d)),
            },
        )
    }
}

/// The documents of `docs` that match `q`, in order.
pub open spec fn scan(docs: Seq<DocView>, q: Seq<(Seq<char>, Json)>) -> Seq<DocView>
    decreases docs.len(),
{
    if docs.len() == 0 {
        Seq::empty()
    } else {
        let pre = scan(docs.drop_last(), q);
        if conds_match(q, docs.last()) {
            pre.push(docs.last())
        } else {
            pre
        }
    }
}

/// Position of the first index that can stand in for a scan of `q`, or -1.
pub open spec fn usable_index(ixs: Seq<IndexView>, q: Seq<(Seq<char>, Json)>) -> int {
    first_index(ixs, |ix: IndexView| stands_in(ix, q))
}

/// What `find` returns: through the first usable index, or by a scan when none is usable.
pub open spec fn find_result(c: CollView, q: Seq<(Seq<char>, Json)>) -> Seq<DocView> {
    let j = usable_index(c.indexes, q);
    if j >= 0 {
        resolve(candidate_ids(c.indexes[j], q), c.docs, q)
    } else {
        scan(c.docs, q)
    }
}

/// The documents of `docs` that do not match `q`, in order.
pub open spec fn keep(docs: Seq<DocView>, q: Seq<(Seq<char>, Json)>) -> Seq<DocView>
    decreases docs.len(),
{
    if docs.len() == 0 {
        Seq::empty()
    } else {
        (if conds_match(q, docs[0]) {
            Seq::empty()
        } else {
            seq![docs[0]]
        }) + keep(docs.subrange(1, docs.len() as int), q)
    }
}

/// The indexes after dropping, from the last to the first, each of the first `n` documents of
/// `docs` that matches `q`.
pub open spec fn drop_matching(
    ixs: Seq<IndexView>,
    docs: Seq<DocView>,
    q: Seq<(Seq<char>, Json)>,
    n: int,
) -> Seq<IndexView>
    decreases n,
{
    if n <= 0 {
        ixs
    } else {
        let d = docs[n - 1];
        let next = if conds_match(q, d) {
            Seq::new(ixs.len(), |j: int| removed(ixs[j], d))
        } else {
            ixs
        };
        drop_matching(next, docs, q, n - 1)
    }
}

/// The document at position `i` of `c` updated by `u`, and the collection around it: the
/// update is refused when the spec fails or an index would refuse the new keys.
pub open spec fn update_at(c: CollView, i: int, u: Json) -> (CollView, Option<DbError>) {
    let d = c.docs[i];
    let res = update_result(d.fields, u);
    let nd = DocView { id: d.id, fields: res.0 };
    if res.1 is Some {
        (c, res.1)
    } else if exists|j: int| 0 <= j < c.indexes.len() && !accepts(removed(c.indexes[j], d), nd) {
        (c, Some(DbError::UniqueViolation))
    } else {
        (
            CollView {
                name: c.name,
                docs: c.docs.update(i, nd),
                indexes: Seq::new(c.indexes.len(), |j: int| added(removed(c.indexes[j], d), nd)),
            },
            None,
        )
    }
}

/// Updates, in order, each of the first `n` documents of `c0` that matched `q` before any
/// change: the collection reached, the first error met, and how many were updated.
pub open spec fn update_upto(c0: CollView, q: Seq<(Seq<char>, Json)>, u: Json, n: int) -> (
    CollView,
    Option<DbError>,
    nat,
)
    decreases n,
{
    if n <= 0 {
        (c0, None, 0)
    } else {
        let prev = update_upto(c0, q, u, n - 1);
        if conds_match(q, c0.docs[n - 1]) {
            let step = update_at(prev.0, n - 1, u);
            (
                step.0,
                if prev.1 is Some {
                    prev.1
                } else {
                    step.1
                },
                if step.1 is None {
                    prev.2 + 1
                } else {
                    prev.2
                },
            )
        } else {
            prev
        }
    }
}

/// An index named `name` over `fields` of kind `kind`, filled with the documents `docs` in
/// order; an error when it refuses one.
pub open spec fn backfill(ix: IndexView, docs: Seq<DocView>) -> Result<IndexView, DbError>
    decreases docs.len(),
{
    if docs.len() == 0 {
        Ok(ix)
    } else {
        match backfill(ix, docs.drop_last()) {
            Ok(prev) => if accepts(prev, docs.last()) {
                Ok(added(prev, docs.last()))
            } else {
                Err(DbError::UniqueViolation)
            },
            Err(e) => Err(e),
        }
    }
}

/// `ixs` with `ix` in place of the index of the same name, or with `ix` appended.
pub open spec fn install(ixs: Seq<IndexView>, ix: IndexView) -> Seq<IndexView> {
    let j = first_index(ixs, |x: IndexView| x.name == ix.name);
    if j >= 0 {
        ixs.update(j, ix)
    } else {
        ixs.push(ix)
    }
}

/// Two documents of `docs` share an identifier.
pub open spec fn has_duplicate_ids(docs: Seq<DocView>) -> bool {
    exists|i: int, j: int| 0 <= i < j < docs.len() && docs[i].id == docs[j].id
}

/// Every index of `ixs` emptied and filled again with `docs`.
pub open spec fn rebuilt(ixs: Seq<IndexView>, docs: Seq<DocView>) -> Seq<Result<IndexView, DbError>> {
    Seq::new(ixs.len(), |j: int| backfill(with_entries(ixs[j], Seq::empty()), docs))
}

/// The outcome of replacing the documents of `c` with `docs`.
pub open spec fn reload_outcome(c: CollView, docs: Seq<DocView>) -> Result<CollView, DbError> {
    if has_duplicate_ids(docs) {
        Err(DbError::DuplicateId)
    } else if exists|j: int| 0 <= j < c.indexes.len() && rebuilt(c.indexes, docs)[j] is Err {
        Err(DbError::UniqueViolation)
    } else {
        Ok(
            CollView {
                name: c.name,
                docs,
                indexes: Seq::new(c.indexes.len(), |j: int| rebuilt(c.indexes, docs)[j]->Ok_0),
            },
        )
    }
}


proof fn lemma_backfill_err(ix: IndexView, docs: Seq<DocView>, m: int)
    requires
        0 <= m <= docs.len(),
        backfill(ix, docs.subrange(0, m)) == Err::<IndexView, DbError>(DbError::UniqueViolation),
    ensures
        backfill(ix, docs) == Err::<IndexView, DbError>(DbError::UniqueViolation),
    decreases docs.len() - m,
{
    if m == docs.len() {
        assert(docs.subrange(0, m) =~= docs);
    } else {
        assert(docs.subrange(0, m + 1).drop_last() =~= docs.subrange(0, m));
        lemma_backfill_err(ix, docs, m + 1);
    }
}

/// Fills `ix` with `docs` in order; false, with `ix` left in any state, when it refuses one.
fn backfill_index(ix: &mut Index, docs: &Vec<Document>) -> (r: bool)
    requires
        old(ix).wf(),
    ensures
        final(ix)@.name == old(ix)@.name,
        final(ix)@.fields == old(ix)@.fields,
        final(ix)@.kind == old(ix)@.kind,
        match backfill(old(ix)@, docs_view(docs@)) {
            Ok(v) => r && final(ix)@ == v && final(ix).wf(),
            Err(e) => !r && e == DbError::UniqueViolation,
        },
{
    let ghost ix0 = ix@;
    let ghost ds = docs_view(docs@);
    let mut i: usize = 0;
    proof {
        assert(ds.subrange(0, 0) =~= Seq::<DocView>::empty());
    }
    while i < docs.len()
        invariant
            i <= docs@.len(),
            ds == docs_view(docs@),
            ix0 == old(ix)@,
            ix@.name == ix0.name,
            ix@.fields == ix0.fields,
            ix@.kind == ix0.kind,
            ix.wf(),
            backfill(ix0, ds.subrange(0, i as int)) == Ok::<IndexView, DbError>(ix@),
        decreases docs@.len() - i,
    {
        proof {
            assert(ds.subrange(0, i as int + 1).drop_last() =~= ds.subrange(0, i as int));
            assert(ds.subrange(0, i as int + 1).last() == ds[i as int]);
        }
        if !ix.accepts(&docs[i]) {
            proof {
                assert(backfill(ix0, ds.subrange(0, i as int + 1)) == Err::<IndexView, DbError>(DbError::UniqueViolation));
                lemma_backfill_err(ix0, ds, i as int + 1);
            }
            return false;
        }
        let ghost prev = ix@;
        let _ok = ix.add_document(&docs[i]);
        proof {
            assert(ix@ == added(prev, ds[i as int]));
        }
        i = i + 1;
    }
    proof {
        assert(ds.subrange(0, ds.len() as int) =~= ds);
    }
    true
}


/// Drops `doc` from every index of `ixs`.
fn unindex_all(ixs: &mut Vec<Index>, doc: &Document)
    requires
        indexes_wf(indexes_view(old(ixs)@)),
    ensures
        indexes_wf(indexes_view(final(ixs)@)),
        indexes_view(final(ixs)@) == Seq::new(
            old(ixs)@.len(),
            |j: int| removed(indexes_view(old(ixs)@)[j], doc@),
        ),
{
    let ghost s = indexes_view(ixs@);
    let mut i: usize = 0;
    while i < ixs.len()
        invariant
            i <= ixs@.len(),
            ixs@.len() == s.len(),
            s == indexes_view(old(ixs)@),
            indexes_wf(s),
            indexes_wf(indexes_view(ixs@)),
            forall|j: int| 0 <= j < i ==> #[trigger] ixs@[j]@ == removed(s[j], doc@),
            forall|j: int| i <= j < s.len() ==> #[trigger] ixs@[j]@ == s[j],
        decreases ixs@.len() - i,
    {
        let ghost before = ixs@;
        let mut ix = ixs.remove(i);
        assert(index_wf(s[i as int]));
        let _ok = ix.remove_document(doc);
        ixs.insert(i, ix);
        proof {
            assert(ixs@ =~= before.update(i as int, ix));
            assert forall|j: int| 0 <= j < ixs@.len() implies #[trigger] index_wf(indexes_view(ixs@)[j]) by {
                if j != i {
                    assert(indexes_view(before)[j] == indexes_view(ixs@)[j]);
                }
            }
        }
        i = i + 1;
    }
    assert(indexes_view(ixs@) =~= Seq::new(s.len(), |j: int| removed(s[j], doc@)));
}

/// Records `doc` in every index of `ixs`, all of which accept it.
fn index_all(ixs: &mut Vec<Index>, doc: &Document)
    requires
        indexes_wf(indexes_view(old(ixs)@)),
        forall|j: int| 0 <= j < old(ixs)@.len() ==> accepts(#[trigger] indexes_view(old(ixs)@)[j], doc@),
    ensures
        indexes_wf(indexes_view(final(ixs)@)),
        indexes_view(final(ixs)@) == Seq::new(
            old(ixs)@.len(),
            |j: int| added(indexes_view(old(ixs)@)[j], doc@),
        ),
{
    let ghost s = indexes_view(ixs@);
    let mut i: usize = 0;
    while i < ixs.len()
        invariant
            i <= ixs@.len(),
            ixs@.len() == s.len(),
            s == indexes_view(old(ixs)@),
            indexes_wf(s),
            indexes_wf(indexes_view(ixs@)),
            forall|j: int| 0 <= j < s.len() ==> accepts(#[trigger] s[j], doc@),
            forall|j: int| 0 <= j < i ==> #[trigger] ixs@[j]@ == added(s[j], doc@),
            forall|j: int| i <= j < s.len() ==> #[trigger] ixs@[j]@ == s[j],
        decreases ixs@.len() - i,
    {
        let ghost before = ixs@;
        let mut ix = ixs.remove(i);
        assert(index_wf(s[i as int]));
        assert(accepts(s[i as int], doc@));
        let _ok = ix.add_document(doc);
        ixs.insert(i, ix);
        proof {
            assert(ixs@ =~= before.update(i as int, ix));
            assert forall|j: int| 0 <= j < ixs@.len() implies #[trigger] index_wf(indexes_view(ixs@)[j]) by {
                if j != i {
                    assert(indexes_view(before)[j] == indexes_view(ixs@)[j]);
                }
            }
        }
        i = i + 1;
    }
    assert(indexes_view(ixs@) =~= Seq::new(s.len(), |j: int| added(s[j], doc@)));
}

impl Collection {
    /// An empty collection named `name`, without indexes.
    pub fn new(name: &str) -> (r: Collection)
        ensures
            r.wf(),
            r@.name == name@,
            r@.docs == Seq::<DocView>::empty(),
            r@.indexes == Seq::<IndexView>::empty(),
    {
        let r = Collection { name: String::from_str(name), documents: Vec::new(), indexes: Vec::new() };
        assert(docs_view(r.documents@) =~= Seq::<DocView>::empty());
        assert(indexes_view(r.indexes@) =~= Seq::<IndexView>::empty());
        r
    }

    /// No index keeps an empty identifier list and a single or unique index holds one
    /// identifier per key; identifiers are distinct; every unique or multi index records exactly
    /// the documents; every document is well formed; index names are distinct.
    pub open spec fn wf(&self) -> bool {
        coll_ok(self@)
    }

    /// The name.
    pub fn name(&self) -> (r: String)
        ensures
            r@ == self@.name,
    {
        self.name.clone()
    }

    /// The number of documents.
    pub fn count(&self) -> (r: usize)
        ensures
            r == self@.docs.len(),
    {
        self.documents.len()
    }

    /// Inserts `doc`, first giving it the identifier `fresh_id` when it has none. Refused, with
    /// the collection unchanged, when the identifier is empty or already stored, or when an
    /// index refuses the document.
    pub fn insert(&mut self, doc: Document, fresh_id: String) -> (r: Result<String, DbError>)
        requires
            old(self).wf(),
            doc.wf(),
        ensures
            final(self).wf(),
            match insert_outcome(old(self)@, assigned(doc@, fresh_id@)) {
                Ok(c) => r matches Ok(id) && id@ == assigned(doc@, fresh_id@).id && final(self)@ == c,
                Err(e) => r == Err::<String, DbError>(e) && final(self)@ == old(self)@,
            },
    {
        let ghost c_old = self@;
        let ghost d0 = doc@;
        let ghost f0 = fresh_id@;
        let ghost d = assigned(doc@, fresh_id@);
        let mut nd = doc;
        if !nd.has_id() {
            nd.generate_id(fresh_id);
            assert(nd@ =~= d);
        }
        assert(nd@ == d);
        if !nd.has_id() {
            return Err(DbError::MalformedInput);
        }
        if find_doc(&self.documents, nd.id()).is_some() {
            return Err(DbError::DuplicateId);
        }
        assert(doc_index(self@.docs, d.id) == -1);
        let ghost ixs = self@.indexes;
        let mut i: usize = 0;
        while i < self.indexes.len()
            invariant
                i <= self.indexes@.len(),
                ixs == indexes_view(self.indexes@),
                ixs == old(self)@.indexes,
                self@ == old(self)@,
                coll_ok(old(self)@),
                d == nd@,
                d0 == doc@,
                f0 == fresh_id@,
                d == assigned(d0, f0),
                d.id.len() > 0,
                doc_index(old(self)@.docs, d.id) == -1,
                indexes_wf(ixs),
                forall|j: int| 0 <= j < i ==> accepts(#[trigger] ixs[j], d),
            decreases self.indexes@.len() - i,
        {
            assert(index_wf(ixs[i as int]));
            if !self.indexes[i].accepts(&nd) {
                assert(!accepts(ixs[i as int], d));
                return Err(DbError::UniqueViolation);
            }
            i = i + 1;
        }
        let mut i: usize = 0;
        while i < self.indexes.len()
            invariant
                i <= self.indexes@.len(),
                self.indexes@.len() == ixs.len(),
                ixs == old(self)@.indexes,
                self.name@ == old(self)@.name,
                docs_view(self.documents@) == old(self)@.docs,
                d == nd@,
                d0 == doc@,
                f0 == fresh_id@,
                d == assigned(d0, f0),
                d.id.len() > 0,
                doc_index(old(self)@.docs, d.id) == -1,
                indexes_wf(ixs),
                indexes_wf(indexes_view(self.indexes@)),
                forall|j: int| 0 <= j < ixs.len() ==> accepts(#[trigger] ixs[j], d),
                forall|j: int| 0 <= j < i ==> #[trigger] self.indexes@[j]@ == added(ixs[j], d),
                forall|j: int| i <= j < ixs.len() ==> #[trigger] self.indexes@[j]@ == ixs[j],
            decreases self.indexes@.len() - i,
        {
            let ghost before = self.indexes@;
            let mut ix = self.indexes.remove(i);
            assert(ix@ == ixs[i as int]);
            assert(index_wf(ixs[i as int]));
            let _ok = ix.add_document(&nd);
            self.indexes.insert(i, ix);
            proof {
                assert(self.indexes@ =~= before.update(i as int, ix));
                assert forall|j: int| 0 <= j < self.indexes@.len() implies #[trigger] index_wf(indexes_view(self.indexes@)[j]) by {
                    if j != i {
                        assert(indexes_view(before)[j] == indexes_view(self.indexes@)[j]);
                    }
                }
            }
            i = i + 1;
        }
        let id = String::from_str(nd.id());
        let ghost docs0 = self@.docs;
        self.documents.push(nd);
        proof {
            assert(docs_view(self.documents@) =~= docs0.push(d));
            assert(indexes_view(self.indexes@) =~= Seq::new(ixs.len(), |j: int| added(ixs[j], d)));
            assert(!(exists|j: int| 0 <= j < ixs.len() && !accepts(ixs[j], d)));
            assert(self@ == insert_outcome(c_old, d)->Ok_0);
            law_insert_keeps_exact(c_old, d);
            assert(same_names(self@.indexes, c_old.indexes));
        }
        Ok(id)
    }

    fn scan(&self, query: &Query) -> (r: Vec<Document>)
        ensures
            docs_view(r@) == scan(self@.docs, query@),
    {
        scan_docs(&self.documents, query)
    }

    /// Position of the first index usable for `query`.
    fn find_usable_index(&self, query: &Query) -> (r: Option<usize>)
        ensures
            match r {
                Some(j) => usable_index(self@.indexes, query@) == j as int && j < self@.indexes.len(),
                None => usable_index(self@.indexes, query@) == -1,
            },
    {
        let ghost s = self@.indexes;
        let ghost p = |ix: IndexView| stands_in(ix, query@);
        let mut i: usize = 0;
        while i < self.indexes.len()
            invariant
                i <= self.indexes@.len(),
                s == indexes_view(self.indexes@),
                p == (|ix: IndexView| stands_in(ix, query@)),
                forall|j: int| 0 <= j < i ==> !p(#[trigger] s[j]),
            decreases self.indexes@.len() - i,
        {
            if self.indexes[i].stands_in_for_scan(query) {
                proof {
                    lemma_first_index(s, p, i as int);
                }
                return Some(i);
            }
            i = i + 1;
        }
        proof {
            lemma_first_index_none(s, p);
        }
        None
    }

    /// The documents that match `query`: through the first index that can stand in for a scan
    /// of it, or by a scan of all documents in order. In a well-formed collection these are the
    /// documents a scan finds, each as often.
    pub fn find(&self, query: &Query) -> (r: Vec<Document>)
        ensures
            docs_view(r@) == find_result(self@, query@),
            self.wf() ==> docs_view(r@).to_multiset() == scan(self@.docs, query@).to_multiset(),
    {
        proof {
            if self.wf() {
                crate::exact::law_find_matches_scan(self@, query@);
            }
        }
        match self.find_usable_index(query) {
            Some(j) => self.indexes[j].query(query, &self.documents),
            None => self.scan(query),
        }
    }

    /// The first document of `find(query)`, if any. In a well-formed collection there is one
    /// exactly when some document matches, and it is a matching document.
    pub fn find_one(&self, query: &Query) -> (r: Option<Document>)
        ensures
            match r {
                Some(d) => find_result(self@, query@).len() > 0 && d@ == find_result(self@, query@)[0],
                None => find_result(self@, query@).len() == 0,
            },
            self.wf() ==> (r is None <==> scan(self@.docs, query@).len() == 0),
            self.wf() ==> (r matches Some(d) ==> scan(self@.docs, query@).contains(d@)),
    {
        let mut all = self.find(query);
        proof {
            if self.wf() {
                broadcast use vstd::seq_lib::group_to_multiset_ensures;
                let sc = scan(self@.docs, query@);
                let fr = docs_view(all@);
                if sc.len() > 0 {
                    assert(sc.contains(sc[0]));
                    assert(sc.to_multiset().count(sc[0]) > 0);
                    assert(fr.to_multiset().count(sc[0]) > 0);
                    assert(fr.contains(sc[0]));
                }
                if fr.len() > 0 {
                    assert(fr.contains(fr[0]));
                    assert(fr.to_multiset().count(fr[0]) > 0);
                    assert(sc.to_multiset().count(fr[0]) > 0);
                    assert(sc.contains(fr[0]));
                }
            }
        }
        if all.len() == 0 {
            None
        } else {
            Some(all.remove(0))
        }
    }

    /// Deletes every document that matches `query`, from the last to the first, dropping each
    /// from every index; returns how many were deleted.
    pub fn delete(&mut self, query: &Query) -> (r: usize)
        requires
            old(self).wf(),
        ensures
            final(self).wf(),
            final(self)@.name == old(self)@.name,
            final(self)@.docs == keep(old(self)@.docs, query@),
            final(self)@.indexes == drop_matching(
                old(self)@.indexes,
                old(self)@.docs,
                query@,
                old(self)@.docs.len() as int,
            ),
            r == old(self)@.docs.len() - keep(old(self)@.docs, query@).len(),
    {
        let ghost docs0 = self@.docs;
        let ghost ixs0 = self@.indexes;
        let ghost n = docs0.len() as int;
        let mut i: usize = self.documents.len();
        let mut count: usize = 0;
        proof {
            assert(docs0.subrange(0, n) =~= docs0);
            assert(docs0.subrange(n, n) =~= Seq::<DocView>::empty());
            assert(docs_view(self.documents@) =~= docs0.subrange(0, n) + keep(docs0.subrange(n, n), query@));
        }
        while i > 0
            invariant
                i <= n,
                n == docs0.len(),
                n <= usize::MAX,
                docs0 == old(self)@.docs,
                ixs0 == old(self)@.indexes,
                self@.name == old(self)@.name,
                indexes_wf(self@.indexes),
                docs_view(self.documents@) == docs0.subrange(0, i as int) + keep(
                    docs0.subrange(i as int, n),
                    query@,
                ),
                drop_matching(ixs0, docs0, query@, n) == drop_matching(
                    self@.indexes,
                    docs0,
                    query@,
                    i as int,
                ),
                count == (n - i) - keep(docs0.subrange(i as int, n), query@).len(),
                keep(docs0.subrange(i as int, n), query@).len() <= n - i,
            decreases i,
        {
            i = i - 1;
            let ghost cur = docs_view(self.documents@);
            assert(cur.len() == self.documents@.len());
            assert(cur.len() >= i + 1);
            assert(cur[i as int] == docs0[i as int]);
            let ghost tail = docs0.subrange(i as int, n);
            let ghost rest = docs0.subrange(i as int + 1, n);
            proof {
                assert(tail.subrange(1, tail.len() as int) =~= rest);
                assert(tail[0] == docs0[i as int]);
                if conds_match(query@, docs0[i as int]) {
                    assert(keep(tail, query@) =~= keep(rest, query@));
                } else {
                    assert(keep(tail, query@) =~= seq![docs0[i as int]] + keep(rest, query@));
                }
            }
            if query.matches(&self.documents[i]) {
                unindex_all(&mut self.indexes, &self.documents[i]);
                let _gone = self.documents.remove(i);
                count = count + 1;
                proof {
                    assert(cur == docs0.subrange(0, i as int + 1) + keep(rest, query@));
                    assert(docs_view(self.documents@) =~= cur.remove(i as int));
                    assert(docs_view(self.documents@) =~= docs0.subrange(0, i as int) + keep(
                        tail,
                        query@,
                    ));
                }
            } else {
                proof {
                    assert(docs_view(self.documents@) =~= docs0.subrange(0, i as int) + keep(
                        tail,
                        query@,
                    ));
                }
            }
        }
        proof {
            assert(docs0.subrange(0, 0) + keep(docs0.subrange(0, n), query@) =~= keep(docs0, query@)) by {
                assert(docs0.subrange(0, n) =~= docs0);
            }
            law_delete_keeps_exact(old(self)@, query@);
            lemma_drop_matching_names(ixs0, docs0, query@, n);
            crate::exact::lemma_keep_distinct(docs0, query@);
            let kd = keep(docs0, query@);
            assert forall|i: int| 0 <= i < kd.len() implies doc_wf(#[trigger] kd[i]) by {
                assert(kd.contains(kd[i]));
                assert(docs0.contains(kd[i]));
                let j = choose|j: int| 0 <= j < docs0.len() && docs0[j] == kd[i];
                assert(doc_wf(docs0[j]));
            }
        }
        count
    }

    fn update_at(&mut self, i: usize, update: &Value) -> (r: Option<DbError>)
        requires
            old(self).wf(),
            i < old(self)@.docs.len(),
        ensures
            final(self).wf(),
            (final(self)@, r) == update_at(old(self)@, i as int, update@),
    {
        let ghost c = self@;
        let ghost d = c.docs[i as int];
        proof {
            lemma_update_at_exact(c, i as int, update@);
        }
        let mut nd = self.documents[i].copy();
        match nd.apply_update(update) {
            Err(e) => {
                return Some(e);
            },
            Ok(()) => {},
        }
        assert(nd@ == DocView { id: d.id, fields: update_result(d.fields, update@).0 });
        let mut j: usize = 0;
        while j < self.indexes.len()
            invariant
                j <= self.indexes@.len(),
                self@ == c,
                c == old(self)@,
                coll_ok(c),
                d == c.docs[i as int],
                i < c.docs.len(),
                indexes_wf(c.indexes),
                nd@ == (DocView { id: d.id, fields: update_result(d.fields, update@).0 }),
                update_result(d.fields, update@).1 is None,
                forall|k: int| 0 <= k < j ==> accepts(removed(#[trigger] c.indexes[k], d), nd@),
            decreases self.indexes@.len() - j,
        {
            let mut tmp = self.indexes[j].copy();
            assert(index_wf(c.indexes[j as int]));
            let _ok = tmp.remove_document(&self.documents[i]);
            if !tmp.accepts(&nd) {
                assert(!accepts(removed(c.indexes[j as int], d), nd@));
                return Some(DbError::UniqueViolation);
            }
            j = j + 1;
        }
        unindex_all(&mut self.indexes, &self.documents[i]);
        proof {
            assert forall|k: int| 0 <= k < self@.indexes.len() implies accepts(
                #[trigger] self@.indexes[k],
                nd@,
            ) by {
                assert(self@.indexes[k] == removed(c.indexes[k], d));
            }
        }
        index_all(&mut self.indexes, &nd);
        let _old = self.documents.remove(i);
        self.documents.insert(i, nd);
        proof {
            assert(docs_view(self.documents@) =~= c.docs.update(i as int, nd@));
            assert(self@.indexes =~= Seq::new(
                c.indexes.len(),
                |k: int| added(removed(c.indexes[k], d), nd@),
            ));
            assert(same_names(self@.indexes, c.indexes));
        }
        None
    }

    /// Applies the update spec `update` to every document that matches `query`, in order. A
    /// document whose update fails, or whose new keys an index refuses, is left as it was; the
    /// others are updated. Returns how many were updated, or the first error met.
    pub fn update(&mut self, query: &Query, update: &Value) -> (r: Result<usize, DbError>)
        requires
            old(self).wf(),
        ensures
            final(self).wf(),
            final(self)@ == update_upto(old(self)@, query@, update@, old(self)@.docs.len() as int).0,
            match update_upto(old(self)@, query@, update@, old(self)@.docs.len() as int).1 {
                Some(e) => r == Err::<usize, DbError>(e),
                None => r == Ok::<usize, DbError>(
                    update_upto(old(self)@, query@, update@, old(self)@.docs.len() as int).2 as usize,
                ),
            },
    {
        let ghost c0 = self@;
        let n = self.documents.len();
        let mut i: usize = 0;
        let mut count: usize = 0;
        let mut err: Option<DbError> = None;
        while i < n
            invariant
                n == c0.docs.len(),
                c0 == old(self)@,
                i <= n,
                self.wf(),
                self@.docs.len() == n,
                self@ == update_upto(c0, query@, update@, i as int).0,
                err == update_upto(c0, query@, update@, i as int).1,
                count == update_upto(c0, query@, update@, i as int).2,
                count <= i,
                forall|k: int| i <= k < n ==> #[trigger] self@.docs[k] == c0.docs[k],
            decreases n - i,
        {
            assert(self@.docs[i as int] == c0.docs[i as int]);
            if query.matches(&self.documents[i]) {
                let e = self.update_at(i, update);
                if err.is_none() {
                    err = e;
                }
                if e.is_none() {
                    count = count + 1;
                }
            }
            i = i + 1;
        }
        match err {
            Some(e) => Err(e),
            None => Ok(count),
        }
    }


    /// Position of the index named `name`.
    fn index_position(&self, name: &str) -> (r: Option<usize>)
        ensures
            match r {
                Some(j) => first_index(self@.indexes, |x: IndexView| x.name == name@) == j as int
                    && j < self@.indexes.len(),
                None => first_index(self@.indexes, |x: IndexView| x.name == name@) == -1,
            },
    {
        let ghost s = self@.indexes;
        let ghost p = |x: IndexView| x.name == name@;
        let mut i: usize = 0;
        while i < self.indexes.len()
            invariant
                i <= self.indexes@.len(),
                s == indexes_view(self.indexes@),
                p == (|x: IndexView| x.name == name@),
                forall|j: int| 0 <= j < i ==> !p(#[trigger] s[j]),
            decreases self.indexes@.len() - i,
        {
            if text_eq(self.indexes[i].name(), name) {
                proof {
                    lemma_first_index(s, p, i as int);
                }
                return Some(i);
            }
            i = i + 1;
        }
        proof {
            lemma_first_index_none(s, p);
        }
        None
    }

    /// Builds an index named `name` over `fields` of the kind named `kind` (`single`, `unique`
    /// or `multi`), fills it with every document in order, and installs it in place of an index
    /// of the same name. Nothing changes when the kind is unknown or the index refuses a
    /// document.
    pub fn create_index(&mut self, name: &str, fields: &Vec<String>, kind: &str) -> (r: Result<
        (),
        DbError,
    >)
        requires
            old(self).wf(),
        ensures
            final(self).wf(),
            match kind_of_name(kind@) {
                None => r == Err::<(), DbError>(DbError::UnknownIndexKind) && final(self)@ == old(self)@,
                Some(k) => match backfill(
                    IndexView {
                        name: name@,
                        fields: strs_view(fields@),
                        kind: k,
                        entries: Seq::empty(),
                    },
                    old(self)@.docs,
                ) {
                    Ok(ix) => r is Ok && final(self)@ == (CollView {
                        name: old(self)@.name,
                        docs: old(self)@.docs,
                        indexes: install(old(self)@.indexes, ix),
                    }),
                    Err(e) => r == Err::<(), DbError>(e) && final(self)@ == old(self)@,
                },
            },
    {
        let k = match IndexType::from_name(kind) {
            Some(k) => k,
            None => {
                return Err(DbError::UnknownIndexKind);
            },
        };
        let mut ix = Index::new(name, fields, k);
        let ghost ix0 = ix@;
        let ghost c_old = self@;
        if !backfill_index(&mut ix, &self.documents) {
            return Err(DbError::UniqueViolation);
        }
        let ghost old_ixs = self@.indexes;
        proof {
            assert((|x: IndexView| x.name == ix@.name) =~= (|x: IndexView| x.name == name@));
        }
        match self.index_position(name) {
            Some(j) => {
                let _old = self.indexes.remove(j);
                self.indexes.insert(j, ix);
                proof {
                    assert(indexes_view(self.indexes@) =~= old_ixs.update(j as int, ix@));
                    assert(crate::first::is_first(old_ixs, |x: IndexView| x.name == name@, j as int));
                    assert(same_names(self@.indexes, old_ixs));
                }
            },
            None => {
                self.indexes.push(ix);
                proof {
                    assert(indexes_view(self.indexes@) =~= old_ixs.push(ix@));
                    lemma_no_first(old_ixs, |x: IndexView| x.name == name@);
                    let n2 = self@.indexes;
                    assert forall|a: int, b: int| 0 <= a < n2.len() && 0 <= b < n2.len() && n2[a].name == n2[b].name implies a == b by {
                        if a < old_ixs.len() && b < old_ixs.len() {
                            assert(n2[a] == old_ixs[a] && n2[b] == old_ixs[b]);
                        } else if a < old_ixs.len() {
                            assert(n2[a] == old_ixs[a]);
                        } else if b < old_ixs.len() {
                            assert(n2[b] == old_ixs[b]);
                        }
                    }
                }
            },
        }
        proof {
            assert forall|j: int| 0 <= j < self@.indexes.len() implies #[trigger] index_wf(self@.indexes[j]) by {
                if self@.indexes[j] != ix@ {
                    assert(old_ixs.contains(self@.indexes[j]) || self@.indexes[j] == ix@);
                }
            }
            law_create_index_exact(c_old, ix0);
            assert(self@ == (CollView { name: c_old.name, docs: c_old.docs, indexes: install(c_old.indexes, ix@) }));
        }
        Ok(())
    }

    /// Removes the index named `name`; true when there was one.
    pub fn drop_index(&mut self, name: &str) -> (r: bool)
        requires
            old(self).wf(),
        ensures
            final(self).wf(),
            final(self)@.name == old(self)@.name,
            final(self)@.docs == old(self)@.docs,
            r == (first_index(old(self)@.indexes, |x: IndexView| x.name == name@) >= 0),
            final(self)@.indexes == if r {
                old(self)@.indexes.remove(first_index(old(self)@.indexes, |x: IndexView| x.name == name@))
            } else {
                old(self)@.indexes
            },
    {
        let ghost old_ixs = self@.indexes;
        match self.index_position(name) {
            Some(j) => {
                let _gone = self.indexes.remove(j);
                proof {
                    assert(indexes_view(self.indexes@) =~= old_ixs.remove(j as int));
                    assert forall|k: int| 0 <= k < self@.indexes.len() implies #[trigger] index_wf(self@.indexes[k]) by {
                        if k < j {
                            assert(self@.indexes[k] == old_ixs[k]);
                        } else {
                            assert(self@.indexes[k] == old_ixs[k + 1]);
                        }
                    }
                }
                true
            },
            None => false,
        }
    }

    /// The names of the indexes, in order.
    pub fn get_indexes(&self) -> (r: Vec<String>)
        ensures
            strs_view(r@) == Seq::new(self@.indexes.len(), |j: int| self@.indexes[j].name),
    {
        let mut out: Vec<String> = Vec::new();
        let mut i: usize = 0;
        while i < self.indexes.len()
            invariant
                i <= self.indexes@.len(),
                out@.len() == i,
                forall|j: int| 0 <= j < i ==> #[trigger] out@[j]@ == self@.indexes[j].name,
            decreases self.indexes@.len() - i,
        {
            out.push(String::from_str(self.indexes[i].name()));
            i = i + 1;
        }
        assert(strs_view(out@) =~= Seq::new(self@.indexes.len(), |j: int| self@.indexes[j].name));
        out
    }

    /// A copy of the documents, in order: what a snapshot of the collection holds.
    pub fn to_json(&self) -> (r: Vec<Document>)
        ensures
            docs_view(r@) == self@.docs,
    {
        let mut out: Vec<Document> = Vec::new();
        let mut i: usize = 0;
        while i < self.documents.len()
            invariant
                i <= self.documents@.len(),
                out@.len() == i,
                forall|j: int| 0 <= j < i ==> #[trigger] out@[j]@ == self.documents@[j]@,
            decreases self.documents@.len() - i,
        {
            out.push(self.documents[i].copy());
            i = i + 1;
        }
        assert(docs_view(out@) =~= self@.docs);
        out
    }

    /// Whether two of `docs` share an identifier.
    pub fn duplicate_ids(docs: &Vec<Document>) -> (r: bool)
        ensures
            r == has_duplicate_ids(docs_view(docs@)),
    {
        let ghost s = docs_view(docs@);
        let mut i: usize = 0;
        while i < docs.len()
            invariant
                i <= docs@.len(),
                s == docs_view(docs@),
                forall|a: int, b: int| 0 <= a < b < i ==> s[a].id != s[b].id,
            decreases docs@.len() - i,
        {
            let mut j: usize = 0;
            while j < i
                invariant
                    j <= i < docs@.len(),
                    s == docs_view(docs@),
                    forall|a: int| 0 <= a < j ==> s[a].id != s[i as int].id,
                decreases i - j,
            {
                if text_eq(docs[j].id(), docs[i].id()) {
                    assert(s[j as int].id == s[i as int].id);
                    return true;
                }
                j = j + 1;
            }
            i = i + 1;
        }
        false
    }

    /// Replaces the documents with `docs` and rebuilds every index from them in order. Nothing
    /// changes when two of `docs` share an identifier or an index refuses one of them.
    pub fn from_json(&mut self, docs: Vec<Document>) -> (r: Result<(), DbError>)
        requires
            old(self).wf(),
            forall|i: int| 0 <= i < docs@.len() ==> #[trigger] docs@[i].wf(),
        ensures
            final(self).wf(),
            match reload_outcome(old(self)@, docs_view(docs@)) {
                Ok(c) => r is Ok && final(self)@ == c,
                Err(e) => r == Err::<(), DbError>(e) && final(self)@ == old(self)@,
            },
    {
        let ghost ds = docs_view(docs@);
        if Collection::duplicate_ids(&docs) {
            return Err(DbError::DuplicateId);
        }
        let ghost c = self@;
        let mut rebuilt_ixs: Vec<Index> = Vec::new();
        let mut i: usize = 0;
        while i < self.indexes.len()
            invariant
                i <= self.indexes@.len(),
                self@ == c,
                c == old(self)@,
                coll_ok(c),
                ds == docs_view(docs@),
                !has_duplicate_ids(ds),
                rebuilt_ixs@.len() == i,
                indexes_wf(indexes_view(rebuilt_ixs@)),
                forall|j: int| 0 <= j < i ==> rebuilt(c.indexes, ds)[j] is Ok,
                forall|j: int|
                    0 <= j < i ==> #[trigger] rebuilt_ixs@[j]@ == rebuilt(c.indexes, ds)[j]->Ok_0,
            decreases self.indexes@.len() - i,
        {
            let mut ix = self.indexes[i].copy();
            ix.clear();
            assert(ix@ == with_entries(c.indexes[i as int], Seq::empty()));
            if !backfill_index(&mut ix, &docs) {
                assert(rebuilt(c.indexes, ds)[i as int] is Err);
                return Err(DbError::UniqueViolation);
            }
            let ghost before = rebuilt_ixs@;
            rebuilt_ixs.push(ix);
            proof {
                assert forall|j: int| 0 <= j < rebuilt_ixs@.len() implies #[trigger] index_wf(indexes_view(rebuilt_ixs@)[j]) by {
                    if j < i {
                        assert(indexes_view(before)[j] == indexes_view(rebuilt_ixs@)[j]);
                    }
                }
            }
            i = i + 1;
        }
        self.indexes = rebuilt_ixs;
        self.documents = docs;
        proof {
            assert(!(exists|j: int| 0 <= j < c.indexes.len() && rebuilt(c.indexes, ds)[j] is Err));
            assert(indexes_view(self.indexes@) =~= Seq::new(
                c.indexes.len(),
                |j: int| rebuilt(c.indexes, ds)[j]->Ok_0,
            ));
            law_reload_exact(c, ds);
            assert forall|j: int| 0 <= j < c.indexes.len() implies #[trigger] self@.indexes[j].name == c.indexes[j].name by {
                lemma_backfill_kind(with_entries(c.indexes[j], Seq::empty()), ds);
            }
            assert(same_names(self@.indexes, c.indexes));
            assert forall|i: int| 0 <= i < ds.len() implies doc_wf(#[trigger] ds[i]) by {
                assert(docs@[i].wf());
            }
        }
        Ok(())
    }

    /// A copy of this collection.
    pub fn copy(&self) -> (r: Collection)
        ensures
            r@ == self@,
    {
        let docs = self.to_json();
        let mut ixs: Vec<Index> = Vec::new();
        let mut i: usize = 0;
        while i < self.indexes.len()
            invariant
                i <= self.indexes@.len(),
                ixs@.len() == i,
                forall|j: int| 0 <= j < i ==> #[trigger] ixs@[j]@ == self.indexes@[j]@,
            decreases self.indexes@.len() - i,
        {
            ixs.push(self.indexes[i].copy());
            i = i + 1;
        }
        assert(indexes_view(ixs@) =~= indexes_view(self.indexes@));
        Collection { name: self.name.clone(), documents: docs, indexes: ixs }
    }

}

} // verus!
