use vstd::prelude::*;
use crate::document::{DocView, Document, doc_get};
use crate::error::DbError;
use crate::first::{first_index, lemma_first_index, lemma_first_index_none};
use crate::keytext::{key_text, null_text, value_key_text};
use crate::collection::scan;
use crate::exact::index_shaped;
use crate::laws::{ids_distinct, index_exact, law_index_path_matches_scan};
use crate::query::{Query, conds_match, eq_operand, simple_equality};
use crate::value::{Value, Json, key_index, lemma_key_index, lemma_key_missing, lookup, put, remove_key, text_eq};

verus! {

/// How an index treats documents that share a key.
#[derive(Clone, Copy, Debug, PartialEq, Eq, Structural)]
pub enum IndexType {
    /// The last document written under a key is the one kept.
    Single,
    /// A second document under a key that another document holds is refused.
    Unique,
    /// Every document under a key is kept.
    Multi,
}

impl IndexType {
    /// The kind named `single`, `unique` or `multi`.
    pub fn from_name(s: &str) -> (r: Option<IndexType>)
        ensures
            r == kind_of_name(s@),
    {
        if text_eq(s, "single") {
            Some(IndexType::Single)
        } else if text_eq(s, "unique") {
            Some(IndexType::Unique)
        } else if text_eq(s, "multi") {
            Some(IndexType::Multi)
        } else {
            None
        }
    }
}

pub open spec fn kind_of_name(s: Seq<char>) -> Option<IndexType> {
    if s == "single"@ {
        Some(IndexType::Single)
    } else if s == "unique"@ {
        Some(IndexType::Unique)
    } else if s == "multi"@ {
        Some(IndexType::Multi)
    } else {
        None
    }
}

/// The abstract content of an index: its name, its fields, its kind, and for each key the
/// identifiers recorded under it.
pub ghost struct IndexView {
    pub name: Seq<char>,
    pub fields: Seq<Seq<char>>,
    pub kind: IndexType,
    pub entries: Seq<(Seq<char>, Seq<Seq<char>>)>,
}

/// A secondary index over one or more fields, from key text to document identifiers.
#[derive(Debug)]
pub struct Index {
    name: String,
    fields: Vec<String>,
    index_type: IndexType,
    entries: Vec<(String, Vec<String>)>,
}

pub open spec fn strs_view(v: Seq<String>) -> Seq<Seq<char>> {
    Seq::new(v.len(), |i: int| v[i]@)
}

pub open spec fn ientries_view(e: Seq<(String, Vec<String>)>) -> Seq<(Seq<char>, Seq<Seq<char>>)> {
    Seq::new(e.len(), |i: int| (e[i].0@, strs_view(e[i].1@)))
}

impl View for Index {
    type V = IndexView;

    closed spec fn view(&self) -> IndexView {
        IndexView {
            name: self.name@,
            fields: strs_view(self.fields@),
            kind: self.index_type,
            entries: ientries_view(self.entries@),
        }
    }
}

/// No key is recorded with an empty list of identifiers.
pub open spec fn entries_wf(es: Seq<(Seq<char>, Seq<Seq<char>>)>) -> bool {
    forall|i: int| 0 <= i < es.len() ==> #[trigger] es[i].1.len() > 0
}

/// No key has an empty identifier list, and a single or unique index holds exactly one
/// identifier per key.
pub open spec fn index_wf(ix: IndexView) -> bool {
    &&& entries_wf(ix.entries)
    &&& ix.kind != IndexType::Multi ==> forall|i: int|
        0 <= i < ix.entries.len() ==> #[trigger] ix.entries[i].1.len() == 1
}

/// The text of the value of field `f` of `d` in a key; a missing field counts as `null`.
pub open spec fn field_text(d: DocView, f: Seq<char>) -> Seq<char> {
    match doc_get(d, f) {
        Some(v) => key_text(v),
        None => null_text(),
    }
}

/// The texts of the fields `fs` of `d`, separated by `|`.
pub open spec fn joined_text(fs: Seq<Seq<char>>, d: DocView) -> Seq<char>
    decreases fs.len(),
{
    if fs.len() == 0 {
        Seq::empty()
    } else {
        let pre = joined_text(fs.drop_last(), d);
        (if fs.len() > 1 {
            pre.push('|')
        } else {
            pre
        }) + field_text(d, fs.last())
    }
}

/// The key of document `d` in an index over the fields `fs`.
pub open spec fn index_key(fs: Seq<Seq<char>>, d: DocView) -> Seq<char> {
    joined_text(fs, d)
}

/// The entries after recording identifier `id` under `key`.
pub open spec fn index_add(
    kind: IndexType,
    es: Seq<(Seq<char>, Seq<Seq<char>>)>,
    key: Seq<char>,
    id: Seq<char>,
) -> Result<Seq<(Seq<char>, Seq<Seq<char>>)>, DbError> {
    match lookup(es, key) {
        Some(ids) => if kind == IndexType::Multi {
            Ok(
                if ids.contains(id) {
                    es
                } else {
                    put(es, key, ids.push(id))
                },
            )
        } else if kind == IndexType::Unique && ids[0] != id {
            Err(DbError::UniqueViolation)
        } else {
            Ok(put(es, key, seq![id]))
        },
        None => Ok(es.push((key, seq![id]))),
    }
}

/// `ids` without the identifier `id`.
pub open spec fn without(ids: Seq<Seq<char>>, id: Seq<char>) -> Seq<Seq<char>>
    decreases ids.len(),
{
    if ids.len() == 0 {
        ids
    } else {
        let pre = without(ids.drop_last(), id);
        if ids.last() == id {
            pre
        } else {
            pre.push(ids.last())
        }
    }
}

/// The entries after dropping identifier `id` from `key`; a key left without identifiers is
/// dropped.
pub open spec fn index_remove(
    kind: IndexType,
    es: Seq<(Seq<char>, Seq<Seq<char>>)>,
    key: Seq<char>,
    id: Seq<char>,
) -> Seq<(Seq<char>, Seq<Seq<char>>)> {
    match lookup(es, key) {
        Some(ids) => if kind == IndexType::Multi {
            let rest = without(ids, id);
            if rest.len() == 0 {
                remove_key(es, key)
            } else {
                put(es, key, rest)
            }
        } else if ids[0] == id {
            remove_key(es, key)
        } else {
            es
        },
        None => es,
    }
}

/// The value that the condition on `f` pins the field to, if it pins it.
pub open spec fn pinned_value(q: Seq<(Seq<char>, Json)>, f: Seq<char>) -> Option<Json> {
    if simple_equality(q, f) {
        lookup(q, f)
    } else {
        eq_operand(q, f)
    }
}

/// Position of the first field of `fs` that `q` pins, or -1.
pub open spec fn first_usable(fs: Seq<Seq<char>>, q: Seq<(Seq<char>, Json)>) -> int {
    first_index(fs, |f: Seq<char>| pinned_value(q, f) is Some)
}

/// The identifiers that an index offers for `q`: those under the key of the first pinned
/// field's value.
pub open spec fn candidate_ids(ix: IndexView, q: Seq<(Seq<char>, Json)>) -> Seq<Seq<char>> {
    let i = first_usable(ix.fields, q);
    if i >= 0 {
        match lookup(ix.entries, key_text(pinned_value(q, ix.fields[i])->0)) {
            Some(ids) => ids,
            None => Seq::empty(),
        }
    } else {
        Seq::empty()
    }
}

/// The index can stand in for a scan: a unique or multi index over one field whose name is
/// not a combinator keyword. (A single index keeps only the last writer of a key, and a
/// compound key is not the text of one pinned value.)
pub open spec fn index_sound(ix: IndexView) -> bool {
    &&& ix.kind != IndexType::Single
    &&& ix.fields.len() == 1
    &&& ix.fields[0] != "$and"@
    &&& ix.fields[0] != "$or"@
    &&& ix.fields[0] != "$not"@
}

/// A value that is neither an array nor an object: its key text is equal exactly for equal
/// values.
pub open spec fn is_scalar(j: Json) -> bool {
    !(j is Arr) && !(j is Obj)
}

/// The index can stand in for a scan of `q`: it can in general, and `q` pins its field to a
/// value that is neither an array nor an object.
pub open spec fn stands_in(ix: IndexView, q: Seq<(Seq<char>, Json)>) -> bool {
    index_sound(ix) && first_usable(ix.fields, q) >= 0 && is_scalar(
        pinned_value(q, ix.fields[first_usable(ix.fields, q)])->0,
    )
}

/// The documents of `docs` that match `query`, in order.
pub fn scan_docs(docs: &Vec<Document>, query: &Query) -> (r: Vec<Document>)
    ensures
        docs_view(r@) == scan(docs_view(docs@), query@),
{
    let ghost s = docs_view(docs@);
    let mut out: Vec<Document> = Vec::new();
    let mut i: usize = 0;
    proof {
        assert(docs_view(out@) =~= scan(s.subrange(0, 0), query@));
    }
    while i < docs.len()
        invariant
            i <= docs@.len(),
            s == docs_view(docs@),
            docs_view(out@) == scan(s.subrange(0, i as int), query@),
        decreases docs@.len() - i,
    {
        proof {
            assert(s.subrange(0, i as int + 1).drop_last() =~= s.subrange(0, i as int));
        }
        if query.matches(&docs[i]) {
            let ghost before = out@;
            out.push(docs[i].copy());
            assert(docs_view(out@) =~= docs_view(before).push(s[i as int]));
        }
        i = i + 1;
    }
    proof {
        assert(s.subrange(0, s.len() as int) =~= s);
    }
    out
}

/// Position of the first document of `docs` with identifier `id`, or -1.
pub open spec fn doc_index(docs: Seq<DocView>, id: Seq<char>) -> int {
    first_index(docs, |d: DocView| d.id == id)
}

/// The documents of `docs` named by `ids`, in the order of `ids`, that match `q`.
pub open spec fn resolve(ids: Seq<Seq<char>>, docs: Seq<DocView>, q: Seq<(Seq<char>, Json)>) -> Seq<
    DocView,
>
    decreases ids.len(),
{
    if ids.len() == 0 {
        Seq::empty()
    } else {
        let pre = resolve(ids.drop_last(), docs, q);
        let i = doc_index(docs, ids.last());
        if i >= 0 && conds_match(q, docs[i]) {
            pre.push(docs[i])
        } else {
            pre
        }
    }
}

pub open spec fn docs_view(v: Seq<Document>) -> Seq<DocView> {
    Seq::new(v.len(), |i: int| v[i]@)
}

/// Position of the first document of `docs` with identifier `id`.
pub fn find_doc(docs: &Vec<Document>, id: &str) -> (r: Option<usize>)
    ensures
        match r {
            Some(i) => doc_index(docs_view(docs@), id@) == i as int,
            None => doc_index(docs_view(docs@), id@) == -1,
        },
{
    let ghost s = docs_view(docs@);
    let ghost p = |d: DocView| d.id == id@;
    let mut i: usize = 0;
    while i < docs.len()
        invariant
            i <= docs@.len(),
            s == docs_view(docs@),
            p == (|d: DocView| d.id == id@),
            forall|j: int| 0 <= j < i ==> !p(#[trigger] s[j]),
        decreases docs@.len() - i,
    {
        if text_eq(docs[i].id(), id) {
            proof {
                lemma_first_index(s, p, i as int);
            }
            return Some(i);
        }
        i = i + 1;
    }
    proof {
        lemma_first_index_none(s, p);
    }
    None
}

fn find_key(es: &Vec<(String, Vec<String>)>, key: &str) -> (r: Option<usize>)
    ensures
        match r {
            Some(i) => key_index(ientries_view(es@), key@) == i as int,
            None => key_index(ientries_view(es@), key@) == -1,
        },
{
    let ghost s = ientries_view(es@);
    let mut i: usize = 0;
    while i < es.len()
        invariant
            0 <= i <= es@.len(),
            s == ientries_view(es@),
            crate::value::key_absent_before(s, key@, i as int),
        decreases es@.len() - i,
    {
        if text_eq(es[i].0.as_str(), key) {
            proof {
                lemma_key_index(s, key@, i as int);
            }
            return Some(i);
        }
        i = i + 1;
    }
    proof {
        lemma_key_missing(s, key@);
    }
    None
}

fn copy_strs(v: &Vec<String>) -> (r: Vec<String>)
    ensures
        strs_view(r@) == strs_view(v@),
{
    let mut out: Vec<String> = Vec::new();
    let mut i: usize = 0;
    while i < v.len()
        invariant
            i <= v@.len(),
            out@.len() == i,
            forall|j: int| 0 <= j < i ==> out@[j]@ == v@[j]@,
        decreases v@.len() - i,
    {
        out.push(v[i].clone());
        i = i + 1;
    }
    assert(strs_view(out@) =~= strs_view(v@));
    out
}

fn contains_str(v: &Vec<String>, x: &str) -> (r: bool)
    ensures
        r == strs_view(v@).contains(x@),
{
    let mut i: usize = 0;
    while i < v.len()
        invariant
            i <= v@.len(),
            forall|j: int| 0 <= j < i ==> v@[j]@ != x@,
        decreases v@.len() - i,
    {
        if text_eq(v[i].as_str(), x) {
            assert(strs_view(v@)[i as int] == x@);
            return true;
        }
        i = i + 1;
    }
    assert(!strs_view(v@).contains(x@)) by {
        if strs_view(v@).contains(x@) {
            let j = choose|j: int| 0 <= j < strs_view(v@).len() && strs_view(v@)[j] == x@;
            assert(v@[j]@ == x@);
        }
    }
    false
}

fn strs_without(v: &Vec<String>, x: &str) -> (r: Vec<String>)
    ensures
        strs_view(r@) == without(strs_view(v@), x@),
{
    let ghost s = strs_view(v@);
    let mut out: Vec<String> = Vec::new();
    let mut i: usize = 0;
    proof {
        assert(strs_view(out@) =~= without(s.subrange(0, 0), x@));
    }
    while i < v.len()
        invariant
            i <= v@.len(),
            s == strs_view(v@),
            strs_view(out@) == without(s.subrange(0, i as int), x@),
        decreases v@.len() - i,
    {
        proof {
            assert(s.subrange(0, i as int + 1).drop_last() =~= s.subrange(0, i as int));
        }
        if !text_eq(v[i].as_str(), x) {
            let ghost before = out@;
            out.push(v[i].clone());
            assert(strs_view(out@) =~= strs_view(before).push(v@[i as int]@));
        }
        i = i + 1;
    }
    proof {
        assert(s.subrange(0, s.len() as int) =~= s);
    }
    out
}

fn single_id(id: &str) -> (r: Vec<String>)
    ensures
        strs_view(r@) == seq![id@],
{
    let mut v: Vec<String> = Vec::new();
    v.push(String::from_str(id));
    assert(strs_view(v@) =~= seq![id@]);
    v
}

impl Index {
    /// An empty index named `name` over `fields`.
    pub fn new(name: &str, fields: &Vec<String>, index_type: IndexType) -> (r: Index)
        ensures
            r@.name == name@,
            r@.fields == strs_view(fields@),
            r@.kind == index_type,
            r@.entries == Seq::<(Seq<char>, Seq<Seq<char>>)>::empty(),
    {
        let r = Index {
            name: String::from_str(name),
            fields: copy_strs(fields),
            index_type,
            entries: Vec::new(),
        };
        assert(ientries_view(r.entries@) =~= Seq::<(Seq<char>, Seq<Seq<char>>)>::empty());
        r
    }

    /// The name.
    pub fn name(&self) -> (r: &str)
        ensures
            r@ == self@.name,
    {
        self.name.as_str()
    }

    /// The kind.
    pub fn index_type(&self) -> (r: IndexType)
        ensures
            r == self@.kind,
    {
        self.index_type
    }

    /// The indexed fields.
    pub fn fields(&self) -> (r: &Vec<String>)
        ensures
            strs_view(r@) == self@.fields,
    {
        &self.fields
    }

    /// The recorded keys and identifiers.
    pub fn entries(&self) -> (r: &Vec<(String, Vec<String>)>)
        ensures
            ientries_view(r@) == self@.entries,
    {
        &self.entries
    }

    /// No key has an empty identifier list, and a single or unique index holds exactly one
    /// identifier per key.
    pub open spec fn wf(&self) -> bool {
        index_wf(self@)
    }

    /// The key of `doc` in this index.
    pub fn key_for(&self, doc: &Document) -> (r: String)
        ensures
            r@ == index_key(self@.fields, doc@),
    {
        let ghost fs = strs_view(self.fields@);
        let mut out = String::new();
        let mut i: usize = 0;
        proof {
            assert(fs.subrange(0, 0) =~= Seq::<Seq<char>>::empty());
        }
        while i < self.fields.len()
            invariant
                i <= self.fields@.len(),
                fs == strs_view(self.fields@),
                out@ == joined_text(fs.subrange(0, i as int), doc@),
            decreases self.fields@.len() - i,
        {
            proof {
                reveal_strlit("|");
                assert(fs.subrange(0, i as int + 1).drop_last() =~= fs.subrange(0, i as int));
            }
            let ghost pre = out@;
            if i > 0 {
                out.append("|");
            }
            let part = match doc.get(self.fields[i].as_str()) {
                Some(v) => value_key_text(&v),
                None => {
                    proof {
                        reveal_strlit("null");
                    }
                    String::from_str("null")
                },
            };
            out.append(part.as_str());
            proof {
                assert(out@ =~= joined_text(fs.subrange(0, i as int + 1), doc@));
            }
            i = i + 1;
        }
        proof {
            assert(fs.subrange(0, fs.len() as int) =~= fs);
        }
        out
    }

    /// Records `doc` under its key. A unique index refuses a key that another document holds.
    pub fn add_document(&mut self, doc: &Document) -> (r: Result<(), DbError>)
        requires
            old(self).wf(),
        ensures
            final(self).wf(),
            final(self)@.name == old(self)@.name,
            final(self)@.fields == old(self)@.fields,
            final(self)@.kind == old(self)@.kind,
            match index_add(
                old(self)@.kind,
                old(self)@.entries,
                index_key(old(self)@.fields, doc@),
                doc@.id,
            ) {
                Ok(es) => r is Ok && final(self)@.entries == es,
                Err(e) => r == Err::<(), DbError>(e) && final(self)@.entries == old(self)@.entries,
            },
    {
        let key = self.key_for(doc);
        let id = doc.id();
        let ghost es = ientries_view(self.entries@);
        match find_key(&self.entries, key.as_str()) {
            Some(i) => {
                assert(es[i as int].1.len() > 0);
                if self.index_type == IndexType::Multi {
                    if contains_str(&self.entries[i].1, id) {
                        return Ok(());
                    }
                    let mut ids = copy_strs(&self.entries[i].1);
                    let ghost before = ids@;
                    ids.push(String::from_str(id));
                    assert(strs_view(ids@) =~= strs_view(before).push(id@));
                    let _old = self.entries.remove(i);
                    self.entries.insert(i, (key, ids));
                    assert(ientries_view(self.entries@) =~= es.update(
                        i as int,
                        (es[i as int].0, es[i as int].1.push(id@)),
                    ));
                } else {
                    if self.index_type == IndexType::Unique && !text_eq(
                        self.entries[i].1[0].as_str(),
                        id,
                    ) {
                        return Err(DbError::UniqueViolation);
                    }
                    let ids = single_id(id);
                    let _old = self.entries.remove(i);
                    self.entries.insert(i, (key, ids));
                    assert(ientries_view(self.entries@) =~= es.update(
                        i as int,
                        (es[i as int].0, seq![id@]),
                    ));
                }
            },
            None => {
                let ids = single_id(id);
                self.entries.push((key, ids));
                assert(ientries_view(self.entries@) =~= es.push((key@, seq![id@])));
            },
        }
        Ok(())
    }

    /// Drops `doc` from its key: the key's identifier if it is `doc`'s (single, unique), or
    /// `doc`'s identifier from the key's list (multi), dropping a key left empty: in a shaped
    /// multi index, dropping the last identifier of a key drops the key.
    pub fn remove_document(&mut self, doc: &Document) -> (r: Result<(), DbError>)
        requires
            old(self).wf(),
        ensures
            r is Ok,
            final(self).wf(),
            final(self)@.name == old(self)@.name,
            final(self)@.fields == old(self)@.fields,
            final(self)@.kind == old(self)@.kind,
            final(self)@.entries == index_remove(
                old(self)@.kind,
                old(self)@.entries,
                index_key(old(self)@.fields, doc@),
                doc@.id,
            ),
            index_shaped(old(self)@) && old(self)@.kind == IndexType::Multi && lookup(
                old(self)@.entries,
                index_key(old(self)@.fields, doc@),
            ) == Some(seq![doc@.id]) ==> lookup(
                final(self)@.entries,
                index_key(old(self)@.fields, doc@),
            ) is None,
    {
        proof {
            let k = index_key(self@.fields, doc@);
            if index_shaped(self@) && self@.kind == IndexType::Multi && lookup(self@.entries, k) == Some(seq![doc@.id]) {
                let l = seq![doc@.id];
                assert(l.drop_last() =~= Seq::<Seq<char>>::empty());
                assert(without(l.drop_last(), doc@.id) =~= Seq::<Seq<char>>::empty());
                assert(without(l, doc@.id).len() == 0);
                crate::value::lemma_lookup_remove_key(self@.entries, k);
            }
        }
        let key = self.key_for(doc);
        let id = doc.id();
        let ghost es = ientries_view(self.entries@);
        match find_key(&self.entries, key.as_str()) {
            Some(i) => {
                assert(es[i as int].1.len() > 0);
                if self.index_type == IndexType::Multi {
                    let rest = strs_without(&self.entries[i].1, id);
                    if rest.len() == 0 {
                        let _old = self.entries.remove(i);
                        assert(ientries_view(self.entries@) =~= es.remove(i as int));
                    } else {
                        let _old = self.entries.remove(i);
                        self.entries.insert(i, (key, rest));
                        assert(ientries_view(self.entries@) =~= es.update(
                            i as int,
                            (es[i as int].0, without(es[i as int].1, id@)),
                        ));
                    }
                } else if text_eq(self.entries[i].1[0].as_str(), id) {
                    let _old = self.entries.remove(i);
                    assert(ientries_view(self.entries@) =~= es.remove(i as int));
                }
            },
            None => {},
        }
        Ok(())
    }

    /// Whether `add_document` would record `doc` rather than refuse it.
    pub fn accepts(&self, doc: &Document) -> (r: bool)
        requires
            self.wf(),
        ensures
            r == index_add(self@.kind, self@.entries, index_key(self@.fields, doc@), doc@.id) is Ok,
    {
        let key = self.key_for(doc);
        let ghost es = ientries_view(self.entries@);
        match find_key(&self.entries, key.as_str()) {
            Some(i) => {
                assert(es[i as int].1.len() > 0);
                !(self.index_type == IndexType::Unique && !text_eq(
                    self.entries[i].1[0].as_str(),
                    doc.id(),
                ))
            },
            None => true,
        }
    }

    /// A copy of this index.
    pub fn copy(&self) -> (r: Index)
        ensures
            r@ == self@,
    {
        let mut entries: Vec<(String, Vec<String>)> = Vec::new();
        let mut i: usize = 0;
        while i < self.entries.len()
            invariant
                i <= self.entries@.len(),
                entries@.len() == i,
                forall|j: int|
                    0 <= j < i ==> entries@[j].0@ == self.entries@[j].0@ && strs_view(
                        entries@[j].1@,
                    ) == strs_view(self.entries@[j].1@),
            decreases self.entries@.len() - i,
        {
            entries.push((self.entries[i].0.clone(), copy_strs(&self.entries[i].1)));
            i = i + 1;
        }
        assert(ientries_view(entries@) =~= ientries_view(self.entries@));
        Index {
            name: self.name.clone(),
            fields: copy_strs(&self.fields),
            index_type: self.index_type,
            entries,
        }
    }

    /// Drops every recorded key.
    pub fn clear(&mut self)
        ensures
            final(self).wf(),
            final(self)@.name == old(self)@.name,
            final(self)@.fields == old(self)@.fields,
            final(self)@.kind == old(self)@.kind,
            final(self)@.entries == Seq::<(Seq<char>, Seq<Seq<char>>)>::empty(),
    {
        self.entries.clear();
        assert(ientries_view(self.entries@) =~= Seq::<(Seq<char>, Seq<Seq<char>>)>::empty());
    }

    /// The first indexed field that `query` pins to a value, if any.
    pub fn can_use_for_query(&self, query: &Query) -> (r: Option<&str>)
        ensures
            match r {
                Some(f) => first_usable(self@.fields, query@) >= 0 && f@ == self@.fields[first_usable(
                    self@.fields,
                    query@,
                )],
                None => first_usable(self@.fields, query@) == -1,
            },
    {
        match self.usable_position(query) {
            Some(i) => Some(self.fields[i].as_str()),
            None => None,
        }
    }

    fn usable_position(&self, query: &Query) -> (r: Option<usize>)
        ensures
            match r {
                Some(i) => first_usable(self@.fields, query@) == i as int && i < self@.fields.len(),
                None => first_usable(self@.fields, query@) == -1,
            },
    {
        let ghost fs = strs_view(self.fields@);
        let ghost p = |f: Seq<char>| pinned_value(query@, f) is Some;
        let mut i: usize = 0;
        while i < self.fields.len()
            invariant
                i <= self.fields@.len(),
                fs == strs_view(self.fields@),
                p == (|f: Seq<char>| pinned_value(query@, f) is Some),
                forall|j: int| 0 <= j < i ==> !p(#[trigger] fs[j]),
            decreases self.fields@.len() - i,
        {
            let f = self.fields[i].as_str();
            if query.has_simple_equality(f) || query.has_equality_operator(f).is_some() {
                proof {
                    lemma_first_index(fs, p, i as int);
                }
                return Some(i);
            }
            i = i + 1;
        }
        proof {
            lemma_first_index_none(fs, p);
        }
        None
    }

    /// The identifiers this index offers for `query`.
    pub fn candidates(&self, query: &Query) -> (r: Vec<String>)
        ensures
            strs_view(r@) == candidate_ids(self@, query@),
    {
        match self.usable_position(query) {
            Some(i) => {
                let f = self.fields[i].as_str();
                let value = if query.has_simple_equality(f) {
                    query.get_field_value(f)
                } else {
                    query.has_equality_operator(f)
                };
                match value {
                    Some(v) => {
                        let key = value_key_text(v);
                        match find_key(&self.entries, key.as_str()) {
                            Some(k) => copy_strs(&self.entries[k].1),
                            None => {
                                let e: Vec<String> = Vec::new();
                                assert(strs_view(e@) =~= Seq::<Seq<char>>::empty());
                                e
                            },
                        }
                    },
                    None => {
                        let e: Vec<String> = Vec::new();
                        assert(strs_view(e@) =~= Seq::<Seq<char>>::empty());
                        e
                    },
                }
            },
            None => {
                let e: Vec<String> = Vec::new();
                assert(strs_view(e@) =~= Seq::<Seq<char>>::empty());
                e
            },
        }
    }

    /// Whether this index can stand in for a scan.
    pub fn is_sound(&self) -> (r: bool)
        ensures
            r == index_sound(self@),
    {
        self.index_type != IndexType::Single && self.fields.len() == 1 && !text_eq(
            self.fields[0].as_str(),
            "$and",
        ) && !text_eq(self.fields[0].as_str(), "$or") && !text_eq(self.fields[0].as_str(), "$not")
    }

    /// Whether this index can stand in for a scan of `query`.
    pub fn stands_in_for_scan(&self, query: &Query) -> (r: bool)
        ensures
            r == stands_in(self@, query@),
    {
        self.is_sound() && self.pins_scalar(query)
    }

    /// Whether `query` pins an indexed field, the first one it pins to a scalar.
    fn pins_scalar(&self, query: &Query) -> (r: bool)
        ensures
            r == (first_usable(self@.fields, query@) >= 0 && is_scalar(
                pinned_value(query@, self@.fields[first_usable(self@.fields, query@)])->0,
            )),
    {
        match self.usable_position(query) {
            Some(i) => {
                let f = self.fields[i].as_str();
                let value = if query.has_simple_equality(f) {
                    query.get_field_value(f)
                } else {
                    query.has_equality_operator(f)
                };
                match value {
                    Some(v) => match v {
                        Value::Array(_) => false,
                        Value::Object(_) => false,
                        _ => true,
                    },
                    None => false,
                }
            },
            None => false,
        }
    }

    /// The documents of `docs` that this index offers for `query` (fetched by identifier) and
    /// that match it, in the order of their identifiers under the key. When the index is shaped,
    /// records exactly `docs`, identifiers are distinct and the index can stand in for a scan of
    /// `query`, these are the documents a scan finds, each once.
    pub fn query(&self, query: &Query, docs: &Vec<Document>) -> (r: Vec<Document>)
        ensures
            docs_view(r@) == resolve(candidate_ids(self@, query@), docs_view(docs@), query@),
            ids_distinct(docs_view(docs@)) && index_shaped(self@) && index_exact(self@, docs_view(docs@))
                && stands_in(self@, query@) ==> docs_view(r@).to_multiset() == scan(
                docs_view(docs@),
                query@,
            ).to_multiset(),
    {
        proof {
            if ids_distinct(docs_view(docs@)) && index_shaped(self@) && index_exact(self@, docs_view(docs@))
                && stands_in(self@, query@) {
                let pf = |g: Seq<char>| pinned_value(query@, g) is Some;
                assert(crate::first::is_first(self@.fields, pf, first_usable(self@.fields, query@)));
                law_index_path_matches_scan(self@, docs_view(docs@), query@);
            }
        }
        let ids = self.candidates(query);
        let ghost s = strs_view(ids@);
        let ghost dv = docs_view(docs@);
        let mut out: Vec<Document> = Vec::new();
        let mut i: usize = 0;
        proof {
            assert(docs_view(out@) =~= resolve(s.subrange(0, 0), dv, query@));
        }
        while i < ids.len()
            invariant
                i <= ids@.len(),
                s == strs_view(ids@),
                dv == docs_view(docs@),
                docs_view(out@) == resolve(s.subrange(0, i as int), dv, query@),
            decreases ids@.len() - i,
        {
            proof {
                assert(s.subrange(0, i as int + 1).drop_last() =~= s.subrange(0, i as int));
            }
            match find_doc(docs, ids[i].as_str()) {
                Some(k) => {
                    if query.matches(&docs[k]) {
                        let ghost before = out@;
                        out.push(docs[k].copy());
                        assert(docs_view(out@) =~= docs_view(before).push(dv[k as int]));
                    }
                },
                None => {},
            }
            i = i + 1;
        }
        proof {
            assert(s.subrange(0, s.len() as int) =~= s);
        }
        out
    }

    /// The first document of `query`'s result, if any.
    pub fn query_one(&self, query: &Query, docs: &Vec<Document>) -> (r: Option<Document>)
        ensures
            match r {
                Some(d) => {
                    let all = resolve(candidate_ids(self@, query@), docs_view(docs@), query@);
                    all.len() > 0 && d@ == all[0]
                },
                None => resolve(candidate_ids(self@, query@), docs_view(docs@), query@).len() == 0,
            },
    {
        let mut all = self.query(query, docs);
        if all.len() == 0 {
            None
        } else {
            Some(all.remove(0))
        }
    }
}

} // verus!
