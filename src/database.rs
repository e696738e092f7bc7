use vstd::prelude::*;
use crate::collection::{CollView, Collection, has_duplicate_ids};
use crate::document::DocView;
use crate::document::Document;
use crate::error::DbError;
use crate::first::{first_index, lemma_first_index, lemma_first_index_none};
use crate::index::{docs_view, strs_view};
use crate::value::text_eq;

verus! {

/// A set of named collections.
#[derive(Debug)]
pub struct Database {
    collections: Vec<Collection>,
}

pub open spec fn colls_view(v: Seq<Collection>) -> Seq<CollView> {
    Seq::new(v.len(), |i: int| v[i]@)
}

/// The name and documents of each entry of a snapshot.
pub open spec fn entries_of(data: Seq<(String, Vec<Document>)>) -> Seq<(Seq<char>, Seq<DocView>)> {
    Seq::new(data.len(), |i: int| (data[i].0@, docs_view(data[i].1@)))
}

/// `cs` with `c` in place of the first collection of the same name, or with `c` appended.
pub open spec fn place(cs: Seq<CollView>, c: CollView) -> Seq<CollView> {
    let j = coll_index(cs, c.name);
    if j >= 0 {
        cs.update(j, c)
    } else {
        cs.push(c)
    }
}

/// The collections loaded from the entries `es` in order, each without indexes.
pub open spec fn load_all(es: Seq<(Seq<char>, Seq<DocView>)>) -> Seq<CollView>
    decreases es.len(),
{
    if es.len() == 0 {
        Seq::empty()
    } else {
        place(
            load_all(es.drop_last()),
            CollView { name: es.last().0, docs: es.last().1, indexes: Seq::empty() },
        )
    }
}

/// No two collections share a name.
pub open spec fn coll_names_distinct(cs: Seq<CollView>) -> bool {
    forall|i: int, j: int| 0 <= i < cs.len() && 0 <= j < cs.len() && cs[i].name == cs[j].name ==> i == j
}

proof fn lemma_place_distinct(cs: Seq<CollView>, c: CollView)
    requires
        coll_names_distinct(cs),
    ensures
        coll_names_distinct(place(cs, c)),
{
    let p = |x: CollView| x.name == c.name;
    let j = coll_index(cs, c.name);
    if j >= 0 {
        assert(crate::first::is_first(cs, p, j));
        let t = cs.update(j, c);
        assert forall|a: int, b: int| 0 <= a < t.len() && 0 <= b < t.len() && t[a].name == t[b].name implies a == b by {
            assert(t[a].name == cs[a].name && t[b].name == cs[b].name);
        }
    } else {
        crate::exact::lemma_no_first(cs, p);
        let t = cs.push(c);
        assert forall|a: int, b: int| 0 <= a < t.len() && 0 <= b < t.len() && t[a].name == t[b].name implies a == b by {
            if a < cs.len() && b < cs.len() {
                assert(t[a] == cs[a] && t[b] == cs[b]);
            } else if a < cs.len() {
                assert(t[a] == cs[a]);
            } else if b < cs.len() {
                assert(t[b] == cs[b]);
            }
        }
    }
}

/// Some collection of `cs` is named `name`.
pub open spec fn has_named(cs: Seq<CollView>, name: Seq<char>) -> bool {
    exists|t: int| 0 <= t < cs.len() && cs[t].name == name
}

/// Position of the collection named `name` in `cs`, or -1.
pub open spec fn coll_index(cs: Seq<CollView>, name: Seq<char>) -> int {
    first_index(cs, |c: CollView| c.name == name)
}

impl View for Database {
    type V = Seq<CollView>;

    closed spec fn view(&self) -> Seq<CollView> {
        colls_view(self.collections@)
    }
}

impl Database {
    /// A database without collections.
    pub fn new() -> (r: Database)
        ensures
            r.wf(),
            r@ == Seq::<CollView>::empty(),
    {
        let r = Database { collections: Vec::new() };
        assert(r@ =~= Seq::<CollView>::empty());
        r
    }

    /// Every collection is well formed, and no two share a name.
    pub open spec fn wf(&self) -> bool {
        &&& forall|i: int| 0 <= i < self@.len() ==> crate::collection::coll_ok(#[trigger] self@[i])
        &&& coll_names_distinct(self@)
    }

    fn position(&self, name: &str) -> (r: Option<usize>)
        ensures
            match r {
                Some(i) => coll_index(self@, name@) == i as int && i < self@.len(),
                None => coll_index(self@, name@) == -1,
            },
    {
        let ghost s = self@;
        let ghost p = |c: CollView| c.name == name@;
        let mut i: usize = 0;
        while i < self.collections.len()
            invariant
                i <= self.collections@.len(),
                s == colls_view(self.collections@),
                p == (|c: CollView| c.name == name@),
                forall|j: int| 0 <= j < i ==> !p(#[trigger] s[j]),
            decreases self.collections@.len() - i,
        {
            let n = self.collections[i].name();
            if text_eq(n.as_str(), name) {
                proof {
                    lemma_first_index(s, p, i as int);
                }
                return Some(i);
            }
            i = i + 1;
        }
        proof {
            lemma_first_index_none(s, p);
        }
        None
    }

    /// A copy of the collection named `name`, created empty first when there is none.
    pub fn collection(&mut self, name: &str) -> (r: Collection)
        requires
            old(self).wf(),
        ensures
            final(self).wf(),
            r.wf(),
            r@.name == name@,
            coll_index(old(self)@, name@) >= 0 ==> final(self)@ == old(self)@ && r@ == old(self)@[coll_index(
                old(self)@,
                name@,
            )],
            coll_index(old(self)@, name@) < 0 ==> final(self)@ == old(self)@.push(r@) && r@.docs.len() == 0
                && r@.indexes.len() == 0,
    {
        match self.position(name) {
            Some(i) => {
                let c = self.collections[i].copy();
                assert(crate::collection::coll_ok(self@[i as int]));
                proof {
                    let p = |c: CollView| c.name == name@;
                    assert(crate::first::is_first(self@, p, i as int));
                }
                c
            },
            None => {
                let c = Collection::new(name);
                let ghost before = self@;
                self.collections.push(c.copy());
                assert(self@ =~= before.push(c@));
                proof {
                    lemma_place_distinct(before, c@);
                }
                c
            },
        }
    }

    /// Whether there is a collection named `name`.
    pub fn has_collection(&self, name: &str) -> (r: bool)
        ensures
            r == (coll_index(self@, name@) >= 0),
    {
        self.position(name).is_some()
    }

    /// Removes the collection named `name`; true when there was one.
    pub fn drop_collection(&mut self, name: &str) -> (r: bool)
        requires
            old(self).wf(),
        ensures
            final(self).wf(),
            r == (coll_index(old(self)@, name@) >= 0),
            final(self)@ == if r {
                old(self)@.remove(coll_index(old(self)@, name@))
            } else {
                old(self)@
            },
    {
        match self.position(name) {
            Some(i) => {
                let ghost before = self@;
                let _gone = self.collections.remove(i);
                assert(self@ =~= before.remove(i as int));
                assert forall|j: int| 0 <= j < self@.len() implies crate::collection::coll_ok(
                    #[trigger] self@[j],
                ) by {
                    if j < i {
                        assert(self@[j] == before[j]);
                    } else {
                        assert(self@[j] == before[j + 1]);
                    }
                }
                true
            },
            None => false,
        }
    }

    /// The names of the collections, in order.
    pub fn get_collections(&self) -> (r: Vec<String>)
        ensures
            strs_view(r@) == Seq::new(self@.len(), |i: int| self@[i].name),
    {
        let mut out: Vec<String> = Vec::new();
        let mut i: usize = 0;
        while i < self.collections.len()
            invariant
                i <= self.collections@.len(),
                out@.len() == i,
                forall|j: int| 0 <= j < i ==> #[trigger] out@[j]@ == self@[j].name,
            decreases self.collections@.len() - i,
        {
            out.push(self.collections[i].name());
            i = i + 1;
        }
        assert(strs_view(out@) =~= Seq::new(self@.len(), |i: int| self@[i].name));
        out
    }

    /// Each collection's name with a copy of its documents: what a snapshot of the database
    /// holds.
    pub fn to_json(&self) -> (r: Vec<(String, Vec<Document>)>)
        ensures
            r@.len() == self@.len(),
            forall|i: int|
                0 <= i < r@.len() ==> #[trigger] r@[i].0@ == self@[i].name && docs_view(r@[i].1@)
                    == self@[i].docs,
    {
        let mut out: Vec<(String, Vec<Document>)> = Vec::new();
        let mut i: usize = 0;
        while i < self.collections.len()
            invariant
                i <= self.collections@.len(),
                out@.len() == i,
                forall|j: int|
                    0 <= j < i ==> #[trigger] out@[j].0@ == self@[j].name && docs_view(out@[j].1@)
                        == self@[j].docs,
            decreases self.collections@.len() - i,
        {
            let nm = self.collections[i].name();
            let ds = self.collections[i].to_json();
            let ghost before = out@;
            out.push((nm, ds));
            assert(out@[i as int].0@ == self@[i as int].name);
            assert(forall|j: int| 0 <= j < i ==> out@[j] == before[j]);
            i = i + 1;
        }
        out
    }

    /// Replaces every collection with one collection per entry of `data`, named by the entry,
    /// holding its documents and no index; a later entry of the same name replaces an earlier
    /// one. Stops with `DuplicateId` at the first entry two of whose documents share an
    /// identifier, checked before anything changes.
    pub fn from_json(&mut self, data: Vec<(String, Vec<Document>)>) -> (r: Result<(), DbError>)
        requires
            old(self).wf(),
            forall|i: int, j: int|
                0 <= i < data@.len() && 0 <= j < data@[i].1@.len() ==> #[trigger] data@[i].1@[j].wf(),
        ensures
            final(self).wf(),
            r is Ok <==> forall|i: int|
                0 <= i < data@.len() ==> !has_duplicate_ids(#[trigger] entries_of(data@)[i].1),
            r is Err ==> r == Err::<(), DbError>(DbError::DuplicateId),
            r is Ok ==> final(self)@ == load_all(entries_of(data@)),
            r is Err ==> final(self)@ == old(self)@,
    {
        let ghost es = entries_of(data@);
        let mut e: usize = 0;
        while e < data.len()
            invariant
                e <= data@.len(),
                es == entries_of(data@),
                self.wf(),
                self@ == old(self)@,
                forall|i: int| 0 <= i < e ==> !has_duplicate_ids(#[trigger] es[i].1),
            decreases data@.len() - e,
        {
            if Collection::duplicate_ids(&data[e].1) {
                assert(has_duplicate_ids(es[e as int].1));
                return Err(DbError::DuplicateId);
            }
            e = e + 1;
        }
        let mut rest = data;
        self.collections = Vec::new();
        let n = rest.len();
        let mut k: usize = 0;
        assert(self@ =~= Seq::<CollView>::empty());
        assert(es.subrange(0, 0) =~= Seq::<(Seq<char>, Seq<DocView>)>::empty());
        while rest.len() > 0
            invariant
                self.wf(),
                k + rest@.len() == n,
                es.len() == n,
                es == entries_of(data@),
                forall|i: int, j: int|
                    0 <= i < rest@.len() && 0 <= j < rest@[i].1@.len() ==> #[trigger] rest@[i].1@[j].wf(),
                forall|i: int| 0 <= i < rest@.len() ==> #[trigger] entries_of(rest@)[i] == es[k + i],
                forall|i: int| 0 <= i < n ==> !has_duplicate_ids(#[trigger] es[i].1),
                self@ == load_all(es.subrange(0, k as int)),
            decreases rest@.len(),
        {
            let ghost before_rest = rest@;
            let (name, docs) = rest.remove(0);
            assert(forall|j: int| 0 <= j < docs@.len() ==> #[trigger] docs@[j].wf()) by {
                assert(before_rest[0].1 == docs);
            }
            assert(entries_of(before_rest)[0] == es[k as int]);
            let ghost e = es[k as int];
            assert(name@ == e.0 && docs_view(docs@) == e.1);
            let mut c = Collection::new(name.as_str());
            let ghost c0 = c@;
            match c.from_json(docs) {
                Ok(()) => {},
                Err(err) => {
                    proof {
                        assert(!has_duplicate_ids(es[k as int].1));
                        assert(c0.indexes.len() == 0);
                        assert(!(exists|j: int| 0 <= j < c0.indexes.len() && crate::collection::rebuilt(c0.indexes, e.1)[j] is Err));
                        assert(has_duplicate_ids(es[k as int].1));
                    }
                    return Err(err);
                },
            }
            assert(c@.indexes =~= Seq::<crate::index::IndexView>::empty());
            assert(c@ == (CollView { name: e.0, docs: e.1, indexes: Seq::empty() }));
            let ghost before = self@;
            match self.position(name.as_str()) {
                Some(i) => {
                    let _old = self.collections.remove(i);
                    self.collections.insert(i, c);
                    assert(self@ =~= before.update(i as int, c@));
                },
                None => {
                    self.collections.push(c);
                    assert(self@ =~= before.push(c@));
                },
            }
            proof {
                assert(self@ == place(before, c@));
                lemma_place_distinct(before, c@);
                assert(es.subrange(0, k as int + 1).drop_last() =~= es.subrange(0, k as int));
                assert(es.subrange(0, k as int + 1).last() == e);
                assert forall|j: int| 0 <= j < self@.len() implies crate::collection::coll_ok(
                    #[trigger] self@[j],
                ) by {
                    if j < before.len() && self@[j] == before[j] {
                    } else {
                        assert(self@[j] == c@);
                    }
                }
                assert forall|i: int, j: int|
                    0 <= i < rest@.len() && 0 <= j < rest@[i].1@.len() implies #[trigger] rest@[i].1@[j].wf() by {
                    assert(rest@[i] == before_rest[i + 1]);
                }
                assert forall|i: int| 0 <= i < rest@.len() implies #[trigger] entries_of(rest@)[i] == es[k + 1 + i] by {
                    assert(rest@[i] == before_rest[i + 1]);
                    assert(entries_of(before_rest)[i + 1] == es[k + 1 + i]);
                }
            }
            k = k + 1;
        }
        proof {
            assert(es.subrange(0, n as int) =~= es);
        }
        Ok(())
    }
}

} // verus!
