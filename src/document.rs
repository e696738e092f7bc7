use vstd::prelude::*;
use crate::error::DbError;
use crate::query::{condition_holds, field_holds};
use crate::exact::{keys_distinct, lemma_keys_distinct_put, lemma_keys_distinct_remove};
use crate::path::{first_dot, find_dot, get_path, path_get, path_set, put_entry, set_path};
use crate::value::{is_first_key, key_index, Json, Value, entries_view, find_entry, items_view, lemma_array_view, lemma_object_view, lookup, put, remove_key, text_eq};

verus! {

/// The abstract content of a document: its identifier and its top-level entries.
pub ghost struct DocView {
    pub id: Seq<char>,
    pub fields: Seq<(Seq<char>, Json)>,
}

/// One schemaless record: an identifier and a list of named values. The identifier is kept
/// apart from the entries and no update can reach it.
#[derive(Debug)]
pub struct Document {
    id: String,
    data: Vec<(String, Value)>,
}

impl View for Document {
    type V = DocView;

    closed spec fn view(&self) -> DocView {
        DocView { id: self.id@, fields: entries_view(self.data@) }
    }
}

/// Reading a path of a document: `id` gives the identifier, any other path is read in the
/// entries.
pub open spec fn doc_get(d: DocView, p: Seq<char>) -> Option<Json> {
    if p == "id"@ {
        Some(Json::Str(d.id))
    } else {
        path_get(d.fields, p)
    }
}


/// The document that a structured value describes: an object with distinct keys whose `id`
/// entry, when present, is a string giving the identifier, and whose other entries are the
/// document's entries.
pub open spec fn doc_of_value(v: Json) -> Result<DocView, DbError> {
    match v {
        Json::Obj(es) => if !keys_distinct(es) {
            Err(DbError::MalformedInput)
        } else {
            match lookup(es, "id"@) {
            Some(Json::Str(id)) => Ok(DocView { id, fields: remove_key(es, "id"@) }),
            Some(_) => Err(DbError::MalformedInput),
            None => Ok(DocView { id: Seq::empty(), fields: es }),
            }
        },
        _ => Err(DbError::MalformedInput),
    }
}

/// Whether the keys of `es` are distinct.
pub fn keys_unique(es: &Vec<(String, Value)>) -> (r: bool)
    ensures
        r == keys_distinct(entries_view(es@)),
{
    let ghost s = entries_view(es@);
    let mut i: usize = 0;
    while i < es.len()
        invariant
            i <= es@.len(),
            s == entries_view(es@),
            forall|a: int, b: int| 0 <= a < i && 0 <= b < i && s[a].0 == s[b].0 ==> a == b,
        decreases es@.len() - i,
    {
        let mut j: usize = 0;
        while j < i
            invariant
                j <= i < es@.len(),
                s == entries_view(es@),
                forall|a: int| 0 <= a < j ==> s[a].0 != s[i as int].0,
            decreases i - j,
        {
            if text_eq(es[j].0.as_str(), es[i].0.as_str()) {
                assert(s[j as int].0 == s[i as int].0);
                return false;
            }
            j = j + 1;
        }
        i = i + 1;
    }
    true
}

/// The structured value of a document: an object with the `id` entry first.
pub open spec fn value_of_doc(d: DocView) -> Json {
    Json::Obj(seq![("id"@, Json::Str(d.id))] + d.fields)
}

/// Whether `d` keeps no `id` entry among its entries.
pub open spec fn id_free(d: DocView) -> bool {
    forall|i: int| 0 <= i < d.fields.len() ==> #[trigger] d.fields[i].0 != "id"@
}

/// The first segment of the dotted path `p`.
pub open spec fn path_head(p: Seq<char>) -> Seq<char> {
    let k = first_dot(p);
    if 0 <= k < p.len() {
        p.subrange(0, k)
    } else {
        p
    }
}

/// Entries with distinct keys, none of them `id`.
pub open spec fn fields_ok(f: Seq<(Seq<char>, Json)>) -> bool {
    keys_distinct(f) && forall|i: int| 0 <= i < f.len() ==> #[trigger] f[i].0 != "id"@
}

/// A well-formed document: distinct keys among its entries, and no `id` entry.
pub open spec fn doc_wf(d: DocView) -> bool {
    fields_ok(d.fields)
}

proof fn lemma_put_ok(f: Seq<(Seq<char>, Json)>, k: Seq<char>, v: Json)
    requires
        fields_ok(f),
        k != "id"@,
    ensures
        fields_ok(put(f, k, v)),
{
    lemma_keys_distinct_put(f, k, v);
    let i = key_index(f, k);
    if i >= 0 {
        assert(is_first_key(f, k, i));
    }
}

proof fn lemma_remove_ok(f: Seq<(Seq<char>, Json)>, k: Seq<char>)
    requires
        fields_ok(f),
    ensures
        fields_ok(remove_key(f, k)),
{
    lemma_keys_distinct_remove(f, k);
    let i = key_index(f, k);
    if i >= 0 {
        let t = remove_key(f, k);
        assert forall|j: int| 0 <= j < t.len() implies #[trigger] t[j].0 != "id"@ by {
            if j < i {
                assert(t[j] == f[j]);
            } else {
                assert(t[j] == f[j + 1]);
            }
        }
    }
}

proof fn lemma_step_ok(op: UpdateOp, f: Seq<(Seq<char>, Json)>, k: Seq<char>, x: Json)
    requires
        fields_ok(f),
    ensures
        step(op, f, k, x) matches Ok(g) ==> fields_ok(g),
{
    if step(op, f, k, x) is Ok {
        match op {
            UpdateOp::SetField => {
                let d = first_dot(k);
                if 0 <= d < k.len() {
                    let head = k.subrange(0, d);
                    let child = match lookup(f, head) {
                        Some(Json::Obj(o)) => o,
                        _ => Seq::empty(),
                    };
                    lemma_put_ok(f, head, Json::Obj(path_set(child, k.subrange(d + 1, k.len() as int), x)));
                } else {
                    lemma_put_ok(f, k, x);
                }
            },
            UpdateOp::Unset => {
                lemma_remove_ok(f, k);
            },
            UpdateOp::Inc => {
                let cur = match lookup(f, k) {
                    Some(j) => j,
                    None => Json::Num(0),
                };
                if let (Json::Num(a), Json::Num(b)) = (cur, x) {
                    lemma_put_ok(f, k, Json::Num(a + b));
                }
            },
            UpdateOp::Push => {
                match lookup(f, k) {
                    Some(Json::Arr(a)) => lemma_put_ok(f, k, Json::Arr(a.push(x))),
                    None => lemma_put_ok(f, k, Json::Arr(seq![x])),
                    _ => {},
                }
            },
            UpdateOp::Pull => {
                match lookup(f, k) {
                    Some(Json::Arr(a)) => lemma_put_ok(f, k, Json::Arr(pull_items(a, x))),
                    _ => {},
                }
            },
        }
    }
}

proof fn lemma_run_op_ok(op: UpdateOp, f: Seq<(Seq<char>, Json)>, es: Seq<(Seq<char>, Json)>)
    requires
        fields_ok(f),
    ensures
        fields_ok(run_op(op, f, es).0),
    decreases es.len(),
{
    if es.len() > 0 {
        lemma_step_ok(op, f, es[0].0, es[0].1);
        if let Ok(g) = step(op, f, es[0].0, es[0].1) {
            lemma_run_op_ok(op, g, es.drop_first());
        }
    }
}

/// An update keeps the entries well formed.
pub proof fn lemma_update_ok(f: Seq<(Seq<char>, Json)>, u: Json)
    requires
        fields_ok(f),
    ensures
        fields_ok(update_result(f, u).0),
{
    if let Json::Obj(ue) = u {
        lemma_run_op_ok(UpdateOp::SetField, f, op_entries(ue, UpdateOp::SetField));
        let r1 = run_op(UpdateOp::SetField, f, op_entries(ue, UpdateOp::SetField));
        lemma_run_op_ok(UpdateOp::Unset, r1.0, op_entries(ue, UpdateOp::Unset));
        let r2 = then_op(r1, UpdateOp::Unset, ue);
        lemma_run_op_ok(UpdateOp::Inc, r2.0, op_entries(ue, UpdateOp::Inc));
        let r3 = then_op(r2, UpdateOp::Inc, ue);
        lemma_run_op_ok(UpdateOp::Push, r3.0, op_entries(ue, UpdateOp::Push));
        let r4 = then_op(r3, UpdateOp::Push, ue);
        lemma_run_op_ok(UpdateOp::Pull, r4.0, op_entries(ue, UpdateOp::Pull));
    }
}

/// The update operators, in the order in which an update spec applies them.
#[derive(Clone, Copy, Debug, PartialEq, Eq, Structural)]
pub enum UpdateOp {
    SetField,
    Unset,
    Inc,
    Push,
    Pull,
}

/// The key under which an update spec holds the operand of `op`.
pub open spec fn op_name(op: UpdateOp) -> Seq<char> {
    match op {
        UpdateOp::SetField => "$set"@,
        UpdateOp::Unset => "$unset"@,
        UpdateOp::Inc => "$inc"@,
        UpdateOp::Push => "$push"@,
        UpdateOp::Pull => "$pull"@,
    }
}

/// The entries that `op` applies: those of its operand when the operand is an object.
pub open spec fn op_entries(u: Seq<(Seq<char>, Json)>, op: UpdateOp) -> Seq<(Seq<char>, Json)> {
    match lookup(u, op_name(op)) {
        Some(Json::Obj(o)) => o,
        _ => Seq::empty(),
    }
}

/// The numeric comparison that `op` names, of `a` against `b`.
pub open spec fn num_holds(op: Seq<char>, a: int, b: int) -> bool {
    if op == "$gt"@ {
        a > b
    } else if op == "$gte"@ {
        a >= b
    } else if op == "$lt"@ {
        a < b
    } else {
        a <= b
    }
}

/// Whether an array item matches a `$pull` predicate: as a field whose value is the item
/// meets a query condition.
pub open spec fn spec_item_matches(item: Json, q: Json) -> bool {
    field_holds(Some(item), q)
}

/// The items of `a` that do not match `pred`, in order.
pub open spec fn pull_items(a: Seq<Json>, pred: Json) -> Seq<Json>
    decreases a.len(),
{
    if a.len() == 0 {
        Seq::empty()
    } else {
        let rest = pull_items(a.drop_last(), pred);
        if spec_item_matches(a.last(), pred) {
            rest
        } else {
            rest.push(a.last())
        }
    }
}

/// One step of an update: operator `op` with key `k` and operand `x`, on the entries `f`.
pub open spec fn step(op: UpdateOp, f: Seq<(Seq<char>, Json)>, k: Seq<char>, x: Json) -> Result<
    Seq<(Seq<char>, Json)>,
    DbError,
> {
    if k == "id"@ || (op == UpdateOp::SetField && path_head(k) == "id"@) {
        Err(DbError::ReservedField)
    } else {
        match op {
            UpdateOp::SetField => Ok(path_set(f, k, x)),
            UpdateOp::Unset => Ok(remove_key(f, k)),
            UpdateOp::Inc => {
                let cur = match lookup(f, k) {
                    Some(j) => j,
                    None => Json::Num(0),
                };
                match (cur, x) {
                    (Json::Num(a), Json::Num(b)) => if i64::MIN <= a + b <= i64::MAX {
                        Ok(put(f, k, Json::Num(a + b)))
                    } else {
                        Err(DbError::TypeMismatch)
                    },
                    _ => Err(DbError::TypeMismatch),
                }
            },
            UpdateOp::Push => match lookup(f, k) {
                Some(Json::Arr(a)) => Ok(put(f, k, Json::Arr(a.push(x)))),
                None => Ok(put(f, k, Json::Arr(seq![x]))),
                _ => Err(DbError::TypeMismatch),
            },
            UpdateOp::Pull => match lookup(f, k) {
                Some(Json::Arr(a)) => Ok(put(f, k, Json::Arr(pull_items(a, x)))),
                _ => Ok(f),
            },
        }
    }
}

/// Applies the steps of `op` for the entries `es` in order, stopping at the first failure:
/// the entries reached, and the error if one stopped it.
pub open spec fn run_op(op: UpdateOp, f: Seq<(Seq<char>, Json)>, es: Seq<(Seq<char>, Json)>) -> (
    Seq<(Seq<char>, Json)>,
    Option<DbError>,
)
    decreases es.len(),
{
    if es.len() == 0 {
        (f, None)
    } else {
        match step(op, f, es[0].0, es[0].1) {
            Ok(g) => run_op(op, g, es.drop_first()),
            Err(e) => (f, Some(e)),
        }
    }
}

/// Applies `op` after a run that ended as `prev`.
pub open spec fn then_op(prev: (Seq<(Seq<char>, Json)>, Option<DbError>), op: UpdateOp, u: Seq<
    (Seq<char>, Json),
>) -> (Seq<(Seq<char>, Json)>, Option<DbError>) {
    if prev.1 is Some {
        prev
    } else {
        run_op(op, prev.0, op_entries(u, op))
    }
}

/// The entries after applying the update spec `u`, and the error that stopped it, if any.
pub open spec fn update_result(f: Seq<(Seq<char>, Json)>, u: Json) -> (
    Seq<(Seq<char>, Json)>,
    Option<DbError>,
) {
    match u {
        Json::Obj(ue) => {
            let r1 = run_op(UpdateOp::SetField, f, op_entries(ue, UpdateOp::SetField));
            let r2 = then_op(r1, UpdateOp::Unset, ue);
            let r3 = then_op(r2, UpdateOp::Inc, ue);
            let r4 = then_op(r3, UpdateOp::Push, ue);
            then_op(r4, UpdateOp::Pull, ue)
        },
        _ => (f, Some(DbError::MalformedInput)),
    }
}

/// Whether `item` is in `arr`, by deep equality.
pub fn contains_value(arr: &Vec<Value>, item: &Value) -> (r: bool)
    ensures
        r == crate::query::arr_has(items_view(arr@), item@),
{
    let ghost s = items_view(arr@);
    let mut i: usize = 0;
    while i < arr.len()
        invariant
            i <= arr@.len(),
            s == items_view(arr@),
            forall|j: int| 0 <= j < i ==> !crate::value::json_eq(item@, #[trigger] s[j]),
        decreases arr@.len() - i,
    {
        if item.equals(&arr[i]) {
            assert(crate::value::json_eq(item@, s[i as int]));
            return true;
        }
        i = i + 1;
    }
    false
}

/// Whether an array item matches a `$pull` predicate.
pub fn item_matches(item: &Value, query: &Value) -> (r: bool)
    ensures
        r == spec_item_matches(item@, query@),
{
    let dv = Some(item.copy());
    condition_holds(query, &dv)
}

/// The items of `arr` that do not match `pred`.
pub fn pull_from(arr: &Vec<Value>, pred: &Value) -> (r: Vec<Value>)
    ensures
        items_view(r@) == pull_items(items_view(arr@), pred@),
{
    let ghost s = items_view(arr@);
    let mut out: Vec<Value> = Vec::new();
    let mut i: usize = 0;
    proof {
        assert(items_view(out@) =~= pull_items(s.subrange(0, 0), pred@));
    }
    while i < arr.len()
        invariant
            i <= arr@.len(),
            s == items_view(arr@),
            items_view(out@) == pull_items(s.subrange(0, i as int), pred@),
        decreases arr@.len() - i,
    {
        proof {
            assert(s.subrange(0, i as int + 1).drop_last() =~= s.subrange(0, i as int));
        }
        if !item_matches(&arr[i], pred) {
            let ghost before = out@;
            out.push(arr[i].copy());
            assert(items_view(out@) =~= items_view(before).push(arr@[i as int]@));
        }
        i = i + 1;
    }
    proof {
        assert(s.subrange(0, s.len() as int) =~= s);
    }
    out
}

impl Document {
    /// Distinct keys among the entries, and no `id` entry.
    pub open spec fn wf(&self) -> bool {
        doc_wf(self@)
    }

    /// A document with identifier `id` and no entries.
    pub fn new(id: String) -> (r: Document)
        ensures
            r@.id == id@,
            r@.fields == Seq::<(Seq<char>, Json)>::empty(),
            r.wf(),
    {
        let r = Document { id, data: Vec::new() };
        assert(entries_view(r.data@) =~= Seq::<(Seq<char>, Json)>::empty());
        r
    }

    /// The identifier.
    pub fn id(&self) -> (r: &str)
        ensures
            r@ == self@.id,
    {
        self.id.as_str()
    }

    /// Whether the identifier is set (not empty).
    pub fn has_id(&self) -> (r: bool)
        ensures
            r == (self@.id.len() > 0),
    {
        self.id.unicode_len() > 0
    }

    /// Gives the document the identifier `fresh`, which the host generated.
    pub fn generate_id(&mut self, fresh: String)
        ensures
            final(self)@.id == fresh@,
            final(self)@.fields == old(self)@.fields,
    {
        self.id = fresh;
    }

    /// The top-level entries.
    pub fn fields(&self) -> (r: &Vec<(String, Value)>)
        ensures
            entries_view(r@) == self@.fields,
    {
        &self.data
    }

    /// A deep copy.
    pub fn copy(&self) -> (r: Document)
        ensures
            r@ == self@,
    {
        let mut data: Vec<(String, Value)> = Vec::new();
        let mut i: usize = 0;
        while i < self.data.len()
            invariant
                i <= self.data@.len(),
                data@.len() == i,
                forall|j: int|
                    0 <= j < i ==> data@[j].0@ == self.data@[j].0@ && data@[j].1@
                        == self.data@[j].1@,
            decreases self.data@.len() - i,
        {
            let k = self.data[i].0.clone();
            let v = self.data[i].1.copy();
            data.push((k, v));
            i = i + 1;
        }
        assert(entries_view(data@) =~= entries_view(self.data@));
        Document { id: self.id.clone(), data }
    }

    /// Reads the dotted path `path`: `id` gives the identifier; otherwise every segment but
    /// the last must name an object, and the last names the value returned.
    pub fn get(&self, path: &str) -> (r: Option<Value>)
        ensures
            match r {
                Some(v) => doc_get(self@, path@) == Some(v@),
                None => doc_get(self@, path@) is None,
            },
    {
        if text_eq(path, "id") {
            return Some(Value::Str(self.id.clone()));
        }
        get_path(&self.data, path)
    }

    /// Writes `value` at the dotted path `path`, creating or replacing intermediate objects.
    pub(crate) fn set_value(&mut self, path: &str, value: Value)
        ensures
            final(self)@.id == old(self)@.id,
            final(self)@.fields == path_set(old(self)@.fields, path@, value@),
    {
        set_path(&mut self.data, path, value);
    }

    fn apply_step(&mut self, op: UpdateOp, k: &String, x: &Value) -> (r: Result<(), DbError>)
        ensures
            final(self)@.id == old(self)@.id,
            match step(op, old(self)@.fields, k@, x@) {
                Ok(g) => r is Ok && final(self)@.fields == g,
                Err(e) => r == Err::<(), DbError>(e) && final(self)@.fields == old(self)@.fields,
            },
    {
        let key = k.as_str();
        if text_eq(key, "id") {
            return Err(DbError::ReservedField);
        }
        if op == UpdateOp::SetField {
            let head_is_id = match find_dot(key) {
                Some(d) => text_eq(key.substring_char(0, d), "id"),
                None => false,
            };
            if head_is_id {
                return Err(DbError::ReservedField);
            }
        }
        let ghost f = entries_view(self.data@);
        match op {
            UpdateOp::SetField => {
                self.set_value(key, x.copy());
                Ok(())
            },
            UpdateOp::Unset => {
                match find_entry(&self.data, key) {
                    Some(i) => {
                        let _gone = self.data.remove(i);
                        assert(entries_view(self.data@) =~= f.remove(i as int));
                    },
                    None => {},
                }
                Ok(())
            },
            UpdateOp::Inc => {
                let cur: i64 = match find_entry(&self.data, key) {
                    Some(i) => match &self.data[i].1 {
                        Value::Number(n) => *n,
                        _ => {
                            return Err(DbError::TypeMismatch);
                        },
                    },
                    None => 0,
                };
                match x {
                    Value::Number(b) => match cur.checked_add(*b) {
                        Some(sum) => {
                            put_entry(&mut self.data, k.clone(), Value::Number(sum));
                            Ok(())
                        },
                        None => Err(DbError::TypeMismatch),
                    },
                    _ => Err(DbError::TypeMismatch),
                }
            },
            UpdateOp::Push => {
                match find_entry(&self.data, key) {
                    Some(i) => {
                        let c = self.data[i].1.copy();
                        match c {
                            Value::Array(mut a) => {
                                proof {
                                    lemma_array_view(a);
                                }
                                let ghost before = a@;
                                a.push(x.copy());
                                proof {
                                    lemma_array_view(a);
                                    assert(items_view(a@) =~= items_view(before).push(x@));
                                }
                                put_entry(&mut self.data, k.clone(), Value::Array(a));
                                Ok(())
                            },
                            _ => Err(DbError::TypeMismatch),
                        }
                    },
                    None => {
                        let mut a: Vec<Value> = Vec::new();
                        a.push(x.copy());
                        proof {
                            lemma_array_view(a);
                            assert(items_view(a@) =~= seq![x@]);
                        }
                        put_entry(&mut self.data, k.clone(), Value::Array(a));
                        Ok(())
                    },
                }
            },
            UpdateOp::Pull => {
                match find_entry(&self.data, key) {
                    Some(i) => {
                        let pulled = match &self.data[i].1 {
                            Value::Array(a) => {
                                proof {
                                    lemma_array_view(*a);
                                }
                                Some(pull_from(a, x))
                            },
                            _ => None,
                        };
                        match pulled {
                            Some(na) => {
                                proof {
                                    lemma_array_view(na);
                                }
                                put_entry(&mut self.data, k.clone(), Value::Array(na));
                            },
                            None => {},
                        }
                    },
                    None => {},
                }
                Ok(())
            },
        }
    }

    fn run_update_op(&mut self, op: UpdateOp, u: &Vec<(String, Value)>, name: &str) -> (r: Result<
        (),
        DbError,
    >)
        requires
            name@ == op_name(op),
        ensures
            final(self)@.id == old(self)@.id,
            final(self)@.fields == run_op(op, old(self)@.fields, op_entries(entries_view(u@), op)).0,
            match run_op(op, old(self)@.fields, op_entries(entries_view(u@), op)).1 {
                None => r is Ok,
                Some(e) => r == Err::<(), DbError>(e),
            },
    {
        let ghost f0 = self@.fields;
        match find_entry(u, name) {
            Some(idx) => match &u[idx].1 {
                Value::Object(o) => {
                    proof {
                        lemma_object_view(*o);
                    }
                    let ghost es = entries_view(o@);
                    assert(op_entries(entries_view(u@), op) == es);
                    let mut j: usize = 0;
                    proof {
                        assert(es.subrange(0, es.len() as int) =~= es);
                    }
                    while j < o.len()
                        invariant
                            j <= o@.len(),
                            es == entries_view(o@),
                            self@.id == old(self)@.id,
                            f0 == old(self)@.fields,
                            op_entries(entries_view(u@), op) == es,
                            run_op(op, f0, es) == run_op(
                                op,
                                self@.fields,
                                es.subrange(j as int, es.len() as int),
                            ),
                        decreases o@.len() - j,
                    {
                        proof {
                            assert(es.subrange(j as int, es.len() as int).drop_first()
                                =~= es.subrange(j as int + 1, es.len() as int));
                            assert(es.subrange(j as int, es.len() as int)[0] == es[j as int]);
                            assert(es[j as int] == (o@[j as int].0@, o@[j as int].1@));
                        }
                        let s = self.apply_step(op, &o[j].0, &o[j].1);
                        match s {
                            Ok(()) => {},
                            Err(e) => {
                                return Err(e);
                            },
                        }
                        j = j + 1;
                    }
                    proof {
                        assert(es.subrange(j as int, es.len() as int) =~= Seq::<
                            (Seq<char>, Json),
                        >::empty());
                    }
                    Ok(())
                },
                _ => Ok(()),
            },
            None => Ok(()),
        }
    }

    /// Applies an update spec: `$set`, `$unset`, `$inc`, `$push` and `$pull`, in this order,
    /// each over the entries of its operand in order. The first failure stops the update and
    /// is returned; what was applied before it stays applied. The identifier never changes.
    pub fn apply_update(&mut self, update: &Value) -> (r: Result<(), DbError>)
        requires
            old(self).wf(),
        ensures
            final(self).wf(),
            final(self)@.id == old(self)@.id,
            final(self)@.fields == update_result(old(self)@.fields, update@).0,
            match update_result(old(self)@.fields, update@).1 {
                None => r is Ok,
                Some(e) => r == Err::<(), DbError>(e),
            },
    {
        proof {
            lemma_update_ok(self@.fields, update@);
        }
        match update {
            Value::Object(u) => {
                proof {
                    lemma_object_view(*u);
                }
                self.run_update_op(UpdateOp::SetField, u, "$set")?;
                self.run_update_op(UpdateOp::Unset, u, "$unset")?;
                self.run_update_op(UpdateOp::Inc, u, "$inc")?;
                self.run_update_op(UpdateOp::Push, u, "$push")?;
                self.run_update_op(UpdateOp::Pull, u, "$pull")
            },
            _ => Err(DbError::MalformedInput),
        }
    }

    /// The document described by the object `v`; an error when `v` is not an object or its
    /// `id` entry is not a string.
    pub fn from_value(v: Value) -> (r: Result<Document, DbError>)
        ensures
            match doc_of_value(v@) {
                Ok(d) => r matches Ok(doc) && doc@ == d && doc.wf(),
                Err(e) => r == Err::<Document, DbError>(e),
            },
    {
        match v {
            Value::Object(es) => {
                proof {
                    lemma_object_view(es);
                }
                let ghost s = entries_view(es@);
                if !keys_unique(&es) {
                    return Err(DbError::MalformedInput);
                }
                proof {
                    lemma_keys_distinct_remove(s, "id"@);
                    if key_index(s, "id"@) < 0 {
                        crate::value::lemma_key_absent(s, "id"@);
                    }
                }
                let mut es = es;
                match find_entry(&es, "id") {
                    Some(i) => {
                        let (_k, idv) = es.remove(i);
                        assert(entries_view(es@) =~= s.remove(i as int));
                        match idv {
                            Value::Str(id) => Ok(Document { id, data: es }),
                            _ => Err(DbError::MalformedInput),
                        }
                    },
                    None => Ok(Document { id: String::new(), data: es }),
                }
            },
            _ => Err(DbError::MalformedInput),
        }
    }

    /// The structured value of this document: an object with the `id` entry first.
    pub fn to_value(&self) -> (r: Value)
        ensures
            r@ == value_of_doc(self@),
    {
        let mut es: Vec<(String, Value)> = Vec::new();
        es.push((String::from_str("id"), Value::Str(self.id.clone())));
        let mut i: usize = 0;
        while i < self.data.len()
            invariant
                i <= self.data@.len(),
                entries_view(es@) == seq![("id"@, Json::Str(self.id@))] + entries_view(
                    self.data@,
                ).subrange(0, i as int),
            decreases self.data@.len() - i,
        {
            let ghost before = es@;
            es.push((self.data[i].0.clone(), self.data[i].1.copy()));
            assert(entries_view(es@) =~= entries_view(before).push(
                (self.data@[i as int].0@, self.data@[i as int].1@),
            ));
            assert(entries_view(es@) =~= seq![("id"@, Json::Str(self.id@))] + entries_view(
                self.data@,
            ).subrange(0, i as int + 1));
            i = i + 1;
        }
        proof {
            assert(entries_view(self.data@).subrange(0, self.data@.len() as int) =~= entries_view(
                self.data@,
            ));
            lemma_object_view(es);
        }
        Value::Object(es)
    }

}

} // verus!
