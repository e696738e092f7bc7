use vstd::prelude::*;
use crate::document::{DocView, Document, doc_get, num_holds};
use crate::error::DbError;
use crate::value::{json_eq, 
    Json, Value, entries_view, find_entry, is_substring, items_view, lemma_array_view,
    lemma_object_view, lookup, text_contains, text_eq,
};
use crate::document::contains_value;

verus! {

/// A filter: a list of conditions, each a field path or one of `$and`, `$or`, `$not`, with
/// its operand. A document matches when every condition holds.
#[derive(Debug)]
pub struct Query {
    conditions: Vec<(String, Value)>,
}

impl View for Query {
    type V = Seq<(Seq<char>, Json)>;

    closed spec fn view(&self) -> Seq<(Seq<char>, Json)> {
        entries_view(self.conditions@)
    }
}

/// The value read at a field is present and equal to `x`.
pub open spec fn holds_value(dv: Option<Json>, x: Json) -> bool {
    match dv {
        Some(v) => json_eq(v, x),
        None => false,
    }
}

/// Some item of `arr` equals `v`.
pub open spec fn arr_has(arr: Seq<Json>, v: Json) -> bool {
    exists|t: int| 0 <= t < arr.len() && json_eq(v, #[trigger] arr[t])
}

/// Whether one operator clause holds of the value `dv` read at a field (`None`: absent).
pub open spec fn op_holds(op: Seq<char>, x: Json, dv: Option<Json>) -> bool {
    if op == "$eq"@ {
        holds_value(dv, x)
    } else if op == "$ne"@ {
        !holds_value(dv, x)
    } else if op == "$gt"@ || op == "$gte"@ || op == "$lt"@ || op == "$lte"@ {
        match (dv, x) {
            (Some(Json::Num(a)), Json::Num(b)) => num_holds(op, a, b),
            _ => false,
        }
    } else if op == "$in"@ {
        match dv {
            Some(v) => x is Arr && arr_has(x->Arr_0, v),
            None => false,
        }
    } else if op == "$nin"@ {
        match dv {
            Some(v) => x is Arr && !arr_has(x->Arr_0, v),
            None => true,
        }
    } else if op == "$exists"@ {
        match x {
            Json::Bool(b) => b == (dv is Some),
            _ => true,
        }
    } else if op == "$regex"@ {
        match (dv, x) {
            (Some(Json::Str(s)), Json::Str(p)) => is_substring(p, s),
            _ => false,
        }
    } else {
        false
    }
}

/// Whether every operator clause of `ops` holds of `dv`.
pub open spec fn ops_hold(ops: Seq<(Seq<char>, Json)>, dv: Option<Json>) -> bool {
    forall|i: int| 0 <= i < ops.len() ==> #[trigger] op_holds(ops[i].0, ops[i].1, dv)
}

/// Whether the condition `c` holds of the value `dv` read at its field: an object condition
/// needs every operator clause to hold, any other value needs `dv` to be present and equal.
pub open spec fn field_holds(dv: Option<Json>, c: Json) -> bool {
    match c {
        Json::Obj(ops) => ops_hold(ops, dv),
        _ => holds_value(dv, c),
    }
}

/// Whether every condition of `cs` holds of the document `d`.
pub open spec fn conds_match(cs: Seq<(Seq<char>, Json)>, d: DocView) -> bool
    decreases cs,
{
    if cs.len() == 0 {
        true
    } else {
        cond_holds(cs[0].0, cs[0].1, d) && conds_match(cs.subrange(1, cs.len() as int), d)
    }
}

/// Whether one condition, with key `k` and operand `v`, holds of `d`.
pub open spec fn cond_holds(k: Seq<char>, v: Json, d: DocView) -> bool
    decreases v,
{
    if k == "$and"@ {
        match v {
            Json::Arr(items) => all_match(items, d),
            _ => true,
        }
    } else if k == "$or"@ {
        match v {
            Json::Arr(items) => items.len() == 0 || any_match(items, d),
            _ => true,
        }
    } else if k == "$not"@ {
        match v {
            Json::Obj(c) => !conds_match(c, d),
            _ => true,
        }
    } else {
        field_holds(doc_get(d, k), v)
    }
}

/// Every object among `items` matches `d` (other items are passed over).
pub open spec fn all_match(items: Seq<Json>, d: DocView) -> bool
    decreases items,
{
    if items.len() == 0 {
        true
    } else {
        (match items[0] {
            Json::Obj(c) => conds_match(c, d),
            _ => true,
        }) && all_match(items.subrange(1, items.len() as int), d)
    }
}

/// Some object among `items` matches `d`.
pub open spec fn any_match(items: Seq<Json>, d: DocView) -> bool
    decreases items,
{
    if items.len() == 0 {
        false
    } else {
        (match items[0] {
            Json::Obj(c) => conds_match(c, d),
            _ => false,
        }) || any_match(items.subrange(1, items.len() as int), d)
    }
}

/// The operand of `$eq` in the condition on `field`, when that condition is an object.
pub open spec fn eq_operand(q: Seq<(Seq<char>, Json)>, field: Seq<char>) -> Option<Json> {
    match lookup(q, field) {
        Some(Json::Obj(o)) => lookup(o, "$eq"@),
        _ => None,
    }
}

/// The condition on `field` is a plain value, not an object.
pub open spec fn simple_equality(q: Seq<(Seq<char>, Json)>, field: Seq<char>) -> bool {
    match lookup(q, field) {
        Some(v) => !(v is Obj),
        None => false,
    }
}

fn op_clause_holds(op: &String, x: &Value, dv: &Option<Value>) -> (r: bool)
    ensures
        r == op_holds(op@, x@, match dv {
            Some(v) => Some(v@),
            None => None,
        }),
{
    let o = op.as_str();
    if text_eq(o, "$eq") {
        match dv {
            Some(v) => v.equals(x),
            None => false,
        }
    } else if text_eq(o, "$ne") {
        match dv {
            Some(v) => !v.equals(x),
            None => true,
        }
    } else if text_eq(o, "$gt") || text_eq(o, "$gte") || text_eq(o, "$lt") || text_eq(o, "$lte") {
        match (dv, x) {
            (Some(Value::Number(a)), Value::Number(b)) => {
                if text_eq(o, "$gt") {
                    *a > *b
                } else if text_eq(o, "$gte") {
                    *a >= *b
                } else if text_eq(o, "$lt") {
                    *a < *b
                } else {
                    *a <= *b
                }
            },
            _ => false,
        }
    } else if text_eq(o, "$in") {
        match (dv, x) {
            (Some(v), Value::Array(arr)) => {
                proof {
                    lemma_array_view(*arr);
                }
                contains_value(arr, v)
            },
            _ => false,
        }
    } else if text_eq(o, "$nin") {
        match (dv, x) {
            (Some(v), Value::Array(arr)) => {
                proof {
                    lemma_array_view(*arr);
                }
                !contains_value(arr, v)
            },
            (Some(_), _) => false,
            (None, _) => true,
        }
    } else if text_eq(o, "$exists") {
        match x {
            Value::Bool(b) => *b == dv.is_some(),
            _ => true,
        }
    } else if text_eq(o, "$regex") {
        match (dv, x) {
            (Some(Value::Str(s)), Value::Str(p)) => text_contains(s.as_str(), p.as_str()),
            _ => false,
        }
    } else {
        false
    }
}

/// Whether the condition `condition` holds of the value `dv` read at its field.
pub fn condition_holds(condition: &Value, dv: &Option<Value>) -> (r: bool)
    ensures
        r == field_holds(match dv {
            Some(v) => Some(v@),
            None => None,
        }, condition@),
{
    let ghost dj = match dv {
        Some(v) => Some(v@),
        None => None,
    };
    match condition {
        Value::Object(ops) => {
            proof {
                lemma_object_view(*ops);
            }
            let ghost s = entries_view(ops@);
            let mut i: usize = 0;
            while i < ops.len()
                invariant
                    i <= ops@.len(),
                    s == entries_view(ops@),
                    condition@ == Json::Obj(s),
                    dj == match dv {
                        Some(v) => Some(v@),
                        None => None,
                    },
                    forall|j: int| 0 <= j < i ==> #[trigger] op_holds(s[j].0, s[j].1, dj),
                decreases ops@.len() - i,
            {
                if !op_clause_holds(&ops[i].0, &ops[i].1, dv) {
                    assert(s.len() == ops@.len());
                    assert(!op_holds(s[i as int].0, s[i as int].1, dj));
                    assert(!ops_hold(s, dj));
                    return false;
                }
                i = i + 1;
            }
            true
        },
        _ => match dv {
            Some(v) => v.equals(condition),
            None => false,
        },
    }
}

proof fn lemma_cond_decreases(cs: Vec<(String, Value)>, i: int)
    requires
        0 <= i < cs@.len(),
    ensures
        decreases_to!(cs => cs@[i].1),
{
    assert(decreases_to!(cs => cs@));
    assert(decreases_to!(cs@ => cs@[i]));
    assert(decreases_to!(cs@[i] => cs@[i].1));
}

proof fn lemma_items_decreases(v: Value)
    requires
        v is Array,
    ensures
        decreases_to!(v => v->Array_0),
{
}

proof fn lemma_object_item_decreases(items: Vec<Value>, i: int)
    requires
        0 <= i < items@.len(),
        items@[i] is Object,
    ensures
        decreases_to!(items => items@[i]->Object_0),
{
    assert(decreases_to!(items => items@));
    assert(decreases_to!(items@ => items@[i]));
    assert(decreases_to!(items@[i] => items@[i]->Object_0));
}

proof fn lemma_not_decreases(v: Value)
    requires
        v is Object,
    ensures
        decreases_to!(v => v->Object_0),
{
}

/// Whether every condition of `cs` holds of `doc`.
pub fn entries_match(cs: &Vec<(String, Value)>, doc: &Document) -> (r: bool)
    ensures
        r == conds_match(entries_view(cs@), doc@),
    decreases cs,
{
    let ghost s = entries_view(cs@);
    let mut i: usize = 0;
    proof {
        assert(s.subrange(0, s.len() as int) =~= s);
    }
    while i < cs.len()
        invariant
            i <= cs@.len(),
            s == entries_view(cs@),
            conds_match(s, doc@) == conds_match(s.subrange(i as int, s.len() as int), doc@),
        decreases cs@.len() - i,
    {
        proof {
            lemma_cond_decreases(*cs, i as int);
            assert(s.subrange(i as int, s.len() as int).subrange(
                1,
                s.len() - i,
            ) =~= s.subrange(i as int + 1, s.len() as int));
        }
        if !condition_matches(&cs[i].0, &cs[i].1, doc) {
            return false;
        }
        i = i + 1;
    }
    true
}

/// Whether one condition, with key `k` and operand `v`, holds of `doc`.
pub fn condition_matches(k: &String, v: &Value, doc: &Document) -> (r: bool)
    ensures
        r == cond_holds(k@, v@, doc@),
    decreases v,
{
    let key = k.as_str();
    if text_eq(key, "$and") {
        match v {
            Value::Array(items) => {
                proof {
                    lemma_array_view(*items);
                    lemma_items_decreases(*v);
                }
                items_all(items, doc)
            },
            _ => true,
        }
    } else if text_eq(key, "$or") {
        match v {
            Value::Array(items) => {
                proof {
                    lemma_array_view(*items);
                    lemma_items_decreases(*v);
                }
                items.len() == 0 || items_any(items, doc)
            },
            _ => true,
        }
    } else if text_eq(key, "$not") {
        match v {
            Value::Object(c) => {
                proof {
                    lemma_object_view(*c);
                    lemma_not_decreases(*v);
                }
                !entries_match(c, doc)
            },
            _ => true,
        }
    } else {
        let dv = doc.get(key);
        condition_holds(v, &dv)
    }
}

/// Whether every object among `items` matches `doc`.
pub fn items_all(items: &Vec<Value>, doc: &Document) -> (r: bool)
    ensures
        r == all_match(items_view(items@), doc@),
    decreases items,
{
    let ghost s = items_view(items@);
    let mut i: usize = 0;
    proof {
        assert(s.subrange(0, s.len() as int) =~= s);
    }
    while i < items.len()
        invariant
            i <= items@.len(),
            s == items_view(items@),
            all_match(s, doc@) == all_match(s.subrange(i as int, s.len() as int), doc@),
        decreases items@.len() - i,
    {
        proof {
            assert(s.subrange(i as int, s.len() as int).subrange(
                1,
                s.len() - i,
            ) =~= s.subrange(i as int + 1, s.len() as int));
        }
        match &items[i] {
            Value::Object(c) => {
                proof {
                    lemma_object_view(*c);
                    lemma_object_item_decreases(*items, i as int);
                }
                if !entries_match(c, doc) {
                    return false;
                }
            },
            _ => {},
        }
        i = i + 1;
    }
    true
}

/// Whether some object among `items` matches `doc`.
pub fn items_any(items: &Vec<Value>, doc: &Document) -> (r: bool)
    ensures
        r == any_match(items_view(items@), doc@),
    decreases items,
{
    let ghost s = items_view(items@);
    let mut i: usize = 0;
    proof {
        assert(s.subrange(0, s.len() as int) =~= s);
    }
    while i < items.len()
        invariant
            i <= items@.len(),
            s == items_view(items@),
            any_match(s, doc@) == any_match(s.subrange(i as int, s.len() as int), doc@),
        decreases items@.len() - i,
    {
        proof {
            assert(s.subrange(i as int, s.len() as int).subrange(
                1,
                s.len() - i,
            ) =~= s.subrange(i as int + 1, s.len() as int));
        }
        match &items[i] {
            Value::Object(c) => {
                proof {
                    lemma_object_view(*c);
                    lemma_object_item_decreases(*items, i as int);
                }
                if entries_match(c, doc) {
                    return true;
                }
            },
            _ => {},
        }
        i = i + 1;
    }
    false
}

impl Query {
    /// The query without conditions, which every document matches.
    pub fn empty() -> (r: Query)
        ensures
            r@ == Seq::<(Seq<char>, Json)>::empty(),
    {
        let r = Query { conditions: Vec::new() };
        assert(r@ =~= Seq::<(Seq<char>, Json)>::empty());
        r
    }

    /// The query with the given conditions.
    pub fn new(conditions: Vec<(String, Value)>) -> (r: Query)
        ensures
            r@ == entries_view(conditions@),
    {
        Query { conditions }
    }

    /// The query whose conditions are the entries of `v`, which must be an object.
    pub fn from_value(v: Value) -> (r: Result<Query, DbError>)
        ensures
            match v@ {
                Json::Obj(cs) => r matches Ok(q) && q@ == cs,
                _ => r == Err::<Query, DbError>(DbError::MalformedInput),
            },
    {
        match v {
            Value::Object(cs) => {
                proof {
                    lemma_object_view(cs);
                }
                Ok(Query { conditions: cs })
            },
            _ => Err(DbError::MalformedInput),
        }
    }

    /// Whether `doc` meets every condition.
    pub fn matches(&self, doc: &Document) -> (r: bool)
        ensures
            r == conds_match(self@, doc@),
    {
        entries_match(&self.conditions, doc)
    }

    /// Whether the condition `condition` holds of the field `field` of `doc`.
    pub fn field_matches(&self, field: &str, condition: &Value, doc: &Document) -> (r: bool)
        ensures
            r == field_holds(doc_get(doc@, field@), condition@),
    {
        let dv = doc.get(field);
        condition_holds(condition, &dv)
    }

    /// The operand of the condition on `field`.
    pub fn get_field_value(&self, field: &str) -> (r: Option<&Value>)
        ensures
            match r {
                Some(v) => lookup(self@, field@) == Some(v@),
                None => lookup(self@, field@) is None,
            },
    {
        match find_entry(&self.conditions, field) {
            Some(i) => Some(&self.conditions[i].1),
            None => None,
        }
    }

    /// Whether the condition on `field` pins it to a plain value.
    pub fn has_simple_equality(&self, field: &str) -> (r: bool)
        ensures
            r == simple_equality(self@, field@),
    {
        match self.get_field_value(field) {
            Some(v) => match v {
                Value::Object(_) => false,
                _ => true,
            },
            None => false,
        }
    }

    /// The `$eq` operand of the condition on `field`, when that condition is an object.
    pub fn has_equality_operator(&self, field: &str) -> (r: Option<&Value>)
        ensures
            match r {
                Some(v) => eq_operand(self@, field@) == Some(v@),
                None => eq_operand(self@, field@) is None,
            },
    {
        match self.get_field_value(field) {
            Some(v) => match v {
                Value::Object(o) => {
                    proof {
                        lemma_object_view(*o);
                    }
                    match find_entry(o, "$eq") {
                        Some(i) => Some(&o[i].1),
                        None => None,
                    }
                },
                _ => None,
            },
            None => None,
        }
    }
}

} // verus!
