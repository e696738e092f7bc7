use vstd::prelude::*;

verus! {

/// The abstract structured value that documents, queries and update specs are made of.
pub ghost enum Json {
    Null,
    Bool(bool),
    Num(int),
    Str(Seq<char>),
    Arr(Seq<Json>),
    Obj(Seq<(Seq<char>, Json)>),
}

/// A structured value: null, boolean, integer number, string, array or object.
/// An object keeps its entries in order; lookups by key go to the first entry with that key.
#[derive(Debug)]
pub enum Value {
    Null,
    Bool(bool),
    Number(i64),
    Str(String),
    Array(Vec<Value>),
    Object(Vec<(String, Value)>),
}

impl View for Value {
    type V = Json;

    open spec fn view(&self) -> Json
        decreases self,
    {
        match self {
            Value::Null => Json::Null,
            Value::Bool(b) => Json::Bool(*b),
            Value::Number(n) => Json::Num(*n as int),
            Value::Str(s) => Json::Str(s@),
            Value::Array(a) => Json::Arr(
                Seq::new(a@.len(), |i: int| if 0 <= i < a@.len() { a@[i].view() } else { Json::Null }),
            ),
            Value::Object(o) => {
                let vals = Seq::new(
                    o@.len(),
                    |i: int| if 0 <= i < o@.len() { o@[i].1.view() } else { Json::Null },
                );
                Json::Obj(Seq::new(o@.len(), |i: int| (o@[i].0@, vals[i])))
            },
        }
    }
}

/// The abstract entries of an object held as a vector of key/value pairs.
pub open spec fn entries_view(o: Seq<(String, Value)>) -> Seq<(Seq<char>, Json)> {
    Seq::new(o.len(), |i: int| (o[i].0@, o[i].1@))
}

/// The abstract items of an array.
pub open spec fn items_view(a: Seq<Value>) -> Seq<Json> {
    Seq::new(a.len(), |i: int| a[i]@)
}

/// No entry before position `i` has key `k`.
pub open spec fn key_absent_before<V>(s: Seq<(Seq<char>, V)>, k: Seq<char>, i: int) -> bool {
    forall|j: int| 0 <= j < i ==> #[trigger] s[j].0 != k
}

/// `i` is the position of the first entry with key `k`.
pub open spec fn is_first_key<V>(s: Seq<(Seq<char>, V)>, k: Seq<char>, i: int) -> bool {
    0 <= i < s.len() && s[i].0 == k && key_absent_before(s, k, i)
}

/// Position of the first entry with key `k`, or -1 when there is none.
pub open spec fn key_index<V>(s: Seq<(Seq<char>, V)>, k: Seq<char>) -> int {
    if exists|i: int| is_first_key(s, k, i) {
        choose|i: int| is_first_key(s, k, i)
    } else {
        -1
    }
}

/// The value stored under the first entry with key `k`, if any.
pub open spec fn lookup<V>(s: Seq<(Seq<char>, V)>, k: Seq<char>) -> Option<V> {
    let i = key_index(s, k);
    if i >= 0 {
        Some(s[i].1)
    } else {
        None
    }
}

/// `s` with the first entry of key `k` given value `v`, or with `(k, v)` appended.
pub open spec fn put<V>(s: Seq<(Seq<char>, V)>, k: Seq<char>, v: V) -> Seq<(Seq<char>, V)> {
    let i = key_index(s, k);
    if i >= 0 {
        s.update(i, (k, v))
    } else {
        s.push((k, v))
    }
}

/// `s` without its first entry of key `k`.
pub open spec fn remove_key<V>(s: Seq<(Seq<char>, V)>, k: Seq<char>) -> Seq<(Seq<char>, V)> {
    let i = key_index(s, k);
    if i >= 0 {
        s.remove(i)
    } else {
        s
    }
}

/// The first position is the only one that is first.
pub proof fn lemma_key_index<V>(s: Seq<(Seq<char>, V)>, k: Seq<char>, i: int)
    requires
        is_first_key(s, k, i),
    ensures
        key_index(s, k) == i,
{
    let c = key_index(s, k);
    assert(is_first_key(s, k, c));
    if c < i {
        assert(s[c].0 != k);
    } else if i < c {
        assert(s[i].0 != k);
    }
}

/// Without any entry of key `k` there is no first one.
pub proof fn lemma_key_missing<V>(s: Seq<(Seq<char>, V)>, k: Seq<char>)
    requires
        forall|j: int| 0 <= j < s.len() ==> s[j].0 != k,
    ensures
        key_index(s, k) == -1,
{
    if exists|i: int| is_first_key(s, k, i) {
        let i = choose|i: int| is_first_key(s, k, i);
        assert(s[i].0 != k);
    }
}

/// When some entry has key `k`, a first one does.
pub proof fn lemma_key_exists<V>(s: Seq<(Seq<char>, V)>, k: Seq<char>, j: int)
    requires
        0 <= j < s.len(),
        s[j].0 == k,
    ensures
        key_index(s, k) >= 0,
        is_first_key(s, k, key_index(s, k)),
    decreases j,
{
    if exists|i: int| 0 <= i < j && s[i].0 == k {
        let i = choose|i: int| 0 <= i < j && s[i].0 == k;
        lemma_key_exists(s, k, i);
    } else {
        assert(is_first_key(s, k, j));
        lemma_key_index(s, k, j);
    }
}

/// Without a first entry of key `k` there is none at all.
pub proof fn lemma_key_absent<V>(s: Seq<(Seq<char>, V)>, k: Seq<char>)
    requires
        key_index(s, k) == -1,
    ensures
        forall|j: int| 0 <= j < s.len() ==> s[j].0 != k,
{
    assert forall|j: int| 0 <= j < s.len() implies s[j].0 != k by {
        if s[j].0 == k {
            lemma_key_exists(s, k, j);
        }
    }
}

/// After `put`, the key holds the value put.
pub proof fn lemma_lookup_put<V>(s: Seq<(Seq<char>, V)>, k: Seq<char>, v: V)
    ensures
        lookup(put(s, k, v), k) == Some(v),
        key_index(put(s, k, v), k) == if key_index(s, k) >= 0 {
            key_index(s, k)
        } else {
            s.len() as int
        },
{
    let i = key_index(s, k);
    let t = put(s, k, v);
    if i >= 0 {
        assert(is_first_key(s, k, i));
        assert(is_first_key(t, k, i));
        lemma_key_index(t, k, i);
    } else {
        lemma_key_absent(s, k);
        assert(is_first_key(t, k, s.len() as int));
        lemma_key_index(t, k, s.len() as int);
    }
}

/// Putting twice under one key keeps only the second value.
pub proof fn lemma_put_put<V>(s: Seq<(Seq<char>, V)>, k: Seq<char>, v: V, w: V)
    ensures
        put(put(s, k, v), k, w) == put(s, k, w),
{
    lemma_lookup_put(s, k, v);
    let i = key_index(s, k);
    if i >= 0 {
        assert(put(put(s, k, v), k, w) =~= put(s, k, w));
    } else {
        assert(put(put(s, k, v), k, w) =~= put(s, k, w));
    }
}

/// With at most one entry of key `k`, removing it leaves none.
pub proof fn lemma_lookup_remove_key<V>(s: Seq<(Seq<char>, V)>, k: Seq<char>)
    requires
        forall|i: int, j: int| 0 <= i < s.len() && 0 <= j < s.len() && s[i].0 == k && s[j].0 == k ==> i == j,
    ensures
        lookup(remove_key(s, k), k) is None,
        forall|j: int| 0 <= j < remove_key(s, k).len() ==> remove_key(s, k)[j].0 != k,
{
    let i = key_index(s, k);
    let t = remove_key(s, k);
    if i >= 0 {
        assert(is_first_key(s, k, i));
        assert forall|j: int| 0 <= j < t.len() implies t[j].0 != k by {
            if j < i {
                assert(t[j] == s[j]);
            } else {
                assert(t[j] == s[j + 1]);
            }
        }
    } else {
        lemma_key_absent(s, k);
    }
    lemma_key_missing(t, k);
}

pub proof fn lemma_array_view(a: Vec<Value>)
    ensures
        Value::Array(a)@ == Json::Arr(items_view(a@)),
{
    assert(Value::Array(a)@->Arr_0 =~= items_view(a@));
}

pub proof fn lemma_object_view(o: Vec<(String, Value)>)
    ensures
        Value::Object(o)@ == Json::Obj(entries_view(o@)),
{
    assert(Value::Object(o)@->Obj_0 =~= entries_view(o@));
}

proof fn lemma_item_decreases(v: Value, i: int)
    requires
        v is Array,
        0 <= i < v->Array_0@.len(),
    ensures
        decreases_to!(v => v->Array_0@[i]),
{
    let a = v->Array_0;
    assert(decreases_to!(v => v->Array_0));
    assert(decreases_to!(a => a@));
    assert(decreases_to!(a@ => a@[i]));
}

proof fn lemma_entry_decreases(v: Value, i: int)
    requires
        v is Object,
        0 <= i < v->Object_0@.len(),
    ensures
        decreases_to!(v => v->Object_0@[i].1),
{
    let o = v->Object_0;
    assert(decreases_to!(v => v->Object_0));
    assert(decreases_to!(o => o@));
    assert(decreases_to!(o@ => o@[i]));
    assert(decreases_to!(o@[i] => o@[i].1));
}

/// Whether two strings hold the same characters.
pub fn text_eq(a: &str, b: &str) -> (r: bool)
    ensures
        r == (a@ == b@),
{
    let x = String::from_str(a);
    let y = String::from_str(b);
    x == y
}

/// Position of the first entry of `o` whose key is `key`.
pub fn find_entry(o: &Vec<(String, Value)>, key: &str) -> (r: Option<usize>)
    ensures
        match r {
            Some(i) => key_index(entries_view(o@), key@) == i as int,
            None => key_index(entries_view(o@), key@) == -1,
        },
{
    let ghost s = entries_view(o@);
    let mut i: usize = 0;
    while i < o.len()
        invariant
            0 <= i <= o@.len(),
            s == entries_view(o@),
            key_absent_before(s, key@, i as int),
        decreases o@.len() - i,
    {
        if text_eq(o[i].0.as_str(), key) {
            proof {
                lemma_key_index(s, key@, i as int);
            }
            return Some(i);
        }
        i = i + 1;
    }
    proof {
        lemma_key_missing(s, key@);
    }
    None
}

/// Whether `pattern` occurs in `s` as a contiguous run of characters.
pub fn text_contains(s: &str, pattern: &str) -> (r: bool)
    ensures
        r == is_substring(pattern@, s@),
{
    let n = s.unicode_len();
    let m = pattern.unicode_len();
    if m > n {
        assert(!is_substring(pattern@, s@)) by {
            if is_substring(pattern@, s@) {
                let i = choose|i: int| 0 <= i && i + pattern@.len() <= s@.len() && #[trigger] s@.subrange(i, i + pattern@.len()) == pattern@;
            }
        }
        return false;
    }
    let mut i: usize = 0;
    while i <= n - m
        invariant
            n == s@.len(),
            m == pattern@.len(),
            m <= n,
            i <= n - m + 1,
            forall|k: int| 0 <= k < i ==> #[trigger] s@.subrange(k, k + m) != pattern@,
        decreases n - i,
    {
        let mut j: usize = 0;
        let mut same = true;
        while j < m && same
            invariant
                n == s@.len(),
                m == pattern@.len(),
                i + m <= n,
                j <= m,
                same == forall|t: int| 0 <= t < j ==> s@[i + t] == pattern@[t],
            decreases m - j,
        {
            if s.get_char(i + j) != pattern.get_char(j) {
                same = false;
            }
            j = j + 1;
        }
        if same {
            assert(s@.subrange(i as int, i + m) =~= pattern@);
            return true;
        }
        proof {
            if s@.subrange(i as int, i + m) == pattern@ {
                let t = choose|t: int| 0 <= t < j && s@[i + t] != pattern@[t];
                assert(s@.subrange(i as int, i + m)[t] == s@[i + t]);
            }
        }
        i = i + 1;
    }
    assert(!is_substring(pattern@, s@)) by {
        if is_substring(pattern@, s@) {
            let k = choose|k: int| 0 <= k && k + pattern@.len() <= s@.len() && #[trigger] s@.subrange(k, k + pattern@.len()) == pattern@;
            assert(k < i);
        }
    }
    false
}

/// Deep equality of structured values: arrays item by item, objects as mappings (the same
/// number of entries, every key of each found in the other, with equal values).
pub open spec fn json_eq(a: Json, b: Json) -> bool
    decreases a,
{
    match (a, b) {
        (Json::Null, Json::Null) => true,
        (Json::Bool(x), Json::Bool(y)) => x == y,
        (Json::Num(x), Json::Num(y)) => x == y,
        (Json::Str(x), Json::Str(y)) => x == y,
        (Json::Arr(x), Json::Arr(y)) => x.len() == y.len() && items_eq(x, y),
        (Json::Obj(x), Json::Obj(y)) => x.len() == y.len() && entries_in(x, y) && keys_in(y, x),
        _ => false,
    }
}

/// `x` and `y` are equal item by item, as far as `x` goes.
pub open spec fn items_eq(x: Seq<Json>, y: Seq<Json>) -> bool
    decreases x,
{
    if x.len() == 0 {
        true
    } else {
        y.len() > 0 && json_eq(x[0], y[0]) && items_eq(
            x.subrange(1, x.len() as int),
            y.subrange(1, y.len() as int),
        )
    }
}

/// Every entry of `x` has its key in `y`, with an equal value there.
pub open spec fn entries_in(x: Seq<(Seq<char>, Json)>, y: Seq<(Seq<char>, Json)>) -> bool
    decreases x,
{
    if x.len() == 0 {
        true
    } else {
        match lookup(y, x[0].0) {
            Some(w) => json_eq(x[0].1, w) && entries_in(x.subrange(1, x.len() as int), y),
            None => false,
        }
    }
}

/// Every key of `y` is a key of `x`.
pub open spec fn keys_in(y: Seq<(Seq<char>, Json)>, x: Seq<(Seq<char>, Json)>) -> bool {
    forall|t: int| 0 <= t < y.len() ==> #[trigger] lookup(x, y[t].0) is Some
}

/// `p` occurs in `s` as a contiguous run of characters.
pub open spec fn is_substring(p: Seq<char>, s: Seq<char>) -> bool {
    exists|i: int| 0 <= i && i + p.len() <= s.len() && #[trigger] s.subrange(i, i + p.len()) == p
}

impl Value {
    /// A deep copy of this value.
    pub fn copy(&self) -> (r: Value)
        ensures
            r@ == self@,
        decreases self,
    {
        match self {
            Value::Null => Value::Null,
            Value::Bool(b) => Value::Bool(*b),
            Value::Number(n) => Value::Number(*n),
            Value::Str(s) => Value::Str(s.clone()),
            Value::Array(a) => {
                let mut out: Vec<Value> = Vec::new();
                let mut i: usize = 0;
                while i < a.len()
                    invariant
                        *self == Value::Array(*a),
                        i <= a@.len(),
                        out@.len() == i,
                        forall|j: int| 0 <= j < i ==> out@[j]@ == a@[j]@,
                    decreases a@.len() - i,
                {
                    proof {
                        lemma_item_decreases(*self, i as int);
                    }
                    let c = a[i].copy();
                    out.push(c);
                    i = i + 1;
                }
                proof {
                    lemma_array_view(*a);
                    lemma_array_view(out);
                    assert(items_view(out@) =~= items_view(a@));
                }
                Value::Array(out)
            },
            Value::Object(o) => {
                let mut out: Vec<(String, Value)> = Vec::new();
                let mut i: usize = 0;
                while i < o.len()
                    invariant
                        *self == Value::Object(*o),
                        i <= o@.len(),
                        out@.len() == i,
                        forall|j: int| 0 <= j < i ==> out@[j].0@ == o@[j].0@ && out@[j].1@ == o@[j].1@,
                    decreases o@.len() - i,
                {
                    let k = o[i].0.clone();
                    proof {
                        lemma_entry_decreases(*self, i as int);
                    }
                    let c = o[i].1.copy();
                    out.push((k, c));
                    i = i + 1;
                }
                proof {
                    lemma_object_view(*o);
                    lemma_object_view(out);
                    assert(entries_view(out@) =~= entries_view(o@));
                }
                Value::Object(out)
            },
        }
    }

    /// Deep equality of two values, objects compared as mappings from keys to values.
    pub fn equals(&self, other: &Value) -> (r: bool)
        ensures
            r == json_eq(self@, other@),
        decreases self,
    {
        match (self, other) {
            (Value::Null, Value::Null) => true,
            (Value::Bool(a), Value::Bool(b)) => *a == *b,
            (Value::Number(a), Value::Number(b)) => *a == *b,
            (Value::Str(a), Value::Str(b)) => *a == *b,
            (Value::Array(a), Value::Array(b)) => {
                proof {
                    lemma_array_view(*a);
                    lemma_array_view(*b);
                }
                if a.len() != b.len() {
                    return false;
                }
                let ghost x = items_view(a@);
                let ghost y = items_view(b@);
                let mut i: usize = 0;
                proof {
                    assert(x.subrange(0, x.len() as int) =~= x);
                    assert(y.subrange(0, y.len() as int) =~= y);
                }
                while i < a.len()
                    invariant
                        *self == Value::Array(*a),
                        self@ == Json::Arr(x),
                        other@ == Json::Arr(y),
                        x == items_view(a@),
                        y == items_view(b@),
                        i <= a@.len(),
                        a@.len() == b@.len(),
                        items_eq(x, y) == items_eq(
                            x.subrange(i as int, x.len() as int),
                            y.subrange(i as int, y.len() as int),
                        ),
                    decreases a@.len() - i,
                {
                    proof {
                        lemma_item_decreases(*self, i as int);
                        let xs = x.subrange(i as int, x.len() as int);
                        let ys = y.subrange(i as int, y.len() as int);
                        assert(xs.subrange(1, xs.len() as int) =~= x.subrange(i as int + 1, x.len() as int));
                        assert(ys.subrange(1, ys.len() as int) =~= y.subrange(i as int + 1, y.len() as int));
                        assert(xs[0] == a@[i as int]@ && ys[0] == b@[i as int]@);
                    }
                    if !a[i].equals(&b[i]) {
                        return false;
                    }
                    i = i + 1;
                }
                proof {
                    assert(x.subrange(i as int, x.len() as int) =~= Seq::<Json>::empty());
                }
                true
            },
            (Value::Object(a), Value::Object(b)) => {
                proof {
                    lemma_object_view(*a);
                    lemma_object_view(*b);
                }
                if a.len() != b.len() {
                    return false;
                }
                let ghost x = entries_view(a@);
                let ghost y = entries_view(b@);
                let mut i: usize = 0;
                proof {
                    assert(x.subrange(0, x.len() as int) =~= x);
                }
                while i < a.len()
                    invariant
                        *self == Value::Object(*a),
                        self@ == Json::Obj(x),
                        other@ == Json::Obj(y),
                        x == entries_view(a@),
                        y == entries_view(b@),
                        i <= a@.len(),
                        a@.len() == b@.len(),
                        entries_in(x, y) == entries_in(x.subrange(i as int, x.len() as int), y),
                    decreases a@.len() - i,
                {
                    proof {
                        lemma_entry_decreases(*self, i as int);
                        let xs = x.subrange(i as int, x.len() as int);
                        assert(xs.subrange(1, xs.len() as int) =~= x.subrange(i as int + 1, x.len() as int));
                        assert(xs[0] == (a@[i as int].0@, a@[i as int].1@));
                    }
                    match find_entry(b, a[i].0.as_str()) {
                        Some(k) => {
                            if !a[i].1.equals(&b[k].1) {
                                return false;
                            }
                        },
                        None => {
                            return false;
                        },
                    }
                    i = i + 1;
                }
                proof {
                    assert(x.subrange(i as int, x.len() as int) =~= Seq::<(Seq<char>, Json)>::empty());
                }
                let mut j: usize = 0;
                while j < b.len()
                    invariant
                        self@ == Json::Obj(x),
                        other@ == Json::Obj(y),
                        x == entries_view(a@),
                        y == entries_view(b@),
                        a@.len() == b@.len(),
                        entries_in(x, y),
                        j <= b@.len(),
                        forall|t: int| 0 <= t < j ==> #[trigger] lookup(x, y[t].0) is Some,
                    decreases b@.len() - j,
                {
                    match find_entry(a, b[j].0.as_str()) {
                        Some(_) => {
                            assert(y[j as int].0 == b@[j as int].0@);
                        },
                        None => {
                            assert(y[j as int].0 == b@[j as int].0@);
                            assert(lookup(x, y[j as int].0) is None);
                            assert(!keys_in(y, x));
                            return false;
                        },
                    }
                    j = j + 1;
                }
                true
            },
            _ => false,
        }
    }
}

} // verus!
