use vstd::prelude::*;
use crate::value::{Json, Value, entries_view, find_entry, lemma_object_view, lookup, put};

verus! {

/// `i` is the position of the first `.` in `p`.
pub open spec fn is_first_dot(p: Seq<char>, i: int) -> bool {
    0 <= i < p.len() && p[i] == '.' && forall|j: int| 0 <= j < i ==> #[trigger] p[j] != '.'
}

/// Position of the first `.` in `p`, or -1 when `p` has none.
pub open spec fn first_dot(p: Seq<char>) -> int {
    if exists|i: int| is_first_dot(p, i) {
        choose|i: int| is_first_dot(p, i)
    } else {
        -1
    }
}

/// Reads the dotted path `p` in the entries `s`: every segment but the last must name an
/// object, the last names the value returned.
pub open spec fn path_get(s: Seq<(Seq<char>, Json)>, p: Seq<char>) -> Option<Json>
    decreases p.len(),
{
    let k = first_dot(p);
    if 0 <= k < p.len() {
        match lookup(s, p.subrange(0, k)) {
            Some(Json::Obj(o)) => path_get(o, p.subrange(k + 1, p.len() as int)),
            _ => None,
        }
    } else {
        lookup(s, p)
    }
}

/// Writes `v` at the dotted path `p` in the entries `s`; an intermediate segment that is
/// missing or not an object becomes a fresh object.
pub open spec fn path_set(s: Seq<(Seq<char>, Json)>, p: Seq<char>, v: Json) -> Seq<
    (Seq<char>, Json),
>
    decreases p.len(),
{
    let k = first_dot(p);
    if 0 <= k < p.len() {
        let head = p.subrange(0, k);
        let child = match lookup(s, head) {
            Some(Json::Obj(o)) => o,
            _ => Seq::empty(),
        };
        put(s, head, Json::Obj(path_set(child, p.subrange(k + 1, p.len() as int), v)))
    } else {
        put(s, p, v)
    }
}

proof fn lemma_first_dot(p: Seq<char>, i: int)
    requires
        is_first_dot(p, i),
    ensures
        first_dot(p) == i,
{
    let c = first_dot(p);
    assert(is_first_dot(p, c));
    if c < i {
        assert(p[c] != '.');
    } else if i < c {
        assert(p[i] != '.');
    }
}

proof fn lemma_no_dot(p: Seq<char>)
    requires
        forall|j: int| 0 <= j < p.len() ==> p[j] != '.',
    ensures
        first_dot(p) == -1,
{
    if exists|i: int| is_first_dot(p, i) {
        let i = choose|i: int| is_first_dot(p, i);
        assert(p[i] != '.');
    }
}

/// Position of the first `.` in `p`.
pub fn find_dot(p: &str) -> (r: Option<usize>)
    ensures
        match r {
            Some(k) => first_dot(p@) == k as int && k < p@.len(),
            None => first_dot(p@) == -1,
        },
{
    let n = p.unicode_len();
    let mut i: usize = 0;
    while i < n
        invariant
            n == p@.len(),
            i <= n,
            forall|j: int| 0 <= j < i ==> p@[j] != '.',
        decreases n - i,
    {
        if p.get_char(i) == '.' {
            proof {
                lemma_first_dot(p@, i as int);
            }
            return Some(i);
        }
        i = i + 1;
    }
    proof {
        lemma_no_dot(p@);
    }
    None
}

/// Reads the dotted path `path` in the object entries `fields`.
pub fn get_path(fields: &Vec<(String, Value)>, path: &str) -> (r: Option<Value>)
    ensures
        match r {
            Some(v) => path_get(entries_view(fields@), path@) == Some(v@),
            None => path_get(entries_view(fields@), path@) is None,
        },
    decreases path@.len(),
{
    match find_dot(path) {
        None => match find_entry(fields, path) {
            Some(i) => Some(fields[i].1.copy()),
            None => None,
        },
        Some(k) => {
            let n = path.unicode_len();
            let head = path.substring_char(0, k);
            let rest = path.substring_char(k + 1, n);
            match find_entry(fields, head) {
                Some(i) => match &fields[i].1 {
                    Value::Object(o) => {
                        proof {
                            lemma_object_view(*o);
                        }
                        get_path(o, rest)
                    },
                    _ => None,
                },
                None => None,
            }
        },
    }
}

/// Stores `value` under `key` in `fields`: in place of the first entry with that key, or as a
/// new last entry.
pub fn put_entry(fields: &mut Vec<(String, Value)>, key: String, value: Value)
    ensures
        entries_view(final(fields)@) == put(entries_view(old(fields)@), key@, value@),
{
    let ghost s = entries_view(fields@);
    match find_entry(fields, key.as_str()) {
        Some(i) => {
            let _old_entry = fields.remove(i);
            fields.insert(i, (key, value));
            assert(entries_view(fields@) =~= s.update(i as int, (key@, value@)));
        },
        None => {
            fields.push((key, value));
            assert(entries_view(fields@) =~= s.push((key@, value@)));
        },
    }
}

/// Writes `value` at the dotted path `path` in `fields`.
pub fn set_path(fields: &mut Vec<(String, Value)>, path: &str, value: Value)
    ensures
        entries_view(final(fields)@) == path_set(entries_view(old(fields)@), path@, value@),
    decreases path@.len(),
{
    match find_dot(path) {
        None => {
            put_entry(fields, String::from_str(path), value);
        },
        Some(k) => {
            let ghost s = entries_view(fields@);
            let n = path.unicode_len();
            let head = path.substring_char(0, k);
            let rest = path.substring_char(k + 1, n);
            match find_entry(fields, head) {
                Some(i) => {
                    let entry = fields.remove(i);
                    let (key, child) = entry;
                    let mut o: Vec<(String, Value)> = match child {
                        Value::Object(o) => {
                            proof {
                                lemma_object_view(o);
                            }
                            o
                        },
                        _ => Vec::new(),
                    };
                    assert(entries_view(o@) == match lookup(s, head@) {
                        Some(Json::Obj(c)) => c,
                        _ => Seq::empty(),
                    }) by {
                        if !(s[i as int].1 is Obj) {
                            assert(entries_view(o@) =~= Seq::empty());
                        }
                    }
                    set_path(&mut o, rest, value);
                    let ghost nv = Value::Object(o)@;
                    proof {
                        lemma_object_view(o);
                    }
                    fields.insert(i, (key, Value::Object(o)));
                    assert(entries_view(fields@) =~= s.update(i as int, (head@, nv)));
                },
                None => {
                    let mut o: Vec<(String, Value)> = Vec::new();
                    assert(entries_view(o@) =~= Seq::empty());
                    set_path(&mut o, rest, value);
                    let ghost nv = Value::Object(o)@;
                    proof {
                        lemma_object_view(o);
                    }
                    fields.push((String::from_str(head), Value::Object(o)));
                    assert(entries_view(fields@) =~= s.push((head@, nv)));
                },
            }
        },
    }
}

} // verus!
