use vstd::prelude::*;
use crate::uuid::hex_char;
use crate::value::{Json, Value, entries_view, items_view, lemma_array_view, lemma_object_view};

verus! {

/// The decimal digit for `d` in `0..10`.
pub open spec fn digit_char(d: int) -> char {
    if d == 0 {
        '0'
    } else if d == 1 {
        '1'
    } else if d == 2 {
        '2'
    } else if d == 3 {
        '3'
    } else if d == 4 {
        '4'
    } else if d == 5 {
        '5'
    } else if d == 6 {
        '6'
    } else if d == 7 {
        '7'
    } else if d == 8 {
        '8'
    } else {
        '9'
    }
}

/// Decimal text of a natural number, without leading zeros.
pub open spec fn nat_text(n: nat) -> Seq<char>
    decreases n,
{
    if n < 10 {
        seq![digit_char(n as int)]
    } else {
        nat_text(n / 10).push(digit_char((n % 10) as int))
    }
}

/// Decimal text of an integer, with a leading `-` when negative.
pub open spec fn int_text(n: int) -> Seq<char> {
    if n < 0 {
        seq!['-'] + nat_text((-n) as nat)
    } else {
        nat_text(n as nat)
    }
}

/// The JSON string form of one character: `"` and `\` get a backslash, the control
/// characters get their short escape (`\b`, `\t`, `\n`, `\f`, `\r`) or `\u00XX` with lower-case
/// hexadecimal digits, and every other character stands for itself.
pub open spec fn escape_char(c: char) -> Seq<char> {
    if c == '"' || c == '\\' {
        seq!['\\', c]
    } else if c == '\n' {
        seq!['\\', 'n']
    } else if c == '\r' {
        seq!['\\', 'r']
    } else if c == '\t' {
        seq!['\\', 't']
    } else if c == '\u{8}' {
        seq!['\\', 'b']
    } else if c == '\u{c}' {
        seq!['\\', 'f']
    } else if (c as u32) < 0x20 {
        seq!['\\', 'u', '0', '0', hex_char((c as u32) as int / 16), hex_char((c as u32) as int % 16)]
    } else {
        seq![c]
    }
}

/// `s` in JSON string form, without the quotes.
pub open spec fn escaped(s: Seq<char>) -> Seq<char>
    decreases s.len(),
{
    if s.len() == 0 {
        Seq::empty()
    } else {
        let c = s.last();
        escaped(s.drop_last()) + escape_char(c)
    }
}

pub open spec fn null_text() -> Seq<char> {
    seq!['n', 'u', 'l', 'l']
}

pub open spec fn bool_text(b: bool) -> Seq<char> {
    if b {
        seq!['t', 'r', 'u', 'e']
    } else {
        seq!['f', 'a', 'l', 's', 'e']
    }
}

/// The compact text form of a value: `null`, `true`, `-12`, `"a\"b"`, `[1,2]`, `{"k":1}`.
pub open spec fn json_text(v: Json) -> Seq<char>
    decreases v,
{
    match v {
        Json::Null => null_text(),
        Json::Bool(b) => bool_text(b),
        Json::Num(n) => int_text(n),
        Json::Str(s) => seq!['"'] + escaped(s) + seq!['"'],
        Json::Arr(items) => seq!['['] + items_text(items) + seq![']'],
        Json::Obj(es) => seq!['{'] + entries_text(es) + seq!['}'],
    }
}

/// The text forms of `items`, separated by commas.
pub open spec fn items_text(items: Seq<Json>) -> Seq<char>
    decreases items,
{
    if items.len() == 0 {
        Seq::empty()
    } else {
        let n = items.len() - 1;
        let pre = items_text(items.subrange(0, n));
        (if n > 0 {
            pre.push(',')
        } else {
            pre
        }) + json_text(items[n])
    }
}

/// The text forms `"key":value` of the entries `es`, separated by commas.
pub open spec fn entries_text(es: Seq<(Seq<char>, Json)>) -> Seq<char>
    decreases es,
{
    if es.len() == 0 {
        Seq::empty()
    } else {
        let n = es.len() - 1;
        let pre = entries_text(es.subrange(0, n));
        (if n > 0 {
            pre.push(',')
        } else {
            pre
        }) + seq!['"'] + escaped(es[n].0) + seq!['"', ':'] + json_text(es[n].1)
    }
}

/// The text of one value in an index key: a string stands for itself, an array or object
/// for its text form, anything else for its literal.
pub open spec fn key_text(v: Json) -> Seq<char> {
    match v {
        Json::Str(s) => s,
        _ => json_text(v),
    }
}

fn digit_str(d: u64) -> (r: &'static str)
    requires
        d < 10,
    ensures
        r@ == seq![digit_char(d as int)],
{
    proof {
        reveal_strlit("0");
        reveal_strlit("1");
        reveal_strlit("2");
        reveal_strlit("3");
        reveal_strlit("4");
        reveal_strlit("5");
        reveal_strlit("6");
        reveal_strlit("7");
        reveal_strlit("8");
        reveal_strlit("9");
    }
    if d == 0 {
        "0"
    } else if d == 1 {
        "1"
    } else if d == 2 {
        "2"
    } else if d == 3 {
        "3"
    } else if d == 4 {
        "4"
    } else if d == 5 {
        "5"
    } else if d == 6 {
        "6"
    } else if d == 7 {
        "7"
    } else if d == 8 {
        "8"
    } else {
        "9"
    }
}

/// Decimal text of `n`.
pub fn nat_to_text(n: u64) -> (r: String)
    ensures
        r@ == nat_text(n as nat),
    decreases n,
{
    if n < 10 {
        String::from_str(digit_str(n))
    } else {
        let mut s = nat_to_text(n / 10);
        s.append(digit_str(n % 10));
        s
    }
}

/// Decimal text of `n`, with a leading `-` when negative.
pub fn int_to_text(n: i64) -> (r: String)
    ensures
        r@ == int_text(n as int),
{
    if n < 0 {
        let m: u64 = (0i128 - n as i128) as u64;
        let digits = nat_to_text(m);
        let mut s = String::from_str("-");
        proof {
            reveal_strlit("-");
        }
        s.append(digits.as_str());
        s
    } else {
        nat_to_text(n as u64)
    }
}

fn append_char(out: &mut String, c: char, piece: &str)
    requires
        piece@ == seq![c],
    ensures
        final(out)@ == old(out)@ + escape_char(c),
{
    proof {
        reveal_strlit("\\\"");
        reveal_strlit("\\\\");
        reveal_strlit("\\n");
        reveal_strlit("\\r");
        reveal_strlit("\\t");
        reveal_strlit("\\b");
        reveal_strlit("\\f");
        reveal_strlit("\\u00");
    }
    let ghost before = out@;
    if c == '"' {
        out.append("\\\"");
    } else if c == '\\' {
        out.append("\\\\");
    } else if c == '\n' {
        out.append("\\n");
    } else if c == '\r' {
        out.append("\\r");
    } else if c == '\t' {
        out.append("\\t");
    } else if c == '\u{8}' {
        out.append("\\b");
    } else if c == '\u{c}' {
        out.append("\\f");
    } else if (c as u32) < 0x20 {
        let n = c as u32;
        out.append("\\u00");
        out.append(crate::uuid::hex_str((n / 16) as u8));
        out.append(crate::uuid::hex_str((n % 16) as u8));
    } else {
        out.append(piece);
    }
    assert(out@ =~= before + escape_char(c));
}

/// Appends `src` to `out` in JSON string form, without the quotes.
fn append_escaped(out: &mut String, src: &str)
    ensures
        final(out)@ == old(out)@ + escaped(src@),
{
    let n = src.unicode_len();
    let mut i: usize = 0;
    proof {
        assert(src@.subrange(0, 0) =~= Seq::<char>::empty());
        assert(out@ =~= old(out)@ + escaped(src@.subrange(0, 0)));
    }
    while i < n
        invariant
            n == src@.len(),
            i <= n,
            out@ == old(out)@ + escaped(src@.subrange(0, i as int)),
        decreases n - i,
    {
        let c = src.get_char(i);
        let piece = src.substring_char(i, i + 1);
        proof {
            assert(src@.subrange(0, i as int + 1).drop_last() =~= src@.subrange(0, i as int));
            assert(piece@ =~= seq![c]);
        }
        append_char(out, c, piece);
        proof {
            assert(out@ =~= old(out)@ + escaped(src@.subrange(0, i as int + 1)));
        }
        i = i + 1;
    }
    proof {
        assert(src@.subrange(0, n as int) =~= src@);
    }
}

/// The compact text form of `v`.
pub fn value_text(v: &Value) -> (r: String)
    ensures
        r@ == json_text(v@),
    decreases v,
{
    proof {
        reveal_strlit("null");
        reveal_strlit("true");
        reveal_strlit("false");
        reveal_strlit("\"");
        reveal_strlit("[");
        reveal_strlit("]");
        reveal_strlit("{");
        reveal_strlit("}");
        reveal_strlit(",");
        reveal_strlit("\":");
    }
    match v {
        Value::Null => String::from_str("null"),
        Value::Bool(b) => if *b {
            String::from_str("true")
        } else {
            String::from_str("false")
        },
        Value::Number(n) => int_to_text(*n),
        Value::Str(s) => {
            let mut out = String::from_str("\"");
            append_escaped(&mut out, s.as_str());
            out.append("\"");
            out
        },
        Value::Array(items) => {
            proof {
                lemma_array_view(*items);
            }
            let ghost s = items_view(items@);
            let mut out = String::from_str("[");
            let mut i: usize = 0;
            proof {
                assert(s.subrange(0, 0) =~= Seq::<Json>::empty());
            }
            while i < items.len()
                invariant
                    *v == Value::Array(*items),
                    s == items_view(items@),
                    i <= items@.len(),
                    out@ == seq!['['] + items_text(s.subrange(0, i as int)),
                decreases items@.len() - i,
            {
                proof {
                    assert(decreases_to!(*v => v->Array_0));
                    assert(decreases_to!(items@ => items@[i as int]));
                    assert(s.subrange(0, i as int + 1).subrange(0, i as int) =~= s.subrange(
                        0,
                        i as int,
                    ));
                }
                proof {
                    reveal_strlit(",");
                }
                let ghost sub = s.subrange(0, i as int + 1);
                let ghost pre = items_text(s.subrange(0, i as int));
                let ghost before = out@;
                if i > 0 {
                    out.append(",");
                }
                let t = value_text(&items[i]);
                out.append(t.as_str());
                proof {
                    assert(sub[i as int] == items@[i as int]@);
                    assert(items_text(sub) == (if i > 0 {
                        pre.push(',')
                    } else {
                        pre
                    }) + json_text(items@[i as int]@));
                    assert(out@ =~= seq!['['] + items_text(s.subrange(0, i as int + 1)));
                }
                i = i + 1;
            }
            out.append("]");
            proof {
                assert(s.subrange(0, s.len() as int) =~= s);
            }
            out
        },
        Value::Object(es) => {
            proof {
                lemma_object_view(*es);
            }
            let ghost s = entries_view(es@);
            let mut out = String::from_str("{");
            let mut i: usize = 0;
            proof {
                assert(s.subrange(0, 0) =~= Seq::<(Seq<char>, Json)>::empty());
            }
            while i < es.len()
                invariant
                    *v == Value::Object(*es),
                    s == entries_view(es@),
                    i <= es@.len(),
                    out@ == seq!['{'] + entries_text(s.subrange(0, i as int)),
                decreases es@.len() - i,
            {
                proof {
                    assert(decreases_to!(*v => v->Object_0));
                    assert(decreases_to!(es@ => es@[i as int]));
                    assert(decreases_to!(es@[i as int] => es@[i as int].1));
                    assert(s.subrange(0, i as int + 1).subrange(0, i as int) =~= s.subrange(
                        0,
                        i as int,
                    ));
                }
                proof {
                    reveal_strlit(",");
                    reveal_strlit("\"");
                    reveal_strlit("\":");
                }
                let ghost sub = s.subrange(0, i as int + 1);
                let ghost pre = entries_text(s.subrange(0, i as int));
                if i > 0 {
                    out.append(",");
                }
                out.append("\"");
                append_escaped(&mut out, es[i].0.as_str());
                out.append("\":");
                let t = value_text(&es[i].1);
                out.append(t.as_str());
                proof {
                    assert(sub[i as int] == (es@[i as int].0@, es@[i as int].1@));
                    assert(entries_text(sub) == (if i > 0 {
                        pre.push(',')
                    } else {
                        pre
                    }) + seq!['"'] + escaped(es@[i as int].0@) + seq!['"', ':'] + json_text(
                        es@[i as int].1@,
                    ));
                    assert(out@ =~= seq!['{'] + entries_text(s.subrange(0, i as int + 1)));
                }
                i = i + 1;
            }
            out.append("}");
            proof {
                assert(s.subrange(0, s.len() as int) =~= s);
            }
            out
        },
    }
}

/// The text of `v` in an index key.
pub fn value_key_text(v: &Value) -> (r: String)
    ensures
        r@ == key_text(v@),
{
    match v {
        Value::Str(s) => s.clone(),
        _ => value_text(v),
    }
}

} // verus!
