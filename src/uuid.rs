use vstd::prelude::*;

verus! {

/// The lower-case hexadecimal digit for `n` in `0..16`.
pub open spec fn hex_char(n: int) -> char {
    if n < 10 {
        crate::keytext::digit_char(n)
    } else if n == 10 {
        'a'
    } else if n == 11 {
        'b'
    } else if n == 12 {
        'c'
    } else if n == 13 {
        'd'
    } else if n == 14 {
        'e'
    } else {
        'f'
    }
}

/// Byte `i` of a version-4 identifier made from the random bytes `b`: byte 6 carries the
/// version, byte 8 the variant.
pub open spec fn uuid_byte(b: Seq<u8>, i: int) -> u8 {
    if i == 6 {
        (b[6] & 0x0f) | 0x40
    } else if i == 8 {
        (b[8] & 0x3f) | 0x80
    } else {
        b[i]
    }
}

/// The text of the first `n` bytes of the identifier: two hexadecimal digits per byte, with a
/// `-` before bytes 4, 6, 8 and 10.
pub open spec fn uuid_prefix(b: Seq<u8>, n: int) -> Seq<char>
    decreases n,
{
    if n <= 0 {
        Seq::empty()
    } else {
        let pre = uuid_prefix(b, n - 1);
        let i = n - 1;
        let x = uuid_byte(b, i) as int;
        (if i == 4 || i == 6 || i == 8 || i == 10 {
            pre.push('-')
        } else {
            pre
        }) + seq![hex_char(x / 16), hex_char(x % 16)]
    }
}

pub(crate) fn hex_str(n: u8) -> (r: &'static str)
    requires
        n < 16,
    ensures
        r@ == seq![hex_char(n as int)],
{
    proof {
        reveal_strlit("0");
        reveal_strlit("1");
        reveal_strlit("2");
        reveal_strlit("3");
        reveal_strlit("4");
        reveal_strlit("5");
        reveal_strlit("6");
        reveal_strlit("7");
        reveal_strlit("8");
        reveal_strlit("9");
        reveal_strlit("a");
        reveal_strlit("b");
        reveal_strlit("c");
        reveal_strlit("d");
        reveal_strlit("e");
        reveal_strlit("f");
    }
    match n {
        0 => "0",
        1 => "1",
        2 => "2",
        3 => "3",
        4 => "4",
        5 => "5",
        6 => "6",
        7 => "7",
        8 => "8",
        9 => "9",
        10 => "a",
        11 => "b",
        12 => "c",
        13 => "d",
        14 => "e",
        _ => "f",
    }
}

/// A version-4 identifier in its usual text form, made from 16 random bytes.
pub fn generate_uuid(random: &Vec<u8>) -> (r: String)
    requires
        random@.len() == 16,
    ensures
        r@ == uuid_prefix(random@, 16),
{
    let mut out = String::new();
    let mut i: usize = 0;
    while i < 16
        invariant
            random@.len() == 16,
            i <= 16,
            out@ == uuid_prefix(random@, i as int),
        decreases 16 - i,
    {
        let b: u8 = if i == 6 {
            (random[6] & 0x0f) | 0x40
        } else if i == 8 {
            (random[8] & 0x3f) | 0x80
        } else {
            random[i]
        };
        assert(b == uuid_byte(random@, i as int));
        if i == 4 || i == 6 || i == 8 || i == 10 {
            out.append("-");
            proof {
                reveal_strlit("-");
            }
        }
        out.append(hex_str(b / 16));
        out.append(hex_str(b % 16));
        proof {
            assert(out@ =~= uuid_prefix(random@, i as int + 1));
        }
        i = i + 1;
    }
    out
}

} // verus!
