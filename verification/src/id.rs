//! Conversion of display names to Pokémon Showdown's canonical string IDs,
//! and the escaped display form used when a name is embedded in log text.

use vstd::prelude::*;

verus! {

/// Whether `c` is one of the characters `A`-`Z`, `a`-`z`, `0`-`9`.
pub open spec fn is_id_char(c: char) -> bool {
    ('A' <= c && c <= 'Z') || ('a' <= c && c <= 'z') || ('0' <= c && c <= '9')
}

/// Lower-cases an ASCII letter and leaves every other character unchanged.
pub open spec fn lower_char(c: char) -> char {
    if 'A' <= c && c <= 'Z' {
        (((c as u8) + 32) as char)
    } else {
        c
    }
}

/// The canonical ID of a display name: every character that is not an ASCII
/// letter or digit is dropped, and the rest are lower-cased.
pub open spec fn id_of(s: Seq<char>) -> Seq<char> {
    s.filter(|c: char| is_id_char(c)).map_values(|c: char| lower_char(c))
}

/// How `id_of` grows when one character is appended.
proof fn lemma_id_of_push(s: Seq<char>, c: char)
    ensures
        id_of(s.push(c)) == if is_id_char(c) {
            id_of(s).push(lower_char(c))
        } else {
            id_of(s)
        },
{
    reveal_with_fuel(Seq::<_>::filter, 2);
    assert(s.push(c).drop_last() =~= s);
    assert(s.push(c).last() == c);
    if is_id_char(c) {
        assert(id_of(s.push(c)) =~= id_of(s).push(lower_char(c)));
    } else {
        assert(s.push(c).filter(|x: char| is_id_char(x)) == s.filter(|x: char| is_id_char(x)));
        assert(id_of(s.push(c)) =~= id_of(s));
    }
}

/// The canonical ID of a sequence of characters, as a character vector.
pub fn chars_to_id(chars: &Vec<char>) -> (r: Vec<char>)
    ensures
        r@ == id_of(chars@),
{
    let mut out: Vec<char> = Vec::new();
    let mut i: usize = 0;
    proof {
        assert(chars@.take(0) =~= Seq::<char>::empty());
        reveal_with_fuel(Seq::<_>::filter, 1);
        assert(id_of(chars@.take(0)) =~= Seq::<char>::empty());
    }
    while i < chars.len()
        invariant
            i <= chars@.len(),
            out@ == id_of(chars@.take(i as int)),
        decreases chars@.len() - i,
    {
        let c = chars[i];
        proof {
            assert(chars@.take(i + 1) =~= chars@.take(i as int).push(c));
            lemma_id_of_push(chars@.take(i as int), c);
        }
        if 'A' <= c && c <= 'Z' {
            out.push((((c as u8) + 32) as char));
        } else if ('a' <= c && c <= 'z') || ('0' <= c && c <= '9') {
            out.push(c);
        }
        i = i + 1;
    }
    proof {
        assert(chars@.take(chars@.len() as int) =~= chars@);
    }
    out
}

/// The canonical ID of `chars`, rendered as a string.
pub fn id_string_of_chars(chars: &Vec<char>) -> (r: String)
    ensures
        r@ == id_of(chars@),
{
    let mut out = String::new();
    let mut i: usize = 0;
    proof {
        assert(chars@.take(0) =~= Seq::<char>::empty());
        reveal_with_fuel(Seq::<_>::filter, 1);
        assert(id_of(chars@.take(0)) =~= Seq::<char>::empty());
    }
    while i < chars.len()
        invariant
            i <= chars@.len(),
            out@ == id_of(chars@.take(i as int)),
        decreases chars@.len() - i,
    {
        let c = chars[i];
        proof {
            assert(chars@.take(i + 1) =~= chars@.take(i as int).push(c));
            lemma_id_of_push(chars@.take(i as int), c);
        }
        if ('A' <= c && c <= 'Z') || ('a' <= c && c <= 'z') || ('0' <= c && c <= '9') {
            crate::text::append_lower_id_char(&mut out, c);
        }
        i = i + 1;
    }
    proof {
        assert(chars@.take(chars@.len() as int) =~= chars@);
    }
    out
}

/// The canonical ID of `str`: its ASCII letters and digits, lower-cased,
/// with everything else stripped.
pub fn to_id(str: &str) -> (r: String)
    ensures
        r@ == id_of(str@),
{
    let chars = crate::text::str_to_chars(str);
    id_string_of_chars(&chars)
}

/// The canonical ID computed directly from raw bytes. Bytes outside the
/// ASCII letters and digits never contribute a character to an ID, so the
/// ID of a byte string is determined by its ASCII letter and digit bytes.
pub open spec fn id_of_bytes(bs: Seq<u8>) -> Seq<char> {
    id_of(bs.map_values(|b: u8| b as char))
}

/// The canonical ID of an optional byte slice, `None` when absent.
pub fn bytes_to_id(bytes: &Option<&[u8]>) -> (r: Option<String>)
    ensures
        match bytes {
            Some(b) => r is Some && r->0@ == id_of_bytes(b@),
            None => r is None,
        },
{
    match bytes {
        Some(b) => {
            let mut chars: Vec<char> = Vec::new();
            let mut i: usize = 0;
            while i < b.len()
                invariant
                    i <= b@.len(),
                    chars@ == b@.take(i as int).map_values(|x: u8| x as char),
                decreases b@.len() - i,
            {
                let by = b[i];
                chars.push(by as char);
                proof {
                    assert(b@.take(i + 1) =~= b@.take(i as int).push(b@[i as int]));
                    assert(b@.take(i + 1).map_values(|x: u8| x as char) =~= b@.take(
                        i as int,
                    ).map_values(|x: u8| x as char).push(b@[i as int] as char));
                }
                i = i + 1;
            }
            proof {
                assert(b@.take(b@.len() as int) =~= b@);
            }
            Some(id_string_of_chars(&chars))
        },
        None => None,
    }
}

/// The escaped display form of a name: the name as it appears inside a JSON
/// string literal, with each backslash written `\\` and each quote `\"`.
pub open spec fn escaped_of(s: Seq<char>) -> Seq<char>
    decreases s.len(),
{
    if s.len() == 0 {
        s
    } else {
        let c = s[0];
        let head: Seq<char> = if c == '\\' {
            seq!['\\', '\\']
        } else if c == '"' {
            seq!['\\', '"']
        } else {
            seq![c]
        };
        head + escaped_of(s.skip(1))
    }
}

/// The escaped display form of `chars` (see [`escaped_of`]).
pub fn escape_chars(chars: &Vec<char>) -> (r: Vec<char>)
    ensures
        r@ == escaped_of(chars@),
{
    let mut out: Vec<char> = Vec::new();
    let mut i: usize = 0;
    proof {
        assert(chars@.skip(0) =~= chars@);
    }
    while i < chars.len()
        invariant
            i <= chars@.len(),
            escaped_of(chars@) == out@ + escaped_of(chars@.skip(i as int)),
        decreases chars@.len() - i,
    {
        let c = chars[i];
        proof {
            assert(chars@.skip(i as int)[0] == chars@[i as int]);
            assert(chars@.skip(i as int).skip(1) =~= chars@.skip(i + 1));
        }
        if c == '\\' {
            out.push('\\');
            out.push('\\');
        } else if c == '"' {
            out.push('\\');
            out.push('"');
        } else {
            out.push(c);
        }
        proof {
            assert(escaped_of(chars@) == out@ + escaped_of(chars@.skip(i + 1)));
        }
        i = i + 1;
    }
    proof {
        assert(chars@.skip(chars@.len() as int) =~= Seq::<char>::empty());
        assert(escaped_of(Seq::<char>::empty()) =~= Seq::<char>::empty());
        assert(out@ + Seq::<char>::empty() =~= out@);
    }
    out
}

} // verus!
