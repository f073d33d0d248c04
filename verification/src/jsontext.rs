//! A character-level scanner for the battle-log JSON format.
//!
//! Battle logs are single JSON objects. The tools here never need a full
//! parse tree: they read a handful of named fields and rewrite some of them
//! in place, leaving every other byte of the document untouched. The scanner
//! therefore splits the raw text of an object into *fields*, each described
//! by the character ranges of its key and of its raw value text, and splits
//! the raw text of an array into the ranges of its element values. Escape
//! sequences inside strings are never decoded: a field's value is always a
//! range of the original text.

use vstd::prelude::*;

verus! {

/// Whether `c` is JSON whitespace.
pub open spec fn is_ws(c: char) -> bool {
    c == ' ' || c == '\t' || c == '\n' || c == '\r'
}

/// Whether `c` ends a scalar value: a comma, a closing brace or bracket,
/// or whitespace.
pub open spec fn is_delim(c: char) -> bool {
    c == ',' || c == '}' || c == ']' || is_ws(c)
}

/// The first position at or after `i` holding a non-whitespace character,
/// or `s.len()` if there is none.
pub open spec fn spec_skip_ws(s: Seq<char>, i: int) -> int
    decreases s.len() - i,
    when 0 <= i <= s.len()
{
    if i == s.len() {
        i
    } else if is_ws(s[i]) {
        spec_skip_ws(s, i + 1)
    } else {
        i
    }
}

pub proof fn lemma_skip_ws_bounds(s: Seq<char>, i: int)
    requires
        0 <= i <= s.len(),
    ensures
        i <= spec_skip_ws(s, i) <= s.len(),
    decreases s.len() - i,
{
    if i < s.len() && is_ws(s[i]) {
        lemma_skip_ws_bounds(s, i + 1);
    }
}

/// Position just after the closing quote of a string whose content starts at
/// `i` (the opening quote sits at `i - 1`), or `-1` if the string never ends.
/// An escape sequence protects exactly the character after the backslash,
/// which is all that locating the closing quote requires.
pub open spec fn spec_str_end(s: Seq<char>, i: int) -> int
    decreases s.len() - i,
    when 0 <= i <= s.len()
{
    if i == s.len() {
        -1
    } else if s[i] == '"' {
        i + 1
    } else if s[i] == '\\' {
        if i + 2 <= s.len() {
            spec_str_end(s, i + 2)
        } else {
            -1
        }
    } else {
        spec_str_end(s, i + 1)
    }
}

pub proof fn lemma_str_end_bounds(s: Seq<char>, i: int)
    requires
        0 <= i <= s.len(),
    ensures
        spec_str_end(s, i) == -1 || (i + 1 <= spec_str_end(s, i) <= s.len() && s[spec_str_end(
            s,
            i,
        ) - 1] == '"'),
    decreases s.len() - i,
{
    if i < s.len() {
        if s[i] == '\\' {
            if i + 2 <= s.len() {
                lemma_str_end_bounds(s, i + 2);
            }
        } else if s[i] != '"' {
            lemma_str_end_bounds(s, i + 1);
        }
    }
}

/// Position just after the character that closes `depth` still-open braces
/// or brackets, scanning from `i`, or `-1`. Strings are skipped whole, so
/// braces inside them do not count.
pub open spec fn spec_container_end(s: Seq<char>, i: int, depth: int) -> int
    decreases s.len() - i,
    when 0 <= i <= s.len() && depth >= 1
{
    if i == s.len() {
        -1
    } else if s[i] == '"' {
        let j = spec_str_end(s, i + 1);
        proof {
            lemma_str_end_bounds(s, i + 1);
        }
        if j == -1 {
            -1
        } else {
            spec_container_end(s, j, depth)
        }
    } else if s[i] == '{' || s[i] == '[' {
        spec_container_end(s, i + 1, depth + 1)
    } else if s[i] == '}' || s[i] == ']' {
        if depth == 1 {
            i + 1
        } else {
            spec_container_end(s, i + 1, depth - 1)
        }
    } else {
        spec_container_end(s, i + 1, depth)
    }
}

pub proof fn lemma_container_end_bounds(s: Seq<char>, i: int, depth: int)
    requires
        0 <= i <= s.len(),
        depth >= 1,
    ensures
        spec_container_end(s, i, depth) == -1 || i < spec_container_end(s, i, depth) <= s.len(),
    decreases s.len() - i,
{
    if i < s.len() {
        if s[i] == '"' {
            lemma_str_end_bounds(s, i + 1);
            let j = spec_str_end(s, i + 1);
            if j != -1 {
                lemma_container_end_bounds(s, j, depth);
            }
        } else if s[i] == '{' || s[i] == '[' {
            lemma_container_end_bounds(s, i + 1, depth + 1);
        } else if s[i] == '}' || s[i] == ']' {
            if depth != 1 {
                lemma_container_end_bounds(s, i + 1, depth - 1);
            }
        } else {
            lemma_container_end_bounds(s, i + 1, depth);
        }
    }
}

/// The first position at or after `i` holding a delimiter, or `s.len()`.
pub open spec fn spec_scalar_end(s: Seq<char>, i: int) -> int
    decreases s.len() - i,
    when 0 <= i <= s.len()
{
    if i == s.len() {
        i
    } else if is_delim(s[i]) {
        i
    } else {
        spec_scalar_end(s, i + 1)
    }
}

pub proof fn lemma_scalar_end_bounds(s: Seq<char>, i: int)
    requires
        0 <= i <= s.len(),
    ensures
        i <= spec_scalar_end(s, i) <= s.len(),
    decreases s.len() - i,
{
    if i < s.len() && !is_delim(s[i]) {
        lemma_scalar_end_bounds(s, i + 1);
    }
}

/// Position just after the raw text of the value starting at `i`, or `-1`
/// when no value starts there. A string value keeps its quotes; an object or
/// array value keeps its braces; a scalar runs to the next delimiter.
pub open spec fn spec_value_end(s: Seq<char>, i: int) -> int
    recommends
        0 <= i <= s.len(),
{
    if i == s.len() {
        -1
    } else if s[i] == '"' {
        spec_str_end(s, i + 1)
    } else if s[i] == '{' || s[i] == '[' {
        spec_container_end(s, i + 1, 1)
    } else if is_delim(s[i]) || s[i] == ':' {
        -1
    } else {
        spec_scalar_end(s, i)
    }
}

pub proof fn lemma_value_end_bounds(s: Seq<char>, i: int)
    requires
        0 <= i <= s.len(),
    ensures
        spec_value_end(s, i) == -1 || (i < spec_value_end(s, i) <= s.len() && (s[i] == '"' ==> i + 2
            <= spec_value_end(s, i) && s[spec_value_end(s, i) - 1] == '"')),
{
    if i < s.len() {
        if s[i] == '"' {
            lemma_str_end_bounds(s, i + 1);
        } else if s[i] == '{' || s[i] == '[' {
            lemma_container_end_bounds(s, i + 1, 1);
        } else if !(is_delim(s[i]) || s[i] == ':') {
            assert(spec_scalar_end(s, i) == spec_scalar_end(s, i + 1));
            lemma_scalar_end_bounds(s, i + 1);
        }
    }
}

/// One field of a JSON object: the range `[ks, ke)` holds the key's text
/// (between its quotes) and `[vs, ve)` holds the value's raw text.
#[derive(Clone, Copy)]
pub struct JsonField {
    pub ks: usize,
    pub ke: usize,
    pub vs: usize,
    pub ve: usize,
}

/// A field description at the specification level, with unbounded indices.
pub ghost struct SpecField {
    pub ks: int,
    pub ke: int,
    pub vs: int,
    pub ve: int,
}

impl View for JsonField {
    type V = SpecField;

    open spec fn view(&self) -> SpecField {
        SpecField { ks: self.ks as int, ke: self.ke as int, vs: self.vs as int, ve: self.ve as int }
    }
}

/// The fields of an object, scanning from `i`, which must sit just after the
/// opening brace or just after the comma that followed the previous field.
/// `None` when the text from `i` on is not `"key" : value` pairs separated by
/// commas, closed by a brace, and followed only by whitespace.
pub open spec fn spec_fields_from(s: Seq<char>, i: int) -> Option<Seq<SpecField>>
    decreases s.len() - i,
    when 0 <= i <= s.len()
{
    let k0 = spec_skip_ws(s, i);
    proof {
        lemma_skip_ws_bounds(s, i);
    }
    if k0 == s.len() || s[k0] != '"' {
        None
    } else {
        let ke1 = spec_str_end(s, k0 + 1);
        proof {
            lemma_str_end_bounds(s, k0 + 1);
        }
        if ke1 == -1 {
            None
        } else {
            let c0 = spec_skip_ws(s, ke1);
            proof {
                lemma_skip_ws_bounds(s, ke1);
            }
            if c0 == s.len() || s[c0] != ':' {
                None
            } else {
                let v0 = spec_skip_ws(s, c0 + 1);
                proof {
                    lemma_skip_ws_bounds(s, c0 + 1);
                }
                let ve = spec_value_end(s, v0);
                proof {
                    lemma_value_end_bounds(s, v0);
                }
                if ve == -1 {
                    None
                } else {
                    let fld = SpecField { ks: k0 + 1, ke: ke1 - 1, vs: v0, ve: ve };
                    let d0 = spec_skip_ws(s, ve);
                    proof {
                        lemma_skip_ws_bounds(s, ve);
                    }
                    if d0 == s.len() {
                        None
                    } else if s[d0] == ',' {
                        match spec_fields_from(s, d0 + 1) {
                            None => None,
                            Some(rest) => Some(seq![fld] + rest),
                        }
                    } else if s[d0] == '}' {
                        if spec_skip_ws(s, d0 + 1) == s.len() {
                            Some(seq![fld])
                        } else {
                            None
                        }
                    } else {
                        None
                    }
                }
            }
        }
    }
}

/// The fields of the object that `s` spells, or `None` when `s` is not a
/// single JSON object (with optional surrounding whitespace).
pub open spec fn spec_parse_doc(s: Seq<char>) -> Option<Seq<SpecField>> {
    let o = spec_skip_ws(s, 0);
    if o == s.len() || s[o] != '{' {
        None
    } else {
        let e0 = spec_skip_ws(s, o + 1);
        if e0 < s.len() && s[e0] == '}' {
            if spec_skip_ws(s, e0 + 1) == s.len() {
                Some(Seq::empty())
            } else {
                None
            }
        } else {
            spec_fields_from(s, o + 1)
        }
    }
}

/// Structural facts about a field list: ranges are in bounds, ordered, and
/// string-shaped values end with a quote.
pub open spec fn fields_wf(s: Seq<char>, fs: Seq<SpecField>) -> bool {
    &&& forall|j: int|
        0 <= j < fs.len() ==> {
            &&& 0 <= #[trigger] fs[j].ks <= fs[j].ke <= s.len()
            &&& fs[j].ke <= fs[j].vs
            &&& fs[j].vs < fs[j].ve <= s.len()
            &&& (s[fs[j].vs] == '"' ==> fs[j].vs + 2 <= fs[j].ve && s[fs[j].ve - 1] == '"')
        }
    &&& forall|j: int| 0 <= j < fs.len() - 1 ==> #[trigger] fs[j].ve <= fs[j + 1].vs
}

pub proof fn lemma_fields_from_wf(s: Seq<char>, i: int)
    requires
        0 <= i <= s.len(),
        spec_fields_from(s, i) is Some,
    ensures
        fields_wf(s, spec_fields_from(s, i)->0),
        spec_fields_from(s, i)->0.len() > 0,
        i <= spec_fields_from(s, i)->0[0].ks,
    decreases s.len() - i,
{
    let fs = spec_fields_from(s, i)->0;
    let k0 = spec_skip_ws(s, i);
    lemma_skip_ws_bounds(s, i);
    let ke1 = spec_str_end(s, k0 + 1);
    lemma_str_end_bounds(s, k0 + 1);
    let c0 = spec_skip_ws(s, ke1);
    lemma_skip_ws_bounds(s, ke1);
    let v0 = spec_skip_ws(s, c0 + 1);
    lemma_skip_ws_bounds(s, c0 + 1);
    let ve = spec_value_end(s, v0);
    lemma_value_end_bounds(s, v0);
    let d0 = spec_skip_ws(s, ve);
    lemma_skip_ws_bounds(s, ve);
    let fld = SpecField { ks: k0 + 1, ke: ke1 - 1, vs: v0, ve: ve };
    if s[d0] == ',' {
        lemma_fields_from_wf(s, d0 + 1);
        let rest = spec_fields_from(s, d0 + 1)->0;
        assert(fs == seq![fld] + rest);
        assert(fs[0] == fld);
        assert(rest[0].ks >= d0 + 1);
        assert forall|j: int|
            0 <= j < fs.len() implies {
            &&& 0 <= #[trigger] fs[j].ks <= fs[j].ke <= s.len()
            &&& fs[j].ke <= fs[j].vs
            &&& fs[j].vs < fs[j].ve <= s.len()
            &&& (s[fs[j].vs] == '"' ==> fs[j].vs + 2 <= fs[j].ve && s[fs[j].ve - 1] == '"')
        } by {
            if j >= 1 {
                assert(fs[j] == rest[j - 1]);
            }
        }
        assert forall|j: int| 0 <= j < fs.len() - 1 implies #[trigger] fs[j].ve <= fs[j + 1].vs by {
            if j == 0 {
                assert(fs[1] == rest[0]);
                assert(rest[0].ks <= rest[0].vs);
            } else {
                assert(fs[j] == rest[j - 1]);
                assert(fs[j + 1] == rest[j]);
            }
        }
    } else {
        assert(fs == seq![fld]);
        assert(fs[0] == fld);
    }
}

pub proof fn lemma_parse_doc_wf(s: Seq<char>)
    requires
        spec_parse_doc(s) is Some,
    ensures
        fields_wf(s, spec_parse_doc(s)->0),
{
    let o = spec_skip_ws(s, 0);
    lemma_skip_ws_bounds(s, 0);
    let e0 = spec_skip_ws(s, o + 1);
    lemma_skip_ws_bounds(s, o + 1);
    if !(e0 < s.len() && s[e0] == '}') {
        lemma_fields_from_wf(s, o + 1);
    }
}

/// The element value ranges of an array, scanning from `i`, which must sit
/// just after the opening bracket or just after the comma that followed the
/// previous element. `None` when the text from `i` on is not comma-separated
/// values closed by a bracket and followed only by whitespace.
pub open spec fn spec_elems_from(s: Seq<char>, i: int) -> Option<Seq<(int, int)>>
    decreases s.len() - i,
    when 0 <= i <= s.len()
{
    let v0 = spec_skip_ws(s, i);
    proof {
        lemma_skip_ws_bounds(s, i);
    }
    if v0 == s.len() {
        None
    } else {
        let ve = spec_value_end(s, v0);
        proof {
            lemma_value_end_bounds(s, v0);
        }
        if ve == -1 {
            None
        } else {
            let d0 = spec_skip_ws(s, ve);
            proof {
                lemma_skip_ws_bounds(s, ve);
            }
            if d0 == s.len() {
                None
            } else if s[d0] == ',' {
                match spec_elems_from(s, d0 + 1) {
                    None => None,
                    Some(rest) => Some(seq![(v0, ve)] + rest),
                }
            } else if s[d0] == ']' {
                if spec_skip_ws(s, d0 + 1) == s.len() {
                    Some(seq![(v0, ve)])
                } else {
                    None
                }
            } else {
                None
            }
        }
    }
}

/// The element value ranges of the array that `s` spells, or `None` when `s`
/// is not a single JSON array (with optional surrounding whitespace).
pub open spec fn spec_parse_arr(s: Seq<char>) -> Option<Seq<(int, int)>> {
    let o = spec_skip_ws(s, 0);
    if o == s.len() || s[o] != '[' {
        None
    } else {
        let e0 = spec_skip_ws(s, o + 1);
        if e0 < s.len() && s[e0] == ']' {
            if spec_skip_ws(s, e0 + 1) == s.len() {
                Some(Seq::empty())
            } else {
                None
            }
        } else {
            spec_elems_from(s, o + 1)
        }
    }
}

/// Structural facts about an element list, as `fields_wf` states them for
/// fields.
pub open spec fn elems_wf(s: Seq<char>, es: Seq<(int, int)>) -> bool {
    &&& forall|j: int|
        0 <= j < es.len() ==> {
            &&& 0 <= #[trigger] es[j].0 < es[j].1 <= s.len()
            &&& (s[es[j].0] == '"' ==> es[j].0 + 2 <= es[j].1 && s[es[j].1 - 1] == '"')
        }
    &&& forall|j: int| 0 <= j < es.len() - 1 ==> #[trigger] es[j].1 <= es[j + 1].0
}

pub proof fn lemma_elems_from_wf(s: Seq<char>, i: int)
    requires
        0 <= i <= s.len(),
        spec_elems_from(s, i) is Some,
    ensures
        elems_wf(s, spec_elems_from(s, i)->0),
        spec_elems_from(s, i)->0.len() > 0,
        i <= spec_elems_from(s, i)->0[0].0,
    decreases s.len() - i,
{
    let es = spec_elems_from(s, i)->0;
    let v0 = spec_skip_ws(s, i);
    lemma_skip_ws_bounds(s, i);
    let ve = spec_value_end(s, v0);
    lemma_value_end_bounds(s, v0);
    let d0 = spec_skip_ws(s, ve);
    lemma_skip_ws_bounds(s, ve);
    if s[d0] == ',' {
        lemma_elems_from_wf(s, d0 + 1);
        let rest = spec_elems_from(s, d0 + 1)->0;
        assert(es == seq![(v0, ve)] + rest);
        assert(es[0] == (v0, ve));
        assert forall|j: int|
            0 <= j < es.len() implies {
            &&& 0 <= #[trigger] es[j].0 < es[j].1 <= s.len()
            &&& (s[es[j].0] == '"' ==> es[j].0 + 2 <= es[j].1 && s[es[j].1 - 1] == '"')
        } by {
            if j >= 1 {
                assert(es[j] == rest[j - 1]);
            }
        }
        assert forall|j: int| 0 <= j < es.len() - 1 implies #[trigger] es[j].1 <= es[j + 1].0 by {
            if j == 0 {
                assert(es[1] == rest[0]);
            } else {
                assert(es[j] == rest[j - 1]);
                assert(es[j + 1] == rest[j]);
            }
        }
    } else {
        assert(es == seq![(v0, ve)]);
        assert(es[0] == (v0, ve));
    }
}

pub proof fn lemma_parse_arr_wf(s: Seq<char>)
    requires
        spec_parse_arr(s) is Some,
    ensures
        elems_wf(s, spec_parse_arr(s)->0),
{
    let o = spec_skip_ws(s, 0);
    lemma_skip_ws_bounds(s, 0);
    let e0 = spec_skip_ws(s, o + 1);
    lemma_skip_ws_bounds(s, o + 1);
    if !(e0 < s.len() && s[e0] == ']') {
        lemma_elems_from_wf(s, o + 1);
    }
}

/// The first position at or after `i` holding a non-whitespace character.
pub fn skip_ws(s: &Vec<char>, i: usize) -> (r: usize)
    requires
        i <= s@.len(),
    ensures
        r == spec_skip_ws(s@, i as int),
        i <= r <= s@.len(),
{
    let mut j = i;
    while j < s.len() && (s[j] == ' ' || s[j] == '\t' || s[j] == '\n' || s[j] == '\r')
        invariant
            i <= j <= s@.len(),
            spec_skip_ws(s@, i as int) == spec_skip_ws(s@, j as int),
        decreases s@.len() - j,
    {
        j = j + 1;
    }
    j
}

/// Position just after the closing quote of the string whose content starts
/// at `i`, or `None` if the string never ends.
pub fn str_end(s: &Vec<char>, i: usize) -> (r: Option<usize>)
    requires
        i <= s@.len(),
    ensures
        match r {
            Some(j) => spec_str_end(s@, i as int) == j && i + 1 <= j <= s@.len(),
            None => spec_str_end(s@, i as int) == -1,
        },
{
    let mut j = i;
    while j < s.len()
        invariant
            i <= j <= s@.len(),
            spec_str_end(s@, i as int) == spec_str_end(s@, j as int),
        decreases s@.len() - j,
    {
        let c = s[j];
        if c == '"' {
            return Some(j + 1);
        } else if c == '\\' {
            if s.len() - j >= 2 {
                j = j + 2;
            } else {
                return None;
            }
        } else {
            j = j + 1;
        }
    }
    None
}

/// Position just after the character closing the container whose content
/// starts at `i` (one brace or bracket already open), or `None`.
pub fn container_end(s: &Vec<char>, i: usize) -> (r: Option<usize>)
    requires
        i <= s@.len(),
    ensures
        match r {
            Some(j) => spec_container_end(s@, i as int, 1) == j && i < j <= s@.len(),
            None => spec_container_end(s@, i as int, 1) == -1,
        },
{
    let mut j = i;
    let mut depth: u128 = 1;
    while j < s.len()
        invariant
            i <= j <= s@.len(),
            1 <= depth,
            depth <= j - i + 1,
            spec_container_end(s@, i as int, 1) == spec_container_end(s@, j as int, depth as int),
        decreases s@.len() - j,
    {
        let c = s[j];
        if c == '"' {
            match str_end(s, j + 1) {
                Some(k) => {
                    j = k;
                },
                None => {
                    return None;
                },
            }
        } else if c == '{' || c == '[' {
            depth = depth + 1;
            j = j + 1;
        } else if c == '}' || c == ']' {
            if depth == 1 {
                proof {
                    lemma_container_end_bounds(s@, i as int, 1);
                }
                return Some(j + 1);
            }
            depth = depth - 1;
            j = j + 1;
        } else {
            j = j + 1;
        }
    }
    None
}

/// Position just after the raw text of the value starting at `i`, or `None`.
pub fn value_end(s: &Vec<char>, i: usize) -> (r: Option<usize>)
    requires
        i <= s@.len(),
    ensures
        match r {
            Some(j) => spec_value_end(s@, i as int) == j && i < j <= s@.len(),
            None => spec_value_end(s@, i as int) == -1,
        },
{
    if i == s.len() {
        return None;
    }
    let c = s[i];
    if c == '"' {
        match str_end(s, i + 1) {
            Some(j) => Some(j),
            None => None,
        }
    } else if c == '{' || c == '[' {
        container_end(s, i + 1)
    } else if c == ',' || c == '}' || c == ']' || c == ':' || c == ' ' || c == '\t' || c == '\n'
        || c == '\r' {
        None
    } else {
        let mut j = i + 1;
        proof {
            assert(spec_scalar_end(s@, i as int) == spec_scalar_end(s@, i + 1));
        }
        while j < s.len() && !(s[j] == ',' || s[j] == '}' || s[j] == ']' || s[j] == ' ' || s[j]
            == '\t' || s[j] == '\n' || s[j] == '\r')
            invariant
                i < j <= s@.len(),
                spec_scalar_end(s@, i as int) == spec_scalar_end(s@, j as int),
            decreases s@.len() - j,
        {
            j = j + 1;
        }
        Some(j)
    }
}

/// How a successfully scanned prefix extends a pending scan.
pub open spec fn opt_prepend<T>(pre: Seq<T>, o: Option<Seq<T>>) -> Option<Seq<T>> {
    match o {
        None => None,
        Some(r) => Some(pre + r),
    }
}

/// Splits the object that `s` spells into its fields; `None` when `s` is
/// not a single JSON object.
pub fn parse_doc(s: &Vec<char>) -> (r: Option<Vec<JsonField>>)
    ensures
        match r {
            Some(fs) => spec_parse_doc(s@) == Some(fs@.map_values(|f: JsonField| f@)),
            None => spec_parse_doc(s@) is None,
        },
{
    let o = skip_ws(s, 0);
    if o == s.len() {
        return None;
    }
    if s[o] != '{' {
        return None;
    }
    let e0 = skip_ws(s, o + 1);
    if e0 < s.len() && s[e0] == '}' {
        if skip_ws(s, e0 + 1) == s.len() {
            let fs: Vec<JsonField> = Vec::new();
            proof {
                assert(fs@.map_values(|f: JsonField| f@) =~= Seq::<SpecField>::empty());
            }
            return Some(fs);
        } else {
            return None;
        }
    }
    let mut acc: Vec<JsonField> = Vec::new();
    let mut i: usize = o + 1;
    proof {
        assert(acc@.map_values(|f: JsonField| f@) =~= Seq::<SpecField>::empty());
        assert(opt_prepend(Seq::<SpecField>::empty(), spec_fields_from(s@, i as int))
            == spec_fields_from(s@, i as int));
    }
    loop
        invariant
            i <= s@.len(),
            spec_parse_doc(s@) == opt_prepend(
                acc@.map_values(|f: JsonField| f@),
                spec_fields_from(s@, i as int),
            ),
        decreases s@.len() - i,
    {
        let k0 = skip_ws(s, i);
        if k0 == s.len() {
            return None;
        }
        if s[k0] != '"' {
            return None;
        }
        let ke1 = match str_end(s, k0 + 1) {
            Some(j) => j,
            None => {
                return None;
            },
        };
        let c0 = skip_ws(s, ke1);
        if c0 == s.len() {
            return None;
        }
        if s[c0] != ':' {
            return None;
        }
        let v0 = skip_ws(s, c0 + 1);
        let ve = match value_end(s, v0) {
            Some(j) => j,
            None => {
                return None;
            },
        };
        let fld = JsonField { ks: k0 + 1, ke: ke1 - 1, vs: v0, ve: ve };
        let ghost fld_spec = SpecField { ks: k0 + 1 as int, ke: ke1 - 1 as int, vs: v0 as int, ve: ve as int };
        let d0 = skip_ws(s, ve);
        if d0 == s.len() {
            return None;
        }
        let ghost pre = acc@.map_values(|f: JsonField| f@);
        if s[d0] == ',' {
            acc.push(fld);
            proof {
                assert(fld@ == fld_spec);
                assert(acc@.map_values(|f: JsonField| f@) =~= pre + seq![fld_spec]);
                assert(spec_fields_from(s@, i as int) == opt_prepend(
                    seq![fld_spec],
                    spec_fields_from(s@, d0 + 1),
                ));
                match spec_fields_from(s@, d0 + 1) {
                    None => {},
                    Some(rest) => {
                        assert((pre + seq![fld_spec]) + rest =~= pre + (seq![fld_spec] + rest));
                    },
                }
            }
            i = d0 + 1;
        } else if s[d0] == '}' {
            if skip_ws(s, d0 + 1) == s.len() {
                acc.push(fld);
                proof {
                    assert(fld@ == fld_spec);
                    assert(acc@.map_values(|f: JsonField| f@) =~= pre + seq![fld_spec]);
                    assert(spec_fields_from(s@, i as int) == Some(seq![fld_spec]));
                }
                return Some(acc);
            } else {
                return None;
            }
        } else {
            return None;
        }
    }
}

/// Splits the array that `s` spells into its element value ranges; `None`
/// when `s` is not a single JSON array.
pub fn parse_arr(s: &Vec<char>) -> (r: Option<Vec<(usize, usize)>>)
    ensures
        match r {
            Some(es) => spec_parse_arr(s@) == Some(
                es@.map_values(|e: (usize, usize)| (e.0 as int, e.1 as int)),
            ),
            None => spec_parse_arr(s@) is None,
        },
{
    let o = skip_ws(s, 0);
    if o == s.len() {
        return None;
    }
    if s[o] != '[' {
        return None;
    }
    let e0 = skip_ws(s, o + 1);
    if e0 < s.len() && s[e0] == ']' {
        if skip_ws(s, e0 + 1) == s.len() {
            let es: Vec<(usize, usize)> = Vec::new();
            proof {
                assert(es@.map_values(|e: (usize, usize)| (e.0 as int, e.1 as int)) =~= Seq::<
                    (int, int),
                >::empty());
            }
            return Some(es);
        } else {
            return None;
        }
    }
    let mut acc: Vec<(usize, usize)> = Vec::new();
    let mut i: usize = o + 1;
    proof {
        assert(acc@.map_values(|e: (usize, usize)| (e.0 as int, e.1 as int)) =~= Seq::<
            (int, int),
        >::empty());
        assert(opt_prepend(Seq::<(int, int)>::empty(), spec_elems_from(s@, i as int))
            == spec_elems_from(s@, i as int));
    }
    loop
        invariant
            i <= s@.len(),
            spec_parse_arr(s@) == opt_prepend(
                acc@.map_values(|e: (usize, usize)| (e.0 as int, e.1 as int)),
                spec_elems_from(s@, i as int),
            ),
        decreases s@.len() - i,
    {
        let v0 = skip_ws(s, i);
        if v0 == s.len() {
            return None;
        }
        let ve = match value_end(s, v0) {
            Some(j) => j,
            None => {
                return None;
            },
        };
        let d0 = skip_ws(s, ve);
        if d0 == s.len() {
            return None;
        }
        let ghost pre = acc@.map_values(|e: (usize, usize)| (e.0 as int, e.1 as int));
        if s[d0] == ',' {
            acc.push((v0, ve));
            proof {
                assert(acc@.map_values(|e: (usize, usize)| (e.0 as int, e.1 as int)) =~= pre
                    + seq![(v0 as int, ve as int)]);
                assert(spec_elems_from(s@, i as int) == opt_prepend(
                    seq![(v0 as int, ve as int)],
                    spec_elems_from(s@, d0 + 1),
                ));
                match spec_elems_from(s@, d0 + 1) {
                    None => {},
                    Some(rest) => {
                        assert((pre + seq![(v0 as int, ve as int)]) + rest =~= pre + (seq![
                            (v0 as int, ve as int),
                        ] + rest));
                    },
                }
            }
            i = d0 + 1;
        } else if s[d0] == ']' {
            if skip_ws(s, d0 + 1) == s.len() {
                acc.push((v0, ve));
                proof {
                    assert(acc@.map_values(|e: (usize, usize)| (e.0 as int, e.1 as int)) =~= pre
                        + seq![(v0 as int, ve as int)]);
                    assert(spec_elems_from(s@, i as int) == Some(seq![(v0 as int, ve as int)]));
                }
                return Some(acc);
            } else {
                return None;
            }
        } else {
            return None;
        }
    }
}

/// The key text of a field.
pub open spec fn spec_key_of(s: Seq<char>, f: SpecField) -> Seq<char> {
    s.subrange(f.ks, f.ke)
}

/// Whether a field's value is a string literal.
pub open spec fn spec_is_string(s: Seq<char>, f: SpecField) -> bool {
    0 <= f.vs < s.len() && s[f.vs] == '"'
}

/// The content of a string-valued field, between its quotes and still in
/// escaped form.
pub open spec fn spec_content(s: Seq<char>, f: SpecField) -> Seq<char> {
    s.subrange(f.vs + 1, f.ve - 1)
}

/// The index of the first field in `fs` (at or after `j`) whose key text is
/// `key`, or `fs.len()`.
pub open spec fn spec_find_key(s: Seq<char>, fs: Seq<SpecField>, key: Seq<char>, j: int) -> int
    decreases fs.len() - j,
    when 0 <= j <= fs.len()
{
    if j == fs.len() {
        j
    } else if spec_key_of(s, fs[j]) == key {
        j
    } else {
        spec_find_key(s, fs, key, j + 1)
    }
}

pub proof fn lemma_find_key_bounds(s: Seq<char>, fs: Seq<SpecField>, key: Seq<char>, j: int)
    requires
        0 <= j <= fs.len(),
    ensures
        j <= spec_find_key(s, fs, key, j) <= fs.len(),
        spec_find_key(s, fs, key, j) < fs.len() ==> spec_key_of(
            s,
            fs[spec_find_key(s, fs, key, j)],
        ) == key,
    decreases fs.len() - j,
{
    if j < fs.len() && spec_key_of(s, fs[j]) != key {
        lemma_find_key_bounds(s, fs, key, j + 1);
    }
}

/// Whether the range `[a, b)` of `s` spells exactly `pat`.
pub fn range_eq(s: &Vec<char>, a: usize, b: usize, pat: &Vec<char>) -> (r: bool)
    requires
        a <= b <= s@.len(),
    ensures
        r == (s@.subrange(a as int, b as int) == pat@),
{
    if b - a != pat.len() {
        proof {
            assert(s@.subrange(a as int, b as int).len() != pat@.len());
        }
        return false;
    }
    let m = crate::text::check_match_at(s, a, pat);
    proof {
        if m {
            assert(s@.subrange(a as int, a + pat@.len()) == pat@);
            assert(s@.subrange(a as int, b as int) =~= s@.subrange(a as int, a + pat@.len()));
        } else {
            if s@.subrange(a as int, b as int) == pat@ {
                assert(s@.subrange(a as int, a + pat@.len()) =~= s@.subrange(a as int, b as int));
                assert(crate::text::matches_at(s@, a as int, pat@));
            }
        }
    }
    m
}

/// The index of the first field of `fs` whose key text is `key`, or
/// `fs.len()` when no field has that key.
pub fn find_key(s: &Vec<char>, fs: &Vec<JsonField>, key: &Vec<char>) -> (r: usize)
    requires
        fields_wf(s@, fs@.map_values(|f: JsonField| f@)),
    ensures
        r == spec_find_key(s@, fs@.map_values(|f: JsonField| f@), key@, 0),
        r <= fs@.len(),
{
    let ghost gfs = fs@.map_values(|f: JsonField| f@);
    let mut j: usize = 0;
    while j < fs.len()
        invariant
            j <= fs@.len(),
            gfs == fs@.map_values(|f: JsonField| f@),
            fields_wf(s@, gfs),
            spec_find_key(s@, gfs, key@, 0) == spec_find_key(s@, gfs, key@, j as int),
        decreases fs@.len() - j,
    {
        let f = &fs[j];
        proof {
            assert(gfs[j as int] == fs@[j as int]@);
        }
        if range_eq(s, f.ks, f.ke, key) {
            return j;
        }
        j = j + 1;
    }
    j
}

} // verus!
