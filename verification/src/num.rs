//! Reading rating values out of their raw decimal text, and rounding them.
//!
//! Ratings arrive as the raw text of a JSON number (or of a string holding
//! one): an optional sign, integer digits, and an optional fraction. The
//! statistics floor needs the value rounded down; the anonymizer keeps only
//! the magnitude rounded to a fixed step, half away from zero. Since the
//! steps are whole numbers, the fraction digits can never change which
//! multiple is nearest, so both readings are exact integer arithmetic on
//! the integer digits.

use vstd::prelude::*;

verus! {

/// Whether `c` is a decimal digit.
pub open spec fn is_digit(c: char) -> bool {
    '0' <= c && c <= '9'
}

/// The value of the digit `c`.
pub open spec fn digit_val(c: char) -> int {
    (c as u8) - 48
}

/// Whether every character of `s` is a decimal digit.
pub open spec fn all_digits(s: Seq<char>) -> bool {
    forall|j: int| 0 <= j < s.len() ==> is_digit(#[trigger] s[j])
}

/// The number that the digit characters of `s` spell.
pub open spec fn digits_val(s: Seq<char>) -> int
    decreases s.len(),
{
    if s.len() == 0 {
        0
    } else {
        digits_val(s.drop_last()) * 10 + digit_val(s.last())
    }
}

/// A decimal text taken apart: its sign and its integer digits. The text
/// must be an optional `+` or `-`, then digits, then optionally a dot and
/// more digits, with at least one digit overall.
pub open spec fn spec_parse_dec(t: Seq<char>) -> Option<(bool, Seq<char>)> {
    let body = if t.len() >= 1 && (t[0] == '-' || t[0] == '+') {
        t.skip(1)
    } else {
        t
    };
    let neg = t.len() >= 1 && t[0] == '-';
    let dot = crate::text::spec_find_char(body, 0, '.');
    let ipart = body.take(dot);
    let fpart = if dot == body.len() {
        Seq::<char>::empty()
    } else {
        body.skip(dot + 1)
    };
    if all_digits(ipart) && all_digits(fpart) && ipart.len() + fpart.len() >= 1 {
        Some((neg, ipart))
    } else {
        None
    }
}

/// Integer parts above this bound are not rounded; the bound keeps every
/// rounded rating well inside `i64`.
pub open spec fn spec_mag_cap() -> int {
    1000000000000000
}

/// The rating magnitude that the anonymizer keeps: the value of `t` rounded
/// to the nearest multiple of `m`, half away from zero; `None` when `t` is
/// not decimal text (the anonymizer then writes `null`).
pub open spec fn spec_rating_round(t: Seq<char>, m: int) -> Option<int>
    recommends
        2 <= m,
{
    match spec_parse_dec(t) {
        None => None,
        Some((neg, ds)) => {
            let ip = digits_val(ds);
            if ip > spec_mag_cap() {
                None
            } else {
                let rem = ip % m;
                let rm = ip - rem + if 2 * rem >= m {
                    m
                } else {
                    0
                };
                Some(
                    if neg {
                        -rm
                    } else {
                        rm
                    },
                )
            }
        },
    }
}

/// The rating floor that the statistics use: the value of `t` rounded down
/// and clamped to `u64`; text that is not decimal reads as zero.
pub open spec fn spec_elo_floor(t: Seq<char>) -> int {
    match spec_parse_dec(t) {
        None => 0,
        Some((neg, ds)) => {
            if neg {
                0
            } else if digits_val(ds) > u64::MAX {
                u64::MAX as int
            } else {
                digits_val(ds)
            }
        },
    }
}

proof fn lemma_digits_val_bounds(s: Seq<char>)
    requires
        all_digits(s),
    ensures
        0 <= digits_val(s),
    decreases s.len(),
{
    if s.len() > 0 {
        assert(all_digits(s.drop_last())) by {
            assert(forall|j: int| 0 <= j < s.len() - 1 ==> s.drop_last()[j] == s[j]);
        }
        lemma_digits_val_bounds(s.drop_last());
        assert(is_digit(s.last()));
    }
}

/// Parses the decimal text `t`: its sign and the range of its integer
/// digits within `t`.
fn parse_dec(t: &Vec<char>) -> (r: Option<(bool, usize, usize)>)
    ensures
        match r {
            Some((neg, a, b)) => spec_parse_dec(t@) == Some((neg, t@.subrange(a as int, b as int)))
                && a <= b <= t@.len(),
            None => spec_parse_dec(t@) is None,
        },
{
    let ghost body = if t@.len() >= 1 && (t@[0] == '-' || t@[0] == '+') {
        t@.skip(1)
    } else {
        t@
    };
    let start: usize = if t.len() >= 1 && (t[0] == '-' || t[0] == '+') {
        1
    } else {
        0
    };
    let neg = t.len() >= 1 && t[0] == '-';
    proof {
        assert(body == t@.skip(start as int));
    }
    let mut i = start;
    while i < t.len() && '0' <= t[i] && t[i] <= '9'
        invariant
            start <= i <= t@.len(),
            forall|j: int| start <= j < i ==> is_digit(#[trigger] t@[j]),
        decreases t@.len() - i,
    {
        i = i + 1;
    }
    let ib = i;
    let ghost dot = crate::text::spec_find_char(body, 0, '.');
    let ghost ipart = body.take(dot);
    let ghost fpart = if dot == body.len() {
        Seq::<char>::empty()
    } else {
        body.skip(dot + 1)
    };
    if i < t.len() && t[i] == '.' {
        proof {
            assert forall|j: int| 0 <= j < ib - start implies body[j] != '.' by {
                assert(body[j] == t@[start + j]);
                assert(is_digit(t@[start + j]));
            }
            assert(body[ib - start] == '.');
            lemma_find_char_is(body, ib - start, '.');
            assert(dot == ib - start);
            assert(ipart =~= t@.subrange(start as int, ib as int));
            assert(all_digits(ipart));
            assert(fpart =~= t@.skip(ib + 1));
        }
        let mut k = i + 1;
        while k < t.len() && '0' <= t[k] && t[k] <= '9'
            invariant
                ib + 1 <= k <= t@.len(),
                forall|j: int| ib + 1 <= j < k ==> is_digit(#[trigger] t@[j]),
            decreases t@.len() - k,
        {
            k = k + 1;
        }
        if k != t.len() {
            proof {
                assert(!is_digit(t@[k as int]));
                assert(fpart[k - (ib + 1)] == t@[k as int]);
                assert(!all_digits(fpart));
            }
            return None;
        }
        proof {
            assert(all_digits(fpart)) by {
                assert(forall|j: int|
                    0 <= j < fpart.len() ==> fpart[j] == t@[ib + 1 + j] && is_digit(
                        #[trigger] fpart[j],
                    ));
            }
        }
        if ib - start == 0 && t.len() - (ib + 1) == 0 {
            proof {
                assert(ipart.len() + fpart.len() == 0);
            }
            return None;
        }
        proof {
            assert(ipart.len() + fpart.len() >= 1);
        }
        Some((neg, start, ib))
    } else {
        if i != t.len() {
            proof {
                let x = i - start;
                assert(!is_digit(t@[i as int]) && t@[i as int] != '.');
                assert(body[x] == t@[i as int]);
                crate::text::lemma_find_char_bounds(body, 0, '.');
                if dot <= x {
                    if dot < body.len() {
                        lemma_find_char_hit(body, 0, '.');
                        assert(body[dot] == '.');
                        if dot < x {
                            assert(body[dot] == t@[start + dot]);
                            assert(is_digit(t@[start + dot]));
                        }
                        assert(false);
                    }
                    assert(false);
                }
                assert(ipart[x] == body[x]);
                assert(!all_digits(ipart));
            }
            return None;
        }
        proof {
            assert forall|j: int| 0 <= j < body.len() implies body[j] != '.' by {
                assert(body[j] == t@[start + j]);
                assert(is_digit(t@[start + j]));
            }
            lemma_find_char_miss(body, '.');
            assert(dot == body.len());
            assert(ipart =~= body);
            assert(ipart =~= t@.subrange(start as int, ib as int));
            assert(all_digits(ipart));
        }
        if ib - start == 0 {
            return None;
        }
        Some((neg, start, ib))
    }
}

proof fn lemma_find_char_is(s: Seq<char>, k: int, c: char)
    requires
        0 <= k < s.len(),
        s[k] == c,
        forall|j: int| 0 <= j < k ==> s[j] != c,
    ensures
        crate::text::spec_find_char(s, 0, c) == k,
{
    lemma_find_char_is_from(s, 0, k, c);
}

proof fn lemma_find_char_is_from(s: Seq<char>, i: int, k: int, c: char)
    requires
        0 <= i <= k < s.len(),
        s[k] == c,
        forall|j: int| i <= j < k ==> s[j] != c,
    ensures
        crate::text::spec_find_char(s, i, c) == k,
    decreases k - i,
{
    if i < k {
        lemma_find_char_is_from(s, i + 1, k, c);
    }
}

proof fn lemma_find_char_miss(s: Seq<char>, c: char)
    requires
        forall|j: int| 0 <= j < s.len() ==> s[j] != c,
    ensures
        crate::text::spec_find_char(s, 0, c) == s.len(),
{
    lemma_find_char_miss_from(s, 0, c);
}

proof fn lemma_find_char_miss_from(s: Seq<char>, i: int, c: char)
    requires
        0 <= i <= s.len(),
        forall|j: int| i <= j < s.len() ==> s[j] != c,
    ensures
        crate::text::spec_find_char(s, i, c) == s.len(),
    decreases s.len() - i,
{
    if i < s.len() {
        lemma_find_char_miss_from(s, i + 1, c);
    }
}

proof fn lemma_find_char_hit(s: Seq<char>, i: int, c: char)
    requires
        0 <= i <= s.len(),
        crate::text::spec_find_char(s, i, c) < s.len(),
    ensures
        s[crate::text::spec_find_char(s, i, c)] == c,
    decreases s.len() - i,
{
    if i < s.len() && s[i] != c {
        lemma_find_char_hit(s, i + 1, c);
    }
}

/// The value of the digit range `[a, b)` of `t`, clamped to `u64`.
pub fn digits_sat_u64(t: &Vec<char>, a: usize, b: usize) -> (r: u64)
    requires
        a <= b <= t@.len(),
        all_digits(t@.subrange(a as int, b as int)),
    ensures
        r == if digits_val(t@.subrange(a as int, b as int)) > u64::MAX {
            u64::MAX as int
        } else {
            digits_val(t@.subrange(a as int, b as int))
        },
{
    let ghost whole = t@.subrange(a as int, b as int);
    proof {
        lemma_digits_val_bounds(whole);
    }
    let mut acc: u64 = 0;
    let mut sat = false;
    let mut i = a;
    proof {
        assert(t@.subrange(a as int, a as int) =~= Seq::<char>::empty());
    }
    while i < b
        invariant
            a <= i <= b <= t@.len(),
            all_digits(whole),
            whole == t@.subrange(a as int, b as int),
            all_digits(t@.subrange(a as int, i as int)),
            !sat ==> acc == digits_val(t@.subrange(a as int, i as int)),
            sat ==> digits_val(t@.subrange(a as int, i as int)) > u64::MAX,
        decreases b - i,
    {
        let ghost pre = t@.subrange(a as int, i as int);
        let ghost now = t@.subrange(a as int, i + 1);
        proof {
            assert(whole[i - a] == t@[i as int]);
            assert(is_digit(t@[i as int]));
            assert(now.drop_last() =~= pre);
            assert(now.last() == t@[i as int]);
            assert(digits_val(now) == digits_val(pre) * 10 + digit_val(t@[i as int]));
            lemma_digits_val_bounds(pre);
        }
        let d: u64 = ((t[i] as u8) - 48) as u64;
        if !sat {
            if acc > (u64::MAX - d) / 10 {
                sat = true;
                proof {
                    assert(digits_val(now) > u64::MAX) by (nonlinear_arith)
                        requires
                            digits_val(now) == digits_val(pre) * 10 + digit_val(t@[i as int]),
                            acc == digits_val(pre),
                            digit_val(t@[i as int]) == d,
                            0 <= d < 10,
                            acc > (u64::MAX - d) / 10,
                    ;
                }
            } else {
                proof {
                    assert(acc * 10 + d <= u64::MAX) by (nonlinear_arith)
                        requires
                            0 <= acc,
                            0 <= d < 10,
                            acc <= (u64::MAX - d) / 10,
                    ;
                }
                acc = acc * 10 + d;
            }
        } else {
            proof {
                assert(digits_val(now) >= digits_val(pre)) by (nonlinear_arith)
                    requires
                        digits_val(now) == digits_val(pre) * 10 + digit_val(t@[i as int]),
                        0 <= digit_val(t@[i as int]),
                        0 <= digits_val(pre),
                ;
            }
        }
        i = i + 1;
    }
    proof {
        assert(t@.subrange(a as int, b as int) =~= whole);
    }
    if sat {
        u64::MAX
    } else {
        acc
    }
}

/// The rating magnitude rounded to the nearest multiple of `m`, half away
/// from zero (see [`spec_rating_round`]).
pub fn rating_round(t: &Vec<char>, m: u64) -> (r: Option<i64>)
    requires
        2 <= m <= 100,
    ensures
        match r {
            Some(v) => spec_rating_round(t@, m as int) == Some(v as int),
            None => spec_rating_round(t@, m as int) is None,
        },
{
    match parse_dec(t) {
        None => None,
        Some((neg, a, b)) => {
            let ghost ds = t@.subrange(a as int, b as int);
            let ip = digits_sat_u64(t, a, b);
            if ip > 1000000000000000u64 {
                proof {
                    if digits_val(ds) <= u64::MAX {
                        assert(ip == digits_val(ds));
                    }
                    assert(digits_val(ds) > spec_mag_cap());
                }
                None
            } else {
                proof {
                    lemma_digits_val_bounds(ds);
                    if digits_val(ds) > u64::MAX {
                        assert(ip == u64::MAX);
                    }
                    assert(digits_val(ds) == ip as int);
                }
                let rem = ip % m;
                proof {
                    assert(0 <= rem < m && rem <= ip) by (nonlinear_arith)
                        requires
                            2 <= m,
                            0 <= ip,
                            rem == ip % m,
                    ;
                }
                let rm: u64 = ip - rem + if 2 * rem >= m {
                    m
                } else {
                    0u64
                };
                let v: i64 = if neg {
                    -(rm as i64)
                } else {
                    rm as i64
                };
                Some(v)
            }
        },
    }
}

/// Empty text is not decimal, so it reads as a zero floor.
pub proof fn lemma_elo_floor_empty()
    ensures
        spec_elo_floor(Seq::<char>::empty()) == 0,
{
    let t = Seq::<char>::empty();
    assert(crate::text::spec_find_char(t, 0, '.') == 0);
    assert(spec_parse_dec(t) is None);
}

/// The rating floor value (see [`spec_elo_floor`]).
pub fn elo_floor(t: &Vec<char>) -> (r: u64)
    ensures
        r as int == spec_elo_floor(t@),
{
    match parse_dec(t) {
        None => 0,
        Some((neg, a, b)) => {
            if neg {
                0
            } else {
                digits_sat_u64(t, a, b)
            }
        },
    }
}

} // verus!
