//! Substitution of participant names by pseudonyms inside log lines.
//!
//! Two substitutions occur in log text. The *plain* one replaces every
//! occurrence of a pattern, scanning left to right without overlap. The
//! *slot* one replaces a player slot: a marker such as `|p1`, an optional
//! `a` or `b`, the separator `: `, and then one of three spellings of the
//! name (display form, canonical ID, escaped form), tried in that order.
//! The whole matched slot, marker and separator included, becomes the
//! pseudonym.
//!
//! Substitutions operate on piece lists, replacing only inside ranges of
//! the original text: text that an earlier substitution inserted is never
//! rescanned.

use vstd::prelude::*;
use crate::pieces::{GPiece, Piece, gpiece_wf, gpieces_wf};

verus! {


/// The pieces that plain replacement makes of the range `[i, hi)` of
/// `base`: each occurrence of `pat` becomes `rep`, the rest stays verbatim.
pub open spec fn g_replace_range(base: Seq<char>, i: int, hi: int, pat: Seq<char>, rep: Seq<char>) -> Seq<
    GPiece,
>
    decreases hi - i,
    when 0 <= i <= hi <= base.len() && pat.len() >= 1
{
    if i + pat.len() > hi {
        seq![GPiece::Doc { from: i, to: hi }]
    } else if base.subrange(i, i + pat.len()) == pat {
        seq![GPiece::Txt(rep)] + g_replace_range(base, i + pat.len(), hi, pat, rep)
    } else {
        seq![GPiece::Doc { from: i, to: i + 1 }] + g_replace_range(base, i + 1, hi, pat, rep)
    }
}

pub proof fn lemma_replace_range_wf(base: Seq<char>, i: int, hi: int, pat: Seq<char>, rep: Seq<char>)
    requires
        0 <= i <= hi <= base.len(),
        pat.len() >= 1,
    ensures
        gpieces_wf(base, g_replace_range(base, i, hi, pat, rep)),
    decreases hi - i,
{
    if i + pat.len() > hi {
    } else if base.subrange(i, i + pat.len()) == pat {
        lemma_replace_range_wf(base, i + pat.len(), hi, pat, rep);
        let rest = g_replace_range(base, i + pat.len(), hi, pat, rep);
        assert forall|j: int|
            0 <= j < g_replace_range(base, i, hi, pat, rep).len() implies gpiece_wf(
            base,
            #[trigger] g_replace_range(base, i, hi, pat, rep)[j],
        ) by {
            if j >= 1 {
                assert(g_replace_range(base, i, hi, pat, rep)[j] == rest[j - 1]);
            }
        }
    } else {
        lemma_replace_range_wf(base, i + 1, hi, pat, rep);
        let rest = g_replace_range(base, i + 1, hi, pat, rep);
        assert forall|j: int|
            0 <= j < g_replace_range(base, i, hi, pat, rep).len() implies gpiece_wf(
            base,
            #[trigger] g_replace_range(base, i, hi, pat, rep)[j],
        ) by {
            if j >= 1 {
                assert(g_replace_range(base, i, hi, pat, rep)[j] == rest[j - 1]);
            }
        }
    }
}

/// Appends to `out` the pieces that plain replacement makes of `[lo, hi)`,
/// replacing `pat` by the pseudonym `n`.
pub fn emit_replace_range(
    s: &Vec<char>,
    lo: usize,
    hi: usize,
    pat: &Vec<char>,
    n: u64,
    out: &mut Vec<Piece>,
)
    requires
        lo <= hi <= s@.len(),
        pat@.len() >= 1,
    ensures
        final(out)@.map_values(|p: Piece| p@) == old(out)@.map_values(|p: Piece| p@)
            + g_replace_range(s@, lo as int, hi as int, pat@, crate::text::dec_str(n as nat)),
{
    let ghost rep = crate::text::dec_str(n as nat);
    let ghost pre = out@.map_values(|p: Piece| p@);
    let mut i: usize = lo;
    while pat.len() <= hi - i
        invariant
            lo <= i <= hi <= s@.len(),
            pat@.len() >= 1,
            rep == crate::text::dec_str(n as nat),
            pre + g_replace_range(s@, lo as int, hi as int, pat@, rep) == out@.map_values(
                |p: Piece| p@,
            ) + g_replace_range(s@, i as int, hi as int, pat@, rep),
        decreases hi - i,
    {
        let ghost cur = out@.map_values(|p: Piece| p@);
        if crate::text::check_match_at(s, i, pat) {
            let p_num = Piece::Num(n);
            let ghost gp = p_num@;
            out.push(p_num);
            proof {
                assert(gp =~~= GPiece::Txt(rep));
                assert(out@.map_values(|p: Piece| p@) =~= cur.push(gp));
                assert(cur.push(GPiece::Txt(rep)) + g_replace_range(
                    s@,
                    i + pat@.len(),
                    hi as int,
                    pat@,
                    rep,
                ) =~= cur + (seq![GPiece::Txt(rep)] + g_replace_range(
                    s@,
                    i + pat@.len(),
                    hi as int,
                    pat@,
                    rep,
                )));
            }
            i = i + pat.len();
        } else {
            let p_doc = Piece::Doc { from: i, to: i + 1 };
            let ghost gp = p_doc@;
            out.push(p_doc);
            proof {
                assert(gp == GPiece::Doc { from: i as int, to: i + 1 });
                assert(out@.map_values(|p: Piece| p@) =~= cur.push(gp));
                assert(cur.push(GPiece::Doc { from: i as int, to: i + 1 }) + g_replace_range(
                    s@,
                    i + 1,
                    hi as int,
                    pat@,
                    rep,
                ) =~= cur + (seq![GPiece::Doc { from: i as int, to: i + 1 }] + g_replace_range(
                    s@,
                    i + 1,
                    hi as int,
                    pat@,
                    rep,
                )));
            }
            i = i + 1;
        }
    }
    let ghost cur = out@.map_values(|p: Piece| p@);
    let p_doc = Piece::Doc { from: i, to: hi };
    let ghost gp = p_doc@;
    out.push(p_doc);
    proof {
        assert(gp == GPiece::Doc { from: i as int, to: hi as int });
        assert(out@.map_values(|p: Piece| p@) =~= cur.push(gp));
        assert(g_replace_range(s@, i as int, hi as int, pat@, rep) == seq![
            GPiece::Doc { from: i as int, to: hi as int },
        ]);
        assert(cur.push(GPiece::Doc { from: i as int, to: hi as int }) =~= cur + seq![
            GPiece::Doc { from: i as int, to: hi as int },
        ]);
    }
}

/// Plain replacement lifted to a piece list: verbatim ranges are scanned,
/// generated texts are kept as they are.
pub open spec fn g_replace_pieces(base: Seq<char>, gps: Seq<GPiece>, pat: Seq<char>, rep: Seq<char>) -> Seq<
    GPiece,
>
    decreases gps.len(),
    when pat.len() >= 1 && gpieces_wf(base, gps)
{
    if gps.len() == 0 {
        Seq::empty()
    } else {
        let head = match gps[0] {
            GPiece::Doc { from, to } => g_replace_range(base, from, to, pat, rep),
            GPiece::Txt(t) => seq![GPiece::Txt(t)],
        };
        head + g_replace_pieces(base, gps.skip(1), pat, rep)
    }
}

/// Plain replacement, or the unchanged pieces when the pattern is empty.
/// An empty pattern denotes identifying text that does not exist, so there
/// is nothing to replace.
pub open spec fn g_replace_if(base: Seq<char>, gps: Seq<GPiece>, pat: Seq<char>, rep: Seq<char>) -> Seq<
    GPiece,
>
    recommends
        gpieces_wf(base, gps),
{
    if pat.len() == 0 {
        gps
    } else {
        g_replace_pieces(base, gps, pat, rep)
    }
}

pub proof fn lemma_replace_pieces_wf(base: Seq<char>, gps: Seq<GPiece>, pat: Seq<char>, rep: Seq<char>)
    requires
        pat.len() >= 1,
        gpieces_wf(base, gps),
    ensures
        gpieces_wf(base, g_replace_pieces(base, gps, pat, rep)),
    decreases gps.len(),
{
    if gps.len() > 0 {
        assert(gpiece_wf(base, gps[0]));
        assert forall|j: int| 0 <= j < gps.skip(1).len() implies gpiece_wf(
            base,
            #[trigger] gps.skip(1)[j],
        ) by {
            assert(gps.skip(1)[j] == gps[j + 1]);
        }
        lemma_replace_pieces_wf(base, gps.skip(1), pat, rep);
        let head = match gps[0] {
            GPiece::Doc { from, to } => g_replace_range(base, from, to, pat, rep),
            GPiece::Txt(t) => seq![GPiece::Txt(t)],
        };
        match gps[0] {
            GPiece::Doc { from, to } => {
                lemma_replace_range_wf(base, from, to, pat, rep);
            },
            GPiece::Txt(t) => {},
        }
        let rest = g_replace_pieces(base, gps.skip(1), pat, rep);
        assert forall|j: int|
            0 <= j < (head + rest).len() implies gpiece_wf(base, #[trigger] (head + rest)[j]) by {
            if j < head.len() {
                assert((head + rest)[j] == head[j]);
            } else {
                assert((head + rest)[j] == rest[j - head.len()]);
            }
        }
    }
}

pub proof fn lemma_replace_if_wf(base: Seq<char>, gps: Seq<GPiece>, pat: Seq<char>, rep: Seq<char>)
    requires
        gpieces_wf(base, gps),
    ensures
        gpieces_wf(base, g_replace_if(base, gps, pat, rep)),
{
    if pat.len() >= 1 {
        lemma_replace_pieces_wf(base, gps, pat, rep);
    }
}

/// Applies plain replacement of `pat` by the pseudonym `n` to every
/// verbatim piece of `ps`. With an empty pattern, returns `ps` unchanged.
pub fn replace_pieces(s: &Vec<char>, ps: Vec<Piece>, pat: &Vec<char>, n: u64) -> (r: Vec<Piece>)
    requires
        gpieces_wf(s@, ps@.map_values(|p: Piece| p@)),
    ensures
        r@.map_values(|p: Piece| p@) == g_replace_if(
            s@,
            ps@.map_values(|p: Piece| p@),
            pat@,
            crate::text::dec_str(n as nat),
        ),
        gpieces_wf(s@, r@.map_values(|p: Piece| p@)),
{
    let ghost gin = ps@.map_values(|p: Piece| p@);
    let ghost rep = crate::text::dec_str(n as nat);
    proof {
        lemma_replace_if_wf(s@, gin, pat@, rep);
    }
    if pat.len() == 0 {
        return ps;
    }
    let mut out: Vec<Piece> = Vec::new();
    let mut i: usize = 0;
    let items = ps;
    proof {
        assert(out@.map_values(|p: Piece| p@) =~= Seq::<GPiece>::empty());
        assert(gin.skip(0) =~= gin);
        assert(Seq::<GPiece>::empty() + g_replace_pieces(s@, gin, pat@, rep) =~= g_replace_pieces(
            s@,
            gin,
            pat@,
            rep,
        ));
    }
    while i < items.len()
        invariant
            i <= items@.len(),
            gin == items@.map_values(|p: Piece| p@),
            pat@.len() >= 1,
            rep == crate::text::dec_str(n as nat),
            gpieces_wf(s@, gin),
            g_replace_pieces(s@, gin, pat@, rep) == out@.map_values(|p: Piece| p@)
                + g_replace_pieces(s@, gin.skip(i as int), pat@, rep),
        decreases items@.len() - i,
    {
        let ghost cur = out@.map_values(|p: Piece| p@);
        proof {
            assert(gin[i as int] == items@[i as int]@);
            assert(gpiece_wf(s@, gin[i as int]));
            assert(gin.skip(i as int)[0] == gin[i as int]);
            assert(gin.skip(i as int).skip(1) =~= gin.skip(i + 1));
        }
        match &items[i] {
            Piece::Doc { from, to } => {
                emit_replace_range(s, *from, *to, pat, n, &mut out);
            },
            Piece::Num(m) => {
                let p_new = Piece::Num(*m);
                let ghost gp = p_new@;
                out.push(p_new);
                proof {
                    assert(gp == gin[i as int]);
                    assert(out@.map_values(|p: Piece| p@) =~= cur.push(gin[i as int]));
                }
            },
            Piece::Int(v) => {
                let p_new = Piece::Int(*v);
                let ghost gp = p_new@;
                out.push(p_new);
                proof {
                    assert(gp == gin[i as int]);
                    assert(out@.map_values(|p: Piece| p@) =~= cur.push(gin[i as int]));
                }
            },
            Piece::Lit(t) => {
                let p_new = Piece::Lit(t.clone());
                let ghost gp = p_new@;
                out.push(p_new);
                proof {
                    assert(gp == gin[i as int]);
                    assert(out@.map_values(|p: Piece| p@) =~= cur.push(gin[i as int]));
                }
            },
        }
        proof {
            let head = match gin[i as int] {
                GPiece::Doc { from, to } => g_replace_range(s@, from, to, pat@, rep),
                GPiece::Txt(t) => seq![GPiece::Txt(t)],
            };
            assert(g_replace_pieces(s@, gin.skip(i as int), pat@, rep) == head + g_replace_pieces(
                s@,
                gin.skip(i + 1),
                pat@,
                rep,
            ));
            assert(out@.map_values(|p: Piece| p@) =~= cur + head);
            assert(cur + head + g_replace_pieces(s@, gin.skip(i + 1), pat@, rep) =~= cur + (head
                + g_replace_pieces(s@, gin.skip(i + 1), pat@, rep)));
        }
        i = i + 1;
    }
    proof {
        assert(gin.skip(gin.len() as int) =~= Seq::<GPiece>::empty());
        assert(out@.map_values(|p: Piece| p@) + Seq::<GPiece>::empty() =~= out@.map_values(
            |p: Piece| p@,
        ));
        lemma_replace_pieces_wf(s@, gin, pat@, rep);
    }
    out
}

/// Where a player slot ends when one starts at `i` within `[i, hi)`:
/// the marker, an optional `a` or `b`, the separator `: `, then the first
/// of `a1`, `a2`, `a3` that matches. `-1` when no slot starts at `i`.
pub open spec fn spec_slot_end(
    base: Seq<char>,
    i: int,
    hi: int,
    marker: Seq<char>,
    a1: Seq<char>,
    a2: Seq<char>,
    a3: Seq<char>,
) -> int
    recommends
        0 <= i <= hi <= base.len(),
{
    if i + marker.len() <= hi && base.subrange(i, i + marker.len()) == marker {
        let j = i + marker.len();
        let k = if j < hi && (base[j] == 'a' || base[j] == 'b') {
            j + 1
        } else {
            j
        };
        if k + 2 <= hi && base[k] == ':' && base[k + 1] == ' ' {
            let p = k + 2;
            if p + a1.len() <= hi && base.subrange(p, p + a1.len()) == a1 {
                p + a1.len()
            } else if p + a2.len() <= hi && base.subrange(p, p + a2.len()) == a2 {
                p + a2.len()
            } else if p + a3.len() <= hi && base.subrange(p, p + a3.len()) == a3 {
                p + a3.len()
            } else {
                -1
            }
        } else {
            -1
        }
    } else {
        -1
    }
}

pub proof fn lemma_slot_end_bounds(
    base: Seq<char>,
    i: int,
    hi: int,
    marker: Seq<char>,
    a1: Seq<char>,
    a2: Seq<char>,
    a3: Seq<char>,
)
    requires
        0 <= i <= hi <= base.len(),
        marker.len() >= 1,
    ensures
        spec_slot_end(base, i, hi, marker, a1, a2, a3) == -1 || i + 3 <= spec_slot_end(
            base,
            i,
            hi,
            marker,
            a1,
            a2,
            a3,
        ) <= hi,
{
}

/// Where a player slot starting at `i` ends, decided executably.
pub fn slot_end(
    s: &Vec<char>,
    i: usize,
    hi: usize,
    marker: &Vec<char>,
    a1: &Vec<char>,
    a2: &Vec<char>,
    a3: &Vec<char>,
) -> (r: Option<usize>)
    requires
        i <= hi <= s@.len(),
    ensures
        match r {
            Some(e) => spec_slot_end(s@, i as int, hi as int, marker@, a1@, a2@, a3@) == e && i <= e
                <= hi,
            None => spec_slot_end(s@, i as int, hi as int, marker@, a1@, a2@, a3@) == -1,
        },
{
    if !(marker.len() <= hi - i && crate::text::check_match_at(s, i, marker)) {
        proof {
            if i + marker@.len() <= hi {
                assert((s@.subrange(i as int, i + marker@.len()) == marker@)
                    == crate::text::matches_at(s@, i as int, marker@));
            }
        }
        return None;
    }
    let j = i + marker.len();
    let k = if j < hi && (s[j] == 'a' || s[j] == 'b') {
        j + 1
    } else {
        j
    };
    if !(hi - k >= 2 && s[k] == ':' && s[k + 1] == ' ') {
        return None;
    }
    let p = k + 2;
    if a1.len() <= hi - p && crate::text::check_match_at(s, p, a1) {
        proof {
            assert((s@.subrange(p as int, p + a1@.len()) == a1@) == crate::text::matches_at(
                s@,
                p as int,
                a1@,
            ));
        }
        return Some(p + a1.len());
    }
    proof {
        if p + a1@.len() <= hi {
            assert((s@.subrange(p as int, p + a1@.len()) == a1@) == crate::text::matches_at(
                s@,
                p as int,
                a1@,
            ));
        }
    }
    if a2.len() <= hi - p && crate::text::check_match_at(s, p, a2) {
        proof {
            assert((s@.subrange(p as int, p + a2@.len()) == a2@) == crate::text::matches_at(
                s@,
                p as int,
                a2@,
            ));
        }
        return Some(p + a2.len());
    }
    proof {
        if p + a2@.len() <= hi {
            assert((s@.subrange(p as int, p + a2@.len()) == a2@) == crate::text::matches_at(
                s@,
                p as int,
                a2@,
            ));
        }
    }
    if a3.len() <= hi - p && crate::text::check_match_at(s, p, a3) {
        proof {
            assert((s@.subrange(p as int, p + a3@.len()) == a3@) == crate::text::matches_at(
                s@,
                p as int,
                a3@,
            ));
        }
        return Some(p + a3.len());
    }
    proof {
        if p + a3@.len() <= hi {
            assert((s@.subrange(p as int, p + a3@.len()) == a3@) == crate::text::matches_at(
                s@,
                p as int,
                a3@,
            ));
        }
    }
    None
}

/// The pieces that slot replacement makes of the range `[i, hi)` of `base`.
pub open spec fn g_slot_replace_range(
    base: Seq<char>,
    i: int,
    hi: int,
    marker: Seq<char>,
    a1: Seq<char>,
    a2: Seq<char>,
    a3: Seq<char>,
    rep: Seq<char>,
) -> Seq<GPiece>
    decreases hi - i,
    when 0 <= i <= hi <= base.len() && marker.len() >= 1
{
    if i == hi {
        seq![GPiece::Doc { from: i, to: hi }]
    } else {
        let e = spec_slot_end(base, i, hi, marker, a1, a2, a3);
        proof {
            lemma_slot_end_bounds(base, i, hi, marker, a1, a2, a3);
        }
        if e != -1 {
            seq![GPiece::Txt(rep)] + g_slot_replace_range(base, e, hi, marker, a1, a2, a3, rep)
        } else {
            seq![GPiece::Doc { from: i, to: i + 1 }] + g_slot_replace_range(
                base,
                i + 1,
                hi,
                marker,
                a1,
                a2,
                a3,
                rep,
            )
        }
    }
}

pub proof fn lemma_slot_replace_range_wf(
    base: Seq<char>,
    i: int,
    hi: int,
    marker: Seq<char>,
    a1: Seq<char>,
    a2: Seq<char>,
    a3: Seq<char>,
    rep: Seq<char>,
)
    requires
        0 <= i <= hi <= base.len(),
        marker.len() >= 1,
    ensures
        gpieces_wf(base, g_slot_replace_range(base, i, hi, marker, a1, a2, a3, rep)),
    decreases hi - i,
{
    let whole = g_slot_replace_range(base, i, hi, marker, a1, a2, a3, rep);
    if i == hi {
    } else {
        let e = spec_slot_end(base, i, hi, marker, a1, a2, a3);
        lemma_slot_end_bounds(base, i, hi, marker, a1, a2, a3);
        if e != -1 {
            lemma_slot_replace_range_wf(base, e, hi, marker, a1, a2, a3, rep);
            let rest = g_slot_replace_range(base, e, hi, marker, a1, a2, a3, rep);
            assert forall|j: int| 0 <= j < whole.len() implies gpiece_wf(
                base,
                #[trigger] whole[j],
            ) by {
                if j >= 1 {
                    assert(whole[j] == rest[j - 1]);
                }
            }
        } else {
            lemma_slot_replace_range_wf(base, i + 1, hi, marker, a1, a2, a3, rep);
            let rest = g_slot_replace_range(base, i + 1, hi, marker, a1, a2, a3, rep);
            assert forall|j: int| 0 <= j < whole.len() implies gpiece_wf(
                base,
                #[trigger] whole[j],
            ) by {
                if j >= 1 {
                    assert(whole[j] == rest[j - 1]);
                }
            }
        }
    }
}

/// Appends to `out` the pieces that slot replacement makes of `[lo, hi)`.
pub fn emit_slot_replace_range(
    s: &Vec<char>,
    lo: usize,
    hi: usize,
    marker: &Vec<char>,
    a1: &Vec<char>,
    a2: &Vec<char>,
    a3: &Vec<char>,
    n: u64,
    out: &mut Vec<Piece>,
)
    requires
        lo <= hi <= s@.len(),
        marker@.len() >= 1,
    ensures
        final(out)@.map_values(|p: Piece| p@) == old(out)@.map_values(|p: Piece| p@)
            + g_slot_replace_range(
            s@,
            lo as int,
            hi as int,
            marker@,
            a1@,
            a2@,
            a3@,
            crate::text::dec_str(n as nat),
        ),
{
    let ghost rep = crate::text::dec_str(n as nat);
    let ghost pre = out@.map_values(|p: Piece| p@);
    let mut i: usize = lo;
    while i < hi
        invariant
            lo <= i <= hi <= s@.len(),
            marker@.len() >= 1,
            rep == crate::text::dec_str(n as nat),
            pre + g_slot_replace_range(s@, lo as int, hi as int, marker@, a1@, a2@, a3@, rep)
                == out@.map_values(|p: Piece| p@) + g_slot_replace_range(
                s@,
                i as int,
                hi as int,
                marker@,
                a1@,
                a2@,
                a3@,
                rep,
            ),
        decreases hi - i,
    {
        let ghost cur = out@.map_values(|p: Piece| p@);
        proof {
            lemma_slot_end_bounds(s@, i as int, hi as int, marker@, a1@, a2@, a3@);
        }
        match slot_end(s, i, hi, marker, a1, a2, a3) {
            Some(e) => {
                let p_num = Piece::Num(n);
                let ghost gp = p_num@;
                out.push(p_num);
                proof {
                    assert(gp =~~= GPiece::Txt(rep));
                    assert(out@.map_values(|p: Piece| p@) =~= cur.push(gp));
                    assert(cur.push(GPiece::Txt(rep)) + g_slot_replace_range(
                        s@,
                        e as int,
                        hi as int,
                        marker@,
                        a1@,
                        a2@,
                        a3@,
                        rep,
                    ) =~= cur + (seq![GPiece::Txt(rep)] + g_slot_replace_range(
                        s@,
                        e as int,
                        hi as int,
                        marker@,
                        a1@,
                        a2@,
                        a3@,
                        rep,
                    )));
                }
                i = e;
            },
            None => {
                let p_doc = Piece::Doc { from: i, to: i + 1 };
                let ghost gp = p_doc@;
                out.push(p_doc);
                proof {
                    assert(gp == GPiece::Doc { from: i as int, to: i + 1 });
                    assert(out@.map_values(|p: Piece| p@) =~= cur.push(gp));
                    assert(cur.push(GPiece::Doc { from: i as int, to: i + 1 })
                        + g_slot_replace_range(
                        s@,
                        i + 1,
                        hi as int,
                        marker@,
                        a1@,
                        a2@,
                        a3@,
                        rep,
                    ) =~= cur + (seq![GPiece::Doc { from: i as int, to: i + 1 }]
                        + g_slot_replace_range(
                        s@,
                        i + 1,
                        hi as int,
                        marker@,
                        a1@,
                        a2@,
                        a3@,
                        rep,
                    )));
                }
                i = i + 1;
            },
        }
    }
    let ghost cur = out@.map_values(|p: Piece| p@);
    let p_doc = Piece::Doc { from: i, to: hi };
    let ghost gp = p_doc@;
    out.push(p_doc);
    proof {
        assert(gp == GPiece::Doc { from: i as int, to: hi as int });
        assert(out@.map_values(|p: Piece| p@) =~= cur.push(gp));
        assert(g_slot_replace_range(s@, i as int, hi as int, marker@, a1@, a2@, a3@, rep) == seq![
            GPiece::Doc { from: i as int, to: hi as int },
        ]);
        assert(cur.push(GPiece::Doc { from: i as int, to: hi as int }) =~= cur + seq![
            GPiece::Doc { from: i as int, to: hi as int },
        ]);
    }
}

/// Slot replacement lifted to a piece list.
pub open spec fn g_slot_replace_pieces(
    base: Seq<char>,
    gps: Seq<GPiece>,
    marker: Seq<char>,
    a1: Seq<char>,
    a2: Seq<char>,
    a3: Seq<char>,
    rep: Seq<char>,
) -> Seq<GPiece>
    decreases gps.len(),
    when marker.len() >= 1 && gpieces_wf(base, gps)
{
    if gps.len() == 0 {
        Seq::empty()
    } else {
        let head = match gps[0] {
            GPiece::Doc { from, to } => g_slot_replace_range(base, from, to, marker, a1, a2, a3, rep),
            GPiece::Txt(t) => seq![GPiece::Txt(t)],
        };
        head + g_slot_replace_pieces(base, gps.skip(1), marker, a1, a2, a3, rep)
    }
}

pub proof fn lemma_slot_replace_pieces_wf(
    base: Seq<char>,
    gps: Seq<GPiece>,
    marker: Seq<char>,
    a1: Seq<char>,
    a2: Seq<char>,
    a3: Seq<char>,
    rep: Seq<char>,
)
    requires
        marker.len() >= 1,
        gpieces_wf(base, gps),
    ensures
        gpieces_wf(base, g_slot_replace_pieces(base, gps, marker, a1, a2, a3, rep)),
    decreases gps.len(),
{
    if gps.len() > 0 {
        assert(gpiece_wf(base, gps[0]));
        assert forall|j: int| 0 <= j < gps.skip(1).len() implies gpiece_wf(
            base,
            #[trigger] gps.skip(1)[j],
        ) by {
            assert(gps.skip(1)[j] == gps[j + 1]);
        }
        lemma_slot_replace_pieces_wf(base, gps.skip(1), marker, a1, a2, a3, rep);
        let head = match gps[0] {
            GPiece::Doc { from, to } => g_slot_replace_range(base, from, to, marker, a1, a2, a3, rep),
            GPiece::Txt(t) => seq![GPiece::Txt(t)],
        };
        match gps[0] {
            GPiece::Doc { from, to } => {
                lemma_slot_replace_range_wf(base, from, to, marker, a1, a2, a3, rep);
            },
            GPiece::Txt(t) => {},
        }
        let rest = g_slot_replace_pieces(base, gps.skip(1), marker, a1, a2, a3, rep);
        assert forall|j: int|
            0 <= j < (head + rest).len() implies gpiece_wf(base, #[trigger] (head + rest)[j]) by {
            if j < head.len() {
                assert((head + rest)[j] == head[j]);
            } else {
                assert((head + rest)[j] == rest[j - head.len()]);
            }
        }
    }
}

/// Applies slot replacement with pseudonym `n` to every verbatim piece.
pub fn slot_replace_pieces(
    s: &Vec<char>,
    ps: Vec<Piece>,
    marker: &Vec<char>,
    a1: &Vec<char>,
    a2: &Vec<char>,
    a3: &Vec<char>,
    n: u64,
) -> (r: Vec<Piece>)
    requires
        gpieces_wf(s@, ps@.map_values(|p: Piece| p@)),
        marker@.len() >= 1,
    ensures
        r@.map_values(|p: Piece| p@) == g_slot_replace_pieces(
            s@,
            ps@.map_values(|p: Piece| p@),
            marker@,
            a1@,
            a2@,
            a3@,
            crate::text::dec_str(n as nat),
        ),
        gpieces_wf(s@, r@.map_values(|p: Piece| p@)),
{
    let ghost gin = ps@.map_values(|p: Piece| p@);
    let ghost rep = crate::text::dec_str(n as nat);
    let mut out: Vec<Piece> = Vec::new();
    let mut i: usize = 0;
    let items = ps;
    proof {
        assert(out@.map_values(|p: Piece| p@) =~= Seq::<GPiece>::empty());
        assert(gin.skip(0) =~= gin);
        assert(Seq::<GPiece>::empty() + g_slot_replace_pieces(s@, gin, marker@, a1@, a2@, a3@, rep)
            =~= g_slot_replace_pieces(s@, gin, marker@, a1@, a2@, a3@, rep));
    }
    while i < items.len()
        invariant
            i <= items@.len(),
            gin == items@.map_values(|p: Piece| p@),
            marker@.len() >= 1,
            rep == crate::text::dec_str(n as nat),
            gpieces_wf(s@, gin),
            g_slot_replace_pieces(s@, gin, marker@, a1@, a2@, a3@, rep) == out@.map_values(
                |p: Piece| p@,
            ) + g_slot_replace_pieces(s@, gin.skip(i as int), marker@, a1@, a2@, a3@, rep),
        decreases items@.len() - i,
    {
        let ghost cur = out@.map_values(|p: Piece| p@);
        proof {
            assert(gin[i as int] == items@[i as int]@);
            assert(gpiece_wf(s@, gin[i as int]));
            assert(gin.skip(i as int)[0] == gin[i as int]);
            assert(gin.skip(i as int).skip(1) =~= gin.skip(i + 1));
        }
        match &items[i] {
            Piece::Doc { from, to } => {
                emit_slot_replace_range(s, *from, *to, marker, a1, a2, a3, n, &mut out);
            },
            Piece::Num(m) => {
                let p_new = Piece::Num(*m);
                let ghost gp = p_new@;
                out.push(p_new);
                proof {
                    assert(gp == gin[i as int]);
                    assert(out@.map_values(|p: Piece| p@) =~= cur.push(gin[i as int]));
                }
            },
            Piece::Int(v) => {
                let p_new = Piece::Int(*v);
                let ghost gp = p_new@;
                out.push(p_new);
                proof {
                    assert(gp == gin[i as int]);
                    assert(out@.map_values(|p: Piece| p@) =~= cur.push(gin[i as int]));
                }
            },
            Piece::Lit(t) => {
                let p_new = Piece::Lit(t.clone());
                let ghost gp = p_new@;
                out.push(p_new);
                proof {
                    assert(gp == gin[i as int]);
                    assert(out@.map_values(|p: Piece| p@) =~= cur.push(gin[i as int]));
                }
            },
        }
        proof {
            let head = match gin[i as int] {
                GPiece::Doc { from, to } => g_slot_replace_range(s@, from, to, marker@, a1@, a2@, a3@, rep),
                GPiece::Txt(t) => seq![GPiece::Txt(t)],
            };
            assert(g_slot_replace_pieces(s@, gin.skip(i as int), marker@, a1@, a2@, a3@, rep)
                == head + g_slot_replace_pieces(s@, gin.skip(i + 1), marker@, a1@, a2@, a3@, rep));
            assert(out@.map_values(|p: Piece| p@) =~= cur + head);
            assert(cur + head + g_slot_replace_pieces(s@, gin.skip(i + 1), marker@, a1@, a2@, a3@, rep)
                =~= cur + (head + g_slot_replace_pieces(s@, gin.skip(i + 1), marker@, a1@, a2@, a3@, rep)));
        }
        i = i + 1;
    }
    proof {
        assert(gin.skip(gin.len() as int) =~= Seq::<GPiece>::empty());
        assert(out@.map_values(|p: Piece| p@) + Seq::<GPiece>::empty() =~= out@.map_values(
            |p: Piece| p@,
        ));
        lemma_slot_replace_pieces_wf(s@, gin, marker@, a1@, a2@, a3@, rep);
    }
    out
}

} // verus!
