//! Output assembly for rewritten logs.
//!
//! A rewritten document is described as a list of *pieces*: ranges of the
//! original text that are kept verbatim, and short generated texts (a
//! pseudonym, a rounded rating, a fixed literal). Substitution never decodes
//! or re-encodes the original text, so the final string can be assembled by
//! concatenating substrings of the input with the generated parts.

use vstd::prelude::*;
use vstd::string::*;

verus! {

/// One piece of an output document.
pub enum Piece {
    /// The range `[from, to)` of the base text, kept verbatim.
    Doc { from: usize, to: usize },
    /// The decimal rendering of an unsigned number.
    Num(u64),
    /// The decimal rendering of a signed number.
    Int(i64),
    /// A fixed text.
    Lit(String),
}

/// A piece at the specification level: a range of the base text or a text.
#[verifier::ext_equal]
pub ghost enum GPiece {
    Doc { from: int, to: int },
    Txt(Seq<char>),
}

/// The decimal digits of `i`, with a leading minus sign when negative.
pub open spec fn int_str(i: int) -> Seq<char> {
    if i < 0 {
        seq!['-'] + crate::text::dec_str((-i) as nat)
    } else {
        crate::text::dec_str(i as nat)
    }
}

impl View for Piece {
    type V = GPiece;

    open spec fn view(&self) -> GPiece {
        match self {
            Piece::Doc { from, to } => GPiece::Doc { from: *from as int, to: *to as int },
            Piece::Num(n) => GPiece::Txt(crate::text::dec_str(*n as nat)),
            Piece::Int(i) => GPiece::Txt(int_str(*i as int)),
            Piece::Lit(s) => GPiece::Txt(s@),
        }
    }
}

/// The text a piece stands for, relative to the base text `doc`.
pub open spec fn gpiece_view(doc: Seq<char>, p: GPiece) -> Seq<char> {
    match p {
        GPiece::Doc { from, to } => doc.subrange(from, to),
        GPiece::Txt(t) => t,
    }
}

/// Whether a piece's range lies within the base text.
pub open spec fn gpiece_wf(doc: Seq<char>, p: GPiece) -> bool {
    match p {
        GPiece::Doc { from, to } => 0 <= from <= to <= doc.len(),
        GPiece::Txt(t) => true,
    }
}

/// The text a piece list stands for.
pub open spec fn gpieces_view(doc: Seq<char>, ps: Seq<GPiece>) -> Seq<char>
    decreases ps.len(),
{
    if ps.len() == 0 {
        Seq::empty()
    } else {
        gpiece_view(doc, ps[0]) + gpieces_view(doc, ps.skip(1))
    }
}

/// Whether every piece of a list is within bounds.
pub open spec fn gpieces_wf(doc: Seq<char>, ps: Seq<GPiece>) -> bool {
    forall|j: int| 0 <= j < ps.len() ==> gpiece_wf(doc, #[trigger] ps[j])
}

pub proof fn lemma_gpieces_view_concat(doc: Seq<char>, a: Seq<GPiece>, b: Seq<GPiece>)
    ensures
        gpieces_view(doc, a + b) == gpieces_view(doc, a) + gpieces_view(doc, b),
    decreases a.len(),
{
    if a.len() == 0 {
        assert(a + b =~= b);
        assert(gpieces_view(doc, a) + gpieces_view(doc, b) =~= gpieces_view(doc, b));
    } else {
        lemma_gpieces_view_concat(doc, a.skip(1), b);
        assert((a + b).skip(1) =~= a.skip(1) + b);
        assert((a + b)[0] == a[0]);
        assert(gpieces_view(doc, a + b) =~= gpiece_view(doc, a[0]) + (gpieces_view(doc, a.skip(1))
            + gpieces_view(doc, b)));
        assert(gpiece_view(doc, a[0]) + (gpieces_view(doc, a.skip(1)) + gpieces_view(doc, b)) =~= (
        gpiece_view(doc, a[0]) + gpieces_view(doc, a.skip(1))) + gpieces_view(doc, b));
    }
}

pub proof fn lemma_gpieces_view_push(doc: Seq<char>, ps: Seq<GPiece>, p: GPiece)
    ensures
        gpieces_view(doc, ps.push(p)) == gpieces_view(doc, ps) + gpiece_view(doc, p),
{
    assert(ps.push(p) =~= ps + seq![p]);
    lemma_gpieces_view_concat(doc, ps, seq![p]);
    assert(seq![p].skip(1) =~= Seq::<GPiece>::empty());
    assert(gpieces_view(doc, seq![p]) =~= gpiece_view(doc, p) + gpieces_view(
        doc,
        Seq::<GPiece>::empty(),
    ));
    assert(gpiece_view(doc, p) + Seq::<char>::empty() =~= gpiece_view(doc, p));
}

/// Appends the decimal rendering of `i` to `out`.
pub fn append_i64(out: &mut String, i: i64)
    ensures
        final(out)@ == old(out)@ + int_str(i as int),
{
    if i < 0 {
        out.append("-");
        let m: u64 = (-(i as i128)) as u64;
        proof {
            reveal_strlit("-");
            assert("-"@ =~= seq!['-']);
        }
        crate::text::append_u64(out, m);
    } else {
        crate::text::append_u64(out, i as u64);
    }
}

/// Builds the text that `ps` stands for, taking verbatim ranges out of the
/// original string `doc`.
pub fn assemble(doc: &str, ps: &Vec<Piece>) -> (out: String)
    requires
        gpieces_wf(doc@, ps@.map_values(|p: Piece| p@)),
    ensures
        out@ == gpieces_view(doc@, ps@.map_values(|p: Piece| p@)),
{
    let ghost gps = ps@.map_values(|p: Piece| p@);
    let mut out = String::new();
    let mut i: usize = 0;
    proof {
        assert(gps.take(0) =~= Seq::<GPiece>::empty());
    }
    while i < ps.len()
        invariant
            i <= ps@.len(),
            gps == ps@.map_values(|p: Piece| p@),
            gpieces_wf(doc@, gps),
            out@ == gpieces_view(doc@, gps.take(i as int)),
        decreases ps@.len() - i,
    {
        proof {
            assert(gps[i as int] == ps@[i as int]@);
            assert(gpiece_wf(doc@, gps[i as int]));
            assert(gps.take(i + 1) =~= gps.take(i as int).push(gps[i as int]));
            lemma_gpieces_view_push(doc@, gps.take(i as int), gps[i as int]);
        }
        match &ps[i] {
            Piece::Doc { from, to } => {
                let piece = doc.substring_char(*from, *to);
                out.append(piece);
            },
            Piece::Num(n) => {
                crate::text::append_u64(&mut out, *n);
            },
            Piece::Int(v) => {
                append_i64(&mut out, *v);
            },
            Piece::Lit(s) => {
                out.append(s.as_str());
            },
        }
        i = i + 1;
    }
    proof {
        assert(gps.take(gps.len() as int) =~= gps);
    }
    out
}

/// Rebases pieces computed against a copied range of a larger text: a
/// verbatim range `[from, to)` of the copy is the range
/// `[from + delta, to + delta)` of the larger text.
pub fn shift_pieces(ps: Vec<Piece>, delta: usize, base: Ghost<Seq<char>>, doc: Ghost<Seq<char>>) -> (r: Vec<
    Piece,
>)
    requires
        gpieces_wf(base@, ps@.map_values(|p: Piece| p@)),
        0 <= delta,
        doc@.len() <= usize::MAX,
        delta + base@.len() <= doc@.len(),
        base@ == doc@.subrange(delta as int, delta + base@.len()),
    ensures
        gpieces_wf(doc@, r@.map_values(|p: Piece| p@)),
        gpieces_view(doc@, r@.map_values(|p: Piece| p@)) == gpieces_view(
            base@,
            ps@.map_values(|p: Piece| p@),
        ),
{
    let ghost gin = ps@.map_values(|p: Piece| p@);
    let mut out: Vec<Piece> = Vec::new();
    let mut i: usize = 0;
    let mut items = ps;
    proof {
        assert(gin.take(0) =~= Seq::<GPiece>::empty());
        assert(out@.map_values(|p: Piece| p@) =~= Seq::<GPiece>::empty());
    }
    while i < items.len()
        invariant
            i <= items@.len(),
            gin == items@.map_values(|p: Piece| p@),
            gpieces_wf(base@, gin),
            doc@.len() <= usize::MAX,
            delta + base@.len() <= doc@.len(),
            base@ == doc@.subrange(delta as int, delta + base@.len()),
            gpieces_wf(doc@, out@.map_values(|p: Piece| p@)),
            gpieces_view(doc@, out@.map_values(|p: Piece| p@)) == gpieces_view(
                base@,
                gin.take(i as int),
            ),
        decreases items@.len() - i,
    {
        let ghost pre = out@.map_values(|p: Piece| p@);
        proof {
            assert(gin[i as int] == items@[i as int]@);
            assert(gpiece_wf(base@, gin[i as int]));
            assert(gin.take(i + 1) =~= gin.take(i as int).push(gin[i as int]));
            lemma_gpieces_view_push(base@, gin.take(i as int), gin[i as int]);
        }
        let shifted: Piece = match &items[i] {
            Piece::Doc { from, to } => Piece::Doc { from: *from + delta, to: *to + delta },
            Piece::Num(n) => Piece::Num(*n),
            Piece::Int(v) => Piece::Int(*v),
            Piece::Lit(s) => Piece::Lit(s.clone()),
        };
        proof {
            match gin[i as int] {
                GPiece::Doc { from, to } => {
                    assert(gpiece_view(doc@, shifted@) =~= gpiece_view(base@, gin[i as int]));
                },
                GPiece::Txt(t) => {
                    assert(gpiece_view(doc@, shifted@) == gpiece_view(base@, gin[i as int]));
                },
            }
        }
        out.push(shifted);
        proof {
            assert(out@.map_values(|p: Piece| p@) =~= pre.push(shifted@));
            lemma_gpieces_view_push(doc@, pre, shifted@);
        }
        i = i + 1;
    }
    proof {
        assert(gin.take(gin.len() as int) =~= gin);
    }
    out
}

/// Pushes one piece, tracking the text the list stands for.
pub fn push_piece(out: &mut Vec<Piece>, p: Piece, doc: Ghost<Seq<char>>)
    requires
        gpiece_wf(doc@, p@),
        gpieces_wf(doc@, old(out)@.map_values(|q: Piece| q@)),
    ensures
        gpieces_wf(doc@, final(out)@.map_values(|q: Piece| q@)),
        final(out)@.map_values(|q: Piece| q@) == old(out)@.map_values(|q: Piece| q@).push(p@),
        gpieces_view(doc@, final(out)@.map_values(|q: Piece| q@)) == gpieces_view(
            doc@,
            old(out)@.map_values(|q: Piece| q@),
        ) + gpiece_view(doc@, p@),
{
    let ghost pre = out@.map_values(|q: Piece| q@);
    let ghost gp = p@;
    out.push(p);
    proof {
        let newmap = out@.map_values(|q: Piece| q@);
        assert(newmap =~= pre.push(gp));
        lemma_gpieces_view_push(doc@, pre, gp);
        assert forall|j: int| 0 <= j < newmap.len() implies gpiece_wf(doc@, #[trigger] newmap[j]) by {
            if j < pre.len() {
                assert(newmap[j] == pre[j]);
            }
        }
    }
}

/// Appends a whole piece list, concatenating the texts they stand for.
pub fn append_all(out: &mut Vec<Piece>, more: Vec<Piece>, doc: Ghost<Seq<char>>)
    requires
        gpieces_wf(doc@, more@.map_values(|q: Piece| q@)),
        gpieces_wf(doc@, old(out)@.map_values(|q: Piece| q@)),
    ensures
        gpieces_wf(doc@, final(out)@.map_values(|q: Piece| q@)),
        gpieces_view(doc@, final(out)@.map_values(|q: Piece| q@)) == gpieces_view(
            doc@,
            old(out)@.map_values(|q: Piece| q@),
        ) + gpieces_view(doc@, more@.map_values(|q: Piece| q@)),
{
    let ghost gmore = more@.map_values(|q: Piece| q@);
    let ghost base = out@.map_values(|q: Piece| q@);
    let mut items = more;
    let mut i: usize = 0;
    proof {
        assert(gmore.take(0) =~= Seq::<GPiece>::empty());
        assert(gpieces_view(doc@, base) + gpieces_view(doc@, Seq::<GPiece>::empty())
            =~= gpieces_view(doc@, base));
    }
    while i < items.len()
        invariant
            i <= items@.len(),
            gmore == items@.map_values(|q: Piece| q@),
            gpieces_wf(doc@, gmore),
            gpieces_wf(doc@, out@.map_values(|q: Piece| q@)),
            gpieces_view(doc@, out@.map_values(|q: Piece| q@)) == gpieces_view(doc@, base)
                + gpieces_view(doc@, gmore.take(i as int)),
        decreases items@.len() - i,
    {
        proof {
            assert(gmore[i as int] == items@[i as int]@);
            assert(gpiece_wf(doc@, gmore[i as int]));
            assert(gmore.take(i + 1) =~= gmore.take(i as int).push(gmore[i as int]));
            lemma_gpieces_view_push(doc@, gmore.take(i as int), gmore[i as int]);
        }
        let p = match &items[i] {
            Piece::Doc { from, to } => Piece::Doc { from: *from, to: *to },
            Piece::Num(n) => Piece::Num(*n),
            Piece::Int(v) => Piece::Int(*v),
            Piece::Lit(s) => Piece::Lit(s.clone()),
        };
        proof {
            assert(p@ == gmore[i as int]);
        }
        push_piece(out, p, doc);
        i = i + 1;
    }
    proof {
        assert(gmore.take(gmore.len() as int) =~= gmore);
    }
}

} // verus!
