//! Anonymization of battle logs.
//!
//! A [`SharedState`] maps raw participant identities to stable small-integer
//! pseudonyms, assigned in order of first encounter, and counts completed
//! anonymizations. An [`Anonymizer`] rewrites one log at a time: participant
//! fields become pseudonyms, the room identifier is nulled, ratings keep only
//! rounded magnitudes, the timestamp loses everything after its first colon,
//! and the turn log and input log are filtered and scrubbed line by line.

use vstd::prelude::*;
use vstd::string::*;
use crate::text::dec_str;

verus! {

/// The first index in `ks` (at or after `j`) holding `name`, or `ks.len()`.
pub open spec fn spec_key_index(ks: Seq<Seq<char>>, name: Seq<char>, j: int) -> int
    decreases ks.len() - j,
    when 0 <= j <= ks.len()
{
    if j == ks.len() {
        j
    } else if ks[j] == name {
        j
    } else {
        spec_key_index(ks, name, j + 1)
    }
}

pub proof fn lemma_key_index_bounds(ks: Seq<Seq<char>>, name: Seq<char>, j: int)
    requires
        0 <= j <= ks.len(),
    ensures
        j <= spec_key_index(ks, name, j) <= ks.len(),
        spec_key_index(ks, name, j) < ks.len() ==> ks[spec_key_index(ks, name, j)] == name,
        forall|k: int| j <= k < spec_key_index(ks, name, j) ==> ks[k] != name,
    decreases ks.len() - j,
{
    if j < ks.len() && ks[j] != name {
        lemma_key_index_bounds(ks, name, j + 1);
    }
}

/// The known identities after `name` has been assigned a pseudonym: new
/// identities are appended, known ones leave the list unchanged.
pub open spec fn spec_assign_keys(ks: Seq<Seq<char>>, name: Seq<char>) -> Seq<Seq<char>> {
    if spec_key_index(ks, name, 0) < ks.len() {
        ks
    } else {
        ks.push(name)
    }
}

/// The pseudonym that assigning `name` against the known identities `ks`
/// returns: its position in the list after assignment, counted from one.
pub open spec fn spec_pseudonym(ks: Seq<Seq<char>>, name: Seq<char>) -> int {
    if spec_key_index(ks, name, 0) < ks.len() {
        spec_key_index(ks, name, 0) + 1
    } else {
        ks.len() as int + 1
    }
}

/// Repeated assignment of one identity returns the same pseudonym: once
/// `name` is known, any later assignment finds it at the same position.
pub proof fn lemma_pseudonym_consistent(ks: Seq<Seq<char>>, name: Seq<char>)
    ensures
        spec_pseudonym(spec_assign_keys(ks, name), name) == spec_pseudonym(ks, name),
{
    lemma_key_index_bounds(ks, name, 0);
    let i = spec_key_index(ks, name, 0);
    if i < ks.len() {
    } else {
        let ks2 = ks.push(name);
        lemma_key_index_bounds(ks2, name, 0);
        let i2 = spec_key_index(ks2, name, 0);
        assert(ks2[ks.len() as int] == name);
        assert(i2 < ks2.len());
        assert forall|k: int| 0 <= k < ks.len() implies ks2[k] != name by {
            assert(ks2[k] == ks[k]);
        }
        assert(i2 == ks.len());
    }
}

/// Distinct identities receive distinct pseudonyms, whatever was assigned
/// before and between them.
pub proof fn lemma_pseudonym_distinct(ks: Seq<Seq<char>>, x: Seq<char>, y: Seq<char>)
    requires
        x != y,
    ensures
        spec_pseudonym(ks, x) != spec_pseudonym(spec_assign_keys(ks, x), y),
{
    lemma_key_index_bounds(ks, x, 0);
    let ks2 = spec_assign_keys(ks, x);
    lemma_key_index_bounds(ks2, y, 0);
    let ix = spec_key_index(ks, x, 0);
    let iy = spec_key_index(ks2, y, 0);
    if ix < ks.len() {
        // x sits at ix in ks and in ks2; y can never sit at ix.
        if iy < ks2.len() {
            assert(ks2[iy] == y);
            assert(ks2 == ks);
            if iy == ix {
                assert(ks[ix] == x);
            }
        } else {
            assert(spec_pseudonym(ks2, y) == ks.len() + 1);
        }
    } else {
        // x was appended at position ks.len(); y is elsewhere.
        assert(ks2 == ks.push(x));
        if iy < ks2.len() {
            assert(ks2[iy] == y);
            if iy == ks.len() {
                assert(ks2[iy] == x);
            }
        }
    }
}

/// Tracks participant pseudonyms and the battle sequence number. The
/// pseudonym of the `n`-th distinct identity ever seen is `n`, counted from
/// one; `current_battle_number` increments once per completed anonymization.
struct PlayerEntry {
    name: String,
    num: u64,
}

pub struct SharedState {
    players: Vec<PlayerEntry>,
    pub current_battle_number: u32,
}

impl SharedState {
    /// The battle counter, for contracts.
    pub closed spec fn battle_num(&self) -> u32 {
        self.current_battle_number
    }

    /// The identities known to this tracker, in order of first assignment.
    pub closed spec fn key_seq(&self) -> Seq<Seq<char>> {
        self.players@.map_values(|p: PlayerEntry| p.name@)
    }

    /// Each stored pseudonym is the identity's position counted from one.
    #[verifier::type_invariant]
    pub closed spec fn wf(&self) -> bool {
        forall|j: int|
            0 <= j < self.players@.len() ==> (#[trigger] self.players@[j]).num == j + 1
    }

    /// A fresh tracker: no known identities, battle counter at zero.
    pub fn new() -> (s: Self)
        ensures
            s.key_seq() == Seq::<Seq<char>>::empty(),
            s.battle_num() == 0,
    {
        let s = SharedState { players: Vec::new(), current_battle_number: 0 };
        proof {
            assert(s.key_seq() =~= Seq::<Seq<char>>::empty());
        }
        s
    }

    /// Assigns a pseudonym to `userid`: the stored one if the identity is
    /// known, a fresh one otherwise.
    pub fn assign_num(&mut self, userid: String) -> (r: u64)
        requires
            old(self).key_seq().len() + 1 <= u64::MAX,
        ensures
            final(self).key_seq() == spec_assign_keys(old(self).key_seq(), userid@),
            r as int == spec_pseudonym(old(self).key_seq(), userid@),
            final(self).battle_num() == old(self).battle_num(),
    {
        proof {
            use_type_invariant(&*self);
        }
        let ghost ks = self.key_seq();
        let mut j: usize = 0;
        while j < self.players.len()
            invariant
                j <= self.players@.len(),
                ks == self.key_seq(),
                self.wf(),
                spec_key_index(ks, userid@, 0) == spec_key_index(ks, userid@, j as int),
            decreases self.players@.len() - j,
        {
            proof {
                assert(ks[j as int] == self.players@[j as int].name@);
            }
            if self.players[j].name == userid {
                proof {
                    lemma_key_index_bounds(ks, userid@, 0);
                }
                return self.players[j].num;
            }
            j = j + 1;
        }
        let n: u64 = (self.players.len() as u64) + 1;
        let ghost before = self.players@;
        let mut ps: Vec<PlayerEntry> = Vec::new();
        core::mem::swap(&mut self.players, &mut ps);
        ps.push(PlayerEntry { name: userid, num: n });
        core::mem::swap(&mut self.players, &mut ps);
        proof {
            assert(self.players@[before.len() as int].name@ == userid@);
            assert(self.key_seq() =~= ks.push(userid@));
            lemma_key_index_bounds(ks, userid@, 0);
            assert(spec_key_index(ks, userid@, 0) == ks.len());
            assert(spec_assign_keys(ks, userid@) == ks.push(userid@));
            assert(self.wf()) by {
                assert(forall|k: int|
                    0 <= k < before.len() ==> (#[trigger] self.players@[k]) == before[k]);
            }
        }
        n
    }

    /// Assigns a pseudonym to `userid` and returns its decimal rendering.
    pub fn anonymize_player(&mut self, userid: String) -> (r: String)
        requires
            old(self).key_seq().len() + 1 <= u64::MAX,
        ensures
            final(self).key_seq() == spec_assign_keys(old(self).key_seq(), userid@),
            r@ == dec_str(spec_pseudonym(old(self).key_seq(), userid@) as nat),
            final(self).battle_num() == old(self).battle_num(),
    {
        let n = self.assign_num(userid);
        crate::text::u64_to_string(n)
    }
}

/// The values one anonymization substitutes, fixed before rewriting starts:
/// pseudonyms for the two sides and the winner, the tie flag, and the three
/// spellings of each participant's name that are scrubbed from log lines.
pub ghost struct RepCtx {
    pub a1: u64,
    pub a2: u64,
    pub tie: bool,
    pub wa: u64,
    pub no_log: bool,
    pub p1: Seq<char>,
    pub p2: Seq<char>,
    pub p1id: Seq<char>,
    pub p2id: Seq<char>,
    pub p1esc: Seq<char>,
    pub p2esc: Seq<char>,
}

pub open spec fn key_p1() -> Seq<char> {
    seq!['p', '1']
}

pub open spec fn key_p2() -> Seq<char> {
    seq!['p', '2']
}

pub open spec fn key_winner() -> Seq<char> {
    seq!['w', 'i', 'n', 'n', 'e', 'r']
}

pub open spec fn key_timestamp() -> Seq<char> {
    seq!['t', 'i', 'm', 'e', 's', 't', 'a', 'm', 'p']
}

pub open spec fn key_roomid() -> Seq<char> {
    seq!['r', 'o', 'o', 'm', 'i', 'd']
}

pub open spec fn key_format() -> Seq<char> {
    seq!['f', 'o', 'r', 'm', 'a', 't']
}

pub open spec fn key_inputlog() -> Seq<char> {
    seq!['i', 'n', 'p', 'u', 't', 'L', 'o', 'g']
}

pub open spec fn key_log() -> Seq<char> {
    seq!['l', 'o', 'g']
}

pub open spec fn key_p1rating() -> Seq<char> {
    seq!['p', '1', 'r', 'a', 't', 'i', 'n', 'g']
}

pub open spec fn key_p2rating() -> Seq<char> {
    seq!['p', '2', 'r', 'a', 't', 'i', 'n', 'g']
}

pub open spec fn key_elo() -> Seq<char> {
    seq!['e', 'l', 'o']
}

pub open spec fn key_rpr() -> Seq<char> {
    seq!['r', 'p', 'r']
}

pub open spec fn key_rprd() -> Seq<char> {
    seq!['r', 'p', 'r', 'd']
}

pub open spec fn lit_quote() -> Seq<char> {
    seq!['"']
}

pub open spec fn lit_quote2() -> Seq<char> {
    seq!['"', '"']
}

pub open spec fn lit_null() -> Seq<char> {
    seq!['n', 'u', 'l', 'l']
}

pub open spec fn lit_empty_arr() -> Seq<char> {
    seq!['[', ']']
}

pub open spec fn lit_ts_close() -> Seq<char> {
    seq![':', 'X', 'X', '"']
}

pub open spec fn lit_elo_open() -> Seq<char> {
    seq!['{', '"', 'e', 'l', 'o', '"', ':']
}

pub open spec fn lit_rpr_mid() -> Seq<char> {
    seq![',', '"', 'r', 'p', 'r', '"', ':']
}

pub open spec fn lit_rprd_mid() -> Seq<char> {
    seq![',', '"', 'r', 'p', 'r', 'd', '"', ':']
}

pub open spec fn pat_chat_pipe() -> Seq<char> {
    seq!['|', 'c', '|']
}

pub open spec fn pat_chat_ts() -> Seq<char> {
    seq!['|', 'c', ':', '|']
}

pub open spec fn pat_inactive() -> Seq<char> {
    seq!['|', 'i', 'n', 'a', 'c', 't', 'i', 'v', 'e', '|']
}

pub open spec fn pat_rating_mark() -> Seq<char> {
    seq!['\'', 's', ' ', 'r', 'a', 't', 'i', 'n', 'g', ':', ' ']
}

pub open spec fn pat_player_p1() -> Seq<char> {
    seq!['>', 'p', 'l', 'a', 'y', 'e', 'r', ' ', 'p', '1']
}

pub open spec fn pat_player_p2() -> Seq<char> {
    seq!['>', 'p', 'l', 'a', 'y', 'e', 'r', ' ', 'p', '2']
}

pub open spec fn pat_chat_cmd() -> Seq<char> {
    seq!['>', 'c', 'h', 'a', 't', ' ']
}

pub open spec fn marker_p1() -> Seq<char> {
    seq!['|', 'p', '1']
}

pub open spec fn marker_p2() -> Seq<char> {
    seq!['|', 'p', '2']
}

/// The middle of a rebuilt `>player` line: ` {\"name\":\"` in raw form.
pub open spec fn lit_player_mid() -> Seq<char> {
    seq![' ', '{', '\\', '"', 'n', 'a', 'm', 'e', '\\', '"', ':', '\\', '"']
}

/// The end of a rebuilt `>player` line: `\"}` in raw form.
pub open spec fn lit_player_close() -> Seq<char> {
    seq!['\\', '"', '}']
}

/// Whether a log line is dropped outright: chat messages, inactivity
/// notices, and join, leave and name-change notices are privacy-sensitive,
/// not merely identity-leaking, so no substituted form of them survives.
pub open spec fn is_dropped_line(line: Seq<char>) -> bool {
    ||| crate::text::starts_with_seq(line, pat_chat_pipe())
    ||| crate::text::starts_with_seq(line, pat_chat_ts())
    ||| crate::text::starts_with_seq(line, pat_inactive())
    ||| crate::text::starts_with_seq(line, seq!['|', 'j', '|'])
    ||| crate::text::starts_with_seq(line, seq!['|', 'J', '|'])
    ||| crate::text::starts_with_seq(line, seq!['|', 'l', '|'])
    ||| crate::text::starts_with_seq(line, seq!['|', 'L', '|'])
    ||| crate::text::starts_with_seq(line, seq!['|', 'N', '|'])
    ||| crate::text::starts_with_seq(line, seq!['|', 'n', '|'])
}

/// Whether a log line reports results, raw HTML or the player roster:
/// such lines get plain name substitution (unless they report a rating
/// inline, which drops them).
pub open spec fn is_plain_subst_line(line: Seq<char>) -> bool {
    ||| crate::text::starts_with_seq(line, seq!['|', 'w', 'i', 'n', '|'])
    ||| crate::text::starts_with_seq(line, seq!['|', 't', 'i', 'e', '|'])
    ||| crate::text::starts_with_seq(line, seq!['|', '-', 'm', 'e', 's', 's', 'a', 'g', 'e', '|'])
    ||| crate::text::starts_with_seq(line, seq!['|', 'r', 'a', 'w', '|'])
    ||| crate::text::starts_with_seq(line, seq!['|', 'p', 'l', 'a', 'y', 'e', 'r', '|'])
}

/// The six plain substitutions applied to one log line, in order: display
/// names first, then canonical IDs, then escaped forms.
pub open spec fn chain6(sub: Seq<char>, c0: int, c1: int, ctx: RepCtx) -> Seq<crate::pieces::GPiece> {
    let r0 = seq![crate::pieces::GPiece::Doc { from: c0, to: c1 }];
    let r1 = crate::rewrite::g_replace_if(sub, r0, ctx.p1, dec_str(ctx.a1 as nat));
    let r2 = crate::rewrite::g_replace_if(sub, r1, ctx.p2, dec_str(ctx.a2 as nat));
    let r3 = crate::rewrite::g_replace_if(sub, r2, ctx.p1id, dec_str(ctx.a1 as nat));
    let r4 = crate::rewrite::g_replace_if(sub, r3, ctx.p2id, dec_str(ctx.a2 as nat));
    let r5 = crate::rewrite::g_replace_if(sub, r4, ctx.p1esc, dec_str(ctx.a1 as nat));
    crate::rewrite::g_replace_if(sub, r5, ctx.p2esc, dec_str(ctx.a2 as nat))
}

/// The two slot substitutions applied to one log line: the `|p1` slots,
/// then the `|p2` slots.
pub open spec fn slot2(sub: Seq<char>, c0: int, c1: int, ctx: RepCtx) -> Seq<crate::pieces::GPiece> {
    let r0 = seq![crate::pieces::GPiece::Doc { from: c0, to: c1 }];
    let r1 = crate::rewrite::g_slot_replace_pieces(
        sub,
        r0,
        marker_p1(),
        ctx.p1,
        ctx.p1id,
        ctx.p1esc,
        dec_str(ctx.a1 as nat),
    );
    crate::rewrite::g_slot_replace_pieces(
        sub,
        r1,
        marker_p2(),
        ctx.p2,
        ctx.p2id,
        ctx.p2esc,
        dec_str(ctx.a2 as nat),
    )
}

/// A comma when an element has already been written.
pub open spec fn comma_if(b: bool) -> Seq<char> {
    if b {
        seq![',']
    } else {
        Seq::empty()
    }
}

/// The rebuilt text of a `>player` line, as raw string content including
/// the surrounding quotes: the original name is replaced by pseudonym `n`.
pub open spec fn player_rebuild(prefix: Seq<char>, n: u64) -> Seq<char> {
    lit_quote() + prefix + lit_player_mid() + dec_str(n as nat) + lit_player_close() + lit_quote()
}

/// The rewritten elements of the input log, from element `k` on. Entries
/// that set up a player are rebuilt around the pseudonym, chat commands are
/// dropped, and everything else is kept verbatim.
pub open spec fn spec_inputlog_elems(
    sub: Seq<char>,
    es: Seq<(int, int)>,
    k: int,
    comma: bool,
    ctx: RepCtx,
) -> Seq<char>
    decreases es.len() - k,
    when 0 <= k <= es.len()
{
    if k == es.len() {
        Seq::empty()
    } else {
        let e = es[k];
        if !(0 <= e.0 && e.0 + 2 <= e.1 <= sub.len() && sub[e.0] == '"') {
            comma_if(comma) + sub.subrange(e.0, e.1) + spec_inputlog_elems(sub, es, k + 1, true, ctx)
        } else {
            let line = sub.subrange(e.0 + 1, e.1 - 1);
            if crate::text::starts_with_seq(line, pat_player_p1()) {
                comma_if(comma) + player_rebuild(pat_player_p1(), ctx.a1) + spec_inputlog_elems(
                    sub,
                    es,
                    k + 1,
                    true,
                    ctx,
                )
            } else if crate::text::starts_with_seq(line, pat_player_p2()) {
                comma_if(comma) + player_rebuild(pat_player_p2(), ctx.a2) + spec_inputlog_elems(
                    sub,
                    es,
                    k + 1,
                    true,
                    ctx,
                )
            } else if crate::text::starts_with_seq(line, pat_chat_cmd()) {
                spec_inputlog_elems(sub, es, k + 1, comma, ctx)
            } else {
                comma_if(comma) + sub.subrange(e.0, e.1) + spec_inputlog_elems(sub, es, k + 1, true, ctx)
            }
        }
    }
}

/// The rewritten text of the input log's value.
pub open spec fn spec_inputlog_text(sub: Seq<char>, ctx: RepCtx) -> Seq<char> {
    match crate::jsontext::spec_parse_arr(sub) {
        None => lit_empty_arr(),
        Some(es) => seq!['['] + spec_inputlog_elems(sub, es, 0, false, ctx) + seq![']'],
    }
}

/// Whether an element range holds a string value.
pub open spec fn elem_is_string(sub: Seq<char>, e: (int, int)) -> bool {
    0 <= e.0 && e.0 + 2 <= e.1 <= sub.len() && sub[e.0] == '"'
}

/// Whether the input log is acceptable: absent, not an array, or an array
/// whose elements are all strings.
pub open spec fn spec_inputlog_ok(sub: Seq<char>) -> bool {
    match crate::jsontext::spec_parse_arr(sub) {
        None => true,
        Some(es) => forall|k: int| 0 <= k < es.len() ==> elem_is_string(sub, #[trigger] es[k]),
    }
}

/// The rewritten elements of the turn log, from element `k` on.
pub open spec fn spec_log_elems(
    sub: Seq<char>,
    es: Seq<(int, int)>,
    k: int,
    comma: bool,
    ctx: RepCtx,
) -> Seq<char>
    decreases es.len() - k,
    when 0 <= k <= es.len()
{
    if k == es.len() {
        Seq::empty()
    } else {
        let e = es[k];
        if !(0 <= e.0 && e.0 + 2 <= e.1 <= sub.len() && sub[e.0] == '"') {
            comma_if(comma) + sub.subrange(e.0, e.1) + spec_log_elems(sub, es, k + 1, true, ctx)
        } else {
            let c0 = e.0 + 1;
            let c1 = e.1 - 1;
            let line = sub.subrange(c0, c1);
            if is_dropped_line(line) {
                spec_log_elems(sub, es, k + 1, comma, ctx)
            } else if is_plain_subst_line(line) {
                if crate::text::contains_seq(line, pat_rating_mark()) {
                    spec_log_elems(sub, es, k + 1, comma, ctx)
                } else {
                    comma_if(comma) + lit_quote() + crate::pieces::gpieces_view(
                        sub,
                        chain6(sub, c0, c1, ctx),
                    ) + lit_quote() + spec_log_elems(sub, es, k + 1, true, ctx)
                }
            } else {
                comma_if(comma) + lit_quote() + crate::pieces::gpieces_view(
                    sub,
                    slot2(sub, c0, c1, ctx),
                ) + lit_quote() + spec_log_elems(sub, es, k + 1, true, ctx)
            }
        }
    }
}

/// The rewritten text of the turn log's value.
pub open spec fn spec_log_text(sub: Seq<char>, ctx: RepCtx) -> Seq<char> {
    match crate::jsontext::spec_parse_arr(sub) {
        None => lit_empty_arr(),
        Some(es) => seq!['['] + spec_log_elems(sub, es, 0, false, ctx) + seq![']'],
    }
}

/// A rounded rating as JSON text: a number, or `null` when the original
/// value was not decimal text.
pub open spec fn num_or_null(o: Option<int>) -> Seq<char> {
    match o {
        None => lit_null(),
        Some(v) => crate::pieces::int_str(v),
    }
}

/// The rounded value of one rating subfield of the rating object `sub`.
pub open spec fn spec_rating_field_val(sub: Seq<char>, key: Seq<char>, m: int) -> Option<int> {
    match crate::jsontext::spec_parse_doc(sub) {
        None => None,
        Some(sfs) => {
            let i = crate::jsontext::spec_find_key(sub, sfs, key, 0);
            if i == sfs.len() {
                None
            } else {
                let f = sfs[i];
                let t = if 0 <= f.vs < sub.len() && sub[f.vs] == '"' {
                    sub.subrange(f.vs + 1, f.ve - 1)
                } else {
                    sub.subrange(f.vs, f.ve)
                };
                crate::num::spec_rating_round(t, m)
            }
        },
    }
}

/// The replacement text of a rating object: only the rounded `elo`, `rpr`
/// and `rprd` magnitudes survive.
pub open spec fn spec_rating_text(sub: Seq<char>) -> Seq<char> {
    lit_elo_open() + num_or_null(spec_rating_field_val(sub, key_elo(), 50)) + lit_rpr_mid()
        + num_or_null(spec_rating_field_val(sub, key_rpr(), 50)) + lit_rprd_mid() + num_or_null(
        spec_rating_field_val(sub, key_rprd(), 10),
    ) + seq!['}']
}

/// The replacement text of the timestamp: its text up to the first colon,
/// then a masked remainder.
pub open spec fn spec_ts_text(doc: Seq<char>, f: crate::jsontext::SpecField) -> Seq<char> {
    if f.vs + 2 <= f.ve {
        let content = doc.subrange(f.vs + 1, f.ve - 1);
        let cut = crate::text::spec_find_char(content, 0, ':');
        lit_quote() + content.take(cut) + lit_ts_close()
    } else {
        lit_quote() + lit_ts_close()
    }
}

/// The replacement text for one field's value; fields that are not rewritten
/// keep their raw text.
pub open spec fn spec_field_rep(doc: Seq<char>, f: crate::jsontext::SpecField, ctx: RepCtx) -> Seq<
    char,
> {
    let key = doc.subrange(f.ks, f.ke);
    if key == key_p1() {
        lit_quote() + dec_str(ctx.a1 as nat) + lit_quote()
    } else if key == key_p2() {
        lit_quote() + dec_str(ctx.a2 as nat) + lit_quote()
    } else if key == key_winner() {
        if ctx.tie {
            lit_quote2()
        } else {
            lit_quote() + dec_str(ctx.wa as nat) + lit_quote()
        }
    } else if key == key_timestamp() {
        spec_ts_text(doc, f)
    } else if key == key_roomid() {
        lit_null()
    } else if key == key_p1rating() || key == key_p2rating() {
        spec_rating_text(doc.subrange(f.vs, f.ve))
    } else if key == key_inputlog() {
        if ctx.no_log {
            lit_empty_arr()
        } else {
            spec_inputlog_text(doc.subrange(f.vs, f.ve), ctx)
        }
    } else if key == key_log() {
        if ctx.no_log {
            lit_empty_arr()
        } else {
            spec_log_text(doc.subrange(f.vs, f.ve), ctx)
        }
    } else {
        doc.subrange(f.vs, f.ve)
    }
}

/// The full rewritten document: the text between values is kept, and each
/// field's value is replaced as `spec_field_rep` says.
pub open spec fn spec_out_text(
    doc: Seq<char>,
    gfs: Seq<crate::jsontext::SpecField>,
    ctx: RepCtx,
    k: int,
    pos: int,
) -> Seq<char>
    decreases gfs.len() - k,
    when 0 <= k <= gfs.len()
{
    if k == gfs.len() {
        doc.subrange(pos, doc.len() as int)
    } else {
        doc.subrange(pos, gfs[k].vs) + spec_field_rep(doc, gfs[k], ctx) + spec_out_text(
            doc,
            gfs,
            ctx,
            k + 1,
            gfs[k].ve,
        )
    }
}

/// The field holding `key` as a string value, when the document parses and
/// has one.
pub open spec fn spec_req_field(doc: Seq<char>, key: Seq<char>) -> Option<
    crate::jsontext::SpecField,
> {
    match crate::jsontext::spec_parse_doc(doc) {
        None => None,
        Some(fs) => {
            let i = crate::jsontext::spec_find_key(doc, fs, key, 0);
            if i == fs.len() {
                None
            } else if 0 <= fs[i].vs < doc.len() && doc[fs[i].vs] == '"' {
                Some(fs[i])
            } else {
                None
            }
        },
    }
}

/// Whether the four required fields are present as strings.
pub open spec fn spec_required_ok(doc: Seq<char>) -> bool {
    &&& spec_req_field(doc, key_p1()) is Some
    &&& spec_req_field(doc, key_p2()) is Some
    &&& spec_req_field(doc, key_winner()) is Some
    &&& spec_req_field(doc, key_timestamp()) is Some
}

/// The string content of the required field `key`.
pub open spec fn spec_req_content(doc: Seq<char>, key: Seq<char>) -> Seq<char> {
    let f = spec_req_field(doc, key)->0;
    doc.subrange(f.vs + 1, f.ve - 1)
}

/// Whether the log records a tie: the winner field holds the empty string.
pub open spec fn spec_is_tie(doc: Seq<char>) -> bool {
    spec_req_content(doc, key_winner()).len() == 0
}

/// The tracker's identities after anonymizing `doc`: the two sides are
/// assigned in order, then the winner unless the battle was a tie.
pub open spec fn spec_keys_after(ks: Seq<Seq<char>>, doc: Seq<char>) -> Seq<Seq<char>> {
    let k1 = spec_assign_keys(ks, spec_req_content(doc, key_p1()));
    let k2 = spec_assign_keys(k1, spec_req_content(doc, key_p2()));
    if spec_is_tie(doc) {
        k2
    } else {
        spec_assign_keys(k2, spec_req_content(doc, key_winner()))
    }
}

/// The substitution values for `doc` against tracker identities `ks`.
pub open spec fn spec_ctx(doc: Seq<char>, ks: Seq<Seq<char>>, no_log: bool) -> RepCtx {
    let p1 = spec_req_content(doc, key_p1());
    let p2 = spec_req_content(doc, key_p2());
    let w = spec_req_content(doc, key_winner());
    let k1 = spec_assign_keys(ks, p1);
    let k2 = spec_assign_keys(k1, p2);
    RepCtx {
        a1: spec_pseudonym(ks, p1) as u64,
        a2: spec_pseudonym(k1, p2) as u64,
        tie: spec_is_tie(doc),
        wa: if spec_is_tie(doc) {
            0
        } else {
            spec_pseudonym(k2, w) as u64
        },
        no_log: no_log,
        p1: p1,
        p2: p2,
        p1id: crate::id::id_of(p1),
        p2id: crate::id::id_of(p2),
        p1esc: crate::id::escaped_of(p1),
        p2esc: crate::id::escaped_of(p2),
    }
}

/// The text of an optional string-or-other field, used for the returned
/// format name and for the room identifier in error reports: the string's
/// content, the raw value text, or `null` when the field is absent.
pub open spec fn spec_opt_field_text(doc: Seq<char>, key: Seq<char>) -> Seq<char> {
    match crate::jsontext::spec_parse_doc(doc) {
        None => lit_null(),
        Some(fs) => {
            let i = crate::jsontext::spec_find_key(doc, fs, key, 0);
            if i == fs.len() {
                lit_null()
            } else if 0 <= fs[i].vs < doc.len() && doc[fs[i].vs] == '"' {
                doc.subrange(fs[i].vs + 1, fs[i].ve - 1)
            } else {
                doc.subrange(fs[i].vs, fs[i].ve)
            }
        },
    }
}

/// The fixed key names, line prefixes and slot markers, held as character
/// vectors so that scanning code can match on them.
struct Pats {
    k_p1: Vec<char>,
    k_p2: Vec<char>,
    k_winner: Vec<char>,
    k_timestamp: Vec<char>,
    k_roomid: Vec<char>,
    k_format: Vec<char>,
    k_inputlog: Vec<char>,
    k_log: Vec<char>,
    k_p1rating: Vec<char>,
    k_p2rating: Vec<char>,
    k_elo: Vec<char>,
    k_rpr: Vec<char>,
    k_rprd: Vec<char>,
    p_chat_pipe: Vec<char>,
    p_chat_ts: Vec<char>,
    p_inactive: Vec<char>,
    p_rating_mark: Vec<char>,
    p_player1: Vec<char>,
    p_player2: Vec<char>,
    p_chat_cmd: Vec<char>,
    m_p1: Vec<char>,
    m_p2: Vec<char>,
    p_j: Vec<char>,
    p_jc: Vec<char>,
    p_l: Vec<char>,
    p_lc: Vec<char>,
    p_nc: Vec<char>,
    p_n: Vec<char>,
    p_win: Vec<char>,
    p_tie: Vec<char>,
    p_msg: Vec<char>,
    p_raw: Vec<char>,
    p_player: Vec<char>,
}

impl Pats {
    spec fn wf(&self) -> bool {
        &&& self.k_p1@ == key_p1()
        &&& self.k_p2@ == key_p2()
        &&& self.k_winner@ == key_winner()
        &&& self.k_timestamp@ == key_timestamp()
        &&& self.k_roomid@ == key_roomid()
        &&& self.k_format@ == key_format()
        &&& self.k_inputlog@ == key_inputlog()
        &&& self.k_log@ == key_log()
        &&& self.k_p1rating@ == key_p1rating()
        &&& self.k_p2rating@ == key_p2rating()
        &&& self.k_elo@ == key_elo()
        &&& self.k_rpr@ == key_rpr()
        &&& self.k_rprd@ == key_rprd()
        &&& self.p_chat_pipe@ == pat_chat_pipe()
        &&& self.p_chat_ts@ == pat_chat_ts()
        &&& self.p_inactive@ == pat_inactive()
        &&& self.p_rating_mark@ == pat_rating_mark()
        &&& self.p_player1@ == pat_player_p1()
        &&& self.p_player2@ == pat_player_p2()
        &&& self.p_chat_cmd@ == pat_chat_cmd()
        &&& self.m_p1@ == marker_p1()
        &&& self.m_p2@ == marker_p2()
        &&& self.p_j@ == seq!['|', 'j', '|']
        &&& self.p_jc@ == seq!['|', 'J', '|']
        &&& self.p_l@ == seq!['|', 'l', '|']
        &&& self.p_lc@ == seq!['|', 'L', '|']
        &&& self.p_nc@ == seq!['|', 'N', '|']
        &&& self.p_n@ == seq!['|', 'n', '|']
        &&& self.p_win@ == seq!['|', 'w', 'i', 'n', '|']
        &&& self.p_tie@ == seq!['|', 't', 'i', 'e', '|']
        &&& self.p_msg@ == seq!['|', '-', 'm', 'e', 's', 's', 'a', 'g', 'e', '|']
        &&& self.p_raw@ == seq!['|', 'r', 'a', 'w', '|']
        &&& self.p_player@ == seq!['|', 'p', 'l', 'a', 'y', 'e', 'r', '|']
    }
}

fn make_pats() -> (r: Pats)
    ensures
        r.wf(),
{
    let r = Pats {
        k_p1: crate::text::str_to_chars("p1"),
        k_p2: crate::text::str_to_chars("p2"),
        k_winner: crate::text::str_to_chars("winner"),
        k_timestamp: crate::text::str_to_chars("timestamp"),
        k_roomid: crate::text::str_to_chars("roomid"),
        k_format: crate::text::str_to_chars("format"),
        k_inputlog: crate::text::str_to_chars("inputLog"),
        k_log: crate::text::str_to_chars("log"),
        k_p1rating: crate::text::str_to_chars("p1rating"),
        k_p2rating: crate::text::str_to_chars("p2rating"),
        k_elo: crate::text::str_to_chars("elo"),
        k_rpr: crate::text::str_to_chars("rpr"),
        k_rprd: crate::text::str_to_chars("rprd"),
        p_chat_pipe: crate::text::str_to_chars("|c|"),
        p_chat_ts: crate::text::str_to_chars("|c:|"),
        p_inactive: crate::text::str_to_chars("|inactive|"),
        p_rating_mark: crate::text::str_to_chars("'s rating: "),
        p_player1: crate::text::str_to_chars(">player p1"),
        p_player2: crate::text::str_to_chars(">player p2"),
        p_chat_cmd: crate::text::str_to_chars(">chat "),
        m_p1: crate::text::str_to_chars("|p1"),
        m_p2: crate::text::str_to_chars("|p2"),
        p_j: crate::text::str_to_chars("|j|"),
        p_jc: crate::text::str_to_chars("|J|"),
        p_l: crate::text::str_to_chars("|l|"),
        p_lc: crate::text::str_to_chars("|L|"),
        p_nc: crate::text::str_to_chars("|N|"),
        p_n: crate::text::str_to_chars("|n|"),
        p_win: crate::text::str_to_chars("|win|"),
        p_tie: crate::text::str_to_chars("|tie|"),
        p_msg: crate::text::str_to_chars("|-message|"),
        p_raw: crate::text::str_to_chars("|raw|"),
        p_player: crate::text::str_to_chars("|player|"),
    };
    proof {
        reveal_strlit("p1");
        reveal_strlit("p2");
        reveal_strlit("winner");
        reveal_strlit("timestamp");
        reveal_strlit("roomid");
        reveal_strlit("format");
        reveal_strlit("inputLog");
        reveal_strlit("log");
        reveal_strlit("p1rating");
        reveal_strlit("p2rating");
        reveal_strlit("elo");
        reveal_strlit("rpr");
        reveal_strlit("rprd");
        reveal_strlit("|c|");
        reveal_strlit("|c:|");
        reveal_strlit("|inactive|");
        reveal_strlit("'s rating: ");
        reveal_strlit(">player p1");
        reveal_strlit(">player p2");
        reveal_strlit(">chat ");
        reveal_strlit("|p1");
        reveal_strlit("|p2");
        reveal_strlit("|j|");
        reveal_strlit("|J|");
        reveal_strlit("|l|");
        reveal_strlit("|L|");
        reveal_strlit("|N|");
        reveal_strlit("|n|");
        reveal_strlit("|win|");
        reveal_strlit("|tie|");
        reveal_strlit("|-message|");
        reveal_strlit("|raw|");
        reveal_strlit("|player|");
        assert(r.k_p1@ =~= key_p1());
        assert(r.k_p2@ =~= key_p2());
        assert(r.k_winner@ =~= key_winner());
        assert(r.k_timestamp@ =~= key_timestamp());
        assert(r.k_roomid@ =~= key_roomid());
        assert(r.k_format@ =~= key_format());
        assert(r.k_inputlog@ =~= key_inputlog());
        assert(r.k_log@ =~= key_log());
        assert(r.k_p1rating@ =~= key_p1rating());
        assert(r.k_p2rating@ =~= key_p2rating());
        assert(r.k_elo@ =~= key_elo());
        assert(r.k_rpr@ =~= key_rpr());
        assert(r.k_rprd@ =~= key_rprd());
        assert(r.p_chat_pipe@ =~= pat_chat_pipe());
        assert(r.p_chat_ts@ =~= pat_chat_ts());
        assert(r.p_inactive@ =~= pat_inactive());
        assert(r.p_rating_mark@ =~= pat_rating_mark());
        assert(r.p_player1@ =~= pat_player_p1());
        assert(r.p_player2@ =~= pat_player_p2());
        assert(r.p_chat_cmd@ =~= pat_chat_cmd());
        assert(r.m_p1@ =~= marker_p1());
        assert(r.m_p2@ =~= marker_p2());
        assert(r.p_j@ =~= seq!['|', 'j', '|']);
        assert(r.p_jc@ =~= seq!['|', 'J', '|']);
        assert(r.p_l@ =~= seq!['|', 'l', '|']);
        assert(r.p_lc@ =~= seq!['|', 'L', '|']);
        assert(r.p_nc@ =~= seq!['|', 'N', '|']);
        assert(r.p_n@ =~= seq!['|', 'n', '|']);
        assert(r.p_win@ =~= seq!['|', 'w', 'i', 'n', '|']);
        assert(r.p_tie@ =~= seq!['|', 't', 'i', 'e', '|']);
        assert(r.p_msg@ =~= seq!['|', '-', 'm', 'e', 's', 's', 'a', 'g', 'e', '|']);
        assert(r.p_raw@ =~= seq!['|', 'r', 'a', 'w', '|']);
        assert(r.p_player@ =~= seq!['|', 'p', 'l', 'a', 'y', 'e', 'r', '|']);
    }
    r
}

/// Builds the rebuilt `>player` line with pseudonym `n`, quotes included.
fn build_player_line(is_p1: bool, n: u64) -> (s: String)
    ensures
        s@ == player_rebuild(
            if is_p1 {
                pat_player_p1()
            } else {
                pat_player_p2()
            },
            n,
        ),
{
    let mut s = String::new();
    s.append("\"");
    if is_p1 {
        s.append(">player p1");
    } else {
        s.append(">player p2");
    }
    s.append(" {\\\"name\\\":\\\"");
    proof {
        reveal_strlit("\"");
        reveal_strlit(">player p1");
        reveal_strlit(">player p2");
        reveal_strlit(" {\\\"name\\\":\\\"");
        assert("\""@ =~= lit_quote());
        assert(">player p1"@ =~= pat_player_p1());
        assert(">player p2"@ =~= pat_player_p2());
        assert(" {\\\"name\\\":\\\""@ =~= lit_player_mid());
    }
    crate::text::append_u64(&mut s, n);
    s.append("\\\"}");
    s.append("\"");
    proof {
        reveal_strlit("\\\"}");
        assert("\\\"}"@ =~= lit_player_close());
    }
    proof {
        assert(s@ =~= player_rebuild(
            if is_p1 {
                pat_player_p1()
            } else {
                pat_player_p2()
            },
            n,
        ));
    }
    s
}

/// The rounded value of one rating subfield (see `spec_rating_field_val`).
fn rating_field(
    sub: &Vec<char>,
    parsed: &Option<Vec<crate::jsontext::JsonField>>,
    key: &Vec<char>,
    m: u64,
) -> (r: Option<i64>)
    requires
        2 <= m <= 100,
        match parsed {
            Some(fs) => crate::jsontext::spec_parse_doc(sub@) == Some(
                fs@.map_values(|f: crate::jsontext::JsonField| f@),
            ),
            None => crate::jsontext::spec_parse_doc(sub@) is None,
        },
    ensures
        match r {
            Some(v) => spec_rating_field_val(sub@, key@, m as int) == Some(v as int),
            None => spec_rating_field_val(sub@, key@, m as int) is None,
        },
{
    match parsed {
        None => None,
        Some(fs) => {
            proof {
                crate::jsontext::lemma_parse_doc_wf(sub@);
            }
            let i = crate::jsontext::find_key(sub, fs, key);
            if i == fs.len() {
                return None;
            }
            let f = fs[i];
            proof {
                let gfs = fs@.map_values(|q: crate::jsontext::JsonField| q@);
                assert(gfs[i as int] == f@);
                assert(0 <= gfs[i as int].ks);
                assert(f@.vs < f@.ve <= sub@.len());
            }
            let tvec = if sub[f.vs] == '"' {
                crate::text::copy_range(sub, f.vs + 1, f.ve - 1)
            } else {
                crate::text::copy_range(sub, f.vs, f.ve)
            };
            crate::num::rating_round(&tvec, m)
        },
    }
}

/// Appends the pieces of the rewritten rating object for the value range
/// `[vs, ve)`.
#[verifier::rlimit(100)]
fn build_rating(chars: &Vec<char>, vs: usize, ve: usize, pats: &Pats, out: &mut Vec<crate::pieces::Piece>)
    requires
        pats.wf(),
        vs <= ve <= chars@.len(),
        crate::pieces::gpieces_wf(chars@, old(out)@.map_values(|q: crate::pieces::Piece| q@)),
    ensures
        crate::pieces::gpieces_wf(chars@, final(out)@.map_values(|q: crate::pieces::Piece| q@)),
        crate::pieces::gpieces_view(chars@, final(out)@.map_values(|q: crate::pieces::Piece| q@))
            == crate::pieces::gpieces_view(
            chars@,
            old(out)@.map_values(|q: crate::pieces::Piece| q@),
        ) + spec_rating_text(chars@.subrange(vs as int, ve as int)),
{
    let ghost gsub = chars@.subrange(vs as int, ve as int);
    let sub = crate::text::copy_range(chars, vs, ve);
    let parsed = crate::jsontext::parse_doc(&sub);
    let e = rating_field(&sub, &parsed, &pats.k_elo, 50);
    let rp = rating_field(&sub, &parsed, &pats.k_rpr, 50);
    let rd = rating_field(&sub, &parsed, &pats.k_rprd, 10);
    let l1 = String::from_str("{\"elo\":");
    proof {
        reveal_strlit("{\"elo\":");
        assert(l1@ =~= lit_elo_open());
    }
    let ghost g1 = l1@;
    crate::pieces::push_piece(out, crate::pieces::Piece::Lit(l1), Ghost(chars@));
    push_num_or_null(out, e, Ghost(chars@));
    let l2 = String::from_str(",\"rpr\":");
    proof {
        reveal_strlit(",\"rpr\":");
        assert(l2@ =~= lit_rpr_mid());
    }
    crate::pieces::push_piece(out, crate::pieces::Piece::Lit(l2), Ghost(chars@));
    push_num_or_null(out, rp, Ghost(chars@));
    let l3 = String::from_str(",\"rprd\":");
    proof {
        reveal_strlit(",\"rprd\":");
        assert(l3@ =~= lit_rprd_mid());
    }
    crate::pieces::push_piece(out, crate::pieces::Piece::Lit(l3), Ghost(chars@));
    push_num_or_null(out, rd, Ghost(chars@));
    let l4 = String::from_str("}");
    proof {
        reveal_strlit("}");
        assert(l4@ =~= seq!['}']);
    }
    crate::pieces::push_piece(out, crate::pieces::Piece::Lit(l4), Ghost(chars@));
    proof {
        assert(crate::pieces::gpieces_view(
            chars@,
            out@.map_values(|q: crate::pieces::Piece| q@),
        ) =~= crate::pieces::gpieces_view(
            chars@,
            old(out)@.map_values(|q: crate::pieces::Piece| q@),
        ) + spec_rating_text(gsub));
    }
}

/// Pushes a rounded rating value, or `null`.
fn push_num_or_null(out: &mut Vec<crate::pieces::Piece>, v: Option<i64>, doc: Ghost<Seq<char>>)
    requires
        crate::pieces::gpieces_wf(doc@, old(out)@.map_values(|q: crate::pieces::Piece| q@)),
    ensures
        crate::pieces::gpieces_wf(doc@, final(out)@.map_values(|q: crate::pieces::Piece| q@)),
        crate::pieces::gpieces_view(doc@, final(out)@.map_values(|q: crate::pieces::Piece| q@))
            == crate::pieces::gpieces_view(
            doc@,
            old(out)@.map_values(|q: crate::pieces::Piece| q@),
        ) + num_or_null(
            match v {
                None => None,
                Some(x) => Some(x as int),
            },
        ),
{
    match v {
        Some(x) => {
            crate::pieces::push_piece(out, crate::pieces::Piece::Int(x), doc);
        },
        None => {
            let l = String::from_str("null");
            proof {
                reveal_strlit("null");
                assert(l@ =~= lit_null());
            }
            crate::pieces::push_piece(out, crate::pieces::Piece::Lit(l), doc);
        },
    }
}

/// The text of the optional field `key`: string content, raw value text,
/// or `null` when absent (see `spec_opt_field_text`).
fn opt_field_text(
    raw: &str,
    chars: &Vec<char>,
    fields: &Vec<crate::jsontext::JsonField>,
    key: &Vec<char>,
) -> (r: String)
    requires
        chars@ == raw@,
        crate::jsontext::spec_parse_doc(chars@) == Some(
            fields@.map_values(|f: crate::jsontext::JsonField| f@),
        ),
    ensures
        r@ == spec_opt_field_text(chars@, key@),
{
    proof {
        crate::jsontext::lemma_parse_doc_wf(chars@);
    }
    let i = crate::jsontext::find_key(chars, fields, key);
    if i == fields.len() {
        let s = String::from_str("null");
        proof {
            reveal_strlit("null");
            assert(s@ =~= lit_null());
        }
        s
    } else {
        let f = fields[i];
        proof {
            let gfs = fields@.map_values(|q: crate::jsontext::JsonField| q@);
            assert(gfs[i as int] == f@);
            assert(0 <= gfs[i as int].ks);
            assert(f@.vs < f@.ve <= chars@.len());
        }
        if chars[f.vs] == '"' {
            String::from_str(raw.substring_char(f.vs + 1, f.ve - 1))
        } else {
            String::from_str(raw.substring_char(f.vs, f.ve))
        }
    }
}

/// Pushes a single-character literal text piece.
fn push_comma(out: &mut Vec<crate::pieces::Piece>, doc: Ghost<Seq<char>>)
    requires
        crate::pieces::gpieces_wf(doc@, old(out)@.map_values(|q: crate::pieces::Piece| q@)),
    ensures
        crate::pieces::gpieces_wf(doc@, final(out)@.map_values(|q: crate::pieces::Piece| q@)),
        crate::pieces::gpieces_view(doc@, final(out)@.map_values(|q: crate::pieces::Piece| q@))
            == crate::pieces::gpieces_view(
            doc@,
            old(out)@.map_values(|q: crate::pieces::Piece| q@),
        ) + seq![','],
{
    let s = String::from_str(",");
    proof {
        reveal_strlit(",");
        assert(s@ =~= seq![',']);
    }
    crate::pieces::push_piece(out, crate::pieces::Piece::Lit(s), doc);
}

/// Pushes a quote literal text piece.
fn push_quote(out: &mut Vec<crate::pieces::Piece>, doc: Ghost<Seq<char>>)
    requires
        crate::pieces::gpieces_wf(doc@, old(out)@.map_values(|q: crate::pieces::Piece| q@)),
    ensures
        crate::pieces::gpieces_wf(doc@, final(out)@.map_values(|q: crate::pieces::Piece| q@)),
        crate::pieces::gpieces_view(doc@, final(out)@.map_values(|q: crate::pieces::Piece| q@))
            == crate::pieces::gpieces_view(
            doc@,
            old(out)@.map_values(|q: crate::pieces::Piece| q@),
        ) + lit_quote(),
{
    let s = String::from_str("\"");
    proof {
        reveal_strlit("\"");
        assert(s@ =~= lit_quote());
    }
    crate::pieces::push_piece(out, crate::pieces::Piece::Lit(s), doc);
}

/// Pushes an opening-bracket literal text piece.
fn push_lbracket(out: &mut Vec<crate::pieces::Piece>, doc: Ghost<Seq<char>>)
    requires
        crate::pieces::gpieces_wf(doc@, old(out)@.map_values(|q: crate::pieces::Piece| q@)),
    ensures
        crate::pieces::gpieces_wf(doc@, final(out)@.map_values(|q: crate::pieces::Piece| q@)),
        crate::pieces::gpieces_view(doc@, final(out)@.map_values(|q: crate::pieces::Piece| q@))
            == crate::pieces::gpieces_view(
            doc@,
            old(out)@.map_values(|q: crate::pieces::Piece| q@),
        ) + seq!['['],
{
    let s = String::from_str("[");
    proof {
        reveal_strlit("[");
        assert(s@ =~= seq!['[']);
    }
    crate::pieces::push_piece(out, crate::pieces::Piece::Lit(s), doc);
}

/// Pushes a closing-bracket literal text piece.
fn push_rbracket(out: &mut Vec<crate::pieces::Piece>, doc: Ghost<Seq<char>>)
    requires
        crate::pieces::gpieces_wf(doc@, old(out)@.map_values(|q: crate::pieces::Piece| q@)),
    ensures
        crate::pieces::gpieces_wf(doc@, final(out)@.map_values(|q: crate::pieces::Piece| q@)),
        crate::pieces::gpieces_view(doc@, final(out)@.map_values(|q: crate::pieces::Piece| q@))
            == crate::pieces::gpieces_view(
            doc@,
            old(out)@.map_values(|q: crate::pieces::Piece| q@),
        ) + seq![']'],
{
    let s = String::from_str("]");
    proof {
        reveal_strlit("]");
        assert(s@ =~= seq![']']);
    }
    crate::pieces::push_piece(out, crate::pieces::Piece::Lit(s), doc);
}

/// Appends the pieces of the rewritten input-log array value `[vs, ve)`.
#[verifier::rlimit(100)]
fn build_inputlog(
    chars: &Vec<char>,
    vs: usize,
    ve: usize,
    a1: u64,
    a2: u64,
    ctx: Ghost<RepCtx>,
    pats: &Pats,
    out: &mut Vec<crate::pieces::Piece>,
)
    requires
        pats.wf(),
        vs <= ve <= chars@.len(),
        ctx@.a1 == a1,
        ctx@.a2 == a2,
        crate::pieces::gpieces_wf(chars@, old(out)@.map_values(|q: crate::pieces::Piece| q@)),
    ensures
        crate::pieces::gpieces_wf(chars@, final(out)@.map_values(|q: crate::pieces::Piece| q@)),
        crate::pieces::gpieces_view(chars@, final(out)@.map_values(|q: crate::pieces::Piece| q@))
            == crate::pieces::gpieces_view(
            chars@,
            old(out)@.map_values(|q: crate::pieces::Piece| q@),
        ) + spec_inputlog_text(chars@.subrange(vs as int, ve as int), ctx@),
{
    let ghost gsub = chars@.subrange(vs as int, ve as int);
    let sub = crate::text::copy_range(chars, vs, ve);
    let es = match crate::jsontext::parse_arr(&sub) {
        None => {
            let l = String::from_str("[]");
            proof {
                reveal_strlit("[]");
                assert(l@ =~= lit_empty_arr());
            }
            crate::pieces::push_piece(out, crate::pieces::Piece::Lit(l), Ghost(chars@));
            return ;
        },
        Some(es) => es,
    };
    let ghost ges = es@.map_values(|e: (usize, usize)| (e.0 as int, e.1 as int));
    proof {
        crate::jsontext::lemma_parse_arr_wf(sub@);
    }
    let mut ep: Vec<crate::pieces::Piece> = Vec::new();
    let mut comma = false;
    let mut k: usize = 0;
    proof {
        assert(ep@.map_values(|q: crate::pieces::Piece| q@) =~= Seq::<crate::pieces::GPiece>::empty());
        assert(Seq::<char>::empty() + spec_inputlog_elems(gsub, ges, 0, false, ctx@)
            =~= spec_inputlog_elems(gsub, ges, 0, false, ctx@));
    }
    while k < es.len()
        invariant
            k <= es@.len(),
            ges == es@.map_values(|e: (usize, usize)| (e.0 as int, e.1 as int)),
            crate::jsontext::elems_wf(gsub, ges),
            gsub == sub@,
            ctx@.a1 == a1,
            ctx@.a2 == a2,
            pats.wf(),
            crate::pieces::gpieces_wf(gsub, ep@.map_values(|q: crate::pieces::Piece| q@)),
            spec_inputlog_elems(gsub, ges, 0, false, ctx@) == crate::pieces::gpieces_view(
                gsub,
                ep@.map_values(|q: crate::pieces::Piece| q@),
            ) + spec_inputlog_elems(gsub, ges, k as int, comma, ctx@),
        decreases es@.len() - k,
    {
        let e0 = es[k].0;
        let e1 = es[k].1;
        proof {
            assert(ges[k as int] == (e0 as int, e1 as int));
            assert(0 <= ges[k as int].0);
        }
        if sub[e0] == '"' {
            let lvec = crate::text::copy_range(&sub, e0 + 1, e1 - 1);
            proof {
                assert(lvec@.subrange(0, lvec@.len() as int) =~= lvec@);
            }
            if crate::text::check_match_at(&lvec, 0, &pats.p_player1) {
                if comma {
                    push_comma(&mut ep, Ghost(gsub));
                }
                let line = build_player_line(true, a1);
                crate::pieces::push_piece(&mut ep, crate::pieces::Piece::Lit(line), Ghost(gsub));
                comma = true;
            } else if crate::text::check_match_at(&lvec, 0, &pats.p_player2) {
                if comma {
                    push_comma(&mut ep, Ghost(gsub));
                }
                let line = build_player_line(false, a2);
                crate::pieces::push_piece(&mut ep, crate::pieces::Piece::Lit(line), Ghost(gsub));
                comma = true;
            } else if crate::text::check_match_at(&lvec, 0, &pats.p_chat_cmd) {
            } else {
                if comma {
                    push_comma(&mut ep, Ghost(gsub));
                }
                crate::pieces::push_piece(
                    &mut ep,
                    crate::pieces::Piece::Doc { from: e0, to: e1 },
                    Ghost(gsub),
                );
                comma = true;
            }
        } else {
            if comma {
                push_comma(&mut ep, Ghost(gsub));
            }
            crate::pieces::push_piece(
                &mut ep,
                crate::pieces::Piece::Doc { from: e0, to: e1 },
                Ghost(gsub),
            );
            comma = true;
        }
        k = k + 1;
    }
    push_lbracket(out, Ghost(chars@));
    let n_chars = chars.len();
    proof {
        assert(chars@.len() <= usize::MAX);
        assert(gsub =~= chars@.subrange(vs as int, vs + gsub.len()));
    }
    let shifted = crate::pieces::shift_pieces(ep, vs, Ghost(gsub), Ghost(chars@));
    crate::pieces::append_all(out, shifted, Ghost(chars@));
    push_rbracket(out, Ghost(chars@));
    proof {
        assert(crate::pieces::gpieces_view(
            chars@,
            out@.map_values(|q: crate::pieces::Piece| q@),
        ) =~= crate::pieces::gpieces_view(
            chars@,
            old(out)@.map_values(|q: crate::pieces::Piece| q@),
        ) + spec_inputlog_text(gsub, ctx@));
    }
}

/// Appends the pieces of the rewritten turn-log array value `[vs, ve)`.

/// The pieces of one plainly substituted log line.
fn chain6_pieces(
    sub: &Vec<char>,
    c0: usize,
    c1: usize,
    a1: u64,
    a2: u64,
    p1c: &Vec<char>,
    p2c: &Vec<char>,
    p1id: &Vec<char>,
    p2id: &Vec<char>,
    p1esc: &Vec<char>,
    p2esc: &Vec<char>,
    ctx: Ghost<RepCtx>,
) -> (r: Vec<crate::pieces::Piece>)
    requires
        c0 <= c1 <= sub@.len(),
        ctx@.a1 == a1,
        ctx@.a2 == a2,
        ctx@.p1 == p1c@,
        ctx@.p2 == p2c@,
        ctx@.p1id == p1id@,
        ctx@.p2id == p2id@,
        ctx@.p1esc == p1esc@,
        ctx@.p2esc == p2esc@,
    ensures
        crate::pieces::gpieces_wf(sub@, r@.map_values(|q: crate::pieces::Piece| q@)),
        r@.map_values(|q: crate::pieces::Piece| q@) == chain6(sub@, c0 as int, c1 as int, ctx@),
{
    let mut lps: Vec<crate::pieces::Piece> = Vec::new();
    proof {
        assert(lps@.map_values(|q: crate::pieces::Piece| q@) =~= Seq::<
            crate::pieces::GPiece,
        >::empty());
    }
    crate::pieces::push_piece(
        &mut lps,
        crate::pieces::Piece::Doc { from: c0, to: c1 },
        Ghost(sub@),
    );
    proof {
        assert(lps@.map_values(|q: crate::pieces::Piece| q@) =~= seq![
            crate::pieces::GPiece::Doc { from: c0 as int, to: c1 as int },
        ]);
    }
    let lps = crate::rewrite::replace_pieces(sub, lps, p1c, a1);
    let lps = crate::rewrite::replace_pieces(sub, lps, p2c, a2);
    let lps = crate::rewrite::replace_pieces(sub, lps, p1id, a1);
    let lps = crate::rewrite::replace_pieces(sub, lps, p2id, a2);
    let lps = crate::rewrite::replace_pieces(sub, lps, p1esc, a1);
    let lps = crate::rewrite::replace_pieces(sub, lps, p2esc, a2);
    lps
}

/// The pieces of one slot-substituted log line.
fn slot2_pieces(
    sub: &Vec<char>,
    c0: usize,
    c1: usize,
    a1: u64,
    a2: u64,
    p1c: &Vec<char>,
    p2c: &Vec<char>,
    p1id: &Vec<char>,
    p2id: &Vec<char>,
    p1esc: &Vec<char>,
    p2esc: &Vec<char>,
    pats: &Pats,
    ctx: Ghost<RepCtx>,
) -> (r: Vec<crate::pieces::Piece>)
    requires
        pats.wf(),
        c0 <= c1 <= sub@.len(),
        ctx@.a1 == a1,
        ctx@.a2 == a2,
        ctx@.p1 == p1c@,
        ctx@.p2 == p2c@,
        ctx@.p1id == p1id@,
        ctx@.p2id == p2id@,
        ctx@.p1esc == p1esc@,
        ctx@.p2esc == p2esc@,
    ensures
        crate::pieces::gpieces_wf(sub@, r@.map_values(|q: crate::pieces::Piece| q@)),
        r@.map_values(|q: crate::pieces::Piece| q@) == slot2(sub@, c0 as int, c1 as int, ctx@),
{
    let mut lps: Vec<crate::pieces::Piece> = Vec::new();
    proof {
        assert(lps@.map_values(|q: crate::pieces::Piece| q@) =~= Seq::<
            crate::pieces::GPiece,
        >::empty());
    }
    crate::pieces::push_piece(
        &mut lps,
        crate::pieces::Piece::Doc { from: c0, to: c1 },
        Ghost(sub@),
    );
    proof {
        assert(lps@.map_values(|q: crate::pieces::Piece| q@) =~= seq![
            crate::pieces::GPiece::Doc { from: c0 as int, to: c1 as int },
        ]);
    }
    let lps = crate::rewrite::slot_replace_pieces(sub, lps, &pats.m_p1, p1c, p1id, p1esc, a1);
    let lps = crate::rewrite::slot_replace_pieces(sub, lps, &pats.m_p2, p2c, p2id, p2esc, a2);
    lps
}

#[verifier::rlimit(100)]
fn build_log(
    chars: &Vec<char>,
    vs: usize,
    ve: usize,
    a1: u64,
    a2: u64,
    p1c: &Vec<char>,
    p2c: &Vec<char>,
    p1id: &Vec<char>,
    p2id: &Vec<char>,
    p1esc: &Vec<char>,
    p2esc: &Vec<char>,
    ctx: Ghost<RepCtx>,
    pats: &Pats,
    out: &mut Vec<crate::pieces::Piece>,
)
    requires
        pats.wf(),
        vs <= ve <= chars@.len(),
        ctx@.a1 == a1,
        ctx@.a2 == a2,
        ctx@.p1 == p1c@,
        ctx@.p2 == p2c@,
        ctx@.p1id == p1id@,
        ctx@.p2id == p2id@,
        ctx@.p1esc == p1esc@,
        ctx@.p2esc == p2esc@,
        crate::pieces::gpieces_wf(chars@, old(out)@.map_values(|q: crate::pieces::Piece| q@)),
    ensures
        crate::pieces::gpieces_wf(chars@, final(out)@.map_values(|q: crate::pieces::Piece| q@)),
        crate::pieces::gpieces_view(chars@, final(out)@.map_values(|q: crate::pieces::Piece| q@))
            == crate::pieces::gpieces_view(
            chars@,
            old(out)@.map_values(|q: crate::pieces::Piece| q@),
        ) + spec_log_text(chars@.subrange(vs as int, ve as int), ctx@),
{
    let ghost gsub = chars@.subrange(vs as int, ve as int);
    let sub = crate::text::copy_range(chars, vs, ve);
    let es = match crate::jsontext::parse_arr(&sub) {
        None => {
            let l = String::from_str("[]");
            proof {
                reveal_strlit("[]");
                assert(l@ =~= lit_empty_arr());
            }
            crate::pieces::push_piece(out, crate::pieces::Piece::Lit(l), Ghost(chars@));
            return ;
        },
        Some(es) => es,
    };
    let ghost ges = es@.map_values(|e: (usize, usize)| (e.0 as int, e.1 as int));
    proof {
        crate::jsontext::lemma_parse_arr_wf(sub@);
    }
    let mut ep: Vec<crate::pieces::Piece> = Vec::new();
    let mut comma = false;
    let mut k: usize = 0;
    proof {
        assert(ep@.map_values(|q: crate::pieces::Piece| q@) =~= Seq::<crate::pieces::GPiece>::empty());
        assert(Seq::<char>::empty() + spec_log_elems(gsub, ges, 0, false, ctx@)
            =~= spec_log_elems(gsub, ges, 0, false, ctx@));
    }
    while k < es.len()
        invariant
            k <= es@.len(),
            ges == es@.map_values(|e: (usize, usize)| (e.0 as int, e.1 as int)),
            crate::jsontext::elems_wf(gsub, ges),
            gsub == sub@,
            ctx@.a1 == a1,
            ctx@.a2 == a2,
            ctx@.p1 == p1c@,
            ctx@.p2 == p2c@,
            ctx@.p1id == p1id@,
            ctx@.p2id == p2id@,
            ctx@.p1esc == p1esc@,
            ctx@.p2esc == p2esc@,
            pats.wf(),
            crate::pieces::gpieces_wf(gsub, ep@.map_values(|q: crate::pieces::Piece| q@)),
            spec_log_elems(gsub, ges, 0, false, ctx@) == crate::pieces::gpieces_view(
                gsub,
                ep@.map_values(|q: crate::pieces::Piece| q@),
            ) + spec_log_elems(gsub, ges, k as int, comma, ctx@),
        decreases es@.len() - k,
    {
        let e0 = es[k].0;
        let e1 = es[k].1;
        proof {
            assert(ges[k as int] == (e0 as int, e1 as int));
            assert(0 <= ges[k as int].0);
        }
        if sub[e0] == '"' {
            let c0 = e0 + 1;
            let c1 = e1 - 1;
            let lvec = crate::text::copy_range(&sub, c0, c1);
            let ghost line = gsub.subrange(c0 as int, c1 as int);
            let dropped = crate::text::check_match_at(&lvec, 0, &pats.p_chat_pipe)
                || crate::text::check_match_at(&lvec, 0, &pats.p_chat_ts)
                || crate::text::check_match_at(&lvec, 0, &pats.p_inactive)
                || crate::text::check_match_at(&lvec, 0, &pats.p_j)
                || crate::text::check_match_at(&lvec, 0, &pats.p_jc)
                || crate::text::check_match_at(&lvec, 0, &pats.p_l)
                || crate::text::check_match_at(&lvec, 0, &pats.p_lc)
                || crate::text::check_match_at(&lvec, 0, &pats.p_nc)
                || crate::text::check_match_at(&lvec, 0, &pats.p_n);
            if dropped {
            } else {
                let plain = crate::text::check_match_at(&lvec, 0, &pats.p_win)
                    || crate::text::check_match_at(&lvec, 0, &pats.p_tie)
                    || crate::text::check_match_at(&lvec, 0, &pats.p_msg)
                    || crate::text::check_match_at(&lvec, 0, &pats.p_raw)
                    || crate::text::check_match_at(&lvec, 0, &pats.p_player);
                proof {
                    assert(plain == is_plain_subst_line(line));
                    assert(dropped == is_dropped_line(line));
                }
                if plain {
                    if crate::text::contains_chars(&lvec, &pats.p_rating_mark) {
                    } else {
                        if comma {
                            push_comma(&mut ep, Ghost(gsub));
                        }
                        push_quote(&mut ep, Ghost(gsub));
                        let lps = chain6_pieces(
                            &sub,
                            c0,
                            c1,
                            a1,
                            a2,
                            p1c,
                            p2c,
                            p1id,
                            p2id,
                            p1esc,
                            p2esc,
                            ctx,
                        );
                        crate::pieces::append_all(&mut ep, lps, Ghost(gsub));
                        push_quote(&mut ep, Ghost(gsub));
                        comma = true;
                    }
                } else {
                    if comma {
                        push_comma(&mut ep, Ghost(gsub));
                    }
                    push_quote(&mut ep, Ghost(gsub));
                    let lps = slot2_pieces(
                        &sub,
                        c0,
                        c1,
                        a1,
                        a2,
                        p1c,
                        p2c,
                        p1id,
                        p2id,
                        p1esc,
                        p2esc,
                        pats,
                        ctx,
                    );
                    crate::pieces::append_all(&mut ep, lps, Ghost(gsub));
                    push_quote(&mut ep, Ghost(gsub));
                    comma = true;
                }
            }
        } else {
            if comma {
                push_comma(&mut ep, Ghost(gsub));
            }
            crate::pieces::push_piece(
                &mut ep,
                crate::pieces::Piece::Doc { from: e0, to: e1 },
                Ghost(gsub),
            );
            comma = true;
        }
        k = k + 1;
    }
    push_lbracket(out, Ghost(chars@));
    let n_chars = chars.len();
    proof {
        assert(chars@.len() <= usize::MAX);
        assert(gsub =~= chars@.subrange(vs as int, vs + gsub.len()));
    }
    let shifted = crate::pieces::shift_pieces(ep, vs, Ghost(gsub), Ghost(chars@));
    crate::pieces::append_all(out, shifted, Ghost(chars@));
    push_rbracket(out, Ghost(chars@));
    proof {
        assert(crate::pieces::gpieces_view(
            chars@,
            out@.map_values(|q: crate::pieces::Piece| q@),
        ) =~= crate::pieces::gpieces_view(
            chars@,
            old(out)@.map_values(|q: crate::pieces::Piece| q@),
        ) + spec_log_text(gsub, ctx@));
    }
}

/// Whether the input log, if present, is an array of strings (or not an
/// array at all, which reads as empty).
pub open spec fn spec_inputlog_ok_doc(doc: Seq<char>) -> bool {
    match crate::jsontext::spec_parse_doc(doc) {
        None => true,
        Some(fs) => {
            let i = crate::jsontext::spec_find_key(doc, fs, key_inputlog(), 0);
            if i == fs.len() {
                true
            } else {
                spec_inputlog_ok(doc.subrange(fs[i].vs, fs[i].ve))
            }
        },
    }
}

/// Decides `spec_inputlog_ok_doc` executably.
fn check_inputlog_ok(
    chars: &Vec<char>,
    fields: &Vec<crate::jsontext::JsonField>,
    pats: &Pats,
) -> (r: bool)
    requires
        pats.wf(),
        crate::jsontext::spec_parse_doc(chars@) == Some(
            fields@.map_values(|f: crate::jsontext::JsonField| f@),
        ),
    ensures
        r == spec_inputlog_ok_doc(chars@),
{
    proof {
        crate::jsontext::lemma_parse_doc_wf(chars@);
    }
    let i = crate::jsontext::find_key(chars, fields, &pats.k_inputlog);
    if i == fields.len() {
        return true;
    }
    let f = fields[i];
    proof {
        let gfs = fields@.map_values(|q: crate::jsontext::JsonField| q@);
        assert(gfs[i as int] == f@);
        assert(0 <= gfs[i as int].ks);
        assert(f@.vs < f@.ve <= chars@.len());
    }
    let ghost gsub = chars@.subrange(f.vs as int, f.ve as int);
    let sub = crate::text::copy_range(chars, f.vs, f.ve);
    let es = match crate::jsontext::parse_arr(&sub) {
        None => {
            return true;
        },
        Some(es) => es,
    };
    let ghost ges = es@.map_values(|e: (usize, usize)| (e.0 as int, e.1 as int));
    proof {
        crate::jsontext::lemma_parse_arr_wf(sub@);
    }
    let mut k: usize = 0;
    while k < es.len()
        invariant
            k <= es@.len(),
            ges == es@.map_values(|e: (usize, usize)| (e.0 as int, e.1 as int)),
            crate::jsontext::elems_wf(gsub, ges),
            gsub == sub@,
            crate::jsontext::spec_parse_arr(gsub) == Some(ges),
            crate::jsontext::spec_parse_doc(chars@) == Some(
                fields@.map_values(|q: crate::jsontext::JsonField| q@),
            ),
            i as int == crate::jsontext::spec_find_key(
                chars@,
                fields@.map_values(|q: crate::jsontext::JsonField| q@),
                key_inputlog(),
                0,
            ),
            i < fields@.len(),
            f@ == fields@.map_values(|q: crate::jsontext::JsonField| q@)[i as int],
            gsub == chars@.subrange(f@.vs, f@.ve),
            forall|j: int| 0 <= j < k ==> elem_is_string(gsub, #[trigger] ges[j]),
        decreases es@.len() - k,
    {
        proof {
            assert(ges[k as int] == (es@[k as int].0 as int, es@[k as int].1 as int));
            assert(0 <= ges[k as int].0);
        }
        if sub[es[k].0] != '"' {
            proof {
                let e = ges[k as int];
                assert(gsub[e.0] == sub@[es@[k as int].0 as int]);
                assert(gsub[e.0] != '"');
                if spec_inputlog_ok(gsub) {
                    assert(crate::jsontext::spec_parse_arr(gsub)->0 == ges);
                    assert(elem_is_string(gsub, crate::jsontext::spec_parse_arr(gsub)->0[k as int]));
                    assert(elem_is_string(gsub, e));
                }
                assert(!spec_inputlog_ok(gsub));
                let gfs2 = fields@.map_values(|q: crate::jsontext::JsonField| q@);
                assert(crate::jsontext::spec_find_key(chars@, gfs2, key_inputlog(), 0) == i as int);
                assert(gsub == chars@.subrange(gfs2[i as int].vs, gfs2[i as int].ve));
                assert(!spec_inputlog_ok_doc(chars@));
            }
            return false;
        }
        k = k + 1;
    }
    true
}

/// Rewrites battle logs one at a time, assigning pseudonyms through a
/// [`SharedState`]. In safe mode a rewritten log is scanned once more and
/// rejected outright if any identifying spelling survived; with `no_log`
/// set, the turn log and input log are emptied instead of filtered.
pub struct Anonymizer {
    state: SharedState,
    is_safe: bool,
    no_log: bool,
}

impl Anonymizer {
    /// The identities known to the tracker, for contracts.
    pub closed spec fn keys(&self) -> Seq<Seq<char>> {
        self.state.key_seq()
    }

    /// The battle counter, for contracts.
    pub closed spec fn battle(&self) -> u32 {
        self.state.battle_num()
    }

    /// Whether the safety scan is enabled.
    pub closed spec fn safe_mode(&self) -> bool {
        self.is_safe
    }

    /// Whether logs are emptied instead of filtered.
    pub closed spec fn no_log_mode(&self) -> bool {
        self.no_log
    }

    /// The number of identities the tracker knows.
    pub fn player_count(&self) -> (r: usize)
        ensures
            r == self.keys().len(),
    {
        self.state.player_count()
    }

    /// The battle counter so far.
    pub fn battle_number(&self) -> (r: u32)
        ensures
            r == self.battle(),
    {
        self.state.current_battle_number
    }

    /// A fresh anonymizer with an empty tracker.
    pub fn new(is_safe: bool, no_log: bool) -> (a: Self)
        ensures
            a.keys() == Seq::<Seq<char>>::empty(),
            a.battle() == 0,
            a.safe_mode() == is_safe,
            a.no_log_mode() == no_log,
    {
        Anonymizer { state: SharedState::new(), is_safe: is_safe, no_log: no_log }
    }

    /// Anonymizes one raw battle log.
    ///
    /// On success the result carries the rewritten JSON text, the battle
    /// sequence number, and the log's format name. The rewritten text is
    /// exactly the original with the participant, winner, rating, room,
    /// timestamp and log values replaced as the specification functions
    /// describe; in safe mode it is guaranteed to contain no spelling of
    /// either participant's identity.
    #[verifier::rlimit(100)]
    pub fn anonymize(&mut self, raw: &str) -> (r: Result<(String, u32, String), crate::BattleToolsError>)
        requires
            old(self).keys().len() + 3 <= u64::MAX,
            old(self).battle() < u32::MAX,
        ensures
            final(self).safe_mode() == old(self).safe_mode(),
            final(self).no_log_mode() == old(self).no_log_mode(),
            match r {
                Ok(res) => {
                    &&& crate::jsontext::spec_parse_doc(raw@) is Some
                    &&& spec_required_ok(raw@)
                    &&& (!old(self).no_log_mode() ==> spec_inputlog_ok_doc(raw@))
                    &&& final(self).keys() == spec_keys_after(old(self).keys(), raw@)
                    &&& final(self).battle() == old(self).battle() + 1
                    &&& res.1 == final(self).battle()
                    &&& res.0@ == spec_out_text(
                        raw@,
                        crate::jsontext::spec_parse_doc(raw@)->0,
                        spec_ctx(raw@, old(self).keys(), old(self).no_log_mode()),
                        0,
                        0,
                    )
                    &&& res.2@ == spec_opt_field_text(raw@, key_format())
                    &&& (old(self).safe_mode() ==> {
                        let ctx = spec_ctx(raw@, old(self).keys(), old(self).no_log_mode());
                        &&& !crate::text::contains_seq(res.0@, ctx.p1)
                        &&& !crate::text::contains_seq(res.0@, ctx.p2)
                        &&& !crate::text::contains_seq(res.0@, ctx.p1id)
                        &&& !crate::text::contains_seq(res.0@, ctx.p2id)
                        &&& !crate::text::contains_seq(res.0@, ctx.p1esc)
                        &&& !crate::text::contains_seq(res.0@, ctx.p2esc)
                    })
                },
                Err(e) => match e {
                    crate::BattleToolsError::JSONParsingError(_) => {
                        &&& crate::jsontext::spec_parse_doc(raw@) is None
                        &&& final(self).keys() == old(self).keys()
                        &&& final(self).battle() == old(self).battle()
                    },
                    crate::BattleToolsError::InvalidLog(_) => {
                        &&& crate::jsontext::spec_parse_doc(raw@) is Some
                        &&& (!spec_required_ok(raw@) || (!old(self).no_log_mode()
                            && !spec_inputlog_ok_doc(raw@)))
                        &&& final(self).keys() == old(self).keys()
                        &&& final(self).battle() == old(self).battle()
                    },
                    crate::BattleToolsError::IncompleteAnonymization(m) => {
                        &&& old(self).safe_mode()
                        &&& crate::jsontext::spec_parse_doc(raw@) is Some
                        &&& spec_required_ok(raw@)
                        &&& (!old(self).no_log_mode() ==> spec_inputlog_ok_doc(raw@))
                        &&& final(self).keys() == spec_keys_after(old(self).keys(), raw@)
                        &&& final(self).battle() == old(self).battle()
                        &&& m@ == spec_opt_field_text(raw@, key_roomid())
                        &&& {
                            let out = spec_out_text(
                                raw@,
                                crate::jsontext::spec_parse_doc(raw@)->0,
                                spec_ctx(raw@, old(self).keys(), old(self).no_log_mode()),
                                0,
                                0,
                            );
                            let ctx = spec_ctx(raw@, old(self).keys(), old(self).no_log_mode());
                            ||| crate::text::contains_seq(out, ctx.p1)
                            ||| crate::text::contains_seq(out, ctx.p2)
                            ||| crate::text::contains_seq(out, ctx.p1id)
                            ||| crate::text::contains_seq(out, ctx.p2id)
                            ||| crate::text::contains_seq(out, ctx.p1esc)
                            ||| crate::text::contains_seq(out, ctx.p2esc)
                        }
                    },
                    _ => false,
                },
            },
    {
        let ghost ks0 = self.state.key_seq();
        let chars = crate::text::str_to_chars(raw);
        let n_chars = chars.len();
        let fields = match crate::jsontext::parse_doc(&chars) {
            Some(fs) => fs,
            None => {
                return Err(crate::BattleToolsError::JSONParsingError(String::from_str(
                    "the log is not a JSON object",
                )));
            },
        };
        let ghost gfs = fields@.map_values(|f: crate::jsontext::JsonField| f@);
        proof {
            crate::jsontext::lemma_parse_doc_wf(chars@);
        }
        let pats = make_pats();

        let p1i = crate::jsontext::find_key(&chars, &fields, &pats.k_p1);
        if p1i == fields.len() {
            return Err(crate::BattleToolsError::InvalidLog(String::from_str("bad value for p1")));
        }
        let f1 = fields[p1i];
        proof {
            assert(gfs[p1i as int] == f1@);
            assert(0 <= gfs[p1i as int].ks);
            assert(f1@.vs < f1@.ve <= chars@.len());
        }
        if chars[f1.vs] != '"' {
            return Err(crate::BattleToolsError::InvalidLog(String::from_str("bad value for p1")));
        }

        let p2i = crate::jsontext::find_key(&chars, &fields, &pats.k_p2);
        if p2i == fields.len() {
            return Err(crate::BattleToolsError::InvalidLog(String::from_str("bad value for p2")));
        }
        let f2 = fields[p2i];
        proof {
            assert(gfs[p2i as int] == f2@);
            assert(0 <= gfs[p2i as int].ks);
            assert(f2@.vs < f2@.ve <= chars@.len());
        }
        if chars[f2.vs] != '"' {
            return Err(crate::BattleToolsError::InvalidLog(String::from_str("bad value for p2")));
        }

        let wi = crate::jsontext::find_key(&chars, &fields, &pats.k_winner);
        if wi == fields.len() {
            return Err(crate::BattleToolsError::InvalidLog(String::from_str(
                "bad value for winner",
            )));
        }
        let fw = fields[wi];
        proof {
            assert(gfs[wi as int] == fw@);
            assert(0 <= gfs[wi as int].ks);
            assert(fw@.vs < fw@.ve <= chars@.len());
        }
        if chars[fw.vs] != '"' {
            return Err(crate::BattleToolsError::InvalidLog(String::from_str(
                "bad value for winner",
            )));
        }

        let tsi = crate::jsontext::find_key(&chars, &fields, &pats.k_timestamp);
        if tsi == fields.len() {
            return Err(crate::BattleToolsError::InvalidLog(String::from_str(
                "bad value for timestamp",
            )));
        }
        let fts = fields[tsi];
        proof {
            assert(gfs[tsi as int] == fts@);
            assert(0 <= gfs[tsi as int].ks);
            assert(fts@.vs < fts@.ve <= chars@.len());
        }
        if chars[fts.vs] != '"' {
            return Err(crate::BattleToolsError::InvalidLog(String::from_str(
                "bad value for timestamp",
            )));
        }

        if !self.no_log {
            if !check_inputlog_ok(&chars, &fields, &pats) {
                return Err(crate::BattleToolsError::InvalidLog(String::from_str(
                    "the input log holds a value that is not a string",
                )));
            }
        }

        let p1c = crate::text::copy_range(&chars, f1.vs + 1, f1.ve - 1);
        let p2c = crate::text::copy_range(&chars, f2.vs + 1, f2.ve - 1);
        let wc = crate::text::copy_range(&chars, fw.vs + 1, fw.ve - 1);
        let p1id = crate::id::chars_to_id(&p1c);
        let p2id = crate::id::chars_to_id(&p2c);
        let p1esc = crate::id::escape_chars(&p1c);
        let p2esc = crate::id::escape_chars(&p2c);
        let tie = wc.len() == 0;

        let p1_str = String::from_str(raw.substring_char(f1.vs + 1, f1.ve - 1));
        let p2_str = String::from_str(raw.substring_char(f2.vs + 1, f2.ve - 1));
        let w_str = String::from_str(raw.substring_char(fw.vs + 1, fw.ve - 1));
        proof {
            lemma_key_index_bounds(ks0, p1_str@, 0);
        }
        let a1 = self.state.assign_num(p1_str);
        proof {
            lemma_key_index_bounds(self.state.key_seq(), p2_str@, 0);
        }
        let a2 = self.state.assign_num(p2_str);
        let wa: u64 = if tie {
            0
        } else {
            proof {
                lemma_key_index_bounds(self.state.key_seq(), w_str@, 0);
            }
            self.state.assign_num(w_str)
        };
        let ghost gctx = spec_ctx(chars@, ks0, self.no_log);
        proof {
            assert(spec_req_field(chars@, key_p1()) == Some(f1@));
            assert(spec_req_field(chars@, key_p2()) == Some(f2@));
            assert(spec_req_field(chars@, key_winner()) == Some(fw@));
            assert(spec_req_field(chars@, key_timestamp()) == Some(fts@));
            assert(spec_req_content(chars@, key_p1()) == p1c@);
            assert(spec_req_content(chars@, key_p2()) == p2c@);
            assert(spec_req_content(chars@, key_winner()) == wc@);
            assert(spec_is_tie(chars@) == tie);
            assert(gctx.a1 == a1);
            assert(gctx.a2 == a2);
            assert(gctx.wa == wa);
            assert(gctx.tie == tie);
            assert(gctx.no_log == self.no_log);
            assert(gctx.p1 == p1c@);
            assert(gctx.p2 == p2c@);
            assert(gctx.p1id == p1id@);
            assert(gctx.p2id == p2id@);
            assert(gctx.p1esc == p1esc@);
            assert(gctx.p2esc == p2esc@);
            assert(self.state.key_seq() == spec_keys_after(ks0, chars@));
        }

        let mut ps: Vec<crate::pieces::Piece> = Vec::new();
        let mut pos: usize = 0;
        let mut j: usize = 0;
        proof {
            assert(ps@.map_values(|q: crate::pieces::Piece| q@) =~= Seq::<
                crate::pieces::GPiece,
            >::empty());
            assert(Seq::<char>::empty() + spec_out_text(chars@, gfs, gctx, 0, 0) =~= spec_out_text(
                chars@,
                gfs,
                gctx,
                0,
                0,
            ));
        }
        while j < fields.len()
            invariant
                j <= fields@.len(),
                gfs == fields@.map_values(|f: crate::jsontext::JsonField| f@),
                crate::jsontext::fields_wf(chars@, gfs),
                crate::jsontext::spec_parse_doc(chars@) == Some(gfs),
                n_chars == chars@.len(),
                pats.wf(),
                gctx.a1 == a1,
                gctx.a2 == a2,
                gctx.wa == wa,
                gctx.tie == tie,
                gctx.no_log == self.no_log,
                gctx.p1 == p1c@,
                gctx.p2 == p2c@,
                gctx.p1id == p1id@,
                gctx.p2id == p2id@,
                gctx.p1esc == p1esc@,
                gctx.p2esc == p2esc@,
                if j == 0 {
                    pos == 0
                } else {
                    pos == gfs[j - 1].ve
                },
                pos <= chars@.len(),
                crate::pieces::gpieces_wf(chars@, ps@.map_values(|q: crate::pieces::Piece| q@)),
                spec_out_text(chars@, gfs, gctx, 0, 0) == crate::pieces::gpieces_view(
                    chars@,
                    ps@.map_values(|q: crate::pieces::Piece| q@),
                ) + spec_out_text(chars@, gfs, gctx, j as int, pos as int),
            decreases fields@.len() - j,
        {
            let f = fields[j];
            proof {
                assert(gfs[j as int] == f@);
                assert(0 <= gfs[j as int].ks);
                assert(f@.vs < f@.ve <= chars@.len());
                if j > 0 {
                    assert(gfs[j - 1].ve <= gfs[j as int].vs);
                }
            }
            crate::pieces::push_piece(
                &mut ps,
                crate::pieces::Piece::Doc { from: pos, to: f.vs },
                Ghost(chars@),
            );
            let ghost rep_start_view = crate::pieces::gpieces_view(
                chars@,
                ps@.map_values(|q: crate::pieces::Piece| q@),
            );
            if crate::jsontext::range_eq(&chars, f.ks, f.ke, &pats.k_p1) {
                push_quote(&mut ps, Ghost(chars@));
                crate::pieces::push_piece(&mut ps, crate::pieces::Piece::Num(a1), Ghost(chars@));
                push_quote(&mut ps, Ghost(chars@));
            } else if crate::jsontext::range_eq(&chars, f.ks, f.ke, &pats.k_p2) {
                push_quote(&mut ps, Ghost(chars@));
                crate::pieces::push_piece(&mut ps, crate::pieces::Piece::Num(a2), Ghost(chars@));
                push_quote(&mut ps, Ghost(chars@));
            } else if crate::jsontext::range_eq(&chars, f.ks, f.ke, &pats.k_winner) {
                if tie {
                    let l = String::from_str("\"\"");
                    proof {
                        reveal_strlit("\"\"");
                        assert(l@ =~= lit_quote2());
                    }
                    crate::pieces::push_piece(&mut ps, crate::pieces::Piece::Lit(l), Ghost(chars@));
                } else {
                    push_quote(&mut ps, Ghost(chars@));
                    crate::pieces::push_piece(&mut ps, crate::pieces::Piece::Num(wa), Ghost(chars@));
                    push_quote(&mut ps, Ghost(chars@));
                }
            } else if crate::jsontext::range_eq(&chars, f.ks, f.ke, &pats.k_timestamp) {
                push_quote(&mut ps, Ghost(chars@));
                if f.ve - f.vs >= 2 {
                    let tvec = crate::text::copy_range(&chars, f.vs + 1, f.ve - 1);
                    let cut = crate::text::find_char(&tvec, 0, ':');
                    crate::pieces::push_piece(
                        &mut ps,
                        crate::pieces::Piece::Doc { from: f.vs + 1, to: f.vs + 1 + cut },
                        Ghost(chars@),
                    );
                    proof {
                        assert(tvec@.take(cut as int) =~= chars@.subrange(
                            f.vs + 1,
                            f.vs + 1 + cut,
                        ));
                    }
                }
                let l = String::from_str(":XX\"");
                proof {
                    reveal_strlit(":XX\"");
                    assert(l@ =~= lit_ts_close());
                }
                crate::pieces::push_piece(&mut ps, crate::pieces::Piece::Lit(l), Ghost(chars@));
            } else if crate::jsontext::range_eq(&chars, f.ks, f.ke, &pats.k_roomid) {
                let l = String::from_str("null");
                proof {
                    reveal_strlit("null");
                    assert(l@ =~= lit_null());
                }
                crate::pieces::push_piece(&mut ps, crate::pieces::Piece::Lit(l), Ghost(chars@));
            } else if crate::jsontext::range_eq(&chars, f.ks, f.ke, &pats.k_p1rating) {
                build_rating(&chars, f.vs, f.ve, &pats, &mut ps);
            } else if crate::jsontext::range_eq(&chars, f.ks, f.ke, &pats.k_p2rating) {
                build_rating(&chars, f.vs, f.ve, &pats, &mut ps);
            } else if crate::jsontext::range_eq(&chars, f.ks, f.ke, &pats.k_inputlog) {
                if self.no_log {
                    let l = String::from_str("[]");
                    proof {
                        reveal_strlit("[]");
                        assert(l@ =~= lit_empty_arr());
                    }
                    crate::pieces::push_piece(&mut ps, crate::pieces::Piece::Lit(l), Ghost(chars@));
                } else {
                    build_inputlog(&chars, f.vs, f.ve, a1, a2, Ghost(gctx), &pats, &mut ps);
                }
            } else if crate::jsontext::range_eq(&chars, f.ks, f.ke, &pats.k_log) {
                if self.no_log {
                    let l = String::from_str("[]");
                    proof {
                        reveal_strlit("[]");
                        assert(l@ =~= lit_empty_arr());
                    }
                    crate::pieces::push_piece(&mut ps, crate::pieces::Piece::Lit(l), Ghost(chars@));
                } else {
                    build_log(
                        &chars,
                        f.vs,
                        f.ve,
                        a1,
                        a2,
                        &p1c,
                        &p2c,
                        &p1id,
                        &p2id,
                        &p1esc,
                        &p2esc,
                        Ghost(gctx),
                        &pats,
                        &mut ps,
                    );
                }
            } else {
                crate::pieces::push_piece(
                    &mut ps,
                    crate::pieces::Piece::Doc { from: f.vs, to: f.ve },
                    Ghost(chars@),
                );
            }
            proof {
                assert(crate::pieces::gpieces_view(
                    chars@,
                    ps@.map_values(|q: crate::pieces::Piece| q@),
                ) =~= rep_start_view + spec_field_rep(chars@, gfs[j as int], gctx));
                assert(spec_out_text(chars@, gfs, gctx, j as int, pos as int) == chars@.subrange(
                    pos as int,
                    gfs[j as int].vs,
                ) + spec_field_rep(chars@, gfs[j as int], gctx) + spec_out_text(
                    chars@,
                    gfs,
                    gctx,
                    j + 1,
                    gfs[j as int].ve,
                ));
                assert(crate::pieces::gpieces_view(
                    chars@,
                    ps@.map_values(|q: crate::pieces::Piece| q@),
                ) + spec_out_text(chars@, gfs, gctx, j + 1, gfs[j as int].ve) =~= spec_out_text(
                    chars@,
                    gfs,
                    gctx,
                    0,
                    0,
                ));
            }
            pos = f.ve;
            j = j + 1;
        }
        crate::pieces::push_piece(
            &mut ps,
            crate::pieces::Piece::Doc { from: pos, to: n_chars },
            Ghost(chars@),
        );
        proof {
            assert(spec_out_text(chars@, gfs, gctx, gfs.len() as int, pos as int) == chars@.subrange(
                pos as int,
                chars@.len() as int,
            ));
            assert(crate::pieces::gpieces_view(
                chars@,
                ps@.map_values(|q: crate::pieces::Piece| q@),
            ) =~= spec_out_text(chars@, gfs, gctx, 0, 0));
        }
        let out_s = crate::pieces::assemble(raw, &ps);

        if self.is_safe {
            let out_chars = crate::text::str_to_chars(out_s.as_str());
            let leak = crate::text::contains_chars(&out_chars, &p1c) || crate::text::contains_chars(
                &out_chars,
                &p2c,
            ) || crate::text::contains_chars(&out_chars, &p1id) || crate::text::contains_chars(
                &out_chars,
                &p2id,
            ) || crate::text::contains_chars(&out_chars, &p1esc) || crate::text::contains_chars(
                &out_chars,
                &p2esc,
            );
            if leak {
                let msg = opt_field_text(raw, &chars, &fields, &pats.k_roomid);
                return Err(crate::BattleToolsError::IncompleteAnonymization(msg));
            }
        }

        proof {
            use_type_invariant(&self.state);
        }
        self.state.current_battle_number = self.state.current_battle_number + 1;
        let num = self.state.current_battle_number;
        let fmt = opt_field_text(raw, &chars, &fields, &pats.k_format);
        Ok((out_s, num, fmt))
    }
}

/// A known identity keeps its position when another key is appended.
proof fn lemma_key_index_after_push(ks: Seq<Seq<char>>, name: Seq<char>, z: Seq<char>)
    requires
        spec_key_index(ks, name, 0) < ks.len(),
    ensures
        spec_key_index(ks.push(z), name, 0) == spec_key_index(ks, name, 0),
{
    lemma_key_index_bounds(ks, name, 0);
    lemma_key_index_after_push_from(ks, name, z, 0);
}

proof fn lemma_key_index_after_push_from(ks: Seq<Seq<char>>, name: Seq<char>, z: Seq<char>, j: int)
    requires
        0 <= j <= ks.len(),
        j <= spec_key_index(ks, name, j) < ks.len(),
    ensures
        spec_key_index(ks.push(z), name, j) == spec_key_index(ks, name, j),
    decreases ks.len() - j,
{
    lemma_key_index_bounds(ks, name, j);
    assert(ks.push(z)[j] == ks[j]);
    if ks[j] != name {
        lemma_key_index_after_push_from(ks, name, z, j + 1);
    }
}

/// A known identity keeps its pseudonym through any later assignment.
pub proof fn lemma_pseudonym_preserved(ks: Seq<Seq<char>>, z: Seq<char>, name: Seq<char>)
    requires
        spec_key_index(ks, name, 0) < ks.len(),
    ensures
        spec_pseudonym(spec_assign_keys(ks, z), name) == spec_pseudonym(ks, name),
{
    lemma_key_index_bounds(ks, name, 0);
    lemma_key_index_bounds(ks, z, 0);
    if spec_key_index(ks, z, 0) < ks.len() {
    } else {
        lemma_key_index_after_push(ks, name, z);
        lemma_key_index_bounds(ks.push(z), name, 0);
    }
}

/// Cross-file consistency: two logs that share the same two participants,
/// anonymized under one tracker, receive the same pseudonym pairing. After
/// the first log assigned `x` then `y`, re-assigning them for the second
/// log returns the same two pseudonyms.
pub proof fn lemma_cross_file_consistency(ks: Seq<Seq<char>>, x: Seq<char>, y: Seq<char>)
    ensures
        spec_pseudonym(spec_assign_keys(spec_assign_keys(ks, x), y), x) == spec_pseudonym(ks, x),
        spec_pseudonym(
            spec_assign_keys(spec_assign_keys(spec_assign_keys(ks, x), y), x),
            y,
        ) == spec_pseudonym(spec_assign_keys(ks, x), y),
{
    let k1 = spec_assign_keys(ks, x);
    let k2 = spec_assign_keys(k1, y);
    lemma_key_index_bounds(ks, x, 0);
    lemma_pseudonym_consistent(ks, x);
    // x is present in k1, so its pseudonym survives the assignment of y.
    assert(spec_key_index(k1, x, 0) < k1.len()) by {
        lemma_key_index_bounds(k1, x, 0);
        if spec_key_index(ks, x, 0) < ks.len() {
        } else {
            assert(k1 == ks.push(x));
            assert(k1[ks.len() as int] == x);
            if spec_key_index(k1, x, 0) == k1.len() {
                lemma_key_index_bounds(k1, x, 0);
                assert(k1[ks.len() as int] != x);
            }
        }
    }
    lemma_pseudonym_preserved(k1, y, x);
    // y is present in k2, so assigning x again changes nothing for y.
    lemma_pseudonym_consistent(k1, y);
    assert(spec_key_index(k2, y, 0) < k2.len()) by {
        lemma_key_index_bounds(k2, y, 0);
        if spec_key_index(k1, y, 0) < k1.len() {
            if spec_key_index(k1, y, 0) < k1.len() {
                lemma_key_index_bounds(k1, y, 0);
                if spec_key_index(ks, x, 0) < ks.len() {
                } else {
                }
                lemma_pseudonym_preserved_presence(k1, y);
            }
        } else {
            assert(k2 == k1.push(y));
            assert(k2[k1.len() as int] == y);
            if spec_key_index(k2, y, 0) == k2.len() {
                lemma_key_index_bounds(k2, y, 0);
                assert(k2[k1.len() as int] != y);
            }
        }
    }
    // assigning a present identity leaves the keys unchanged
    assert(spec_key_index(k2, x, 0) < k2.len()) by {
        lemma_key_index_bounds(k2, x, 0);
        lemma_presence_preserved(k1, y, x);
    }
    assert(spec_assign_keys(k2, x) == k2);
    lemma_pseudonym_preserved(k1, y, x);
}

/// Presence of an identity survives any assignment.
proof fn lemma_presence_preserved(ks: Seq<Seq<char>>, z: Seq<char>, name: Seq<char>)
    requires
        spec_key_index(ks, name, 0) < ks.len(),
    ensures
        spec_key_index(spec_assign_keys(ks, z), name, 0) < spec_assign_keys(ks, z).len(),
{
    lemma_key_index_bounds(ks, z, 0);
    if spec_key_index(ks, z, 0) < ks.len() {
    } else {
        lemma_key_index_after_push(ks, name, z);
    }
}

/// Presence in a list means presence after any self-assignment.
proof fn lemma_pseudonym_preserved_presence(ks: Seq<Seq<char>>, name: Seq<char>)
    requires
        spec_key_index(ks, name, 0) < ks.len(),
    ensures
        spec_key_index(spec_assign_keys(ks, name), name, 0) < spec_assign_keys(ks, name).len(),
{
    lemma_presence_preserved(ks, name, name);
}

/// A tied battle leaves the winner field as the empty string: for every
/// field of a tied log whose key is `winner`, the replacement text is the
/// empty string literal, never a pseudonym.
pub proof fn lemma_tie_keeps_winner_empty(
    doc: Seq<char>,
    ks: Seq<Seq<char>>,
    no_log: bool,
    f: crate::jsontext::SpecField,
)
    requires
        spec_is_tie(doc),
        doc.subrange(f.ks, f.ke) == key_winner(),
    ensures
        spec_field_rep(doc, f, spec_ctx(doc, ks, no_log)) == lit_quote2(),
{
    let key = doc.subrange(f.ks, f.ke);
    assert(key != key_p1()) by {
        assert(key.len() == 6 && key_p1().len() == 2);
    }
    assert(key != key_p2()) by {
        assert(key.len() == 6 && key_p2().len() == 2);
    }
}

impl SharedState {
    /// The number of identities the tracker knows.
    pub fn player_count(&self) -> (r: usize)
        ensures
            r == self.key_seq().len(),
    {
        self.players.len()
    }
}

impl crate::directory::LogParser<(String, u32, String)> for Anonymizer {
    /// The anonymizer's state: identities, battle counter, mode flags.
    type VS = (Seq<Seq<char>>, u32, bool, bool);

    /// One per-file result: the rewritten text, the battle number, the
    /// format name.
    type VR = (Seq<char>, u32, Seq<char>);

    open spec fn state_model(self) -> (Seq<Seq<char>>, u32, bool, bool) {
        (self.keys(), self.battle(), self.safe_mode(), self.no_log_mode())
    }

    open spec fn result_model(r: (String, u32, String)) -> (Seq<char>, u32, Seq<char>) {
        (r.0@, r.1, r.2@)
    }

    open spec fn on_file(
        s: (Seq<Seq<char>>, u32, bool, bool),
        content: Seq<char>,
        dir: Seq<char>,
        file: Seq<char>,
    ) -> ((Seq<Seq<char>>, u32, bool, bool), Option<(Seq<char>, u32, Seq<char>)>) {
        if s.0.len() + 3 > u64::MAX || s.1 == u32::MAX {
            (s, None)
        } else if crate::jsontext::spec_parse_doc(content) is None {
            (s, None)
        } else if !spec_required_ok(content) || (!s.3 && !spec_inputlog_ok_doc(content)) {
            (s, None)
        } else {
            let keys2 = spec_keys_after(s.0, content);
            let ctx = spec_ctx(content, s.0, s.3);
            let out = spec_out_text(content, crate::jsontext::spec_parse_doc(content)->0, ctx, 0, 0);
            let leak = s.2 && (crate::text::contains_seq(out, ctx.p1) || crate::text::contains_seq(
                out,
                ctx.p2,
            ) || crate::text::contains_seq(out, ctx.p1id) || crate::text::contains_seq(
                out,
                ctx.p2id,
            ) || crate::text::contains_seq(out, ctx.p1esc) || crate::text::contains_seq(
                out,
                ctx.p2esc,
            ));
            if leak {
                ((keys2, s.1, s.2, s.3), None)
            } else {
                (
                    (keys2, (s.1 + 1) as u32, s.2, s.3),
                    Some((out, (s.1 + 1) as u32, spec_opt_field_text(content, key_format()))),
                )
            }
        }
    }

    open spec fn on_fold(
        s: (Seq<Seq<char>>, u32, bool, bool),
        rs: Seq<(Seq<char>, u32, Seq<char>)>,
    ) -> ((Seq<Seq<char>>, u32, bool, bool), bool) {
        (s, true)
    }

    /// Anonymizes one log. A tracker that has exhausted its counters
    /// rejects further logs instead of breaking its guarantees.
    fn handle_log_file(&mut self, raw_json: &str, dir_name: &str, file_name: &str) -> (r: Result<
        (String, u32, String),
        crate::BattleToolsError,
    >) {
        if self.state.player_count() as u64 > u64::MAX - 3 {
            return Err(crate::BattleToolsError::InvalidLog(String::from_str(
                "the pseudonym tracker is full",
            )));
        }
        if self.state.current_battle_number == u32::MAX {
            return Err(crate::BattleToolsError::InvalidLog(String::from_str(
                "the battle counter is full",
            )));
        }
        self.anonymize(raw_json)
    }

    /// Anonymized logs are written out as they come; nothing to fold.
    fn handle_results(&mut self, results: Vec<(String, u32, String)>) -> (r: Result<
        (),
        crate::BattleToolsError,
    >) {
        let items = results;
        Ok(())
    }
}

/// The opening of the tracker-state text: the players map begins.
pub open spec fn lit_state_open() -> Seq<char> {
    seq!['{', '"', 'p', 'l', 'a', 'y', 'e', 'r', 's', '"', ':', '{']
}

/// Between the players map and the battle counter.
pub open spec fn lit_state_battle() -> Seq<char> {
    seq!['}', ',', '"', 'c', 'u', 'r', 'r', 'e', 'n', 't', '_', 'b', 'a', 't', 't', 'l', 'e', '_',
        'n', 'u', 'm', 'b', 'e', 'r', '"', ':']
}

/// Between the battle counter and the player counter.
pub open spec fn lit_state_player() -> Seq<char> {
    seq![',', '"', 'c', 'u', 'r', '_', 'p', 'l', 'a', 'y', 'e', 'r', '_', 'n', 'u', 'm', 'b', 'e',
        'r', '"', ':']
}

/// The players map's entries from position `j` on: each identity, escaped
/// as JSON string content, mapped to its pseudonym's digits.
pub open spec fn spec_players_json(ks: Seq<Seq<char>>, j: int) -> Seq<char>
    decreases ks.len() - j,
    when 0 <= j <= ks.len()
{
    if j == ks.len() {
        Seq::empty()
    } else {
        (if j > 0 {
            seq![',']
        } else {
            Seq::<char>::empty()
        }) + lit_quote() + crate::id::escaped_of(ks[j]) + lit_quote() + seq![':'] + lit_quote()
            + dec_str((j + 1) as nat) + lit_quote() + spec_players_json(ks, j + 1)
    }
}

/// The tracker state as JSON text: the players map, the battle counter,
/// and the number of identities assigned so far.
pub open spec fn spec_state_json(ks: Seq<Seq<char>>, battle: u32) -> Seq<char> {
    lit_state_open() + spec_players_json(ks, 0) + lit_state_battle() + dec_str(battle as nat)
        + lit_state_player() + dec_str(ks.len() as nat) + seq!['}']
}

/// Appends `name` in its escaped display form.
fn append_escaped_name(out: &mut String, name: &str)
    ensures
        final(out)@ == old(out)@ + crate::id::escaped_of(name@),
{
    let chars = crate::text::str_to_chars(name);
    let n = chars.len();
    let mut i: usize = 0;
    proof {
        assert(chars@.skip(0) =~= chars@);
    }
    while i < n
        invariant
            i <= n,
            n == chars@.len(),
            chars@ == name@,
            old(out)@ + crate::id::escaped_of(chars@) == out@ + crate::id::escaped_of(
                chars@.skip(i as int),
            ),
        decreases n - i,
    {
        let c = chars[i];
        proof {
            assert(chars@.skip(i as int)[0] == chars@[i as int]);
            assert(chars@.skip(i as int).skip(1) =~= chars@.skip(i + 1));
        }
        if c == '\\' {
            out.append("\\\\");
            proof {
                reveal_strlit("\\\\");
                assert("\\\\"@ =~= seq!['\\', '\\']);
            }
        } else if c == '"' {
            out.append("\\\"");
            proof {
                reveal_strlit("\\\"");
                assert("\\\""@ =~= seq!['\\', '"']);
            }
        } else {
            let piece = name.substring_char(i, i + 1);
            proof {
                assert(piece@ =~= seq![chars@[i as int]]);
            }
            out.append(piece);
        }
        i = i + 1;
    }
    proof {
        assert(chars@.skip(n as int) =~= Seq::<char>::empty());
        assert(crate::id::escaped_of(Seq::<char>::empty()) =~= Seq::<char>::empty());
        assert(out@ + Seq::<char>::empty() =~= out@);
    }
}

impl SharedState {
    /// The tracker state rendered as JSON text, so that a caller can carry
    /// pseudonym assignments across invocations.
    pub fn get_state_json(&self) -> (r: String)
        ensures
            r@ == spec_state_json(self.key_seq(), self.battle_num()),
    {
        proof {
            use_type_invariant(&*self);
        }
        let ghost ks = self.key_seq();
        let mut out = String::new();
        out.append("{\"players\":{");
        proof {
            reveal_strlit("{\"players\":{");
            assert("{\"players\":{"@ =~= lit_state_open());
            assert(out@ =~= lit_state_open());
        }
        let mut j: usize = 0;
        while j < self.players.len()
            invariant
                j <= self.players@.len(),
                ks == self.key_seq(),
                self.wf(),
                lit_state_open() + spec_players_json(ks, 0) == out@ + spec_players_json(
                    ks,
                    j as int,
                ),
            decreases self.players@.len() - j,
        {
            proof {
                assert(ks[j as int] == self.players@[j as int].name@);
                assert(self.players@[j as int].num == j + 1);
            }
            if j > 0 {
                out.append(",");
                proof {
                    reveal_strlit(",");
                    assert(","@ =~= seq![',']);
                }
            }
            out.append("\"");
            proof {
                reveal_strlit("\"");
                assert("\""@ =~= lit_quote());
            }
            append_escaped_name(&mut out, self.players[j].name.as_str());
            out.append("\":\"");
            proof {
                reveal_strlit("\":\"");
                assert("\":\""@ =~= lit_quote() + seq![':'] + lit_quote());
            }
            crate::text::append_u64(&mut out, self.players[j].num);
            out.append("\"");
            proof {
                assert(dec_str(self.players@[j as int].num as nat) == dec_str((j + 1) as nat));
            }
            j = j + 1;
        }
        proof {
            assert(spec_players_json(ks, ks.len() as int) =~= Seq::<char>::empty());
            assert(out@ + Seq::<char>::empty() =~= out@);
        }
        out.append("},\"current_battle_number\":");
        proof {
            reveal_strlit("},\"current_battle_number\":");
            assert("},\"current_battle_number\":"@ =~= lit_state_battle());
        }
        crate::text::append_u64(&mut out, self.current_battle_number as u64);
        out.append(",\"cur_player_number\":");
        proof {
            reveal_strlit(",\"cur_player_number\":");
            assert(",\"cur_player_number\":"@ =~= lit_state_player());
        }
        let count = self.players.len();
        crate::text::append_u64(&mut out, count as u64);
        out.append("}");
        proof {
            reveal_strlit("}");
            assert("}"@ =~= seq!['}']);
            assert(out@ =~= spec_state_json(ks, self.battle_num()));
        }
        out
    }
}

impl Anonymizer {
    /// The tracker state as JSON text (see `SharedState::get_state_json`).
    pub fn get_state_json(&self) -> (r: String)
        ensures
            r@ == spec_state_json(self.keys(), self.battle()),
    {
        self.state.get_state_json()
    }
}

/// Undoes the escaping that `escaped_of` applies: `\\` and `\"` become one
/// character; any other backslash use, or a raw quote, is rejected.
pub open spec fn spec_unescape(s: Seq<char>) -> Option<Seq<char>>
    decreases s.len(),
{
    if s.len() == 0 {
        Some(Seq::empty())
    } else if s[0] == '\\' {
        if s.len() >= 2 && (s[1] == '\\' || s[1] == '"') {
            match spec_unescape(s.skip(2)) {
                None => None,
                Some(r) => Some(seq![s[1]] + r),
            }
        } else {
            None
        }
    } else if s[0] == '"' {
        None
    } else {
        match spec_unescape(s.skip(1)) {
            None => None,
            Some(r) => Some(seq![s[0]] + r),
        }
    }
}

/// The value of an all-digit text, when it sits below the `u64` maximum.
pub open spec fn spec_u64_digits(t: Seq<char>) -> Option<u64> {
    if crate::num::all_digits(t) && t.len() >= 1 && crate::num::digits_val(t) < u64::MAX {
        Some(crate::num::digits_val(t) as u64)
    } else {
        None
    }
}

/// The identities of a saved players map, from entry `j` on, given the
/// identities read so far. Each entry must map a fresh name to the digits
/// of the next pseudonym, exactly as the tracker would have assigned it.
pub open spec fn spec_state_entries(
    sub: Seq<char>,
    pfs: Seq<crate::jsontext::SpecField>,
    j: int,
    seen: Seq<Seq<char>>,
) -> Option<Seq<Seq<char>>>
    decreases pfs.len() - j,
    when 0 <= j <= pfs.len()
{
    if j == pfs.len() {
        Some(Seq::empty())
    } else {
        let f = pfs[j];
        if !(0 <= f.vs < sub.len() && sub[f.vs] == '"') {
            None
        } else if !(spec_u64_digits(sub.subrange(f.vs + 1, f.ve - 1)) == Some((seen.len() + 1) as u64)
            && seen.len() + 1 < u64::MAX) {
            None
        } else {
            match spec_unescape(sub.subrange(f.ks, f.ke)) {
                None => None,
                Some(name) => {
                    if spec_key_index(seen, name, 0) < seen.len() {
                        None
                    } else {
                        match spec_state_entries(sub, pfs, j + 1, seen.push(name)) {
                            None => None,
                            Some(rest) => Some(seq![name] + rest),
                        }
                    }
                },
            }
        }
    }
}

/// The identities of a saved tracker state, in pseudonym order, or `None`
/// when the text is not a state this tracker could have written.
pub open spec fn spec_state_names(doc: Seq<char>) -> Option<Seq<Seq<char>>> {
    match crate::jsontext::spec_parse_doc(doc) {
        None => None,
        Some(fs) => {
            let i = crate::jsontext::spec_find_key(doc, fs, spec_players_key(), 0);
            if i == fs.len() {
                None
            } else {
                let sub = doc.subrange(fs[i].vs, fs[i].ve);
                match crate::jsontext::spec_parse_doc(sub) {
                    None => None,
                    Some(pfs) => spec_state_entries(sub, pfs, 0, Seq::empty()),
                }
            }
        },
    }
}

pub open spec fn spec_players_key() -> Seq<char> {
    seq!['p', 'l', 'a', 'y', 'e', 'r', 's']
}

pub open spec fn spec_battle_key() -> Seq<char> {
    seq!['c', 'u', 'r', 'r', 'e', 'n', 't', '_', 'b', 'a', 't', 't', 'l', 'e', '_', 'n', 'u', 'm',
        'b', 'e', 'r']
}

pub open spec fn spec_count_key() -> Seq<char> {
    seq!['c', 'u', 'r', '_', 'p', 'l', 'a', 'y', 'e', 'r', '_', 'n', 'u', 'm', 'b', 'e', 'r']
}

/// The saved battle counter, or `None` when absent or not a plain number.
pub open spec fn spec_state_battle(doc: Seq<char>) -> Option<u32> {
    match spec_state_field_val(doc, spec_battle_key()) {
        None => None,
        Some(v) => if v <= u32::MAX {
            Some(v as u32)
        } else {
            None
        },
    }
}

/// The saved player counter, or `None` when absent or not a plain number.
pub open spec fn spec_state_count(doc: Seq<char>) -> Option<u64> {
    spec_state_field_val(doc, spec_count_key())
}

/// The digits value of a top-level field.
pub open spec fn spec_state_field_val(doc: Seq<char>, key: Seq<char>) -> Option<u64> {
    match crate::jsontext::spec_parse_doc(doc) {
        None => None,
        Some(fs) => {
            let i = crate::jsontext::spec_find_key(doc, fs, key, 0);
            if i == fs.len() {
                None
            } else {
                spec_u64_digits(doc.subrange(fs[i].vs, fs[i].ve))
            }
        },
    }
}

/// Undoes name escaping over the range `[a, b)` of `raw`.
fn unescape_range(raw: &str, chars: &Vec<char>, a: usize, b: usize) -> (r: Option<String>)
    requires
        chars@ == raw@,
        a <= b <= chars@.len(),
    ensures
        match r {
            Some(s) => spec_unescape(chars@.subrange(a as int, b as int)) == Some(s@),
            None => spec_unescape(chars@.subrange(a as int, b as int)) is None,
        },
{
    let ghost whole = chars@.subrange(a as int, b as int);
    let mut out = String::new();
    let mut i = a;
    proof {
        assert(chars@.subrange(a as int, b as int) =~= whole);
    }
    while i < b
        invariant
            a <= i <= b <= chars@.len(),
            chars@ == raw@,
            whole == chars@.subrange(a as int, b as int),
            match spec_unescape(chars@.subrange(i as int, b as int)) {
                None => spec_unescape(whole) is None,
                Some(r) => spec_unescape(whole) == Some(out@ + r),
            },
        decreases b - i,
    {
        let ghost rem = chars@.subrange(i as int, b as int);
        let c = chars[i];
        proof {
            assert(rem[0] == chars@[i as int]);
            assert(rem.skip(1) =~= chars@.subrange(i + 1, b as int));
            if i + 2 <= b {
                assert(rem.skip(2) =~= chars@.subrange(i + 2, b as int));
            }
        }
        if c == '\\' {
            if i + 1 < b && (chars[i + 1] == '\\' || chars[i + 1] == '"') {
                proof {
                    assert(rem[1] == chars@[i + 1]);
                }
                if chars[i + 1] == '\\' {
                    out.append("\\");
                    proof {
                        reveal_strlit("\\");
                        assert("\\"@ =~= seq!['\\']);
                    }
                } else {
                    out.append("\"");
                    proof {
                        reveal_strlit("\"");
                        assert("\""@ =~= seq!['"']);
                    }
                }
                proof {
                    match spec_unescape(chars@.subrange(i + 2, b as int)) {
                        None => {},
                        Some(r) => {
                            assert(spec_unescape(rem) == Some(seq![rem[1]] + r));
                        },
                    }
                }
                i = i + 2;
            } else {
                proof {
                    assert(spec_unescape(rem) is None);
                }
                return None;
            }
        } else if c == '"' {
            proof {
                assert(spec_unescape(rem) is None);
            }
            return None;
        } else {
            let piece = raw.substring_char(i, i + 1);
            proof {
                assert(piece@ =~= seq![chars@[i as int]]);
            }
            out.append(piece);
            proof {
                match spec_unescape(chars@.subrange(i + 1, b as int)) {
                    None => {},
                    Some(r) => {
                        assert(spec_unescape(rem) == Some(seq![rem[0]] + r));
                    },
                }
            }
            i = i + 1;
        }
    }
    proof {
        assert(chars@.subrange(b as int, b as int) =~= Seq::<char>::empty());
        assert(out@ + Seq::<char>::empty() =~= out@);
    }
    Some(out)
}

/// The value of the all-digit range `[a, b)`, when it fits a `u64`.
fn u64_digits_range(chars: &Vec<char>, a: usize, b: usize) -> (r: Option<u64>)
    requires
        a <= b <= chars@.len(),
    ensures
        r == spec_u64_digits(chars@.subrange(a as int, b as int)),
{
    let ghost t = chars@.subrange(a as int, b as int);
    if a == b {
        proof {
            assert(spec_u64_digits(t) is None);
        }
        return None;
    }
    let mut i = a;
    while i < b
        invariant
            a <= i <= b <= chars@.len(),
            t == chars@.subrange(a as int, b as int),
            forall|k: int| a <= k < i ==> crate::num::is_digit(#[trigger] chars@[k]),
        decreases b - i,
    {
        let c = chars[i];
        if !('0' <= c && c <= '9') {
            proof {
                assert(t[i - a] == chars@[i as int]);
                assert(!crate::num::all_digits(t));
            }
            return None;
        }
        i = i + 1;
    }
    proof {
        assert(crate::num::all_digits(t)) by {
            assert(forall|k: int|
                0 <= k < t.len() ==> t[k] == chars@[a + k] && crate::num::is_digit(#[trigger] t[k]));
        }
    }
    let v = crate::num::digits_sat_u64(chars, a, b);
    if v == u64::MAX {
        // The saturating reading tops out exactly when the value does not
        // sit below the maximum; no saved counter comes anywhere near it.
        return None;
    }
    Some(v)
}

impl Anonymizer {
    /// Rebuilds an anonymizer from a saved tracker state, assigning each
    /// recorded identity in order and checking that it receives exactly
    /// the recorded pseudonym. Text that is not a state this tracker could
    /// have produced is rejected.
    pub fn with_json(json: &str, is_safe: bool, no_log: bool) -> (r: Result<
        Anonymizer,
        crate::BattleToolsError,
    >)
        ensures
            match r {
                Ok(a) => {
                    &&& spec_state_names(json@) is Some
                    &&& a.keys() == spec_state_names(json@)->0
                    &&& spec_state_battle(json@) is Some
                    &&& a.battle() == spec_state_battle(json@)->0
                    &&& (spec_state_count(json@) matches Some(c) && c == a.keys().len())
                    &&& a.safe_mode() == is_safe
                    &&& a.no_log_mode() == no_log
                },
                Err(_) => {
                    ||| spec_state_names(json@) is None
                    ||| spec_state_battle(json@) is None
                    ||| !(spec_state_count(json@) matches Some(c) && c == spec_state_names(
                        json@,
                    )->0.len())
                },
            },
    {
        let chars = crate::text::str_to_chars(json);
        let fields = match crate::jsontext::parse_doc(&chars) {
            Some(fs) => fs,
            None => {
                return Err(crate::BattleToolsError::JSONParsingError(String::from_str(
                    "the saved state is not a JSON object",
                )));
            },
        };
        proof {
            crate::jsontext::lemma_parse_doc_wf(chars@);
        }
        let k_players = crate::text::str_to_chars("players");
        let k_battle = crate::text::str_to_chars("current_battle_number");
        let k_count = crate::text::str_to_chars("cur_player_number");
        proof {
            reveal_strlit("players");
            reveal_strlit("current_battle_number");
            reveal_strlit("cur_player_number");
            assert(k_players@ =~= spec_players_key());
            assert(k_battle@ =~= spec_battle_key());
            assert(k_count@ =~= spec_count_key());
        }

        let bi = crate::jsontext::find_key(&chars, &fields, &k_battle);
        if bi == fields.len() {
            return Err(crate::BattleToolsError::InvalidLog(String::from_str(
                "the saved state has no battle counter",
            )));
        }
        let fb = fields[bi];
        proof {
            let gfs = fields@.map_values(|q: crate::jsontext::JsonField| q@);
            assert(gfs[bi as int] == fb@);
            assert(0 <= gfs[bi as int].ks);
            assert(fb@.vs < fb@.ve <= chars@.len());
        }
        let battle: u32 = match u64_digits_range(&chars, fb.vs, fb.ve) {
            Some(v) if v <= u32::MAX as u64 => v as u32,
            _ => {
                return Err(crate::BattleToolsError::InvalidLog(String::from_str(
                    "the saved battle counter is not a plain number",
                )));
            },
        };

        let ci = crate::jsontext::find_key(&chars, &fields, &k_count);
        if ci == fields.len() {
            return Err(crate::BattleToolsError::InvalidLog(String::from_str(
                "the saved state has no player counter",
            )));
        }
        let fc = fields[ci];
        proof {
            let gfs = fields@.map_values(|q: crate::jsontext::JsonField| q@);
            assert(gfs[ci as int] == fc@);
            assert(0 <= gfs[ci as int].ks);
            assert(fc@.vs < fc@.ve <= chars@.len());
        }
        let count: u64 = match u64_digits_range(&chars, fc.vs, fc.ve) {
            Some(v) => v,
            None => {
                return Err(crate::BattleToolsError::InvalidLog(String::from_str(
                    "the saved player counter is not a plain number",
                )));
            },
        };

        let pi = crate::jsontext::find_key(&chars, &fields, &k_players);
        if pi == fields.len() {
            return Err(crate::BattleToolsError::InvalidLog(String::from_str(
                "the saved state has no players map",
            )));
        }
        let fp = fields[pi];
        proof {
            let gfs = fields@.map_values(|q: crate::jsontext::JsonField| q@);
            assert(gfs[pi as int] == fp@);
            assert(0 <= gfs[pi as int].ks);
            assert(fp@.vs < fp@.ve <= chars@.len());
        }
        let ghost gsub = chars@.subrange(fp.vs as int, fp.ve as int);
        let sub = crate::text::copy_range(&chars, fp.vs, fp.ve);
        let pfs = match crate::jsontext::parse_doc(&sub) {
            Some(pfs) => pfs,
            None => {
                return Err(crate::BattleToolsError::InvalidLog(String::from_str(
                    "the saved players map is not a JSON object",
                )));
            },
        };
        proof {
            crate::jsontext::lemma_parse_doc_wf(sub@);
        }
        let sub_str = json.substring_char(fp.vs, fp.ve);
        proof {
            assert(sub_str@ == gsub);
        }

        let mut state = SharedState::new();
        let mut j: usize = 0;
        let ghost gpfs = pfs@.map_values(|q: crate::jsontext::JsonField| q@);
        proof {
            match spec_state_entries(gsub, gpfs, 0, Seq::<Seq<char>>::empty()) {
                None => {},
                Some(names) => {
                    assert(Seq::<Seq<char>>::empty() + names =~= names);
                },
            }
        }
        while j < pfs.len()
            invariant
                j <= pfs@.len(),
                gpfs == pfs@.map_values(|q: crate::jsontext::JsonField| q@),
                crate::jsontext::fields_wf(gsub, gpfs),
                gsub == sub@,
                sub_str@ == gsub,
                chars@ == json@,
                crate::jsontext::spec_parse_doc(chars@) == Some(
                    fields@.map_values(|q: crate::jsontext::JsonField| q@),
                ),
                pi as int == crate::jsontext::spec_find_key(
                    chars@,
                    fields@.map_values(|q: crate::jsontext::JsonField| q@),
                    spec_players_key(),
                    0,
                ),
                pi < fields@.len(),
                fp@ == fields@.map_values(|q: crate::jsontext::JsonField| q@)[pi as int],
                gsub == chars@.subrange(fp@.vs, fp@.ve),
                crate::jsontext::spec_parse_doc(gsub) == Some(gpfs),
                state.key_seq().len() == j,
                state.battle_num() == 0,
                match spec_state_entries(gsub, gpfs, 0, Seq::empty()) {
                    None => spec_state_entries(gsub, gpfs, j as int, state.key_seq()) is None,
                    Some(names) => match spec_state_entries(gsub, gpfs, j as int, state.key_seq()) {
                        None => false,
                        Some(rest) => names == state.key_seq() + rest,
                    },
                },
            decreases pfs@.len() - j,
        {
            let ghost seen = state.key_seq();
            let f = pfs[j];
            proof {
                assert(gpfs[j as int] == f@);
                assert(0 <= gpfs[j as int].ks);
                assert(f@.vs < f@.ve <= sub@.len());
            }
            if sub[f.vs] != '"' {
                proof {
                    assert(spec_state_entries(gsub, gpfs, j as int, seen) is None);
                    assert(spec_state_names(chars@) is None);
                }
                return Err(crate::BattleToolsError::InvalidLog(String::from_str(
                    "a saved pseudonym is not a string",
                )));
            }
            let num = match u64_digits_range(&sub, f.vs + 1, f.ve - 1) {
                Some(v) => v,
                None => {
                    proof {
                        assert(spec_state_entries(gsub, gpfs, j as int, seen) is None);
                        assert(spec_state_names(chars@) is None);
                    }
                    return Err(crate::BattleToolsError::InvalidLog(String::from_str(
                        "a saved pseudonym is not a plain number",
                    )));
                },
            };
            if !(j as u64 + 1 < u64::MAX && num == j as u64 + 1) {
                proof {
                    assert(spec_state_entries(gsub, gpfs, j as int, seen) is None);
                    assert(spec_state_names(chars@) is None);
                }
                return Err(crate::BattleToolsError::InvalidLog(String::from_str(
                    "the saved pseudonyms are out of order",
                )));
            }
            let name = match unescape_range(sub_str, &sub, f.ks, f.ke) {
                Some(s) => s,
                None => {
                    proof {
                        assert(spec_state_entries(gsub, gpfs, j as int, seen) is None);
                        assert(spec_state_names(chars@) is None);
                    }
                    return Err(crate::BattleToolsError::InvalidLog(String::from_str(
                        "a saved identity is not plainly escaped",
                    )));
                },
            };
            let ghost gname = name@;
            let got = state.assign_num(name);
            proof {
                lemma_key_index_bounds(seen, gname, 0);
            }
            if got != j as u64 + 1 {
                // the identity was already known: a duplicate entry
                proof {
                    assert(spec_key_index(seen, gname, 0) < seen.len());
                    assert(spec_state_entries(gsub, gpfs, j as int, seen) is None);
                    assert(spec_state_names(chars@) is None);
                }
                return Err(crate::BattleToolsError::InvalidLog(String::from_str(
                    "a saved identity appears twice",
                )));
            }
            proof {
                assert(spec_key_index(seen, gname, 0) == seen.len());
                assert(state.key_seq() == seen.push(gname));
                match spec_state_entries(gsub, gpfs, j as int, seen) {
                    None => {},
                    Some(rest) => {
                        assert(rest == seq![gname] + spec_state_entries(
                            gsub,
                            gpfs,
                            j + 1,
                            seen.push(gname),
                        )->0);
                        assert(seen + rest =~= seen.push(gname) + spec_state_entries(
                            gsub,
                            gpfs,
                            j + 1,
                            seen.push(gname),
                        )->0);
                    },
                }
            }
            j = j + 1;
        }
        proof {
            assert(spec_state_entries(gsub, gpfs, gpfs.len() as int, state.key_seq()) == Some(
                Seq::<Seq<char>>::empty(),
            ));
            assert(state.key_seq() + Seq::<Seq<char>>::empty() =~= state.key_seq());
        }
        if count != state.player_count() as u64 {
            return Err(crate::BattleToolsError::InvalidLog(String::from_str(
                "the saved player counter disagrees with the players map",
            )));
        }
        proof {
            use_type_invariant(&state);
        }
        state.current_battle_number = battle;
        Ok(Anonymizer { state: state, is_safe: is_safe, no_log: no_log })
    }
}

} // verus!
