//! Searching battle logs for a participant.
//!
//! A searcher holds the canonical ID of the wanted participant and two
//! optional filters. Each log either produces one report line or nothing:
//! nothing when the participant played in neither side, when only wins are
//! wanted and the participant did not win, or when only forfeits are wanted
//! and the battle did not end by forfeit.

use vstd::prelude::*;
use vstd::string::*;
use crate::id::id_of;
use crate::jsontext::JsonField;

verus! {

/// The text a searched field reads: a string's content, any other value's
/// raw text, and empty when the field or the whole object is missing.
pub open spec fn spec_search_text(doc: Seq<char>, key: Seq<char>) -> Seq<char> {
    match crate::jsontext::spec_parse_doc(doc) {
        None => Seq::empty(),
        Some(fs) => {
            let i = crate::jsontext::spec_find_key(doc, fs, key, 0);
            if i == fs.len() {
                Seq::empty()
            } else if 0 <= fs[i].vs < doc.len() && doc[fs[i].vs] == '"' {
                doc.subrange(fs[i].vs + 1, fs[i].ve - 1)
            } else {
                doc.subrange(fs[i].vs, fs[i].ve)
            }
        },
    }
}

pub open spec fn key_end_type() -> Seq<char> {
    seq!['e', 'n', 'd', 'T', 'y', 'p', 'e']
}

pub open spec fn lit_forfeit() -> Seq<char> {
    seq!['f', 'o', 'r', 'f', 'e', 'i', 't']
}

pub open spec fn lit_log_json_suffix() -> Seq<char> {
    seq!['.', 'l', 'o', 'g', '.', 'j', 's', 'o', 'n']
}

/// `s` with every occurrence of `pat` removed, scanning left to right.
pub open spec fn spec_remove_all(s: Seq<char>, pat: Seq<char>) -> Seq<char>
    decreases s.len(),
    when pat.len() >= 1
{
    if s.len() < pat.len() {
        s
    } else if s.subrange(0, pat.len() as int) == pat {
        spec_remove_all(s.skip(pat.len() as int), pat)
    } else {
        seq![s[0]] + spec_remove_all(s.skip(1), pat)
    }
}

/// Whether the searched participant played in the log.
pub open spec fn spec_is_player(doc: Seq<char>, uid: Seq<char>) -> bool {
    id_of(spec_search_text(doc, crate::anonymize::key_p1())) == uid || id_of(
        spec_search_text(doc, crate::anonymize::key_p2()),
    ) == uid
}

/// Whether the searched participant won the log.
pub open spec fn spec_user_won(doc: Seq<char>, uid: Seq<char>) -> bool {
    id_of(spec_search_text(doc, crate::anonymize::key_winner())) == uid
}

/// Whether the log ended by forfeit.
pub open spec fn spec_is_forfeit(doc: Seq<char>) -> bool {
    spec_search_text(doc, key_end_type()) == lit_forfeit()
}

/// Whether a log survives the searcher's filters.
pub open spec fn spec_search_matches(
    doc: Seq<char>,
    uid: Seq<char>,
    wins_only: bool,
    forfeits_only: bool,
) -> bool {
    &&& spec_is_player(doc, uid)
    &&& (wins_only ==> spec_user_won(doc, uid))
    &&& (forfeits_only ==> spec_is_forfeit(doc))
}

/// The phrase describing the outcome.
pub open spec fn spec_win_str(doc: Seq<char>) -> Seq<char> {
    let wid = id_of(spec_search_text(doc, crate::anonymize::key_winner()));
    if wid.len() == 0 {
        seq!['t', 'h', 'e', 'r', 'e', ' ', 'w', 'a', 's', ' ', 'n', 'o', ' ', 'w', 'i', 'n', 'n',
            'e', 'r']
    } else {
        wid + seq![' ', 'w', 'o', 'n', ' '] + if spec_is_forfeit(doc) {
            seq!['b', 'y', ' ', 'f', 'o', 'r', 'f', 'e', 'i', 't']
        } else {
            seq!['n', 'o', 'r', 'm', 'a', 'l', 'l', 'y']
        }
    }
}

/// The full report line: `(<date>) <<room>> <p1id> vs. <p2id> (<outcome>)`,
/// with the `.log.json` suffix removed from the room name.
pub open spec fn spec_report(doc: Seq<char>, date: Seq<char>, room: Seq<char>) -> Seq<char> {
    seq!['('] + date + seq![')', ' ', '<', '<'] + spec_remove_all(room, lit_log_json_suffix())
        + seq!['>', '>', ' '] + id_of(spec_search_text(doc, crate::anonymize::key_p1())) + seq![
        ' ', 'v', 's', '.', ' ',
    ] + id_of(spec_search_text(doc, crate::anonymize::key_p2())) + seq![' ', '('] + spec_win_str(
        doc,
    ) + seq![')']
}

/// Reads the text of a searched field (see `spec_search_text`).
fn search_text(
    chars: &Vec<char>,
    fields: &Option<Vec<JsonField>>,
    key: &Vec<char>,
) -> (r: Vec<char>)
    requires
        match fields {
            Some(fs) => crate::jsontext::spec_parse_doc(chars@) == Some(
                fs@.map_values(|f: JsonField| f@),
            ),
            None => crate::jsontext::spec_parse_doc(chars@) is None,
        },
    ensures
        r@ == spec_search_text(chars@, key@),
{
    let empty: Vec<char> = Vec::new();
    proof {
        assert(empty@ =~= Seq::<char>::empty());
    }
    match fields {
        None => empty,
        Some(fs) => {
            proof {
                crate::jsontext::lemma_parse_doc_wf(chars@);
            }
            let i = crate::jsontext::find_key(chars, fs, key);
            if i == fs.len() {
                return empty;
            }
            let f = fs[i];
            proof {
                let gfs = fs@.map_values(|q: JsonField| q@);
                assert(gfs[i as int] == f@);
                assert(0 <= gfs[i as int].ks);
                assert(f@.vs < f@.ve <= chars@.len());
            }
            if chars[f.vs] == '"' {
                crate::text::copy_range(chars, f.vs + 1, f.ve - 1)
            } else {
                crate::text::copy_range(chars, f.vs, f.ve)
            }
        },
    }
}

/// Appends `s` with every occurrence of `pat` removed.
fn append_removed(out: &mut String, s: &str, chars: &Vec<char>, pat: &Vec<char>)
    requires
        chars@ == s@,
        pat@.len() >= 1,
    ensures
        final(out)@ == old(out)@ + spec_remove_all(s@, pat@),
{
    let n = chars.len();
    let mut i: usize = 0;
    proof {
        assert(chars@.skip(0) =~= chars@);
    }
    while i < n
        invariant
            i <= n,
            n == chars@.len(),
            chars@ == s@,
            pat@.len() >= 1,
            old(out)@ + spec_remove_all(chars@, pat@) == out@ + spec_remove_all(
                chars@.skip(i as int),
                pat@,
            ),
        decreases n - i,
    {
        let ghost rem = chars@.skip(i as int);
        let m = crate::text::check_match_at(chars, i, pat);
        proof {
            if i + pat@.len() <= chars@.len() {
                assert(rem.subrange(0, pat@.len() as int) =~= chars@.subrange(
                    i as int,
                    i + pat@.len(),
                ));
            }
        }
        if m {
            proof {
                assert(rem.skip(pat@.len() as int) =~= chars@.skip(i + pat@.len()));
            }
            i = i + pat.len();
        } else {
            proof {
                if rem.len() >= pat@.len() {
                    assert(spec_remove_all(rem, pat@) == seq![rem[0]] + spec_remove_all(
                        rem.skip(1),
                        pat@,
                    ));
                } else {
                    assert(rem.len() >= 1);
                    assert(spec_remove_all(rem, pat@) == rem);
                    assert(rem =~= seq![rem[0]] + rem.skip(1));
                    assert(spec_remove_all(rem.skip(1), pat@) == rem.skip(1));
                }
                assert(rem[0] == chars@[i as int]);
                assert(rem.skip(1) =~= chars@.skip(i + 1));
            }
            let piece = s.substring_char(i, i + 1);
            proof {
                assert(piece@ =~= seq![chars@[i as int]]);
            }
            out.append(piece);
            i = i + 1;
        }
    }
    proof {
        assert(chars@.skip(n as int) =~= Seq::<char>::empty());
        assert(spec_remove_all(Seq::<char>::empty(), pat@) =~= Seq::<char>::empty());
        assert(out@ + Seq::<char>::empty() =~= out@);
    }
}

/// Searches battle logs for one participant, with optional win and forfeit
/// filters.
pub struct BattleSearcher {
    pub user_id: String,
    pub wins_only: bool,
    pub forfeits_only: bool,
}

impl BattleSearcher {
    /// A searcher for `username`, keyed by its canonical ID.
    pub fn new(username: &str, wins_only: bool, forfeits_only: bool) -> (s: Self)
        ensures
            s.user_id@ == id_of(username@),
            s.wins_only == wins_only,
            s.forfeits_only == forfeits_only,
    {
        BattleSearcher {
            user_id: crate::id::to_id(username),
            wins_only: wins_only,
            forfeits_only: forfeits_only,
        }
    }

    /// Examines one log: the report line when the log survives the
    /// searcher's filters, nothing otherwise. `date` names the directory
    /// the log came from and `room` its file name.
    #[verifier::rlimit(100)]
    pub fn handle_log_file(&self, raw_json: &str, date: &str, room: &str) -> (r: Result<
        Option<String>,
        crate::BattleToolsError,
    >)
        ensures
            r is Ok,
            match r->Ok_0 {
                Some(line) => spec_search_matches(
                    raw_json@,
                    self.user_id@,
                    self.wins_only,
                    self.forfeits_only,
                ) && line@ == spec_report(raw_json@, date@, room@),
                None => !spec_search_matches(
                    raw_json@,
                    self.user_id@,
                    self.wins_only,
                    self.forfeits_only,
                ),
            },
    {
        let chars = crate::text::str_to_chars(raw_json);
        let fields = crate::jsontext::parse_doc(&chars);
        let k_p1 = crate::text::str_to_chars("p1");
        let k_p2 = crate::text::str_to_chars("p2");
        let k_w = crate::text::str_to_chars("winner");
        let k_et = crate::text::str_to_chars("endType");
        let forfeit = crate::text::str_to_chars("forfeit");
        proof {
            reveal_strlit("p1");
            reveal_strlit("p2");
            reveal_strlit("winner");
            reveal_strlit("endType");
            reveal_strlit("forfeit");
            assert(k_p1@ =~= crate::anonymize::key_p1());
            assert(k_p2@ =~= crate::anonymize::key_p2());
            assert(k_w@ =~= crate::anonymize::key_winner());
            assert(k_et@ =~= key_end_type());
            assert(forfeit@ =~= lit_forfeit());
        }
        let p1t = search_text(&chars, &fields, &k_p1);
        let p2t = search_text(&chars, &fields, &k_p2);
        let wt = search_text(&chars, &fields, &k_w);
        let ett = search_text(&chars, &fields, &k_et);
        let p1id = crate::id::id_string_of_chars(&p1t);
        let p2id = crate::id::id_string_of_chars(&p2t);
        let wid = crate::id::id_string_of_chars(&wt);
        let p1_is_user = p1id == self.user_id;
        let p2_is_user = p2id == self.user_id;
        if !p1_is_user && !p2_is_user {
            return Ok(None);
        }
        let user_won = wid == self.user_id;
        if self.wins_only && !user_won {
            return Ok(None);
        }
        let is_forfeit = ett.len() == forfeit.len() && crate::text::check_match_at(
            &ett,
            0,
            &forfeit,
        );
        proof {
            if is_forfeit {
                assert(ett@.subrange(0, forfeit@.len() as int) =~= ett@);
            } else {
                if ett@ == forfeit@ {
                    assert(ett@.subrange(0, forfeit@.len() as int) =~= ett@);
                }
            }
            assert(is_forfeit == spec_is_forfeit(raw_json@));
        }
        if self.forfeits_only && !is_forfeit {
            return Ok(None);
        }
        let mut line = String::new();
        line.append("(");
        line.append(date);
        line.append(") <<");
        let room_chars = crate::text::str_to_chars(room);
        let suffix = crate::text::str_to_chars(".log.json");
        proof {
            reveal_strlit("(");
            reveal_strlit(") <<");
            reveal_strlit(".log.json");
            assert("("@ =~= seq!['(']);
            assert(") <<"@ =~= seq![')', ' ', '<', '<']);
            assert(suffix@ =~= lit_log_json_suffix());
        }
        append_removed(&mut line, room, &room_chars, &suffix);
        line.append(">> ");
        line.append(p1id.as_str());
        line.append(" vs. ");
        line.append(p2id.as_str());
        line.append(" (");
        proof {
            reveal_strlit(">> ");
            reveal_strlit(" vs. ");
            reveal_strlit(" (");
            assert(">> "@ =~= seq!['>', '>', ' ']);
            assert(" vs. "@ =~= seq![' ', 'v', 's', '.', ' ']);
            assert(" ("@ =~= seq![' ', '(']);
        }
        if wid.as_str().unicode_len() == 0 {
            line.append("there was no winner");
            proof {
                reveal_strlit("there was no winner");
                assert("there was no winner"@ =~= seq![
                    't', 'h', 'e', 'r', 'e', ' ', 'w', 'a', 's', ' ', 'n', 'o', ' ', 'w', 'i', 'n',
                    'n', 'e', 'r',
                ]);
            }
        } else {
            line.append(wid.as_str());
            line.append(" won ");
            proof {
                reveal_strlit(" won ");
                assert(" won "@ =~= seq![' ', 'w', 'o', 'n', ' ']);
            }
            if is_forfeit {
                line.append("by forfeit");
                proof {
                    reveal_strlit("by forfeit");
                    assert("by forfeit"@ =~= seq!['b', 'y', ' ', 'f', 'o', 'r', 'f', 'e', 'i', 't']);
                }
            } else {
                line.append("normally");
                proof {
                    reveal_strlit("normally");
                    assert("normally"@ =~= seq!['n', 'o', 'r', 'm', 'a', 'l', 'l', 'y']);
                }
            }
        }
        line.append(")");
        proof {
            reveal_strlit(")");
            assert(")"@ =~= seq![')']);
            assert(line@ =~= spec_report(raw_json@, date@, room@));
        }
        Ok(Some(line))
    }

    /// The searcher reports as it goes, so the fold step does nothing:
    /// it succeeds and leaves the searcher untouched.
    pub fn handle_results(&mut self, results: Vec<Option<String>>) -> (r: Result<
        (),
        crate::BattleToolsError,
    >)
        ensures
            r is Ok,
            *final(self) == *old(self),
    {
        let items = results;
        Ok(())
    }
}

impl crate::directory::LogParser<Option<String>> for BattleSearcher {
    /// The searcher's state: the canonical ID and the two filters. A run
    /// never changes it.
    type VS = (Seq<char>, bool, bool);

    /// One per-file result: the report line, when the log matched.
    type VR = Option<Seq<char>>;

    open spec fn state_model(self) -> (Seq<char>, bool, bool) {
        (self.user_id@, self.wins_only, self.forfeits_only)
    }

    open spec fn result_model(r: Option<String>) -> Option<Seq<char>> {
        match r {
            Some(s) => Some(s@),
            None => None,
        }
    }

    open spec fn on_file(
        s: (Seq<char>, bool, bool),
        content: Seq<char>,
        dir: Seq<char>,
        file: Seq<char>,
    ) -> ((Seq<char>, bool, bool), Option<Option<Seq<char>>>) {
        (
            s,
            Some(
                if spec_search_matches(content, s.0, s.1, s.2) {
                    Some(spec_report(content, dir, file))
                } else {
                    None
                },
            ),
        )
    }

    open spec fn on_fold(s: (Seq<char>, bool, bool), rs: Seq<Option<Seq<char>>>) -> (
        (Seq<char>, bool, bool),
        bool,
    ) {
        (s, true)
    }

    /// Examines one log; `dir_name` is the date and `file_name` the room.
    fn handle_log_file(&mut self, raw_json: &str, dir_name: &str, file_name: &str) -> (r: Result<
        Option<String>,
        crate::BattleToolsError,
    >) {
        BattleSearcher::handle_log_file(self, raw_json, dir_name, file_name)
    }

    /// The searcher reports as it goes; nothing to fold.
    fn handle_results(&mut self, results: Vec<Option<String>>) -> (r: Result<
        (),
        crate::BattleToolsError,
    >) {
        BattleSearcher::handle_results(self, results)
    }
}

} // verus!
