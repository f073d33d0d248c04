//! Win-rate statistics over battle logs.
//!
//! Each log below no rating floor contributes one `(species, won)` record
//! per team member on each side; records are folded into per-species game
//! and win counters held in an insertion-ordered map, and ranked by a
//! deviation score that scales the win rate's distance from even by the
//! square root of the sample size.

use vstd::prelude::*;
use vstd::string::*;
use crate::jsontext::JsonField;

verus! {

/// Declares indexmap's ordered map so that it can be held in fields and
/// spoken of in contracts.
#[verifier::external_type_specification]
#[verifier::external_body]
#[verifier::reject_recursive_types(K)]
#[verifier::reject_recursive_types(V)]
#[verifier::reject_recursive_types(S)]
pub struct ExIndexMap<K, V, S>(indexmap::IndexMap<K, V, S>);

/// What a species map holds: its key-value pairs, in order.
pub uninterp spec fn im_entries(m: indexmap::IndexMap<String, (u32, u32)>) -> Seq<
    (Seq<char>, (u32, u32)),
>;

/// The first index in `es` (at or after `j`) holding the key `key`, or
/// `es.len()`.
pub open spec fn entry_index(es: Seq<(Seq<char>, (u32, u32))>, key: Seq<char>, j: int) -> int
    decreases es.len() - j,
    when 0 <= j <= es.len()
{
    if j == es.len() {
        j
    } else if es[j].0 == key {
        j
    } else {
        entry_index(es, key, j + 1)
    }
}

pub proof fn lemma_entry_index_bounds(es: Seq<(Seq<char>, (u32, u32))>, key: Seq<char>, j: int)
    requires
        0 <= j <= es.len(),
    ensures
        j <= entry_index(es, key, j) <= es.len(),
        entry_index(es, key, j) < es.len() ==> es[entry_index(es, key, j)].0 == key,
        forall|k: int| j <= k < entry_index(es, key, j) ==> es[k].0 != key,
    decreases es.len() - j,
{
    if j < es.len() && es[j].0 != key {
        lemma_entry_index_bounds(es, key, j + 1);
    }
}

/// Whether the keys of an entry list are pairwise distinct.
pub open spec fn distinct_keys(es: Seq<(Seq<char>, (u32, u32))>) -> bool {
    forall|i: int, j: int| 0 <= i < j < es.len() ==> (#[trigger] es[i]).0 != (#[trigger] es[j]).0
}

/// Relies on `IndexMap::new`: a fresh map is empty.
#[verifier::external_body]
fn im_new() -> (m: indexmap::IndexMap<String, (u32, u32)>)
    ensures
        im_entries(m) == Seq::<(Seq<char>, (u32, u32))>::empty(),
{
    indexmap::IndexMap::new()
}

/// Relies on `IndexMap::get`: the value stored under an equivalent key,
/// or `None` when the key is absent.
#[verifier::external_body]
fn im_get(m: &indexmap::IndexMap<String, (u32, u32)>, key: &String) -> (r: Option<(u32, u32)>)
    requires
        distinct_keys(im_entries(*m)),
    ensures
        ({
            let es = im_entries(*m);
            let i = entry_index(es, key@, 0);
            if i < es.len() {
                r == Some(es[i].1)
            } else {
                r is None
            }
        }),
{
    m.get(key).copied()
}

/// Relies on `IndexMap::insert`: an existing key keeps its place and its
/// spelling and only the value changes; a new key is appended last.
#[verifier::external_body]
fn im_insert(m: &mut indexmap::IndexMap<String, (u32, u32)>, key: String, v: (u32, u32))
    requires
        distinct_keys(im_entries(*old(m))),
    ensures
        ({
            let es = im_entries(*old(m));
            let i = entry_index(es, key@, 0);
            if i < es.len() {
                im_entries(*final(m)) == es.update(i, (es[i].0, v))
            } else {
                im_entries(*final(m)) == es.push((key@, v))
            }
        }),
{
    m.insert(key, v);
}

/// Relies on `IndexMap::iter`: the key-value pairs in order.
#[verifier::external_body]
fn im_pairs(m: &indexmap::IndexMap<String, (u32, u32)>) -> (r: Vec<(String, (u32, u32))>)
    ensures
        r@.len() == im_entries(*m).len(),
        forall|j: int|
            0 <= j < r@.len() ==> ((#[trigger] r@[j]).0@, r@[j].1) == im_entries(*m)[j],
{
    m.iter().map(|p| (p.0.clone(), *p.1)).collect()
}

/// Whether the record `a` ranks strictly above `b`: its deviation score
/// `(2 wins - games) / sqrt(games)` is larger. Stated squared, over the
/// integers, so no roots are needed.
pub open spec fn spec_dev_gt(a: (u32, u32), b: (u32, u32)) -> bool {
    let na = 2 * (a.1 as int) - (a.0 as int);
    let nb = 2 * (b.1 as int) - (b.0 as int);
    if na >= 0 && nb < 0 {
        true
    } else if na < 0 && nb >= 0 {
        false
    } else if na >= 0 {
        na * na * (b.0 as int) > nb * nb * (a.0 as int)
    } else {
        na * na * (b.0 as int) < nb * nb * (a.0 as int)
    }
}

/// Decides `spec_dev_gt` both ways and returns the descending order.
fn dev_cmp(a: (u32, u32), b: (u32, u32)) -> (r: core::cmp::Ordering)
    ensures
        r == core::cmp::Ordering::Less <==> spec_dev_gt(a, b),
        r == core::cmp::Ordering::Greater <==> spec_dev_gt(b, a),
{
    let na: i128 = 2 * (a.1 as i128) - (a.0 as i128);
    let nb: i128 = 2 * (b.1 as i128) - (b.0 as i128);
    if na >= 0 && nb < 0 {
        core::cmp::Ordering::Less
    } else if na < 0 && nb >= 0 {
        core::cmp::Ordering::Greater
    } else {
        proof {
            assert(0 <= na * na <= 0x40000000000000000i128) by (nonlinear_arith)
                requires
                    -0x200000000i128 <= na <= 0x200000000i128,
            ;
            assert(0 <= nb * nb <= 0x40000000000000000i128) by (nonlinear_arith)
                requires
                    -0x200000000i128 <= nb <= 0x200000000i128,
            ;
            assert(na * na * (b.0 as i128) <= 0x4000000000000000000000000i128) by (nonlinear_arith)
                requires
                    0 <= na * na <= 0x40000000000000000i128,
                    0 <= (b.0 as i128) <= 0x100000000i128,
            ;
            assert(nb * nb * (a.0 as i128) <= 0x4000000000000000000000000i128) by (nonlinear_arith)
                requires
                    0 <= nb * nb <= 0x40000000000000000i128,
                    0 <= (a.0 as i128) <= 0x100000000i128,
            ;
            assert(na * na * (b.0 as i128) >= 0) by (nonlinear_arith)
                requires
                    0 <= na * na,
                    0 <= (b.0 as i128),
            ;
            assert(nb * nb * (a.0 as i128) >= 0) by (nonlinear_arith)
                requires
                    0 <= nb * nb,
                    0 <= (a.0 as i128),
            ;
        }
        let la = na * na * (b.0 as i128);
        let lb = nb * nb * (a.0 as i128);
        proof {
            assert(na * na * (b.0 as i128) == (2 * (a.1 as int) - (a.0 as int)) * (2 * (a.1 as int)
                - (a.0 as int)) * (b.0 as int)) by (nonlinear_arith)
                requires
                    na == 2 * (a.1 as int) - (a.0 as int),
            ;
            assert(nb * nb * (a.0 as i128) == (2 * (b.1 as int) - (b.0 as int)) * (2 * (b.1 as int)
                - (b.0 as int)) * (a.0 as int)) by (nonlinear_arith)
                requires
                    nb == 2 * (b.1 as int) - (b.0 as int),
            ;
        }
        if na >= 0 {
            if la > lb {
                core::cmp::Ordering::Less
            } else if la < lb {
                core::cmp::Ordering::Greater
            } else {
                core::cmp::Ordering::Equal
            }
        } else {
            if la < lb {
                core::cmp::Ordering::Less
            } else if la > lb {
                core::cmp::Ordering::Greater
            } else {
                core::cmp::Ordering::Equal
            }
        }
    }
}

/// Whether the entries are in descending deviation order.
pub open spec fn entries_sorted(es: Seq<(Seq<char>, (u32, u32))>) -> bool {
    forall|i: int, j: int|
        0 <= i < j < es.len() ==> !spec_dev_gt((#[trigger] es[j]).1, (#[trigger] es[i]).1)
}

/// Relies on `IndexMap::sort_by` with the verified comparator: afterwards
/// the same entries are held, in descending deviation order. Every entry
/// must have at least one game: with positive game counters the comparator
/// is a comparison of rationals and so a total preorder, which the sort
/// needs. The sort is documented stable, so input that is already in order
/// comes back unchanged.
#[verifier::external_body]
fn im_sort(m: &mut indexmap::IndexMap<String, (u32, u32)>)
    requires
        forall|j: int|
            0 <= j < im_entries(*old(m)).len() ==> 1 <= (#[trigger] im_entries(*old(m))[j]).1.0,
    ensures
        im_entries(*final(m)).to_multiset() == im_entries(*old(m)).to_multiset(),
        entries_sorted(im_entries(*final(m))),
        distinct_keys(im_entries(*old(m))) ==> distinct_keys(im_entries(*final(m))),
        entries_sorted(im_entries(*old(m))) ==> im_entries(*final(m)) == im_entries(*old(m)),
{
    m.sort_by(|_k1, v1, _k2, v2| dev_cmp(*v1, *v2));
}

/// One per-team-member outcome taken from a log: a normalized species name
/// and whether that side won.
#[derive(Debug)]
pub struct GameResult {
    pub species: String,
    pub won: bool,
}

/// Per-species game and win counters, accumulated across logs. Entries are
/// kept in first-appearance order until sorted by deviation score.
pub struct Stats {
    pokemon: indexmap::IndexMap<String, (u32, u32)>,
    is_sorted: bool,
}

/// How one record changes the entry list: a known species gains a game
/// (and possibly a win), a new one starts at one game.
pub open spec fn spec_add_one(
    es: Seq<(Seq<char>, (u32, u32))>,
    species: Seq<char>,
    won: bool,
) -> Seq<(Seq<char>, (u32, u32))> {
    let w: u32 = if won {
        1
    } else {
        0
    };
    let i = entry_index(es, species, 0);
    if i < es.len() {
        es.update(i, (es[i].0, ((es[i].1.0 + 1) as u32, (es[i].1.1 + w) as u32)))
    } else {
        es.push((species, (1u32, w)))
    }
}

/// How a batch of records changes the entry list, first record first.
pub open spec fn spec_add_batch(
    es: Seq<(Seq<char>, (u32, u32))>,
    rs: Seq<(Seq<char>, bool)>,
) -> Seq<(Seq<char>, (u32, u32))>
    decreases rs.len(),
{
    if rs.len() == 0 {
        es
    } else {
        spec_add_batch(spec_add_one(es, rs[0].0, rs[0].1), rs.skip(1))
    }
}

impl Stats {
    /// The per-species entries, in their current order.
    pub closed spec fn entries(&self) -> Seq<(Seq<char>, (u32, u32))> {
        im_entries(self.pokemon)
    }

    /// Keys are distinct, wins never exceed games, every entry has at
    /// least one game, and a set sorted flag means the entries are sorted.
    #[verifier::type_invariant]
    pub closed spec fn wf(&self) -> bool {
        &&& distinct_keys(self.entries())
        &&& forall|j: int|
            0 <= j < self.entries().len() ==> {
                let e = #[trigger] self.entries()[j];
                1 <= e.1.0 && e.1.1 <= e.1.0
            }
        &&& (self.is_sorted ==> entries_sorted(self.entries()))
    }

    /// A fresh, empty statistics accumulator.
    pub fn new() -> (s: Self)
        ensures
            s.entries() == Seq::<(Seq<char>, (u32, u32))>::empty(),
    {
        Stats { pokemon: im_new(), is_sorted: false }
    }

    /// Sorts the entries by descending deviation score. The same entries
    /// are kept; only their order changes, and entries already in order
    /// stay exactly where they are — so sorting twice equals sorting once.
    pub fn sort(&mut self)
        ensures
            final(self).entries().to_multiset() == old(self).entries().to_multiset(),
            entries_sorted(final(self).entries()),
            entries_sorted(old(self).entries()) ==> final(self).entries() == old(self).entries(),
    {
        proof {
            use_type_invariant(&*self);
        }
        if !self.is_sorted {
            let mut pk = im_new();
            core::mem::swap(&mut self.pokemon, &mut pk);
            im_sort(&mut pk);
            proof {
                lemma_multiset_wf_back(im_entries(pk), old(self).entries());
            }
            core::mem::swap(&mut self.pokemon, &mut pk);
            self.is_sorted = true;
        } else {
            proof {
                assert(self.entries().to_multiset() =~= old(self).entries().to_multiset());
            }
        }
    }

    /// Folds one batch of per-file records into the counters.
    pub fn add_game_results(&mut self, results: Vec<GameResult>)
        requires
            results@.len() <= u32::MAX,
            forall|j: int|
                0 <= j < old(self).entries().len() ==> (#[trigger] old(self).entries()[j]).1.0
                    + results@.len() <= u32::MAX,
        ensures
            final(self).entries() == spec_add_batch(
                old(self).entries(),
                results@.map_values(|g: GameResult| (g.species@, g.won)),
            ),
    {
        proof {
            use_type_invariant(&*self);
        }
        let ghost grs = results@.map_values(|g: GameResult| (g.species@, g.won));
        if results.len() == 0 {
            proof {
                assert(spec_add_batch(self.entries(), grs) == self.entries());
            }
            return ;
        }
        self.is_sorted = false;
        let mut pk = im_new();
        core::mem::swap(&mut self.pokemon, &mut pk);
        let mut k: usize = 0;
        let items = results;
        proof {
            assert(grs.skip(0) =~= grs);
        }
        while k < items.len()
            invariant
                k <= items@.len(),
                grs == items@.map_values(|g: GameResult| (g.species@, g.won)),
                distinct_keys(im_entries(pk)),
                forall|j: int|
                    0 <= j < im_entries(pk).len() ==> {
                        let e = #[trigger] im_entries(pk)[j];
                        1 <= e.1.0 && e.1.1 <= e.1.0
                    },
                forall|j: int|
                    0 <= j < im_entries(pk).len() ==> (#[trigger] im_entries(pk)[j]).1.0 + (
                    items@.len() - k) <= u32::MAX,
                items@.len() <= u32::MAX,
                spec_add_batch(old(self).entries(), grs) == spec_add_batch(
                    im_entries(pk),
                    grs.skip(k as int),
                ),
            decreases items@.len() - k,
        {
            let ghost es = im_entries(pk);
            let species = items[k].species.clone();
            let won = items[k].won;
            proof {
                assert(grs[k as int] == (items@[k as int].species@, items@[k as int].won));
                lemma_entry_index_bounds(es, species@, 0);
            }
            let w: u32 = if won {
                1
            } else {
                0
            };
            match im_get(&pk, &species) {
                Some(gw) => {
                    proof {
                        let i = entry_index(es, species@, 0);
                        assert(es[i].1 == gw);
                        assert(es[i].1.0 + (items@.len() - k) <= u32::MAX);
                        assert(es[i].1.1 <= es[i].1.0);
                    }
                    im_insert(&mut pk, species, (gw.0 + 1, gw.1 + w));
                    proof {
                        let i = entry_index(es, species@, 0);
                        let es2 = im_entries(pk);
                        assert(es2 == spec_add_one(es, grs[k as int].0, grs[k as int].1));
                        assert(distinct_keys(es2)) by {
                            assert(forall|j: int|
                                0 <= j < es2.len() ==> (#[trigger] es2[j]).0 == es[j].0);
                        }
                        assert forall|j: int|
                            0 <= j < es2.len() implies {
                            let e = #[trigger] es2[j];
                            &&& 1 <= e.1.0
                            &&& e.1.1 <= e.1.0
                            &&& e.1.0 + (items@.len() - (k + 1)) <= u32::MAX
                        } by {
                            if j != i {
                                assert(es2[j] == es[j]);
                            }
                        }
                    }
                },
                None => {
                    im_insert(&mut pk, species, (1, w));
                    proof {
                        let es2 = im_entries(pk);
                        assert(es2 == spec_add_one(es, grs[k as int].0, grs[k as int].1));
                        lemma_entry_index_bounds(es, grs[k as int].0, 0);
                        assert(distinct_keys(es2)) by {
                            assert(forall|j: int| 0 <= j < es.len() ==> (#[trigger] es2[j]) == es[j]);
                            assert(es2[es.len() as int].0 == grs[k as int].0);
                            assert(forall|j: int| 0 <= j < es.len() ==> es[j].0 != grs[k as int].0);
                        }
                        assert forall|j: int|
                            0 <= j < es2.len() implies {
                            let e = #[trigger] es2[j];
                            &&& 1 <= e.1.0
                            &&& e.1.1 <= e.1.0
                            &&& e.1.0 + (items@.len() - (k + 1)) <= u32::MAX
                        } by {
                            if j < es.len() {
                                assert(es2[j] == es[j]);
                            } else {
                                assert(es2[j] == (grs[k as int].0, (1u32, w)));
                            }
                        }
                    }
                },
            }
            proof {
                assert(grs.skip(k as int).skip(1) =~= grs.skip(k + 1));
                assert(grs.skip(k as int)[0] == grs[k as int]);
                assert(spec_add_batch(im_entries(pk), grs.skip(k + 1)) == spec_add_batch(
                    es,
                    grs.skip(k as int),
                ));
            }
            k = k + 1;
        }
        core::mem::swap(&mut self.pokemon, &mut pk);
        proof {
            assert(grs.skip(grs.len() as int) =~= Seq::<(Seq<char>, bool)>::empty());
        }
    }

    /// The entries as concrete pairs, for rendering and for tests.
    pub fn rows(&self) -> (r: Vec<(String, (u32, u32))>)
        ensures
            r@.len() == self.entries().len(),
            forall|j: int|
                0 <= j < r@.len() ==> ((#[trigger] r@[j]).0@, r@[j].1) == self.entries()[j],
    {
        im_pairs(&self.pokemon)
    }
}

proof fn lemma_multiset_wf_back(es2: Seq<(Seq<char>, (u32, u32))>, es: Seq<(Seq<char>, (u32, u32))>)
    requires
        es2.to_multiset() == es.to_multiset(),
        forall|j: int|
            0 <= j < es.len() ==> {
                let e = #[trigger] es[j];
                1 <= e.1.0 && e.1.1 <= e.1.0
            },
    ensures
        forall|j: int|
            0 <= j < es2.len() ==> {
                let e = #[trigger] es2[j];
                1 <= e.1.0 && e.1.1 <= e.1.0
            },
{
    assert forall|j: int|
        0 <= j < es2.len() implies {
        let e = #[trigger] es2[j];
        1 <= e.1.0 && e.1.1 <= e.1.0
    } by {
        broadcast use vstd::seq_lib::group_seq_properties;

        assert(es2.to_multiset().contains(es2[j]));
        assert(es.to_multiset().contains(es2[j]));
        assert(es.contains(es2[j]));
        let i = choose|i: int| 0 <= i < es.len() && es[i] == es2[j];
        assert(1 <= es[i].1.0 && es[i].1.1 <= es[i].1.0);
    }
}

pub open spec fn key_species() -> Seq<char> {
    seq!['s', 'p', 'e', 'c', 'i', 'e', 's']
}

pub open spec fn key_p1team() -> Seq<char> {
    seq!['p', '1', 't', 'e', 'a', 'm']
}

pub open spec fn key_p2team() -> Seq<char> {
    seq!['p', '2', 't', 'e', 'a', 'm']
}

/// The raw value text of a field, or `None` when the document does not
/// parse or has no such field.
pub open spec fn spec_raw_val(doc: Seq<char>, key: Seq<char>) -> Option<Seq<char>> {
    match crate::jsontext::spec_parse_doc(doc) {
        None => None,
        Some(fs) => {
            let i = crate::jsontext::spec_find_key(doc, fs, key, 0);
            if i == fs.len() {
                None
            } else {
                Some(doc.subrange(fs[i].vs, fs[i].ve))
            }
        },
    }
}

/// The text that a two-step path reads: the field `k2` inside the object
/// field `k1`, taking a string's content and any other value's raw text.
/// Missing pieces read as empty text.
pub open spec fn spec_path2_text(doc: Seq<char>, k1: Seq<char>, k2: Seq<char>) -> Seq<char> {
    match crate::jsontext::spec_parse_doc(doc) {
        None => Seq::empty(),
        Some(fs) => {
            let i = crate::jsontext::spec_find_key(doc, fs, k1, 0);
            if i == fs.len() {
                Seq::empty()
            } else {
                let sub = doc.subrange(fs[i].vs, fs[i].ve);
                match crate::jsontext::spec_parse_doc(sub) {
                    None => Seq::empty(),
                    Some(sfs) => {
                        let j = crate::jsontext::spec_find_key(sub, sfs, k2, 0);
                        if j == sfs.len() {
                            Seq::empty()
                        } else if 0 <= sfs[j].vs < sub.len() && sub[sfs[j].vs] == '"' {
                            sub.subrange(sfs[j].vs + 1, sfs[j].ve - 1)
                        } else {
                            sub.subrange(sfs[j].vs, sfs[j].ve)
                        }
                    },
                }
            }
        },
    }
}

/// The rating floor value of one side, read from `<ratingkey>.elo`.
pub open spec fn spec_doc_elo(doc: Seq<char>, ratingkey: Seq<char>) -> int {
    crate::num::spec_elo_floor(spec_path2_text(doc, ratingkey, crate::anonymize::key_elo()))
}

/// Whether a side won: its raw name value equals the raw winner value
/// (both-absent counts as equal).
pub open spec fn spec_won(doc: Seq<char>, sidekey: Seq<char>) -> bool {
    spec_raw_val(doc, sidekey) == spec_raw_val(doc, crate::anonymize::key_winner())
}

/// The species label with regional and cosmetic form suffixes collapsed to
/// the base species, via a fixed lookup.
pub open spec fn spec_normalize(s: Seq<char>) -> Seq<char> {
    if crate::text::starts_with_seq(s, seq!['P', 'i', 'k', 'a', 'c', 'h', 'u', '-']) {
        seq!['P', 'i', 'k', 'a', 'c', 'h', 'u']
    } else if crate::text::starts_with_seq(s, seq!['U', 'n', 'o', 'w', 'n', '-']) {
        seq!['U', 'n', 'o', 'w', 'n']
    } else if s == seq!['G', 'a', 's', 't', 'r', 'o', 'd', 'o', 'n', '-', 'E', 'a', 's', 't'] {
        seq!['G', 'a', 's', 't', 'r', 'o', 'd', 'o', 'n']
    } else if s == seq![
        'M', 'a', 'g', 'e', 'a', 'r', 'n', 'a', '-', 'O', 'r', 'i', 'g', 'i', 'n', 'a', 'l',
    ] {
        seq!['M', 'a', 'g', 'e', 'a', 'r', 'n', 'a']
    } else if s == seq!['G', 'e', 'n', 'e', 's', 'e', 'c', 't', '-', 'D', 'o', 'u', 's', 'e'] {
        seq!['G', 'e', 'n', 'e', 's', 'e', 'c', 't']
    } else if crate::text::starts_with_seq(s, seq!['B', 'a', 's', 'c', 'u', 'l', 'i', 'n', '-']) {
        seq!['B', 'a', 's', 'c', 'u', 'l', 'i', 'n']
    } else if crate::text::starts_with_seq(s, seq!['S', 'a', 'w', 's', 'b', 'u', 'c', 'k', '-']) {
        seq!['S', 'a', 'w', 's', 'b', 'u', 'c', 'k']
    } else if crate::text::starts_with_seq(s, seq!['V', 'i', 'v', 'i', 'l', 'l', 'o', 'n', '-']) {
        seq!['V', 'i', 'v', 'i', 'l', 'l', 'o', 'n']
    } else if crate::text::starts_with_seq(s, seq!['F', 'l', 'o', 'r', 'g', 'e', 's', '-']) {
        seq!['F', 'l', 'o', 'r', 'g', 'e', 's']
    } else if crate::text::starts_with_seq(s, seq!['F', 'u', 'r', 'f', 'r', 'o', 'u', '-']) {
        seq!['F', 'u', 'r', 'f', 'r', 'o', 'u']
    } else if crate::text::starts_with_seq(s, seq!['M', 'i', 'n', 'i', 'o', 'r', '-']) {
        seq!['M', 'i', 'n', 'i', 'o', 'r']
    } else if crate::text::starts_with_seq(s, seq!['G', 'o', 'u', 'r', 'g', 'e', 'i', 's', 't', '-']) {
        seq!['G', 'o', 'u', 'r', 'g', 'e', 'i', 's', 't']
    } else if crate::text::starts_with_seq(s, seq![
        'T', 'o', 'x', 't', 'r', 'i', 'c', 'i', 't', 'y', '-',
    ]) {
        seq!['T', 'o', 'x', 't', 'r', 'i', 'c', 'i', 't', 'y']
    } else {
        s
    }
}

/// The records one team contributes: each member object with a string
/// `species` field yields `(normalized species, won)`.
pub open spec fn spec_team_elems(
    sub: Seq<char>,
    es: Seq<(int, int)>,
    k: int,
    won: bool,
) -> Seq<(Seq<char>, bool)>
    decreases es.len() - k,
    when 0 <= k <= es.len()
{
    if k == es.len() {
        Seq::empty()
    } else {
        let e = es[k];
        let head = if 0 <= e.0 <= e.1 <= sub.len() {
            let esub = sub.subrange(e.0, e.1);
            match crate::jsontext::spec_parse_doc(esub) {
                None => Seq::<(Seq<char>, bool)>::empty(),
                Some(efs) => {
                    let j = crate::jsontext::spec_find_key(esub, efs, key_species(), 0);
                    if j == efs.len() {
                        Seq::<(Seq<char>, bool)>::empty()
                    } else if 0 <= efs[j].vs < esub.len() && esub[efs[j].vs] == '"' {
                        seq![
                            (spec_normalize(esub.subrange(efs[j].vs + 1, efs[j].ve - 1)), won),
                        ]
                    } else {
                        Seq::<(Seq<char>, bool)>::empty()
                    }
                },
            }
        } else {
            Seq::<(Seq<char>, bool)>::empty()
        };
        head + spec_team_elems(sub, es, k + 1, won)
    }
}

/// The records of the team under `teamkey`.
pub open spec fn spec_team_results(doc: Seq<char>, teamkey: Seq<char>, won: bool) -> Seq<
    (Seq<char>, bool),
> {
    match spec_raw_val(doc, teamkey) {
        None => Seq::empty(),
        Some(sub) => match crate::jsontext::spec_parse_arr(sub) {
            None => Seq::empty(),
            Some(es) => spec_team_elems(sub, es, 0, won),
        },
    }
}

/// What one log contributes to the statistics: nothing when either side's
/// rating floor falls below `min_elo`, otherwise one record per team
/// member on each side.
pub open spec fn spec_process(min_elo: u64, doc: Seq<char>) -> Seq<(Seq<char>, bool)> {
    if spec_doc_elo(doc, crate::anonymize::key_p1rating()) < min_elo || spec_doc_elo(
        doc,
        crate::anonymize::key_p2rating(),
    ) < min_elo {
        Seq::empty()
    } else {
        spec_team_results(doc, key_p1team(), spec_won(doc, key_p1team_side())) + spec_team_results(
            doc,
            key_p2team(),
            spec_won(doc, key_p2team_side()),
        )
    }
}

pub open spec fn key_p1team_side() -> Seq<char> {
    crate::anonymize::key_p1()
}

pub open spec fn key_p2team_side() -> Seq<char> {
    crate::anonymize::key_p2()
}

/// The range of the raw value of `key`, when the parsed `fields` hold it.
fn raw_val_range(
    chars: &Vec<char>,
    fields: &Vec<JsonField>,
    key: &Vec<char>,
) -> (r: Option<(usize, usize)>)
    requires
        crate::jsontext::spec_parse_doc(chars@) == Some(fields@.map_values(|f: JsonField| f@)),
    ensures
        match r {
            Some(ab) => ab.0 <= ab.1 <= chars@.len() && spec_raw_val(chars@, key@) == Some(
                chars@.subrange(ab.0 as int, ab.1 as int),
            ),
            None => spec_raw_val(chars@, key@) is None,
        },
{
    proof {
        crate::jsontext::lemma_parse_doc_wf(chars@);
    }
    let i = crate::jsontext::find_key(chars, fields, key);
    if i == fields.len() {
        return None;
    }
    let f = fields[i];
    proof {
        let gfs = fields@.map_values(|q: JsonField| q@);
        assert(gfs[i as int] == f@);
        assert(0 <= gfs[i as int].ks);
        assert(f@.vs < f@.ve <= chars@.len());
    }
    Some((f.vs, f.ve))
}

/// Reads the two-step path text (see `spec_path2_text`).
fn path2_text(chars: &Vec<char>, fields: &Vec<JsonField>, k1: &Vec<char>, k2: &Vec<char>) -> (r: Vec<
    char,
>)
    requires
        crate::jsontext::spec_parse_doc(chars@) == Some(fields@.map_values(|f: JsonField| f@)),
    ensures
        r@ == spec_path2_text(chars@, k1@, k2@),
{
    let empty: Vec<char> = Vec::new();
    proof {
        assert(empty@ =~= Seq::<char>::empty());
    }
    let (a, b) = match raw_val_range(chars, fields, k1) {
        None => {
            return empty;
        },
        Some(ab) => ab,
    };
    let sub = crate::text::copy_range(chars, a, b);
    let sfs = match crate::jsontext::parse_doc(&sub) {
        None => {
            return empty;
        },
        Some(sfs) => sfs,
    };
    proof {
        crate::jsontext::lemma_parse_doc_wf(sub@);
    }
    let j = crate::jsontext::find_key(&sub, &sfs, k2);
    if j == sfs.len() {
        return empty;
    }
    let f = sfs[j];
    proof {
        let gfs = sfs@.map_values(|q: JsonField| q@);
        assert(gfs[j as int] == f@);
        assert(0 <= gfs[j as int].ks);
        assert(f@.vs < f@.ve <= sub@.len());
    }
    if sub[f.vs] == '"' {
        crate::text::copy_range(&sub, f.vs + 1, f.ve - 1)
    } else {
        crate::text::copy_range(&sub, f.vs, f.ve)
    }
}

/// Whether the ranges `[a1, b1)` and `[a2, b2)` of `s` spell the same text.
fn ranges_equal(s: &Vec<char>, a1: usize, b1: usize, a2: usize, b2: usize) -> (r: bool)
    requires
        a1 <= b1 <= s@.len(),
        a2 <= b2 <= s@.len(),
    ensures
        r == (s@.subrange(a1 as int, b1 as int) == s@.subrange(a2 as int, b2 as int)),
{
    let t2 = crate::text::copy_range(s, a2, b2);
    if b1 - a1 != b2 - a2 {
        proof {
            assert(s@.subrange(a1 as int, b1 as int).len() != s@.subrange(
                a2 as int,
                b2 as int,
            ).len());
        }
        return false;
    }
    let m = crate::text::check_match_at(s, a1, &t2);
    proof {
        if m {
            assert(s@.subrange(a1 as int, a1 + t2@.len()) =~= s@.subrange(a1 as int, b1 as int));
        } else {
            if s@.subrange(a1 as int, b1 as int) == s@.subrange(a2 as int, b2 as int) {
                assert(s@.subrange(a1 as int, a1 + t2@.len()) =~= s@.subrange(a1 as int, b1 as int));
                assert(crate::text::matches_at(s@, a1 as int, t2@));
            }
        }
    }
    m
}

/// Whether a side won (see `spec_won`).
fn won_exec(chars: &Vec<char>, fields: &Vec<JsonField>, sidekey: &Vec<char>, winnerkey: &Vec<char>) -> (r: bool)
    requires
        crate::jsontext::spec_parse_doc(chars@) == Some(fields@.map_values(|f: JsonField| f@)),
        winnerkey@ == crate::anonymize::key_winner(),
    ensures
        r == spec_won(chars@, sidekey@),
{
    let side = raw_val_range(chars, fields, sidekey);
    let win = raw_val_range(chars, fields, winnerkey);
    match (side, win) {
        (None, None) => true,
        (Some(sr), Some(wr)) => ranges_equal(chars, sr.0, sr.1, wr.0, wr.1),
        _ => false,
    }
}

/// Collapses regional and cosmetic species suffixes to the base species.
pub fn normalize_species(species: String) -> (r: String)
    ensures
        r@ == spec_normalize(species@),
{
    let chars = crate::text::str_to_chars(species.as_str());
    let p_pika = crate::text::str_to_chars("Pikachu-");
    let p_unown = crate::text::str_to_chars("Unown-");
    let p_gastro = crate::text::str_to_chars("Gastrodon-East");
    let p_mage = crate::text::str_to_chars("Magearna-Original");
    let p_gene = crate::text::str_to_chars("Genesect-Douse");
    let p_basc = crate::text::str_to_chars("Basculin-");
    let p_saws = crate::text::str_to_chars("Sawsbuck-");
    let p_vivi = crate::text::str_to_chars("Vivillon-");
    let p_flor = crate::text::str_to_chars("Florges-");
    let p_furf = crate::text::str_to_chars("Furfrou-");
    let p_mini = crate::text::str_to_chars("Minior-");
    let p_gour = crate::text::str_to_chars("Gourgeist-");
    let p_toxt = crate::text::str_to_chars("Toxtricity-");
    proof {
        reveal_strlit("Pikachu-");
        reveal_strlit("Unown-");
        reveal_strlit("Gastrodon-East");
        reveal_strlit("Magearna-Original");
        reveal_strlit("Genesect-Douse");
        reveal_strlit("Basculin-");
        reveal_strlit("Sawsbuck-");
        reveal_strlit("Vivillon-");
        reveal_strlit("Florges-");
        reveal_strlit("Furfrou-");
        reveal_strlit("Minior-");
        reveal_strlit("Gourgeist-");
        reveal_strlit("Toxtricity-");
        assert(p_pika@ =~= seq!['P', 'i', 'k', 'a', 'c', 'h', 'u', '-']);
        assert(p_unown@ =~= seq!['U', 'n', 'o', 'w', 'n', '-']);
        assert(p_gastro@ =~= seq![
            'G', 'a', 's', 't', 'r', 'o', 'd', 'o', 'n', '-', 'E', 'a', 's', 't',
        ]);
        assert(p_mage@ =~= seq![
            'M', 'a', 'g', 'e', 'a', 'r', 'n', 'a', '-', 'O', 'r', 'i', 'g', 'i', 'n', 'a', 'l',
        ]);
        assert(p_gene@ =~= seq!['G', 'e', 'n', 'e', 's', 'e', 'c', 't', '-', 'D', 'o', 'u', 's', 'e']);
        assert(p_basc@ =~= seq!['B', 'a', 's', 'c', 'u', 'l', 'i', 'n', '-']);
        assert(p_saws@ =~= seq!['S', 'a', 'w', 's', 'b', 'u', 'c', 'k', '-']);
        assert(p_vivi@ =~= seq!['V', 'i', 'v', 'i', 'l', 'l', 'o', 'n', '-']);
        assert(p_flor@ =~= seq!['F', 'l', 'o', 'r', 'g', 'e', 's', '-']);
        assert(p_furf@ =~= seq!['F', 'u', 'r', 'f', 'r', 'o', 'u', '-']);
        assert(p_mini@ =~= seq!['M', 'i', 'n', 'i', 'o', 'r', '-']);
        assert(p_gour@ =~= seq!['G', 'o', 'u', 'r', 'g', 'e', 'i', 's', 't', '-']);
        assert(p_toxt@ =~= seq!['T', 'o', 'x', 't', 'r', 'i', 'c', 'i', 't', 'y', '-']);
        assert(chars@.subrange(0, chars@.len() as int) =~= chars@);
    }
    if crate::text::check_match_at(&chars, 0, &p_pika) {
        let r = String::from_str("Pikachu");
        proof {
            reveal_strlit("Pikachu");
            assert(r@ =~= seq!['P', 'i', 'k', 'a', 'c', 'h', 'u']);
        }
        r
    } else if crate::text::check_match_at(&chars, 0, &p_unown) {
        let r = String::from_str("Unown");
        proof {
            reveal_strlit("Unown");
            assert(r@ =~= seq!['U', 'n', 'o', 'w', 'n']);
        }
        r
    } else if chars.len() == p_gastro.len() && crate::text::check_match_at(&chars, 0, &p_gastro) {
        let r = String::from_str("Gastrodon");
        proof {
            reveal_strlit("Gastrodon");
            assert(chars@ =~= p_gastro@);
            assert(r@ =~= seq!['G', 'a', 's', 't', 'r', 'o', 'd', 'o', 'n']);
        }
        r
    } else if chars.len() == p_mage.len() && crate::text::check_match_at(&chars, 0, &p_mage) {
        let r = String::from_str("Magearna");
        proof {
            reveal_strlit("Magearna");
            assert(chars@ =~= p_mage@);
            assert(r@ =~= seq!['M', 'a', 'g', 'e', 'a', 'r', 'n', 'a']);
        }
        r
    } else if chars.len() == p_gene.len() && crate::text::check_match_at(&chars, 0, &p_gene) {
        let r = String::from_str("Genesect");
        proof {
            reveal_strlit("Genesect");
            assert(chars@ =~= p_gene@);
            assert(r@ =~= seq!['G', 'e', 'n', 'e', 's', 'e', 'c', 't']);
        }
        r
    } else if crate::text::check_match_at(&chars, 0, &p_basc) {
        let r = String::from_str("Basculin");
        proof {
            reveal_strlit("Basculin");
            assert(r@ =~= seq!['B', 'a', 's', 'c', 'u', 'l', 'i', 'n']);
        }
        r
    } else if crate::text::check_match_at(&chars, 0, &p_saws) {
        let r = String::from_str("Sawsbuck");
        proof {
            reveal_strlit("Sawsbuck");
            assert(r@ =~= seq!['S', 'a', 'w', 's', 'b', 'u', 'c', 'k']);
        }
        r
    } else if crate::text::check_match_at(&chars, 0, &p_vivi) {
        let r = String::from_str("Vivillon");
        proof {
            reveal_strlit("Vivillon");
            assert(r@ =~= seq!['V', 'i', 'v', 'i', 'l', 'l', 'o', 'n']);
        }
        r
    } else if crate::text::check_match_at(&chars, 0, &p_flor) {
        let r = String::from_str("Florges");
        proof {
            reveal_strlit("Florges");
            assert(r@ =~= seq!['F', 'l', 'o', 'r', 'g', 'e', 's']);
        }
        r
    } else if crate::text::check_match_at(&chars, 0, &p_furf) {
        let r = String::from_str("Furfrou");
        proof {
            reveal_strlit("Furfrou");
            assert(r@ =~= seq!['F', 'u', 'r', 'f', 'r', 'o', 'u']);
        }
        r
    } else if crate::text::check_match_at(&chars, 0, &p_mini) {
        let r = String::from_str("Minior");
        proof {
            reveal_strlit("Minior");
            assert(r@ =~= seq!['M', 'i', 'n', 'i', 'o', 'r']);
        }
        r
    } else if crate::text::check_match_at(&chars, 0, &p_gour) {
        let r = String::from_str("Gourgeist");
        proof {
            reveal_strlit("Gourgeist");
            assert(r@ =~= seq!['G', 'o', 'u', 'r', 'g', 'e', 'i', 's', 't']);
        }
        r
    } else if crate::text::check_match_at(&chars, 0, &p_toxt) {
        let r = String::from_str("Toxtricity");
        proof {
            reveal_strlit("Toxtricity");
            assert(r@ =~= seq!['T', 'o', 'x', 't', 'r', 'i', 'c', 'i', 't', 'y']);
        }
        r
    } else {
        species
    }
}

/// Appends the records of the team under `teamkey` (see
/// `spec_team_results`).
#[verifier::rlimit(100)]
fn team_results(
    raw: &str,
    chars: &Vec<char>,
    fields: &Vec<JsonField>,
    teamkey: &Vec<char>,
    speckey: &Vec<char>,
    won: bool,
    out: &mut Vec<GameResult>,
)
    requires
        chars@ == raw@,
        speckey@ == key_species(),
        crate::jsontext::spec_parse_doc(chars@) == Some(fields@.map_values(|f: JsonField| f@)),
    ensures
        final(out)@.map_values(|g: GameResult| (g.species@, g.won)) == old(out)@.map_values(
            |g: GameResult| (g.species@, g.won),
        ) + spec_team_results(chars@, teamkey@, won),
{
    let ghost pre = out@.map_values(|g: GameResult| (g.species@, g.won));
    let (a, b) = match raw_val_range(chars, fields, teamkey) {
        None => {
            proof {
                assert(pre + spec_team_results(chars@, teamkey@, won) =~= pre);
            }
            return ;
        },
        Some(ab) => ab,
    };
    let ghost gsub = chars@.subrange(a as int, b as int);
    let sub = crate::text::copy_range(chars, a, b);
    let es = match crate::jsontext::parse_arr(&sub) {
        None => {
            proof {
                assert(pre + spec_team_results(chars@, teamkey@, won) =~= pre);
            }
            return ;
        },
        Some(es) => es,
    };
    let ghost ges = es@.map_values(|e: (usize, usize)| (e.0 as int, e.1 as int));
    proof {
        crate::jsontext::lemma_parse_arr_wf(sub@);
    }
    let mut k: usize = 0;
    proof {
        assert(pre + Seq::<(Seq<char>, bool)>::empty() =~= pre);
    }
    while k < es.len()
        invariant
            k <= es@.len(),
            ges == es@.map_values(|e: (usize, usize)| (e.0 as int, e.1 as int)),
            crate::jsontext::elems_wf(gsub, ges),
            gsub == sub@,
            chars@ == raw@,
            speckey@ == key_species(),
            a <= b <= chars@.len(),
            gsub == chars@.subrange(a as int, b as int),
            won == won,
            out@.map_values(|g: GameResult| (g.species@, g.won)) + spec_team_elems(
                gsub,
                ges,
                k as int,
                won,
            ) == pre + spec_team_elems(gsub, ges, 0, won),
        decreases es@.len() - k,
    {
        let ghost cur = out@.map_values(|g: GameResult| (g.species@, g.won));
        let e0 = es[k].0;
        let e1 = es[k].1;
        proof {
            assert(ges[k as int] == (e0 as int, e1 as int));
            assert(0 <= ges[k as int].0);
        }
        let ghost gesub = gsub.subrange(e0 as int, e1 as int);
        let esub = crate::text::copy_range(&sub, e0, e1);
        match crate::jsontext::parse_doc(&esub) {
            None => {
                proof {
                    assert(spec_team_elems(gsub, ges, k as int, won) == Seq::<
                        (Seq<char>, bool),
                    >::empty() + spec_team_elems(gsub, ges, k + 1, won));
                    assert(Seq::<(Seq<char>, bool)>::empty() + spec_team_elems(gsub, ges, k + 1, won)
                        =~= spec_team_elems(gsub, ges, k + 1, won));
                }
            },
            Some(efs) => {
                proof {
                    crate::jsontext::lemma_parse_doc_wf(esub@);
                }
                let j = crate::jsontext::find_key(&esub, &efs, speckey);
                if j == efs.len() {
                    proof {
                        assert(spec_team_elems(gsub, ges, k as int, won) =~= spec_team_elems(
                            gsub,
                            ges,
                            k + 1,
                            won,
                        ));
                    }
                } else {
                    let f = efs[j];
                    proof {
                        let gefs = efs@.map_values(|q: JsonField| q@);
                        assert(gefs[j as int] == f@);
                        assert(0 <= gefs[j as int].ks);
                        assert(f@.vs < f@.ve <= esub@.len());
                    }
                    if esub[f.vs] == '"' {
                        let d0 = a + e0 + f.vs + 1;
                        let d1 = a + e0 + f.ve - 1;
                        proof {
                            assert(esub@.subrange(f.vs + 1, f.ve - 1) =~= chars@.subrange(
                                d0 as int,
                                d1 as int,
                            ));
                        }
                        let sp = String::from_str(raw.substring_char(d0, d1));
                        let sp = normalize_species(sp);
                        let ghost gsp = sp@;
                        out.push(GameResult { species: sp, won: won });
                        proof {
                            assert(out@.map_values(|g: GameResult| (g.species@, g.won)) =~= cur.push(
                                (gsp, won),
                            ));
                            assert(spec_team_elems(gsub, ges, k as int, won) == seq![(gsp, won)]
                                + spec_team_elems(gsub, ges, k + 1, won));
                            assert(cur.push((gsp, won)) + spec_team_elems(gsub, ges, k + 1, won)
                                =~= cur + (seq![(gsp, won)] + spec_team_elems(gsub, ges, k + 1, won)));
                        }
                    } else {
                        proof {
                            assert(spec_team_elems(gsub, ges, k as int, won) =~= spec_team_elems(
                                gsub,
                                ges,
                                k + 1,
                                won,
                            ));
                        }
                    }
                }
            },
        }
        k = k + 1;
    }
    proof {
        assert(spec_team_elems(gsub, ges, ges.len() as int, won) =~= Seq::<(Seq<char>, bool)>::empty());
        assert(out@.map_values(|g: GameResult| (g.species@, g.won)) + Seq::<
            (Seq<char>, bool),
        >::empty() =~= out@.map_values(|g: GameResult| (g.species@, g.won)));
        assert(spec_team_results(chars@, teamkey@, won) == spec_team_elems(gsub, ges, 0, won));
    }
}

impl Stats {
    /// What one log contributes to the statistics, or nothing when either
    /// side's rating floor falls below `min_elo` (see `spec_process`).
    /// Every log yields a result; malformed logs simply contribute nothing.
    pub fn process_json(min_elo: u64, json: &str) -> (r: Result<
        Vec<GameResult>,
        crate::BattleToolsError,
    >)
        ensures
            r is Ok,
            r->Ok_0@.map_values(|g: GameResult| (g.species@, g.won)) == spec_process(
                min_elo,
                json@,
            ),
    {
        let chars = crate::text::str_to_chars(json);
        let empty: Vec<GameResult> = Vec::new();
        proof {
            assert(empty@.map_values(|g: GameResult| (g.species@, g.won)) =~= Seq::<
                (Seq<char>, bool),
            >::empty());
        }
        let fields = match crate::jsontext::parse_doc(&chars) {
            Some(fs) => fs,
            None => {
                proof {
                    assert(spec_path2_text(chars@, crate::anonymize::key_p1rating(),
                        crate::anonymize::key_elo()) =~= Seq::<char>::empty());
                    crate::num::lemma_elo_floor_empty();
                    if min_elo == 0 {
                        assert(spec_team_results(chars@, key_p1team(), spec_won(chars@, key_p1team_side()))
                            =~= Seq::<(Seq<char>, bool)>::empty());
                        assert(spec_team_results(chars@, key_p2team(), spec_won(chars@, key_p2team_side()))
                            =~= Seq::<(Seq<char>, bool)>::empty());
                        assert(spec_process(min_elo, chars@) =~= Seq::<(Seq<char>, bool)>::empty());
                    }
                }
                return Ok(empty);
            },
        };
        let k_p1r = crate::text::str_to_chars("p1rating");
        let k_p2r = crate::text::str_to_chars("p2rating");
        let k_elo = crate::text::str_to_chars("elo");
        let k_p1t = crate::text::str_to_chars("p1team");
        let k_p2t = crate::text::str_to_chars("p2team");
        let k_p1 = crate::text::str_to_chars("p1");
        let k_p2 = crate::text::str_to_chars("p2");
        let k_w = crate::text::str_to_chars("winner");
        let k_sp = crate::text::str_to_chars("species");
        proof {
            reveal_strlit("p1rating");
            reveal_strlit("p2rating");
            reveal_strlit("elo");
            reveal_strlit("p1team");
            reveal_strlit("p2team");
            reveal_strlit("p1");
            reveal_strlit("p2");
            reveal_strlit("winner");
            reveal_strlit("species");
            assert(k_p1r@ =~= crate::anonymize::key_p1rating());
            assert(k_p2r@ =~= crate::anonymize::key_p2rating());
            assert(k_elo@ =~= crate::anonymize::key_elo());
            assert(k_p1t@ =~= key_p1team());
            assert(k_p2t@ =~= key_p2team());
            assert(k_p1@ =~= crate::anonymize::key_p1());
            assert(k_p2@ =~= crate::anonymize::key_p2());
            assert(k_w@ =~= crate::anonymize::key_winner());
            assert(k_sp@ =~= key_species());
        }
        let t1 = path2_text(&chars, &fields, &k_p1r, &k_elo);
        let elo1 = crate::num::elo_floor(&t1);
        if elo1 < min_elo {
            return Ok(empty);
        }
        let t2 = path2_text(&chars, &fields, &k_p2r, &k_elo);
        let elo2 = crate::num::elo_floor(&t2);
        if elo2 < min_elo {
            return Ok(empty);
        }
        let won1 = won_exec(&chars, &fields, &k_p1, &k_w);
        let won2 = won_exec(&chars, &fields, &k_p2, &k_w);
        let mut out: Vec<GameResult> = Vec::new();
        proof {
            assert(out@.map_values(|g: GameResult| (g.species@, g.won)) =~= Seq::<
                (Seq<char>, bool),
            >::empty());
        }
        team_results(json, &chars, &fields, &k_p1t, &k_sp, won1, &mut out);
        team_results(json, &chars, &fields, &k_p2t, &k_sp, won2, &mut out);
        proof {
            assert(Seq::<(Seq<char>, bool)>::empty() + spec_team_results(chars@, key_p1team(), won1)
                =~= spec_team_results(chars@, key_p1team(), won1));
        }
        Ok(out)
    }
}

/// Whether every entry's game counter stays at or below `b`.
pub open spec fn games_le(es: Seq<(Seq<char>, (u32, u32))>, b: int) -> bool {
    forall|j: int| 0 <= j < es.len() ==> (#[trigger] es[j]).1.0 <= b
}

/// One record raises no game counter above one more than the old bound.
proof fn lemma_add_one_games(es: Seq<(Seq<char>, (u32, u32))>, sp: Seq<char>, won: bool, b: int)
    requires
        games_le(es, b),
        b >= 0,
    ensures
        games_le(spec_add_one(es, sp, won), b + 1),
{
    let es2 = spec_add_one(es, sp, won);
    lemma_entry_index_bounds(es, sp, 0);
    let i = entry_index(es, sp, 0);
    assert forall|j: int| 0 <= j < es2.len() implies (#[trigger] es2[j]).1.0 <= b + 1 by {
        if i < es.len() {
            if j != i {
                assert(es2[j] == es[j]);
            }
        } else {
            if j < es.len() {
                assert(es2[j] == es[j]);
            }
        }
    }
}

/// A batch raises no game counter above the old bound plus its length.
pub proof fn lemma_add_batch_games(
    es: Seq<(Seq<char>, (u32, u32))>,
    rs: Seq<(Seq<char>, bool)>,
    b: int,
)
    requires
        games_le(es, b),
        b >= 0,
    ensures
        games_le(spec_add_batch(es, rs), b + rs.len()),
    decreases rs.len(),
{
    if rs.len() > 0 {
        lemma_add_one_games(es, rs[0].0, rs[0].1, b);
        lemma_add_batch_games(spec_add_one(es, rs[0].0, rs[0].1), rs.skip(1), b + 1);
    }
}

/// How a list of batches folds into the entry list, first batch first.
pub open spec fn spec_fold_batches(
    es: Seq<(Seq<char>, (u32, u32))>,
    bs: Seq<Seq<(Seq<char>, bool)>>,
) -> Seq<(Seq<char>, (u32, u32))>
    decreases bs.len(),
{
    if bs.len() == 0 {
        es
    } else {
        spec_fold_batches(spec_add_batch(es, bs[0]), bs.skip(1))
    }
}

/// The total number of records in a list of batches.
pub open spec fn total_records(bs: Seq<Seq<(Seq<char>, bool)>>) -> int
    decreases bs.len(),
{
    if bs.len() == 0 {
        0
    } else {
        bs[0].len() + total_records(bs.skip(1))
    }
}

pub proof fn lemma_total_records_nonneg(bs: Seq<Seq<(Seq<char>, bool)>>)
    ensures
        total_records(bs) >= 0,
    decreases bs.len(),
{
    if bs.len() > 0 {
        lemma_total_records_nonneg(bs.skip(1));
    }
}

/// The games counter of `sp` in the entry list, zero when absent.
pub open spec fn games_of(es: Seq<(Seq<char>, (u32, u32))>, sp: Seq<char>) -> int {
    let i = entry_index(es, sp, 0);
    if i < es.len() {
        es[i].1.0 as int
    } else {
        0
    }
}

/// The wins counter of `sp` in the entry list, zero when absent.
pub open spec fn wins_of(es: Seq<(Seq<char>, (u32, u32))>, sp: Seq<char>) -> int {
    let i = entry_index(es, sp, 0);
    if i < es.len() {
        es[i].1.1 as int
    } else {
        0
    }
}

/// The number of records in a batch naming `sp`.
pub open spec fn occ(rs: Seq<(Seq<char>, bool)>, sp: Seq<char>) -> int
    decreases rs.len(),
{
    if rs.len() == 0 {
        0
    } else {
        (if rs[0].0 == sp {
            1int
        } else {
            0int
        }) + occ(rs.skip(1), sp)
    }
}

/// The number of won records in a batch naming `sp`.
pub open spec fn wocc(rs: Seq<(Seq<char>, bool)>, sp: Seq<char>) -> int
    decreases rs.len(),
{
    if rs.len() == 0 {
        0
    } else {
        (if rs[0].0 == sp && rs[0].1 {
            1int
        } else {
            0int
        }) + wocc(rs.skip(1), sp)
    }
}

/// One record changes exactly the counters of the species it names.
proof fn lemma_add_one_counts(
    es: Seq<(Seq<char>, (u32, u32))>,
    sp0: Seq<char>,
    won: bool,
    sp: Seq<char>,
)
    requires
        wins_le_games(es),
        forall|j: int| 0 <= j < es.len() ==> (#[trigger] es[j]).1.0 < u32::MAX,
    ensures
        games_of(spec_add_one(es, sp0, won), sp) == games_of(es, sp) + (if sp0 == sp {
            1int
        } else {
            0int
        }),
        wins_of(spec_add_one(es, sp0, won), sp) == wins_of(es, sp) + (if sp0 == sp && won {
            1int
        } else {
            0int
        }),
{
    let es2 = spec_add_one(es, sp0, won);
    lemma_entry_index_bounds(es, sp0, 0);
    lemma_entry_index_bounds(es, sp, 0);
    lemma_entry_index_bounds(es2, sp, 0);
    let i0 = entry_index(es, sp0, 0);
    let i = entry_index(es, sp, 0);
    let i2 = entry_index(es2, sp, 0);
    if i0 < es.len() {
        // update in place: keys unchanged
        assert(forall|j: int| 0 <= j < es2.len() ==> (#[trigger] es2[j]).0 == es[j].0);
        lemma_index_same_keys(es, es2, sp);
        if sp0 == sp {
            assert(i == i0);
            assert(es2[i].1.0 == es[i].1.0 + 1);
        } else {
            if i < es.len() {
                assert(i != i0);
                assert(es2[i] == es[i]);
            }
        }
    } else {
        // appended last
        assert(es2 == es.push((sp0, (1u32, if won { 1u32 } else { 0u32 }))));
        if sp0 == sp {
            assert(i == es.len());
            assert(es2[es.len() as int].0 == sp);
            assert(forall|k: int| 0 <= k < es.len() ==> es2[k] == es[k]);
            lemma_index_push_found(es, es2, sp);
        } else {
            if i < es.len() {
                assert(forall|k: int| 0 <= k < es.len() ==> es2[k] == es[k]);
                lemma_index_prefix(es, es2, sp, i);
            } else {
                assert(forall|k: int| 0 <= k < es.len() ==> es2[k] == es[k]);
                assert(es2[es.len() as int].0 == sp0);
                lemma_index_absent_push(es, es2, sp);
            }
        }
    }
}

/// Two entry lists with the same keys position every key identically.
proof fn lemma_index_same_keys(
    es: Seq<(Seq<char>, (u32, u32))>,
    es2: Seq<(Seq<char>, (u32, u32))>,
    sp: Seq<char>,
)
    requires
        es2.len() == es.len(),
        forall|j: int| 0 <= j < es.len() ==> (#[trigger] es2[j]).0 == es[j].0,
    ensures
        entry_index(es2, sp, 0) == entry_index(es, sp, 0),
{
    lemma_index_same_keys_from(es, es2, sp, 0);
}

proof fn lemma_index_same_keys_from(
    es: Seq<(Seq<char>, (u32, u32))>,
    es2: Seq<(Seq<char>, (u32, u32))>,
    sp: Seq<char>,
    j: int,
)
    requires
        es2.len() == es.len(),
        0 <= j <= es.len(),
        forall|k: int| 0 <= k < es.len() ==> (#[trigger] es2[k]).0 == es[k].0,
    ensures
        entry_index(es2, sp, j) == entry_index(es, sp, j),
    decreases es.len() - j,
{
    if j < es.len() {
        lemma_index_same_keys_from(es, es2, sp, j + 1);
    }
}

/// A key absent from a prefix is first found at the appended position.
proof fn lemma_index_push_found(
    es: Seq<(Seq<char>, (u32, u32))>,
    es2: Seq<(Seq<char>, (u32, u32))>,
    sp: Seq<char>,
)
    requires
        es2.len() == es.len() + 1,
        forall|k: int| 0 <= k < es.len() ==> es2[k] == es[k],
        es2[es.len() as int].0 == sp,
        entry_index(es, sp, 0) == es.len(),
    ensures
        entry_index(es2, sp, 0) == es.len(),
{
    lemma_index_push_found_from(es, es2, sp, 0);
}

proof fn lemma_index_push_found_from(
    es: Seq<(Seq<char>, (u32, u32))>,
    es2: Seq<(Seq<char>, (u32, u32))>,
    sp: Seq<char>,
    j: int,
)
    requires
        es2.len() == es.len() + 1,
        0 <= j <= es.len(),
        forall|k: int| 0 <= k < es.len() ==> es2[k] == es[k],
        es2[es.len() as int].0 == sp,
        entry_index(es, sp, j) == es.len(),
    ensures
        entry_index(es2, sp, j) == es.len(),
    decreases es.len() - j,
{
    lemma_entry_index_bounds(es, sp, j);
    if j < es.len() {
        assert(es[j].0 != sp);
        lemma_index_push_found_from(es, es2, sp, j + 1);
    }
}

/// A key found inside the prefix keeps its position after a push.
proof fn lemma_index_prefix(
    es: Seq<(Seq<char>, (u32, u32))>,
    es2: Seq<(Seq<char>, (u32, u32))>,
    sp: Seq<char>,
    i: int,
)
    requires
        es2.len() == es.len() + 1,
        forall|k: int| 0 <= k < es.len() ==> es2[k] == es[k],
        entry_index(es, sp, 0) == i,
        0 <= i < es.len(),
    ensures
        entry_index(es2, sp, 0) == i,
{
    lemma_index_prefix_from(es, es2, sp, i, 0);
}

proof fn lemma_index_prefix_from(
    es: Seq<(Seq<char>, (u32, u32))>,
    es2: Seq<(Seq<char>, (u32, u32))>,
    sp: Seq<char>,
    i: int,
    j: int,
)
    requires
        es2.len() == es.len() + 1,
        0 <= j <= i,
        forall|k: int| 0 <= k < es.len() ==> es2[k] == es[k],
        entry_index(es, sp, j) == i,
        0 <= i < es.len(),
    ensures
        entry_index(es2, sp, j) == i,
    decreases i - j,
{
    lemma_entry_index_bounds(es, sp, j);
    if j < i {
        assert(es[j].0 != sp);
        lemma_index_prefix_from(es, es2, sp, i, j + 1);
    } else {
        assert(es[i].0 == sp);
    }
}

/// A key absent everywhere stays absent after pushing a different key.
proof fn lemma_index_absent_push(
    es: Seq<(Seq<char>, (u32, u32))>,
    es2: Seq<(Seq<char>, (u32, u32))>,
    sp: Seq<char>,
)
    requires
        es2.len() == es.len() + 1,
        forall|k: int| 0 <= k < es.len() ==> es2[k] == es[k],
        es2[es.len() as int].0 != sp,
        entry_index(es, sp, 0) == es.len(),
    ensures
        entry_index(es2, sp, 0) == es2.len(),
{
    lemma_index_absent_push_from(es, es2, sp, 0);
}

proof fn lemma_index_absent_push_from(
    es: Seq<(Seq<char>, (u32, u32))>,
    es2: Seq<(Seq<char>, (u32, u32))>,
    sp: Seq<char>,
    j: int,
)
    requires
        es2.len() == es.len() + 1,
        0 <= j <= es.len(),
        forall|k: int| 0 <= k < es.len() ==> es2[k] == es[k],
        es2[es.len() as int].0 != sp,
        entry_index(es, sp, j) == es.len(),
    ensures
        entry_index(es2, sp, j) == es2.len(),
    decreases es.len() - j,
{
    lemma_entry_index_bounds(es, sp, j);
    if j < es.len() {
        assert(es[j].0 != sp);
        lemma_index_absent_push_from(es, es2, sp, j + 1);
    } else {
        assert(es2[j].0 != sp);
        assert(entry_index(es2, sp, j + 1) == es2.len());
    }
}

/// Whether wins never exceed games.
pub open spec fn wins_le_games(es: Seq<(Seq<char>, (u32, u32))>) -> bool {
    forall|j: int| 0 <= j < es.len() ==> (#[trigger] es[j]).1.1 <= es[j].1.0
}

/// One record keeps wins at or below games.
proof fn lemma_add_one_wf(es: Seq<(Seq<char>, (u32, u32))>, sp0: Seq<char>, won: bool)
    requires
        wins_le_games(es),
        forall|j: int| 0 <= j < es.len() ==> (#[trigger] es[j]).1.0 < u32::MAX,
    ensures
        wins_le_games(spec_add_one(es, sp0, won)),
{
    let es2 = spec_add_one(es, sp0, won);
    lemma_entry_index_bounds(es, sp0, 0);
    let i0 = entry_index(es, sp0, 0);
    assert forall|j: int| 0 <= j < es2.len() implies (#[trigger] es2[j]).1.1 <= es2[j].1.0 by {
        if i0 < es.len() {
            if j != i0 {
                assert(es2[j] == es[j]);
            }
        } else {
            if j < es.len() {
                assert(es2[j] == es[j]);
            }
        }
    }
}

/// Folding one batch adds exactly its per-species record and win counts.
pub proof fn lemma_add_batch_counts(
    es: Seq<(Seq<char>, (u32, u32))>,
    rs: Seq<(Seq<char>, bool)>,
    sp: Seq<char>,
)
    requires
        rs.len() <= u32::MAX,
        wins_le_games(es),
        games_le(es, u32::MAX - rs.len()),
    ensures
        games_of(spec_add_batch(es, rs), sp) == games_of(es, sp) + occ(rs, sp),
        wins_of(spec_add_batch(es, rs), sp) == wins_of(es, sp) + wocc(rs, sp),
        wins_le_games(spec_add_batch(es, rs)),
        games_le(spec_add_batch(es, rs), u32::MAX as int),
    decreases rs.len(),
{
    if rs.len() > 0 {
        assert(forall|j: int| 0 <= j < es.len() ==> (#[trigger] es[j]).1.0 < u32::MAX);
        lemma_add_one_counts(es, rs[0].0, rs[0].1, sp);
        lemma_add_one_wf(es, rs[0].0, rs[0].1);
        lemma_add_one_games(es, rs[0].0, rs[0].1, u32::MAX - rs.len());
        lemma_add_batch_counts(spec_add_one(es, rs[0].0, rs[0].1), rs.skip(1), sp);
    }
}

/// The batch `rs`, repeated `n` times.
pub open spec fn repeated(rs: Seq<(Seq<char>, bool)>, n: int) -> Seq<Seq<(Seq<char>, bool)>>
    decreases n,
    when n >= 0
{
    if n <= 0 {
        Seq::empty()
    } else {
        seq![rs] + repeated(rs, n - 1)
    }
}

/// Folding `n` identical batches multiplies each species' counters by `n`:
/// over identical logs, a species that always wins keeps a perfect record,
/// and its game count equals the number of logs.
pub proof fn lemma_identical_batches(rs: Seq<(Seq<char>, bool)>, n: int, sp: Seq<char>)
    requires
        0 <= n,
        n * rs.len() <= u32::MAX,
        rs.len() >= 0,
    ensures
        games_of(
            spec_fold_batches(
                Seq::<(Seq<char>, (u32, u32))>::empty(),
                repeated(rs, n),
            ),
            sp,
        ) == n * occ(rs, sp),
        wins_of(
            spec_fold_batches(Seq::<(Seq<char>, (u32, u32))>::empty(), repeated(rs, n)),
            sp,
        ) == n * wocc(rs, sp),
{
    lemma_identical_helper(Seq::<(Seq<char>, (u32, u32))>::empty(), rs, n, sp, 0);
}

proof fn lemma_identical_helper(
    es: Seq<(Seq<char>, (u32, u32))>,
    rs: Seq<(Seq<char>, bool)>,
    n: int,
    sp: Seq<char>,
    done: int,
)
    requires
        0 <= n,
        0 <= done,
        (done + n) * rs.len() <= u32::MAX,
        wins_le_games(es),
        games_le(es, done * rs.len()),
    ensures
        games_of(spec_fold_batches(es, repeated(rs, n)), sp) == games_of(es, sp) + n * occ(rs, sp),
        wins_of(spec_fold_batches(es, repeated(rs, n)), sp) == wins_of(es, sp) + n * wocc(rs, sp),
    decreases n,
{
    if n == 0 {
    } else {
        assert(repeated(rs, n)[0] == rs);
        assert(repeated(rs, n).skip(1) =~= repeated(rs, n - 1));
        assert(games_le(es, u32::MAX - rs.len()) && rs.len() <= u32::MAX) by {
            assert(done * rs.len() + rs.len() <= (done + n) * rs.len() && rs.len() <= (done + n)
                * rs.len()) by (nonlinear_arith)
                requires
                    n >= 1,
                    rs.len() >= 0,
                    done >= 0,
            ;
            assert(games_le(es, done * rs.len()));
        }
        lemma_add_batch_counts(es, rs, sp);
        let es1 = spec_add_batch(es, rs);
        lemma_add_batch_games(es, rs, done * rs.len());
        lemma_occ_le(rs, sp);
        assert((done + 1) * rs.len() == done * rs.len() + rs.len()) by (nonlinear_arith);
        assert(wins_le_games(es1));
        lemma_identical_helper(es1, rs, n - 1, sp, done + 1);
        assert(games_of(es1, sp) == games_of(es, sp) + occ(rs, sp));
        assert(games_of(es, sp) + occ(rs, sp) + (n - 1) * occ(rs, sp) == games_of(es, sp) + n * occ(
            rs,
            sp,
        )) by (nonlinear_arith);
        assert(wins_of(es, sp) + wocc(rs, sp) + (n - 1) * wocc(rs, sp) == wins_of(es, sp) + n
            * wocc(rs, sp)) by (nonlinear_arith);
    }
}

/// A species occurs in a batch at most once per record, winning or not.
proof fn lemma_occ_le(rs: Seq<(Seq<char>, bool)>, sp: Seq<char>)
    ensures
        0 <= occ(rs, sp) <= rs.len(),
        0 <= wocc(rs, sp) <= occ(rs, sp),
    decreases rs.len(),
{
    if rs.len() > 0 {
        lemma_occ_le(rs.skip(1), sp);
    }
}

/// A rating floor above both sides' ratings makes a log contribute
/// nothing, so statistics over such logs stay empty.
pub proof fn lemma_floor_rejects(min_elo: u64, doc: Seq<char>)
    requires
        spec_doc_elo(doc, crate::anonymize::key_p1rating()) < min_elo || spec_doc_elo(
            doc,
            crate::anonymize::key_p2rating(),
        ) < min_elo,
    ensures
        spec_process(min_elo, doc) == Seq::<(Seq<char>, bool)>::empty(),
{
}

/// Folding empty batches leaves the entries unchanged.
pub proof fn lemma_empty_batches(es: Seq<(Seq<char>, (u32, u32))>, bs: Seq<Seq<(Seq<char>, bool)>>)
    requires
        forall|j: int| 0 <= j < bs.len() ==> (#[trigger] bs[j]).len() == 0,
    ensures
        spec_fold_batches(es, bs) == es,
    decreases bs.len(),
{
    if bs.len() > 0 {
        assert(bs[0].len() == 0);
        assert(spec_add_batch(es, bs[0]) == es);
        assert(forall|j: int| 0 <= j < bs.skip(1).len() ==> (#[trigger] bs.skip(1)[j]).len() == 0);
        lemma_empty_batches(es, bs.skip(1));
    }
}

/// Computes win-rate statistics over a directory of battle logs, skipping
/// logs in which either side rates below the configured floor.
pub struct StatisticsDirectoryParser {
    pub min_elo: u64,
    pub stats: Stats,
}

impl StatisticsDirectoryParser {
    /// A fresh parser; a missing floor means no floor.
    pub fn new(min_elo: Option<u64>) -> (s: Self)
        ensures
            s.stats.entries() == Seq::<(Seq<char>, (u32, u32))>::empty(),
            s.min_elo == match min_elo {
                Some(m) => m,
                None => 0u64,
            },
    {
        let m = match min_elo {
            Some(m) => m,
            None => 0,
        };
        StatisticsDirectoryParser { min_elo: m, stats: Stats::new() }
    }

    /// What one log's text contributes, per this parser's floor.
    pub fn handle_log_file(&self, raw_json: &str) -> (r: Result<
        Vec<GameResult>,
        crate::BattleToolsError,
    >)
        ensures
            r is Ok,
            r->Ok_0@.map_values(|g: GameResult| (g.species@, g.won)) == spec_process(
                self.min_elo,
                raw_json@,
            ),
    {
        Stats::process_json(self.min_elo, raw_json)
    }

    /// Folds all per-file results into the counters, exactly once.
    pub fn handle_results(&mut self, results: Vec<Vec<GameResult>>) -> (r: Result<
        (),
        crate::BattleToolsError,
    >)
        requires
            total_records(
                results@.map_values(
                    |v: Vec<GameResult>| v@.map_values(|g: GameResult| (g.species@, g.won)),
                ),
            ) <= u32::MAX,
            games_le(
                old(self).stats.entries(),
                u32::MAX - total_records(
                    results@.map_values(
                        |v: Vec<GameResult>| v@.map_values(|g: GameResult| (g.species@, g.won)),
                    ),
                ),
            ),
        ensures
            r is Ok,
            final(self).stats.entries() == spec_fold_batches(
                old(self).stats.entries(),
                results@.map_values(
                    |v: Vec<GameResult>| v@.map_values(|g: GameResult| (g.species@, g.won)),
                ),
            ),
            final(self).min_elo == old(self).min_elo,
    {
        let ghost bs = results@.map_values(
            |v: Vec<GameResult>| v@.map_values(|g: GameResult| (g.species@, g.won)),
        );
        let mut items = results;
        proof {
            assert(bs.skip(0) =~= bs);
            lemma_total_records_nonneg(bs);
        }
        while items.len() > 0
            invariant
                items@.len() <= bs.len(),
                items@.map_values(
                    |v: Vec<GameResult>| v@.map_values(|g: GameResult| (g.species@, g.won)),
                ) == bs.skip(bs.len() - items@.len()),
                self.min_elo == old(self).min_elo,
                total_records(bs.skip(bs.len() - items@.len())) <= u32::MAX,
                games_le(
                    self.stats.entries(),
                    u32::MAX - total_records(bs.skip(bs.len() - items@.len())),
                ),
                spec_fold_batches(old(self).stats.entries(), bs) == spec_fold_batches(
                    self.stats.entries(),
                    bs.skip(bs.len() - items@.len()),
                ),
            decreases items@.len(),
        {
            let ghost k = bs.len() - items@.len();
            let ghost es = self.stats.entries();
            let ghost rest = bs.skip(k as int);
            proof {
                assert(rest[0] == items@.map_values(
                    |v: Vec<GameResult>| v@.map_values(|g: GameResult| (g.species@, g.won)),
                )[0]);
                assert(rest.skip(1) =~= bs.skip(k + 1));
                lemma_total_records_nonneg(bs.skip(k + 1));
                assert(total_records(rest) == rest[0].len() + total_records(bs.skip(k + 1)));
            }
            let batch = items.remove(0);
            proof {
                assert(batch@.map_values(|g: GameResult| (g.species@, g.won)) == rest[0]);
                assert forall|j: int|
                    0 <= j < es.len() implies (#[trigger] es[j]).1.0 + batch@.len() <= u32::MAX by {
                    assert(es[j].1.0 <= u32::MAX - total_records(rest));
                }
            }
            self.stats.add_game_results(batch);
            proof {
                lemma_add_batch_games(es, rest[0], u32::MAX - total_records(rest));
                assert(games_le(
                    self.stats.entries(),
                    u32::MAX - total_records(rest) + rest[0].len(),
                ));
                assert(spec_fold_batches(es, rest) == spec_fold_batches(
                    self.stats.entries(),
                    bs.skip(k + 1),
                ));
                assert(items@.map_values(
                    |v: Vec<GameResult>| v@.map_values(|g: GameResult| (g.species@, g.won)),
                ) =~= bs.skip(k + 1));
            }
        }
        proof {
            assert(bs.skip(bs.len() as int) =~= Seq::<Seq<(Seq<char>, bool)>>::empty());
        }
        Ok(())
    }
}

/// Rendering of accumulated statistics: a plain table for humans and CSV
/// rows. Both are pure formatting over the sorted entries; the rendering
/// layer around this library implements them.
pub trait StatsOutput {
    fn to_human_readable(&mut self) -> String;

    fn to_csv(&mut self) -> String;
}

impl crate::directory::LogParser<Vec<GameResult>> for StatisticsDirectoryParser {
    /// The parser's state: its rating floor and the per-species entries.
    type VS = (u64, Seq<(Seq<char>, (u32, u32))>);

    /// One per-file result: the records the log contributed.
    type VR = Seq<(Seq<char>, bool)>;

    open spec fn state_model(self) -> (u64, Seq<(Seq<char>, (u32, u32))>) {
        (self.min_elo, self.stats.entries())
    }

    open spec fn result_model(r: Vec<GameResult>) -> Seq<(Seq<char>, bool)> {
        r@.map_values(|g: GameResult| (g.species@, g.won))
    }

    open spec fn on_file(
        s: (u64, Seq<(Seq<char>, (u32, u32))>),
        content: Seq<char>,
        dir: Seq<char>,
        file: Seq<char>,
    ) -> ((u64, Seq<(Seq<char>, (u32, u32))>), Option<Seq<(Seq<char>, bool)>>) {
        (s, Some(spec_process(s.0, content)))
    }

    open spec fn on_fold(
        s: (u64, Seq<(Seq<char>, (u32, u32))>),
        rs: Seq<Seq<(Seq<char>, bool)>>,
    ) -> ((u64, Seq<(Seq<char>, (u32, u32))>), bool) {
        if total_records(rs) <= u32::MAX && games_le(s.1, u32::MAX - total_records(rs)) {
            ((s.0, spec_fold_batches(s.1, rs)), true)
        } else {
            (s, false)
        }
    }

    /// What one log contributes, per this parser's floor.
    fn handle_log_file(&mut self, raw_json: &str, dir_name: &str, file_name: &str) -> (r: Result<
        Vec<GameResult>,
        crate::BattleToolsError,
    >) {
        Stats::process_json(self.min_elo, raw_json)
    }

    /// Folds every per-file result in one batch. A run so large that a
    /// counter would overflow is rejected rather than miscounted.
    fn handle_results(&mut self, results: Vec<Vec<GameResult>>) -> (r: Result<
        (),
        crate::BattleToolsError,
    >) {
        let ghost bs = results@.map_values(
            |v: Vec<GameResult>| v@.map_values(|g: GameResult| (g.species@, g.won)),
        );
        let mut total: u64 = 0;
        let mut k: usize = 0;
        proof {
            lemma_total_records_nonneg(bs);
        }
        while k < results.len()
            invariant
                k <= results@.len(),
                bs == results@.map_values(
                    |v: Vec<GameResult>| v@.map_values(|g: GameResult| (g.species@, g.won)),
                ),
                total <= u32::MAX,
                total == total_records(bs.take(k as int)),
            decreases results@.len() - k,
        {
            proof {
                assert(bs.take(k + 1).drop_last() =~= bs.take(k as int));
                lemma_total_records_take(bs, k as int);
                lemma_total_records_take(bs, k + 1);
            }
            let n = results[k].len();
            proof {
                assert(bs[k as int] == results@[k as int]@.map_values(
                    |g: GameResult| (g.species@, g.won),
                ));
            }
            if n as u64 > u32::MAX as u64 - total {
                proof {
                    lemma_total_records_split(bs, k + 1);
                    lemma_total_records_nonneg(bs.skip(k + 1));
                    assert(total_records(bs) > u32::MAX);
                    assert(results@.map_values(
                        |x: Vec<GameResult>| Self::result_model(x),
                    ) =~= bs);
                }
                return Err(crate::BattleToolsError::InvalidLog(String::from_str(
                    "too many team records for one run",
                )));
            }
            total = total + n as u64;
            k = k + 1;
        }
        proof {
            assert(bs.take(bs.len() as int) =~= bs);
        }
        let rows = self.stats.rows();
        let mut j: usize = 0;
        while j < rows.len()
            invariant
                j <= rows@.len(),
                total <= u32::MAX,
                bs == results@.map_values(
                    |v: Vec<GameResult>| v@.map_values(|g: GameResult| (g.species@, g.won)),
                ),
                total == total_records(bs),
                rows@.len() == self.stats.entries().len(),
                forall|q: int|
                    0 <= q < rows@.len() ==> ((#[trigger] rows@[q]).0@, rows@[q].1)
                        == self.stats.entries()[q],
                forall|q: int|
                    0 <= q < j ==> (#[trigger] self.stats.entries()[q]).1.0 + total <= u32::MAX,
            decreases rows@.len() - j,
        {
            if rows[j].1.0 as u64 > u32::MAX as u64 - total {
                proof {
                    assert((rows@[j as int].0@, rows@[j as int].1) == self.stats.entries()[j as int]);
                    assert(!games_le(self.stats.entries(), u32::MAX - total_records(bs))) by {
                        assert(self.stats.entries()[j as int].1.0 > u32::MAX - total_records(bs));
                    }
                    assert(results@.map_values(
                        |x: Vec<GameResult>| Self::result_model(x),
                    ) =~= bs);
                }
                return Err(crate::BattleToolsError::InvalidLog(String::from_str(
                    "a species counter would overflow",
                )));
            }
            proof {
                assert((rows@[j as int].0@, rows@[j as int].1) == self.stats.entries()[j as int]);
            }
            j = j + 1;
        }
        proof {
            assert(results@.map_values(|x: Vec<GameResult>| Self::result_model(x)) =~= bs);
        }
        StatisticsDirectoryParser::handle_results(self, results)
    }
}

/// The total of a list is the total of a prefix plus its remainder's.
proof fn lemma_total_records_split(bs: Seq<Seq<(Seq<char>, bool)>>, m: int)
    requires
        0 <= m <= bs.len(),
    ensures
        total_records(bs) == total_records(bs.take(m)) + total_records(bs.skip(m)),
    decreases m,
{
    if m == 0 {
        assert(bs.take(0) =~= Seq::<Seq<(Seq<char>, bool)>>::empty());
        assert(bs.skip(0) =~= bs);
    } else {
        lemma_total_records_split(bs, m - 1);
        lemma_total_records_take(bs, m);
        lemma_total_records_take(bs, m - 1);
        assert(bs.skip(m - 1)[0] == bs[m - 1]);
        assert(bs.skip(m - 1).skip(1) =~= bs.skip(m));
        assert(total_records(bs.skip(m - 1)) == bs[m - 1].len() + total_records(bs.skip(m)));
    }
}

/// Relates the total of a prefix to its last batch.
proof fn lemma_total_records_take(bs: Seq<Seq<(Seq<char>, bool)>>, k: int)
    requires
        0 <= k <= bs.len(),
    ensures
        k > 0 ==> total_records(bs.take(k)) == total_records(bs.take(k - 1)) + bs[k - 1].len(),
        k == 0 ==> total_records(bs.take(k)) == 0,
        total_records(bs.take(k)) >= 0,
    decreases k,
{
    if k == 0 {
        assert(bs.take(0) =~= Seq::<Seq<(Seq<char>, bool)>>::empty());
    } else {
        lemma_total_records_append_one(bs.take(k - 1), bs[k - 1]);
        assert(bs.take(k) =~= bs.take(k - 1).push(bs[k - 1]));
        lemma_total_records_take(bs, k - 1);
    }
}

proof fn lemma_total_records_append_one(bs: Seq<Seq<(Seq<char>, bool)>>, b: Seq<(Seq<char>, bool)>)
    ensures
        total_records(bs.push(b)) == total_records(bs) + b.len(),
    decreases bs.len(),
{
    if bs.len() == 0 {
        assert(bs.push(b)[0] == b);
        assert(bs.push(b).skip(1) =~= Seq::<Seq<(Seq<char>, bool)>>::empty());
        assert(total_records(bs.push(b)) == b.len() + total_records(bs.push(b).skip(1)));
        assert(total_records(bs.push(b).skip(1)) == 0);
        assert(total_records(bs) == 0);
    } else {
        assert(bs.push(b)[0] == bs[0]);
        assert(bs.push(b).skip(1) =~= bs.skip(1).push(b));
        lemma_total_records_append_one(bs.skip(1), b);
        assert(total_records(bs.push(b)) == bs[0].len() + total_records(bs.skip(1).push(b)));
        assert(total_records(bs) == bs[0].len() + total_records(bs.skip(1)));
    }
}

} // verus!
