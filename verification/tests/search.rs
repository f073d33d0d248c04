//! Tests for the battle searcher: canonical IDs, the filters, and the
//! report line.

use psbattletools::id::{bytes_to_id, to_id};
use psbattletools::search::BattleSearcher;

const SMALL_LOG: &str = r#"{"winner":"Annika","p1":"Annika","p2":"Rust Haters","endType":"normal","timestamp":"Wed Nov 1 1970 00:00:01"}"#;

const FORFEIT_LOG: &str = r#"{"winner":"Rust Haters","p1":"Annika","p2":"Rust Haters","endType":"forfeit","timestamp":"Wed Nov 1 1970 00:00:01"}"#;

const TIE_LOG: &str = r#"{"winner":"","p1":"Annika","p2":"Rust Haters","endType":"normal","timestamp":"Wed Nov 1 1970 00:00:01"}"#;

#[test]
fn canonical_ids() {
    assert_eq!(to_id("Annika"), "annika");
    assert_eq!(to_id("Rust Haters"), "rusthaters");
    assert_eq!(to_id("A-B_c 9!"), "abc9");
    assert_eq!(to_id("☆Annika"), "annika");
    assert_eq!(to_id(""), "");
}

#[test]
fn ids_from_bytes() {
    let bytes: &[u8] = b"Rust Haters";
    assert_eq!(bytes_to_id(&Some(bytes)), Some(String::from("rusthaters")));
    assert_eq!(bytes_to_id(&None), None);
}

#[test]
fn search_reports_matches() {
    let searcher = BattleSearcher::new("AnniKa", false, false);
    let line = searcher
        .handle_log_file(SMALL_LOG, "2020-11-21", "battle-gen8randombattle-1.log.json")
        .unwrap();
    assert_eq!(
        line.unwrap(),
        "(2020-11-21) <<battle-gen8randombattle-1>> annika vs. rusthaters (annika won normally)"
    );
}

#[test]
fn search_skips_other_users() {
    let searcher = BattleSearcher::new("somebodyelse", false, false);
    let line = searcher.handle_log_file(SMALL_LOG, "d", "r").unwrap();
    assert!(line.is_none());
}

#[test]
fn wins_only_filter() {
    let winners = BattleSearcher::new("AnniKa", true, false);
    assert!(winners.handle_log_file(SMALL_LOG, "d", "r").unwrap().is_some());
    assert!(winners.handle_log_file(FORFEIT_LOG, "d", "r").unwrap().is_none());
}

#[test]
fn forfeits_only_filter() {
    let forfeits = BattleSearcher::new("AnniKa", false, true);
    assert!(forfeits.handle_log_file(SMALL_LOG, "d", "r").unwrap().is_none());
    let line = forfeits.handle_log_file(FORFEIT_LOG, "d", "r").unwrap().unwrap();
    assert_eq!(line, "(d) <<r>> annika vs. rusthaters (rusthaters won by forfeit)");
}

#[test]
fn tie_reports_no_winner() {
    let searcher = BattleSearcher::new("AnniKa", false, false);
    let line = searcher.handle_log_file(TIE_LOG, "d", "r").unwrap().unwrap();
    assert_eq!(line, "(d) <<r>> annika vs. rusthaters (there was no winner)");
}
