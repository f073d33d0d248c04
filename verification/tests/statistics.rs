//! Tests for the win-rate statistics: record extraction, the rating floor,
//! species normalization, folding, and the deviation ranking.

use psbattletools::statistics::{GameResult, Stats, StatisticsDirectoryParser, normalize_species};

const SMALL_LOG: &str = r#"{"winner":"Annika","p1":"Annika","p2":"Rust Haters","p1team":[{"species":"Rotom-Fan"},{"species":"Pikachu-Sinnoh"}],"p2team":[{"species":"Drednaw"},{"species":"Exeggutor-Alola"}],"p1rating":{"elo":1400},"p2rating":{"elo":1130.7522733629},"endType":"normal","timestamp":"Wed Nov 1 1970 00:00:01"}"#;

#[test]
fn process_json_extracts_team_records() {
    let results = Stats::process_json(0, SMALL_LOG).unwrap();
    let pairs: Vec<(String, bool)> = results
        .iter()
        .map(|g| (g.species.clone(), g.won))
        .collect();
    assert_eq!(
        pairs,
        vec![
            (String::from("Rotom-Fan"), true),
            (String::from("Pikachu"), true),
            (String::from("Drednaw"), false),
            (String::from("Exeggutor-Alola"), false),
        ]
    );
}

#[test]
fn rating_floor_rejects_low_rated_battles() {
    // p2's rating floors at 1130, so a 1131 floor rejects the whole log.
    assert_eq!(Stats::process_json(1131, SMALL_LOG).unwrap().len(), 0);
    // A floor at 1130 keeps it.
    assert_eq!(Stats::process_json(1130, SMALL_LOG).unwrap().len(), 4);
}

#[test]
fn species_normalization_table() {
    assert_eq!(normalize_species(String::from("Pikachu-Sinnoh")), "Pikachu");
    assert_eq!(normalize_species(String::from("Unown-F")), "Unown");
    assert_eq!(normalize_species(String::from("Gastrodon-East")), "Gastrodon");
    assert_eq!(normalize_species(String::from("Magearna-Original")), "Magearna");
    assert_eq!(normalize_species(String::from("Genesect-Douse")), "Genesect");
    assert_eq!(normalize_species(String::from("Basculin-Blue-Striped")), "Basculin");
    assert_eq!(normalize_species(String::from("Sawsbuck-Winter")), "Sawsbuck");
    assert_eq!(normalize_species(String::from("Vivillon-Fancy")), "Vivillon");
    assert_eq!(normalize_species(String::from("Florges-Blue")), "Florges");
    assert_eq!(normalize_species(String::from("Furfrou-Star")), "Furfrou");
    assert_eq!(normalize_species(String::from("Minior-Orange")), "Minior");
    assert_eq!(normalize_species(String::from("Gourgeist-Large")), "Gourgeist");
    assert_eq!(normalize_species(String::from("Toxtricity-Low-Key")), "Toxtricity");
    // Not in the table: kept as they are.
    assert_eq!(normalize_species(String::from("Rotom-Fan")), "Rotom-Fan");
    assert_eq!(normalize_species(String::from("Exeggutor-Alola")), "Exeggutor-Alola");
}

fn batch(n: u32) -> Vec<GameResult> {
    let mut v = Vec::new();
    for _ in 0..n {
        v.push(GameResult { species: String::from("Rotom-Fan"), won: true });
        v.push(GameResult { species: String::from("Drednaw"), won: false });
    }
    v
}

#[test]
fn identical_logs_multiply_counters() {
    // A thousand identical logs: the constant winner ends at a perfect
    // 1000 of 1000, the constant loser at 0 of 1000, and the deviation
    // score works out to the square root of the sample size.
    let mut stats = Stats::new();
    for _ in 0..1000 {
        let mut b = Vec::new();
        b.push(GameResult { species: String::from("Rotom-Fan"), won: true });
        b.push(GameResult { species: String::from("Drednaw"), won: false });
        stats.add_game_results(b);
    }
    stats.sort();
    let rows = stats.rows();
    assert_eq!(rows.len(), 2);
    assert_eq!(rows[0].0, "Rotom-Fan");
    assert_eq!(rows[0].1, (1000, 1000));
    assert_eq!(rows[1].0, "Drednaw");
    assert_eq!(rows[1].1, (1000, 0));
    let (games, wins) = rows[0].1;
    let winrate = wins as f64 / games as f64 * 100.0;
    assert_eq!(winrate, 100.0);
    let deviation = (winrate - 50.0) * (games as f64).sqrt() / 50.0;
    assert!((deviation - 31.622776).abs() < 0.001);
    let (lgames, lwins) = rows[1].1;
    let ldeviation =
        ((lwins as f64 / lgames as f64 * 100.0) - 50.0) * (lgames as f64).sqrt() / 50.0;
    assert!((ldeviation + 31.622776).abs() < 0.001);
}

#[test]
fn sort_ranks_by_deviation_descending() {
    let mut stats = Stats::new();
    let mut b = Vec::new();
    // strong: 9 of 10; weak: 1 of 10; middling: 5 of 10
    for i in 0..10 {
        b.push(GameResult { species: String::from("Strong"), won: i < 9 });
        b.push(GameResult { species: String::from("Weak"), won: i < 1 });
        b.push(GameResult { species: String::from("Middle"), won: i < 5 });
    }
    stats.add_game_results(b);
    stats.sort();
    let rows = stats.rows();
    assert_eq!(rows[0].0, "Strong");
    assert_eq!(rows[1].0, "Middle");
    assert_eq!(rows[2].0, "Weak");
}

#[test]
fn folding_is_batched_once() {
    let mut parser = StatisticsDirectoryParser::new(None);
    let mut batches = Vec::new();
    batches.push(batch(2));
    batches.push(batch(3));
    parser.handle_results(batches).unwrap();
    let rows = parser.stats.rows();
    assert_eq!(rows.len(), 2);
    assert_eq!(rows[0].1, (5, 5));
    assert_eq!(rows[1].1, (5, 0));
}

#[test]
fn min_elo_comes_from_the_option() {
    let some = StatisticsDirectoryParser::new(Some(1200));
    assert_eq!(some.min_elo, 1200);
    let none = StatisticsDirectoryParser::new(None);
    assert_eq!(none.min_elo, 0);
}

#[test]
fn sort_is_idempotent() {
    // Equal-deviation entries keep their first-appearance order, so a
    // second sort changes nothing.
    let mut stats = Stats::new();
    let mut b = Vec::new();
    for name in ["First", "Second", "Third"] {
        b.push(GameResult { species: String::from(name), won: true });
        b.push(GameResult { species: String::from(name), won: false });
    }
    stats.add_game_results(b);
    stats.sort();
    let once = stats.rows();
    stats.sort();
    let twice = stats.rows();
    assert_eq!(once, twice);
    assert_eq!(once[0].0, "First");
    assert_eq!(once[1].0, "Second");
    assert_eq!(once[2].0, "Third");
}
