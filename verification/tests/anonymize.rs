//! Tests for the anonymizer: pseudonym tracking, identifier scrubbing,
//! tie handling, and log emptying.

use psbattletools::anonymize::{Anonymizer, SharedState};

const SAMPLE_JSON: &str = r#"{"winner":"Annika","seed":[1,1,1,1],"turns":2,"p1":"Annika","p2":"Rust Haters","p1team":[{"name":"Rotom","species":"Rotom-Fan","gender":"N","shiny":false,"gigantamax":false,"level":84,"moves":["airslash","voltswitch","willowisp","thunderbolt"],"ability":"Levitate","evs":{"hp":85,"atk":0,"def":85,"spa":85,"spd":85,"spe":85},"ivs":{"hp":31,"atk":0,"def":31,"spa":31,"spd":31,"spe":31},"item":"Heavy-Duty Boots"},{"name":"Regirock","species":"Regirock","gender":"N","shiny":false,"gigantamax":false,"level":85,"moves":["curse","rockslide","rest","bodypress"],"ability":"Sturdy","evs":{"hp":85,"atk":85,"def":85,"spa":85,"spd":85,"spe":85},"ivs":{"hp":31,"atk":31,"def":31,"spa":31,"spd":31,"spe":31},"item":"Chesto Berry"},{"name":"Conkeldurr","species":"Conkeldurr","gender":"","shiny":false,"gigantamax":false,"level":80,"moves":["facade","knockoff","machpunch","drainpunch"],"ability":"Guts","evs":{"hp":85,"atk":85,"def":85,"spa":85,"spd":85,"spe":85},"ivs":{"hp":31,"atk":31,"def":31,"spa":31,"spd":31,"spe":31},"item":"Flame Orb"},{"name":"Reuniclus","species":"Reuniclus","gender":"","shiny":false,"gigantamax":false,"level":84,"moves":["trickroom","focusblast","psychic","shadowball"],"ability":"Magic Guard","evs":{"hp":85,"atk":0,"def":85,"spa":85,"spd":85,"spe":0},"ivs":{"hp":31,"atk":0,"def":31,"spa":31,"spd":31,"spe":0},"item":"Life Orb"},{"name":"Incineroar","species":"Incineroar","gender":"","shiny":false,"gigantamax":false,"level":80,"moves":["knockoff","uturn","earthquake","flareblitz"],"ability":"Intimidate","evs":{"hp":85,"atk":85,"def":85,"spa":85,"spd":85,"spe":85},"ivs":{"hp":31,"atk":31,"def":31,"spa":31,"spd":31,"spe":31},"item":"Choice Scarf"},{"name":"Miltank","species":"Miltank","gender":"F","shiny":false,"gigantamax":false,"level":84,"moves":["healbell","bodyslam","earthquake","milkdrink"],"ability":"Sap Sipper","evs":{"hp":85,"atk":85,"def":85,"spa":85,"spd":85,"spe":85},"ivs":{"hp":31,"atk":31,"def":31,"spa":31,"spd":31,"spe":31},"item":"Leftovers"}],"p2team":[{"name":"Drednaw","species":"Drednaw","gender":"","shiny":false,"gigantamax":false,"level":84,"moves":["stoneedge","swordsdance","superpower","liquidation"],"ability":"Swift Swim","evs":{"hp":85,"atk":85,"def":85,"spa":85,"spd":85,"spe":85},"ivs":{"hp":31,"atk":31,"def":31,"spa":31,"spd":31,"spe":31},"item":"Life Orb"},{"name":"Pinsir","species":"Pinsir","gender":"","shiny":false,"gigantamax":false,"level":84,"moves":["closecombat","stoneedge","xscissor","knockoff"],"ability":"Moxie","evs":{"hp":85,"atk":85,"def":85,"spa":85,"spd":85,"spe":85},"ivs":{"hp":31,"atk":31,"def":31,"spa":31,"spd":31,"spe":31},"item":"Choice Scarf"},{"name":"Pikachu","species":"Pikachu-Sinnoh","gender":"","shiny":false,"gigantamax":false,"level":92,"moves":["knockoff","volttackle","voltswitch","irontail"],"ability":"Lightning Rod","evs":{"hp":85,"atk":85,"def":85,"spa":85,"spd":85,"spe":85},"ivs":{"hp":31,"atk":31,"def":31,"spa":31,"spd":31,"spe":31},"item":"Light Ball"},{"name":"Latios","species":"Latios","gender":"M","shiny":false,"gigantamax":false,"level":78,"moves":["dracometeor","calmmind","psyshock","roost"],"ability":"Levitate","evs":{"hp":85,"atk":0,"def":85,"spa":85,"spd":85,"spe":85},"ivs":{"hp":31,"atk":0,"def":31,"spa":31,"spd":31,"spe":31},"item":"Soul Dew"},{"name":"Entei","species":"Entei","gender":"N","shiny":false,"gigantamax":false,"level":78,"moves":["flareblitz","stoneedge","extremespeed","sacredfire"],"ability":"Inner Focus","evs":{"hp":85,"atk":85,"def":85,"spa":85,"spd":85,"spe":85},"ivs":{"hp":31,"atk":31,"def":31,"spa":31,"spd":31,"spe":31},"item":"Choice Band"},{"name":"Exeggutor","species":"Exeggutor-Alola","gender":"","shiny":false,"gigantamax":false,"level":86,"moves":["gigadrain","flamethrower","dracometeor","leafstorm"],"ability":"Frisk","evs":{"hp":85,"atk":0,"def":85,"spa":85,"spd":85,"spe":85},"ivs":{"hp":31,"atk":0,"def":31,"spa":31,"spd":31,"spe":31},"item":"Choice Specs"}],"score":[0,2],"inputLog":[">lol you thought i'd leak someone's real input log"],"log":["|j|☆Annika","|j|☆Rust Hater","|player|p1|Annika|cynthia|1400","|player|p2|Rust Hater|cynthia|1100","|teamsize|p1|6","|teamsize|p2|6","|gametype|singles","|gen|8","|tier|[Gen 8] Random Battle","|rated|"],"p1rating":{"entryid":"75790599","userid":"annika","w":"4","l":4,"t":"0","gxe":46.8,"r":1516.9377700433,"rd":121.36211247153,"rptime":1632906000,"rpr":1474.7452159936,"rprd":115.09180605287,"elo":1400,"col1":8,"oldelo":"1057.7590112468"},"p2rating":{"entryid":"75790599","userid":"rusthater","w":"4","l":5,"t":"0","gxe":41.8,"r":"1516.9377700433","rd":"121.36211247153","rptime":"1632906000","rpr":1434.9434039083,"rprd":109.84367373045,"elo":1130.7522733629,"col1":9,"oldelo":"1040.4859871929"},"endType":"normal","timestamp":"Wed Nov 1 1970 00:00:01 GMT-0400 (Eastern Daylight Time)","roomid":"battle-gen8randombattle-1","format":"gen8randombattle", "comment": "if you're curious - this is my own rating info & teams from my battles - no violation of privacy here!"}"#;

const TIE_WINNERSTRING_JSON: &str = r#"{"winner":"","seed":[1,1,1,1],"turns":2,"p1":"Annika","p2":"Rust Haters","p1team":[{"name":"Rotom","species":"Rotom-Fan","gender":"N","shiny":false,"gigantamax":false,"level":84,"moves":["airslash","voltswitch","willowisp","thunderbolt"],"ability":"Levitate","evs":{"hp":85,"atk":0,"def":85,"spa":85,"spd":85,"spe":85},"ivs":{"hp":31,"atk":0,"def":31,"spa":31,"spd":31,"spe":31},"item":"Heavy-Duty Boots"},{"name":"Regirock","species":"Regirock","gender":"N","shiny":false,"gigantamax":false,"level":85,"moves":["curse","rockslide","rest","bodypress"],"ability":"Sturdy","evs":{"hp":85,"atk":85,"def":85,"spa":85,"spd":85,"spe":85},"ivs":{"hp":31,"atk":31,"def":31,"spa":31,"spd":31,"spe":31},"item":"Chesto Berry"},{"name":"Conkeldurr","species":"Conkeldurr","gender":"","shiny":false,"gigantamax":false,"level":80,"moves":["facade","knockoff","machpunch","drainpunch"],"ability":"Guts","evs":{"hp":85,"atk":85,"def":85,"spa":85,"spd":85,"spe":85},"ivs":{"hp":31,"atk":31,"def":31,"spa":31,"spd":31,"spe":31},"item":"Flame Orb"},{"name":"Reuniclus","species":"Reuniclus","gender":"","shiny":false,"gigantamax":false,"level":84,"moves":["trickroom","focusblast","psychic","shadowball"],"ability":"Magic Guard","evs":{"hp":85,"atk":0,"def":85,"spa":85,"spd":85,"spe":0},"ivs":{"hp":31,"atk":0,"def":31,"spa":31,"spd":31,"spe":0},"item":"Life Orb"},{"name":"Incineroar","species":"Incineroar","gender":"","shiny":false,"gigantamax":false,"level":80,"moves":["knockoff","uturn","earthquake","flareblitz"],"ability":"Intimidate","evs":{"hp":85,"atk":85,"def":85,"spa":85,"spd":85,"spe":85},"ivs":{"hp":31,"atk":31,"def":31,"spa":31,"spd":31,"spe":31},"item":"Choice Scarf"},{"name":"Miltank","species":"Miltank","gender":"F","shiny":false,"gigantamax":false,"level":84,"moves":["healbell","bodyslam","earthquake","milkdrink"],"ability":"Sap Sipper","evs":{"hp":85,"atk":85,"def":85,"spa":85,"spd":85,"spe":85},"ivs":{"hp":31,"atk":31,"def":31,"spa":31,"spd":31,"spe":31},"item":"Leftovers"}],"p2team":[{"name":"Drednaw","species":"Drednaw","gender":"","shiny":false,"gigantamax":false,"level":84,"moves":["stoneedge","swordsdance","superpower","liquidation"],"ability":"Swift Swim","evs":{"hp":85,"atk":85,"def":85,"spa":85,"spd":85,"spe":85},"ivs":{"hp":31,"atk":31,"def":31,"spa":31,"spd":31,"spe":31},"item":"Life Orb"},{"name":"Pinsir","species":"Pinsir","gender":"","shiny":false,"gigantamax":false,"level":84,"moves":["closecombat","stoneedge","xscissor","knockoff"],"ability":"Moxie","evs":{"hp":85,"atk":85,"def":85,"spa":85,"spd":85,"spe":85},"ivs":{"hp":31,"atk":31,"def":31,"spa":31,"spd":31,"spe":31},"item":"Choice Scarf"},{"name":"Pikachu","species":"Pikachu-Sinnoh","gender":"","shiny":false,"gigantamax":false,"level":92,"moves":["knockoff","volttackle","voltswitch","irontail"],"ability":"Lightning Rod","evs":{"hp":85,"atk":85,"def":85,"spa":85,"spd":85,"spe":85},"ivs":{"hp":31,"atk":31,"def":31,"spa":31,"spd":31,"spe":31},"item":"Light Ball"},{"name":"Latios","species":"Latios","gender":"M","shiny":false,"gigantamax":false,"level":78,"moves":["dracometeor","calmmind","psyshock","roost"],"ability":"Levitate","evs":{"hp":85,"atk":0,"def":85,"spa":85,"spd":85,"spe":85},"ivs":{"hp":31,"atk":0,"def":31,"spa":31,"spd":31,"spe":31},"item":"Soul Dew"},{"name":"Entei","species":"Entei","gender":"N","shiny":false,"gigantamax":false,"level":78,"moves":["flareblitz","stoneedge","extremespeed","sacredfire"],"ability":"Inner Focus","evs":{"hp":85,"atk":85,"def":85,"spa":85,"spd":85,"spe":85},"ivs":{"hp":31,"atk":31,"def":31,"spa":31,"spd":31,"spe":31},"item":"Choice Band"},{"name":"Exeggutor","species":"Exeggutor-Alola","gender":"","shiny":false,"gigantamax":false,"level":86,"moves":["gigadrain","flamethrower","dracometeor","leafstorm"],"ability":"Frisk","evs":{"hp":85,"atk":0,"def":85,"spa":85,"spd":85,"spe":85},"ivs":{"hp":31,"atk":0,"def":31,"spa":31,"spd":31,"spe":31},"item":"Choice Specs"}],"score":[0,2],"inputLog":[">lol you thought i'd leak someone's real input log"],"log":["|j|☆Annika","|j|☆Rust Hater","|player|p1|Annika|cynthia|1400","|player|p2|Rust Hater|cynthia|1100","|teamsize|p1|6","|teamsize|p2|6","|gametype|singles","|gen|8","|tier|[Gen 8] Random Battle","|rated|"],"p1rating":{"entryid":"75790599","userid":"annika","w":"4","l":4,"t":"0","gxe":46.8,"r":1516.9377700433,"rd":121.36211247153,"rptime":1632906000,"rpr":1474.7452159936,"rprd":115.09180605287,"elo":1400,"col1":8,"oldelo":"1057.7590112468"},"p2rating":{"entryid":"75790599","userid":"rusthater","w":"4","l":5,"t":"0","gxe":41.8,"r":"1516.9377700433","rd":"121.36211247153","rptime":"1632906000","rpr":1434.9434039083,"rprd":109.84367373045,"elo":1130.7522733629,"col1":9,"oldelo":"1040.4859871929"},"endType":"normal","timestamp":"Wed Nov 1 1970 00:00:01 GMT-0400 (Eastern Daylight Time)","roomid":"battle-gen8randombattle-1","format":"gen8randombattle", "comment": "if you're curious - this is my own rating info & teams from my battles - no violation of privacy here!"}"#;

#[test]
pub fn player_tracking() {
    let mut state = SharedState::new();
    let player1 = String::from("Annika");
    let player2 = String::from("Annika Testing");

    let anon_p1 = state.anonymize_player(player1.clone());
    let anon_p2 = state.anonymize_player(player2.clone());

    // Unique
    assert_ne!(anon_p1, anon_p2);

    // Anonymous
    assert_ne!(anon_p1, player1);
    assert_ne!(anon_p2, player2);

    // Consistent
    assert_eq!(state.anonymize_player(player1), anon_p1);
    assert_eq!(state.anonymize_player(player2), anon_p2);
}

#[test]
pub fn anonymization() {
    let mut anonymizer = Anonymizer::new(true, false);
    let (json, _, _) = anonymizer.anonymize(SAMPLE_JSON).unwrap();
    assert_ne!(json, SAMPLE_JSON);

    for term in ["00:00:01", "Annika", "annika", "Rust Haters", "rusthaters"] {
        assert!(
            !json.contains(term),
            "Identifying information in anonymized JSON ('{}' in '{}')",
            term,
            json
        );
    }

    for property in ["roomid"] {
        let value = gjson::get(&json, property);
        assert!(
            !value.exists() || value.kind() == gjson::Kind::Null,
            "Anonymized JSON includes potentially-identifying property '{}' (full JSON: '{}')",
            property,
            json
        );
    }
}

// In ties, the `winner` property is an empty string.
// psbattletools should recognize this and not anonymize it.
#[test]
pub fn tie() {
    let mut anonymizer = Anonymizer::new(true, false);
    let (json, _, _) = anonymizer.anonymize(TIE_WINNERSTRING_JSON).unwrap();
    assert_eq!(
        gjson::get(&json, "winner").str(),
        "",
        "`winner` property not anonymized to and empty string in a tie"
    );
}

#[test]
pub fn no_log() {
    let mut anonymizer_logs = Anonymizer::new(false, false);
    let mut anonymizer_no_logs = Anonymizer::new(false, true);
    let (logs_json, _, _) = anonymizer_logs.anonymize(SAMPLE_JSON).unwrap();
    let (no_logs_json, _, _) = anonymizer_no_logs.anonymize(SAMPLE_JSON).unwrap();

    for should_be_arr in ["log", "inputLog"] {
        assert!(
            gjson::get(&no_logs_json, should_be_arr).kind() == gjson::Kind::Array,
            "{} should be an array in the logless JSON",
            should_be_arr
        );

        assert!(
            gjson::get(&logs_json, should_be_arr).kind() == gjson::Kind::Array,
            "{} should be an array in the JSON with logs",
            should_be_arr
        );
    }

    assert_eq!(gjson::get(&no_logs_json, "log").array().len(), 0);
    assert_eq!(gjson::get(&no_logs_json, "inputLog").array().len(), 0);

    assert_ne!(gjson::get(&logs_json, "log").array().len(), 0);
    assert_ne!(gjson::get(&logs_json, "inputLog").array().len(), 0);
}

#[test]
pub fn battle_numbers_count_up() {
    let mut anonymizer = Anonymizer::new(true, false);
    let (_, n1, fmt) = anonymizer.anonymize(SAMPLE_JSON).unwrap();
    let (_, n2, _) = anonymizer.anonymize(SAMPLE_JSON).unwrap();
    assert_eq!(n1, 1);
    assert_eq!(n2, 2);
    assert_eq!(fmt, "gen8randombattle");
}

#[test]
pub fn cross_file_consistency() {
    // Two different logs naming the same two participants, anonymized
    // under one tracker, get the same pseudonym pairing.
    let a = r#"{"p1":"Annika","p2":"Rust Haters","winner":"Annika","timestamp":"Wed Nov 1 1970 00:00:01","roomid":"room-one","log":["|gametype|singles"],"inputLog":[">start"]}"#;
    let b = r#"{"p1":"Annika","p2":"Rust Haters","winner":"Rust Haters","timestamp":"Thu Nov 2 1970 09:30:00","roomid":"room-two","log":["|gametype|doubles"],"inputLog":[">start"]}"#;
    let mut anonymizer = Anonymizer::new(true, false);
    let (ja, _, _) = anonymizer.anonymize(a).unwrap();
    let (jb, _, _) = anonymizer.anonymize(b).unwrap();
    assert_eq!(gjson::get(&ja, "p1").str(), gjson::get(&jb, "p1").str());
    assert_eq!(gjson::get(&ja, "p2").str(), gjson::get(&jb, "p2").str());
    assert_eq!(gjson::get(&ja, "winner").str(), gjson::get(&ja, "p1").str());
    assert_eq!(gjson::get(&jb, "winner").str(), gjson::get(&jb, "p2").str());
}

#[test]
pub fn ratings_keep_rounded_magnitudes() {
    let mut anonymizer = Anonymizer::new(true, false);
    let (json, _, _) = anonymizer.anonymize(SAMPLE_JSON).unwrap();
    // elo 1400 stays 1400; rpr 1474.745 rounds down to 1450; rprd 115.09
    // rounds up to 120.
    assert_eq!(gjson::get(&json, "p1rating.elo").f64() as i64, 1400);
    assert_eq!(gjson::get(&json, "p1rating.rpr").f64() as i64, 1450);
    assert_eq!(gjson::get(&json, "p1rating.rprd").f64() as i64, 120);
    // p2 elo 1130.75 rounds up to 1150.
    assert_eq!(gjson::get(&json, "p2rating.elo").f64() as i64, 1150);
    // the rating objects keep nothing else
    assert!(!gjson::get(&json, "p1rating.userid").exists());
}

#[test]
pub fn timestamp_keeps_only_the_hour() {
    let mut anonymizer = Anonymizer::new(true, false);
    let (json, _, _) = anonymizer.anonymize(SAMPLE_JSON).unwrap();
    assert_eq!(gjson::get(&json, "timestamp").str(), "Wed Nov 1 1970 00:XX");
}

#[test]
pub fn malformed_logs_are_rejected() {
    let mut anonymizer = Anonymizer::new(true, false);
    assert!(anonymizer.anonymize("not json at all").is_err());
    assert!(anonymizer.anonymize(r#"{"p2":"b","winner":"","timestamp":"t"}"#).is_err());
    assert!(anonymizer.anonymize(r#"{"p1":1,"p2":"b","winner":"","timestamp":"t"}"#).is_err());
    assert!(anonymizer
        .anonymize(r#"{"p1":"a","p2":"b","winner":"","timestamp":"t","inputLog":[1]}"#)
        .is_err());
}

#[test]
pub fn state_json_round() {
    let mut state = SharedState::new();
    state.anonymize_player(String::from("Annika"));
    state.anonymize_player(String::from("A\"B\\C"));
    assert_eq!(
        state.get_state_json(),
        "{\"players\":{\"Annika\":\"1\",\"A\\\"B\\\\C\":\"2\"},\"current_battle_number\":0,\"cur_player_number\":2}"
    );

    let mut anonymizer = Anonymizer::new(true, false);
    anonymizer.anonymize(SAMPLE_JSON).unwrap();
    let state_json = anonymizer.get_state_json();
    assert!(gjson::get(&state_json, "current_battle_number").f64() as i64 == 1);
    assert_eq!(gjson::get(&state_json, "players.Annika").str(), "1");
    assert_eq!(gjson::get(&state_json, "cur_player_number").f64() as i64, 2);
}

#[test]
pub fn state_json_round_trip() {
    let mut first = Anonymizer::new(true, false);
    first.anonymize(SAMPLE_JSON).unwrap();
    let saved = first.get_state_json();

    // A tracker rebuilt from the saved state hands out the same pseudonyms.
    let mut second = Anonymizer::with_json(&saved, true, false).unwrap();
    let (json, n, _) = second.anonymize(SAMPLE_JSON).unwrap();
    assert_eq!(n, 2);
    assert_eq!(gjson::get(&json, "p1").str(), "1");
    assert_eq!(gjson::get(&json, "p2").str(), "2");
}

#[test]
pub fn bad_state_json_is_rejected() {
    assert!(Anonymizer::with_json("not json", true, false).is_err());
    // pseudonyms out of order
    assert!(Anonymizer::with_json(
        "{\"players\":{\"a\":\"2\",\"b\":\"1\"},\"current_battle_number\":0,\"cur_player_number\":2}",
        true,
        false
    )
    .is_err());
    // counter disagrees with the map
    assert!(Anonymizer::with_json(
        "{\"players\":{\"a\":\"1\"},\"current_battle_number\":0,\"cur_player_number\":5}",
        true,
        false
    )
    .is_err());
}

#[test]
pub fn join_and_leave_lines_are_dropped() {
    let mut anonymizer = Anonymizer::new(true, false);
    let (json, _, _) = anonymizer.anonymize(SAMPLE_JSON).unwrap();
    // Join notices are dropped outright; roster lines stay, with the
    // display name replaced by the pseudonym.
    assert!(!json.contains("|j|"));
    assert!(json.contains("|player|p1|1|"));
    assert!(json.contains("|teamsize|p1|6"));
}
