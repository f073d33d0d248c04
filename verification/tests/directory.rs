//! Tests for the traversal engine: every file under every reachable
//! directory is visited exactly once, subdirectories are discovered only
//! through their parents, exclusions prune whole subtrees, and the fold
//! step sees the union of all per-file results.

use psbattletools::directory::{
    DirNode, FileJob, LogTree, ParallelDirectoryParser, TreeEntry, collect_files,
};
use psbattletools::statistics::StatisticsDirectoryParser;

const SMALL_LOG: &str = r#"{"winner":"Annika","p1":"Annika","p2":"Rust Haters","p1team":[{"species":"Rotom-Fan"}],"p2team":[{"species":"Drednaw"}],"p1rating":{"elo":1400},"p2rating":{"elo":1131},"endType":"normal","timestamp":"Wed Nov 1 1970 00:00:01"}"#;

fn file(name: &str) -> TreeEntry {
    TreeEntry::File { name: String::from(name), content: String::from(SMALL_LOG) }
}

fn dir(name: &str, node: usize) -> TreeEntry {
    TreeEntry::Dir { name: String::from(name), node }
}

/// A root with two subdirectories, one of which hides a deeper one; the
/// subdirectories are reached only by walking their parents.
fn sample_tree() -> LogTree {
    LogTree {
        nodes: vec![
            DirNode {
                name: String::from("root"),
                entries: vec![file("1.log.json"), dir("day1", 1), dir("day2", 2)],
            },
            DirNode {
                name: String::from("day1"),
                entries: vec![file("2.log.json"), dir("deep", 3)],
            },
            DirNode { name: String::from("day2"), entries: vec![file("3.log.json")] },
            DirNode { name: String::from("deep"), entries: vec![file("4.log.json")] },
        ],
        roots: vec![0],
    }
}

#[test]
fn walks_discovered_subdirectories_exactly_once() {
    let tree = sample_tree();
    let jobs = collect_files(&tree, &None);
    let mut names: Vec<String> = jobs.iter().map(|j: &FileJob| j.file.clone()).collect();
    names.sort();
    assert_eq!(names, vec!["1.log.json", "2.log.json", "3.log.json", "4.log.json"]);
    let dirs: Vec<String> = jobs.iter().map(|j: &FileJob| j.dir.clone()).collect();
    assert!(dirs.contains(&String::from("deep")));
}

#[test]
fn exclusion_prunes_files_and_subtrees() {
    let tree = sample_tree();
    let jobs = collect_files(&tree, &Some(String::from("day1")));
    let mut names: Vec<String> = jobs.iter().map(|j: &FileJob| j.file.clone()).collect();
    names.sort();
    // day1 is skipped whole, so the file inside `deep` is never reached.
    assert_eq!(names, vec!["1.log.json", "3.log.json"]);

    let jobs2 = collect_files(&tree, &Some(String::from("3.log")));
    assert_eq!(jobs2.len(), 3);
}

#[test]
fn irrelevant_exclusion_changes_nothing() {
    let tree = sample_tree();
    let jobs = collect_files(&tree, &Some(String::from("something that isn't in filenames")));
    assert_eq!(jobs.len(), 4);
}

#[test]
fn fold_sees_the_union_of_all_directories() {
    let tree = sample_tree();
    let mut parser = StatisticsDirectoryParser::new(None);
    parser.handle_directories(&tree, &None).unwrap();
    let rows = parser.stats.rows();
    assert_eq!(rows.len(), 2);
    // four files, one record per side each
    assert_eq!(rows[0].0, "Rotom-Fan");
    assert_eq!(rows[0].1, (4, 4));
    assert_eq!(rows[1].0, "Drednaw");
    assert_eq!(rows[1].1, (4, 0));
}

#[test]
fn rating_floor_empties_a_whole_run() {
    // A floor above both sides' ratings in every log leaves no rows at all.
    let tree = sample_tree();
    let mut parser = StatisticsDirectoryParser::new(Some(5000));
    parser.handle_directories(&tree, &None).unwrap();
    assert_eq!(parser.stats.rows().len(), 0);
}

#[test]
fn many_files_accumulate() {
    let mut entries = Vec::new();
    for i in 0..200 {
        entries.push(file(&format!("{}.log.json", i)));
    }
    let tree = LogTree {
        nodes: vec![DirNode { name: String::from("root"), entries }],
        roots: vec![0],
    };
    let mut parser = StatisticsDirectoryParser::new(None);
    parser.handle_directories(&tree, &None).unwrap();
    let rows = parser.stats.rows();
    assert_eq!(rows[0].1, (200, 200));
    assert_eq!(rows[1].1, (200, 0));
}
