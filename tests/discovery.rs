use skriptorium::cmd::directory_listing::{relevant_files, IgnoreVerdict, WalkedEntry};
use skriptorium::cmd::language_detection::{get_primary_language, tally_file_outcomes, FileOutcome};

fn file(path: &str, name: &str, size: u64) -> WalkedEntry {
    WalkedEntry {
        path: path.to_string(),
        name: Some(name.to_string()),
        is_dir: false,
        size,
        ignore: IgnoreVerdict::NotIgnored,
    }
}

fn paths(entries: Vec<WalkedEntry>) -> Vec<String> {
    relevant_files(&entries).into_iter().map(|f| f.path).collect()
}

#[test]
fn scenario_tree_keeps_visible_unignored_files() {
    let root = WalkedEntry {
        path: ".".to_string(),
        name: Some(".".to_string()),
        is_dir: true,
        size: 4096,
        ignore: IgnoreVerdict::NotIgnored,
    };
    let entries = vec![
        root,
        file("./a.go", "a.go", 100),
        file("./b.md", "b.md", 50),
        file("./.hidden", ".hidden", 10),
        file("./Cargo.lock", "Cargo.lock", 70),
    ];
    let found = relevant_files(&entries);
    assert_eq!(found.len(), 2);
    assert_eq!(found[0].path, "./a.go");
    assert_eq!(found[0].size, 100);
    assert_eq!(found[1].path, "./b.md");
    assert_eq!(found[1].size, 50);
}

#[test]
fn hidden_files_are_excluded() {
    let entries = vec![file("./.env", ".env", 1), file("./src/.keep", ".keep", 1), file("./x", "x", 1)];
    assert_eq!(paths(entries), vec!["./x".to_string()]);
}

#[test]
fn lock_extension_is_excluded_only_as_an_extension() {
    let entries = vec![
        file("./Cargo.lock", "Cargo.lock", 1),
        file("./yarn.x.lock", "yarn.x.lock", 1),
        file("./lock", "lock", 1),
        file("./lock.txt", "lock.txt", 1),
        file("./a.locked", "a.locked", 1),
        file("./a.LOCK", "a.LOCK", 1),
    ];
    assert_eq!(
        paths(entries),
        vec![
            "./lock".to_string(),
            "./lock.txt".to_string(),
            "./a.locked".to_string(),
            "./a.LOCK".to_string()
        ]
    );
}

#[test]
fn directories_are_excluded() {
    let mut dir = file("./src", "src", 0);
    dir.is_dir = true;
    let entries = vec![dir, file("./src/main.rs", "main.rs", 3)];
    assert_eq!(paths(entries), vec!["./src/main.rs".to_string()]);
}

#[test]
fn ignored_and_unchecked_paths_are_excluded() {
    let mut ignored = file("./target/out.rs", "out.rs", 5);
    ignored.ignore = IgnoreVerdict::Ignored;
    let mut unresolved = file("./broken", "broken", 5);
    unresolved.ignore = IgnoreVerdict::Unresolved;
    let mut failed = file("./odd", "odd", 5);
    failed.ignore = IgnoreVerdict::CheckFailed;
    let entries = vec![ignored, unresolved, failed, file("./kept.rs", "kept.rs", 5)];
    assert_eq!(paths(entries), vec!["./kept.rs".to_string()]);
}

#[test]
fn names_that_are_not_text_are_kept() {
    let mut odd = file("./odd-name", "unused", 9);
    odd.name = None;
    let entries = vec![odd];
    assert_eq!(paths(entries), vec!["./odd-name".to_string()]);
}

#[test]
fn every_other_file_is_kept_once_in_walk_order() {
    let entries = vec![
        file("./c.rs", "c.rs", 1),
        file("./a.rs", "a.rs", 2),
        file("./b.rs", "b.rs", 3),
    ];
    assert_eq!(
        paths(entries),
        vec!["./c.rs".to_string(), "./a.rs".to_string(), "./b.rs".to_string()]
    );
}

#[test]
fn empty_walk_finds_nothing() {
    let entries: Vec<WalkedEntry> = Vec::new();
    assert!(relevant_files(&entries).is_empty());
}

#[test]
fn scenario_discovered_files_feed_the_tally() {
    let entries = vec![
        file("./a.go", "a.go", 100),
        file("./b.md", "b.md", 50),
        file("./.hidden", ".hidden", 10),
        file("./Cargo.lock", "Cargo.lock", 70),
    ];
    let found = relevant_files(&entries);
    let outcomes: Vec<FileOutcome> = found
        .iter()
        .map(|f| FileOutcome {
            size: f.size,
            ranked: if f.path.ends_with(".go") { Some(vec!["go".to_string()]) } else { Some(Vec::new()) },
        })
        .collect();
    let tally = tally_file_outcomes(&outcomes);
    assert_eq!(tally.len(), 1);
    assert_eq!(tally.get("go"), Some(100));
    assert_eq!(get_primary_language(&tally).map(|(k, _)| k), Some("go".to_string()));
}
