use skriptorium::cmd::language_detection::{
    classifications_to_map, get_primary_language, language_display_name_or_default,
    load_display_names, successful_classifications, tally_file_outcomes, FileOutcome,
};

fn pairs(items: &[(&str, u64)]) -> Vec<(String, u64)> {
    items.iter().map(|(k, v)| (k.to_string(), *v)).collect()
}

fn guessed(ids: &[&str], size: u64) -> FileOutcome {
    FileOutcome { size, ranked: Some(ids.iter().map(|s| s.to_string()).collect()) }
}

fn failed(size: u64) -> FileOutcome {
    FileOutcome { size, ranked: None }
}

#[test]
fn tally_sums_sizes_per_language() {
    let tally = classifications_to_map(&pairs(&[("go", 100), ("rust", 50), ("go", 20)]));
    assert_eq!(tally.len(), 2);
    assert_eq!(tally.get("go"), Some(120));
    assert_eq!(tally.get("rust"), Some(50));
    assert_eq!(tally.get("c"), None);
    assert_eq!(tally.total_bytes(), 170);
}

#[test]
fn empty_tally_has_no_primary_language() {
    let tally = classifications_to_map(&Vec::new());
    assert_eq!(tally.len(), 0);
    assert_eq!(tally.total_bytes(), 0);
    assert_eq!(get_primary_language(&tally), None);
}

#[test]
fn primary_language_has_the_largest_total() {
    let tally = classifications_to_map(&pairs(&[("go", 10), ("rust", 30), ("c", 20)]));
    assert_eq!(get_primary_language(&tally), Some(("rust".to_string(), 30)));
}

#[test]
fn tie_goes_to_the_identifier_that_sorts_first() {
    let first = classifications_to_map(&pairs(&[("go", 120), ("rust", 120)]));
    let second = classifications_to_map(&pairs(&[("rust", 120), ("go", 120)]));
    assert_eq!(get_primary_language(&first), Some(("go".to_string(), 120)));
    assert_eq!(get_primary_language(&second), Some(("go".to_string(), 120)));
    for _ in 0..10 {
        assert_eq!(get_primary_language(&second), Some(("go".to_string(), 120)));
    }
}

#[test]
fn tie_break_compares_bytes() {
    let tally = classifications_to_map(&pairs(&[("ts", 5), ("Ts", 5), ("t", 5)]));
    assert_eq!(get_primary_language(&tally), Some(("Ts".to_string(), 5)));
}

#[test]
fn scenario_one_classified_file_dominates() {
    let outcomes = vec![guessed(&["go", "rust"], 100), FileOutcome { size: 50, ranked: Some(Vec::new()) }];
    let tally = tally_file_outcomes(&outcomes);
    assert_eq!(tally.len(), 1);
    assert_eq!(tally.get("go"), Some(100));
    assert_eq!(get_primary_language(&tally), Some(("go".to_string(), 100)));
}

#[test]
fn scenario_no_classified_file_means_no_language() {
    let outcomes = vec![failed(10), FileOutcome { size: 20, ranked: Some(Vec::new()) }, failed(30)];
    let tally = tally_file_outcomes(&outcomes);
    assert_eq!(tally.len(), 0);
    assert_eq!(get_primary_language(&tally), None);
}

#[test]
fn total_counts_only_classified_files() {
    let outcomes = vec![
        guessed(&["go"], 100),
        failed(1000),
        guessed(&["python", "go"], 40),
        FileOutcome { size: 7, ranked: Some(Vec::new()) },
        guessed(&["go"], 5),
    ];
    let tally = tally_file_outcomes(&outcomes);
    assert_eq!(tally.total_bytes(), 145);
    assert_eq!(tally.get("go"), Some(105));
    assert_eq!(tally.get("python"), Some(40));
}

#[test]
fn only_the_best_guess_counts() {
    let found = successful_classifications(&vec![guessed(&["c", "cpp"], 3), failed(4)]);
    assert_eq!(found, vec![("c".to_string(), 3)]);
}

#[test]
fn folding_order_does_not_change_the_tally() {
    let a = classifications_to_map(&pairs(&[("go", 1), ("rust", 2), ("go", 3), ("c", 4)]));
    let b = classifications_to_map(&pairs(&[("c", 4), ("go", 3), ("rust", 2), ("go", 1)]));
    for id in ["go", "rust", "c", "java"] {
        assert_eq!(a.get(id), b.get(id));
    }
    assert_eq!(a.len(), b.len());
    assert_eq!(a.total_bytes(), b.total_bytes());
}

#[test]
fn display_names_come_from_the_table() {
    let names = load_display_names(Some("{\"go\": \"Go\", \"js\": \"JavaScript\"}"));
    assert_eq!(language_display_name_or_default(&names, "go"), "Go");
    assert_eq!(language_display_name_or_default(&names, "js"), "JavaScript");
    assert_eq!(language_display_name_or_default(&names, "rust"), "rust");
}

#[test]
fn unreadable_table_falls_back_to_identifiers() {
    let broken = load_display_names(Some("[1, 2"));
    assert_eq!(language_display_name_or_default(&broken, "go"), "go");
    let missing = load_display_names(None);
    assert_eq!(language_display_name_or_default(&missing, "go"), "go");
}
