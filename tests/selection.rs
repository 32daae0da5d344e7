use skriptorium::api::classification::{ClassificationError, Selection};
use skriptorium::cmd::directory_listing::FileEntry;
use skriptorium::cmd::file_selection::{
    narrow_to_selection, resolve_selection, selection_request, shuffled_candidates,
};

fn candidates(n: usize) -> Vec<FileEntry> {
    (0..n).map(|i| FileEntry { path: format!("f{}.go", i), size: i as u64 }).collect()
}

fn named(files: &[&str]) -> Vec<FileEntry> {
    files.iter().map(|p| FileEntry { path: p.to_string(), size: 1 }).collect()
}

fn paths(files: &[FileEntry]) -> Vec<String> {
    files.iter().map(|f| f.path.clone()).collect()
}

#[test]
fn selector_is_shown_at_most_thirty_files() {
    let files = candidates(45);
    let sent = selection_request(&files);
    assert_eq!(sent.len(), 30);
    assert_eq!(sent, paths(&files[..30]));
}

#[test]
fn short_lists_are_sent_whole() {
    let files = candidates(7);
    assert_eq!(selection_request(&files), paths(&files));
    assert!(selection_request(&Vec::new()).is_empty());
}

#[test]
fn empty_answer_keeps_every_candidate() {
    let files = candidates(45);
    let expected = paths(&files);
    let kept = narrow_to_selection(files, &Selection { files: Vec::new() });
    assert_eq!(kept.len(), 45);
    assert_eq!(paths(&kept), expected);
}

#[test]
fn one_named_file_is_kept_alone() {
    let files = named(&["b.rs", "a.go", "c.md"]);
    let kept = narrow_to_selection(files, &Selection { files: vec!["a.go".to_string()] });
    assert_eq!(paths(&kept), vec!["a.go".to_string()]);
}

#[test]
fn answer_keeps_candidate_order_and_drops_strangers() {
    let files = named(&["x.rs", "y.rs", "z.rs"]);
    let answer = Selection { files: vec!["z.rs".to_string(), "elsewhere.rs".to_string(), "x.rs".to_string()] };
    let kept = narrow_to_selection(files, &answer);
    assert_eq!(paths(&kept), vec!["x.rs".to_string(), "z.rs".to_string()]);
}

#[test]
fn answer_may_name_files_beyond_the_bound() {
    let files = candidates(45);
    let answer = Selection { files: vec!["f40.go".to_string()] };
    let kept = narrow_to_selection(files, &answer);
    assert_eq!(paths(&kept), vec!["f40.go".to_string()]);
    assert_eq!(kept[0].size, 40);
}

#[test]
fn failed_selector_call_is_passed_on() {
    let files = candidates(45);
    let sent = selection_request(&files);
    assert_eq!(sent.len(), 30);
    let response: Result<Selection, ClassificationError> = Err(ClassificationError::ClassificationFailed);
    let result = resolve_selection(files, response);
    assert_eq!(result.err(), Some(ClassificationError::ClassificationFailed));
}

#[test]
fn successful_selector_call_narrows() {
    let files = named(&["a.go", "b.go"]);
    let response: Result<Selection, ClassificationError> = Ok(Selection { files: vec!["b.go".to_string()] });
    let result = resolve_selection(files, response).ok().unwrap();
    assert_eq!(paths(&result), vec!["b.go".to_string()]);
}

#[test]
fn shuffling_keeps_every_candidate() {
    let files = candidates(20);
    let mut before = paths(&files);
    let mut after = paths(&shuffled_candidates(files));
    before.sort();
    after.sort();
    assert_eq!(before, after);
}
