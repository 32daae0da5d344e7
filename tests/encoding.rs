use skriptorium::api::classification::{encode_files, gather_contents};
use skriptorium::api::encode_snippet;

#[test]
fn snippet_is_sent_as_base64() {
    assert_eq!(encode_snippet("hello"), "aGVsbG8=");
    assert_eq!(encode_snippet("h\u{e9}llo"), "aMOpbGxv");
    assert_eq!(encode_snippet(""), "");
}

#[test]
fn files_are_trimmed_then_encoded() {
    let files = vec![
        (Some("main.rs".to_string()), "  fn main() {}\n".to_string()),
        (None, "print(1)".to_string()),
    ];
    let encoded = encode_files(&files);
    assert_eq!(encoded.len(), 2);
    assert_eq!(encoded[0], (Some("main.rs".to_string()), "Zm4gbWFpbigpIHt9".to_string()));
    assert_eq!(encoded[1], (None, "cHJpbnQoMSk=".to_string()));
}

#[test]
fn all_reads_gathered_in_order() {
    let reads: Vec<Result<u32, String>> = vec![Ok(1), Ok(2), Ok(3)];
    assert_eq!(gather_contents(reads), Ok(vec![1, 2, 3]));
}

#[test]
fn first_failed_read_fails_the_request() {
    let reads: Vec<Result<u32, String>> =
        vec![Ok(1), Err("first".to_string()), Ok(3), Err("second".to_string())];
    assert_eq!(gather_contents(reads), Err("first".to_string()));
}
