use skriptorium::api::classification::{Classification, ClassificationError};
use skriptorium::cmd::directory_listing::DirectoryListingError;
use skriptorium::cmd::scribe::{render_readme, reporter_step, shorten_summary, ReporterStep, ScribeError};
use skriptorium::cmd::util::limit_string;
use skriptorium::dirs::DirectoryError;
use skriptorium::guesslang::model_downloader::DownloadError;

#[test]
fn limit_string_keeps_short_text() {
    assert_eq!(limit_string("hi", 5), "hi");
    assert_eq!(limit_string("hello", 5), "hello");
}

#[test]
fn limit_string_cuts_long_text() {
    assert_eq!(limit_string("hello world", 5), "hello...");
    assert_eq!(limit_string("abc", 0), "...");
}

#[test]
fn limit_string_measures_bytes_and_keeps_characters() {
    assert_eq!(limit_string("\u{e9}\u{e9}\u{e9}", 4), "\u{e9}\u{e9}\u{e9}...");
    assert_eq!(limit_string("\u{e9}\u{e9}\u{e9}", 2), "\u{e9}\u{e9}...");
}

#[test]
fn readme_with_badges() {
    let c = Classification {
        name: "tool".to_string(),
        tldr: "Does things.".to_string(),
        usage: "run it".to_string(),
        version: Some("1.2".to_string()),
        license: Some("MIT".to_string()),
    };
    assert_eq!(
        render_readme(&c),
        "![1.2](https://img.shields.io/badge/version-1.2-red) ![MIT](https://img.shields.io/badge/license-MIT-blue)\n# tool\n\nDoes things.\n\n## Usage\n\nrun it"
    );
}

#[test]
fn readme_without_badges() {
    let c = Classification {
        name: "tool".to_string(),
        tldr: "t".to_string(),
        usage: "u".to_string(),
        version: None,
        license: None,
    };
    assert_eq!(render_readme(&c), " \n# tool\n\nt\n\n## Usage\n\nu");
}

#[test]
fn long_summary_is_shortened() {
    let text = "abcdefghijklmnopqrstuvwxyz0123456789";
    assert_eq!(shorten_summary(text), "abcdefghijklmnopqrstuvwxyz012...");
    let exact = "abcdefghijklmnopqrstuvwxyz0123";
    assert_eq!(shorten_summary(exact), exact);
}

#[test]
fn reporter_stops_only_on_completion() {
    assert_eq!(reporter_step(None), ReporterStep::Tick);
    assert_eq!(reporter_step(Some("done".to_string())), ReporterStep::Finish("done".to_string()));
}

#[test]
fn error_messages() {
    assert_eq!(ClassificationError::ClassificationFailed.message(), "Classification failed.");
    assert_eq!(
        skriptorium::guesslang::classification::ClassificationError::ClassificationFailed.message(),
        "Classification failed."
    );
    assert_eq!(DirectoryListingError::GitIgnoreNotFound.message(), "Couldn't determine gitignore.");
    assert_eq!(ScribeError::MissingInputParameter.message(), "Input file or folder missing.");
    assert_eq!(
        DirectoryError::ProjectDirUnavailable.message(),
        "Project directory couldn't be determined."
    );
    let io = std::io::Error::new(std::io::ErrorKind::Other, "disk");
    assert_eq!(DirectoryError::from(io).message(), "Project directory couldn't be created.");
    let io = std::io::Error::new(std::io::ErrorKind::Other, "net");
    assert_eq!(DownloadError::DownloadError(io).message(), "Failed to download file");
    let path = std::path::PathBuf::from("/tmp/models");
    assert_eq!(
        DownloadError::FileCreationFailed(path).message(),
        "Failed to create path Some(\"/tmp/models\")"
    );
}
