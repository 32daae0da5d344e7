use vstd::prelude::*;

verus! {

/// Why a model file could not be put in place.
#[derive(Debug)]
pub enum DownloadError {
    /// The file's directory could not be determined.
    FileCreationFailed(std::path::PathBuf),
    /// Fetching or writing the file failed.
    DownloadError(std::io::Error),
}

/// Relies on `Path::to_str` and the `Debug` format of its result: the text
/// that `{:?}` prints for it.
#[verifier::external_body]
fn path_debug_text(path: &std::path::PathBuf) -> (r: String) {
    format!("{:?}", path.to_str())
}

impl DownloadError {
    /// The message shown for the error.
    pub fn message(&self) -> (r: String)
        ensures
            self is FileCreationFailed ==> exists|t: Seq<char>| r@ == "Failed to create path "@ + t,
            self is DownloadError ==> r@ == "Failed to download file"@,
    {
        match self {
            DownloadError::FileCreationFailed(path) => {
                let mut r = "Failed to create path ".to_owned();
                let ghost head = r@;
                let text = path_debug_text(path);
                r.append(text.as_str());
                assert(r@ == head + text@);
                r
            },
            DownloadError::DownloadError(_) => "Failed to download file".to_owned(),
        }
    }
}

} // verus!
