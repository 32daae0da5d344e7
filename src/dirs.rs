use vstd::prelude::*;

verus! {

/// An I/O error of std, carried through unchanged.
#[verifier::external_type_specification]
#[verifier::external_body]
pub struct ExIoError(std::io::Error);

/// A path of std, carried through unchanged.
#[verifier::external_type_specification]
#[verifier::external_body]
pub struct ExPathBuf(std::path::PathBuf);

/// Why the data directory could not be provided.
#[derive(Debug)]
pub enum DirectoryError {
    /// No home directory could be determined for the project.
    ProjectDirUnavailable,
    /// The directory could not be created.
    ProjectDirIOError(std::io::Error),
}

impl DirectoryError {
    /// The message shown for the error.
    pub fn message(&self) -> (r: String)
        ensures
            self is ProjectDirUnavailable ==> r@ == "Project directory couldn't be determined."@,
            self is ProjectDirIOError ==> r@ == "Project directory couldn't be created."@,
    {
        match self {
            DirectoryError::ProjectDirUnavailable => "Project directory couldn't be determined.".to_owned(),
            DirectoryError::ProjectDirIOError(_) => "Project directory couldn't be created.".to_owned(),
        }
    }
}

impl From<std::io::Error> for DirectoryError {
    fn from(error: std::io::Error) -> (r: Self) {
        DirectoryError::ProjectDirIOError(error)
    }
}

impl vstd::std_specs::convert::FromSpecImpl<std::io::Error> for DirectoryError {
    open spec fn obeys_from_spec() -> bool {
        true
    }

    open spec fn from_spec(v: std::io::Error) -> Self {
        DirectoryError::ProjectDirIOError(v)
    }
}

} // verus!
