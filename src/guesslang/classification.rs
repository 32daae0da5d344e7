use vstd::prelude::*;

verus! {

/// Why the local language model could not classify a snippet.
#[derive(Debug, PartialEq, Eq, Structural)]
pub enum ClassificationError {
    ClassificationFailed,
}

impl ClassificationError {
    /// The message shown for the error.
    pub fn message(&self) -> (r: String)
        ensures
            r@ == "Classification failed."@,
    {
        match self {
            ClassificationError::ClassificationFailed => "Classification failed.".to_owned(),
        }
    }
}

} // verus!
