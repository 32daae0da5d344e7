pub mod classification;

use vstd::prelude::*;

use crate::api::classification::{base64_of, encode_base64};

verus! {

/// The answer of the snippet classification endpoint.
#[derive(Debug)]
pub struct Classification {
    pub classification: String,
}

/// The snippet as the snippet classification endpoint expects it: base64.
pub fn encode_snippet(snippet: &str) -> (r: String)
    ensures
        r@ == base64_of(snippet@),
{
    encode_base64(snippet)
}

} // verus!
