use vstd::prelude::*;
use vstd::utf8::{decode_utf8, encode_utf8, is_char_boundary};

use crate::api::classification::Classification;

verus! {

/// Why the documentation run could not start.
#[derive(Debug, PartialEq, Eq, Structural)]
pub enum ScribeError {
    MissingInputParameter,
}

impl ScribeError {
    /// The message shown for the error.
    pub fn message(&self) -> (r: String)
        ensures
            r@ == "Input file or folder missing."@,
    {
        match self {
            ScribeError::MissingInputParameter => "Input file or folder missing.".to_owned(),
        }
    }
}

/// What the progress reporter does after one poll of the completion signal.
#[derive(Debug, PartialEq, Eq)]
pub enum ReporterStep {
    /// The work is done: show this message and stop polling.
    Finish(String),
    /// Still running: advance the indicator and poll again.
    Tick,
}

/// The reporter's decision for one poll: it stops as soon as the work has
/// signalled completion, and only then.
pub fn reporter_step(signal: Option<String>) -> (r: ReporterStep)
    ensures
        match signal {
            Some(m) => r == ReporterStep::Finish(m),
            None => r == ReporterStep::Tick,
        },
{
    match signal {
        Some(m) => ReporterStep::Finish(m),
        None => ReporterStep::Tick,
    }
}

/// A summary as the success message shows it: cut after its first 29 bytes,
/// with `...` appended, when it is longer than 30 bytes.
pub open spec fn short_summary(text: Seq<char>) -> Seq<char> {
    if encode_utf8(text).len() > 30 {
        decode_utf8(encode_utf8(text).take(29)) + "..."@
    } else {
        text
    }
}

/// Shortens a summary for the success message. The cut falls on a byte
/// position, which must start a character.
pub fn shorten_summary(text: &str) -> (r: String)
    requires
        encode_utf8(text@).len() > 30 ==> is_char_boundary(encode_utf8(text@), 29),
    ensures
        r@ == short_summary(text@),
{
    if text.as_bytes().len() > 30 {
        let (head, _) = text.split_at(29);
        proof {
            broadcast use vstd::utf8::encode_utf8_decode_utf8;

            assert(decode_utf8(encode_utf8(head@)) == head@);
        }
        let mut stripped = head.to_owned();
        stripped.append("...");
        stripped
    } else {
        text.to_owned()
    }
}

/// The version badge of the generated README, empty without a version.
pub open spec fn version_badge(version: Option<String>) -> Seq<char> {
    match version {
        Some(v) => "!["@ + v@ + "](https://img.shields.io/badge/version-"@ + v@ + "-red)"@,
        None => Seq::empty(),
    }
}

/// The license badge of the generated README, empty without a license.
pub open spec fn license_badge(license: Option<String>) -> Seq<char> {
    match license {
        Some(l) => "!["@ + l@ + "](https://img.shields.io/badge/license-"@ + l@ + "-blue)"@,
        None => Seq::empty(),
    }
}

/// The README generated from a classification.
pub open spec fn readme_text(c: Classification) -> Seq<char> {
    version_badge(c.version) + " "@ + license_badge(c.license) + "\n# "@ + c.name@ + "\n\n"@
        + c.tldr@ + "\n\n## Usage\n\n"@ + c.usage@
}

fn append_badge(out: &mut String, value: &Option<String>, kind_prefix: &str, kind_suffix: &str)
    ensures
        final(out)@ == old(out)@ + match value {
            Some(v) => "!["@ + v@ + kind_prefix@ + v@ + kind_suffix@,
            None => Seq::empty(),
        },
{
    match value {
        Some(v) => {
            out.append("![");
            out.append(v.as_str());
            out.append(kind_prefix);
            out.append(v.as_str());
            out.append(kind_suffix);
        },
        None => {
            assert(old(out)@ + Seq::<char>::empty() =~= old(out)@);
        },
    }
}

/// Renders the README for a classification.
pub fn render_readme(c: &Classification) -> (r: String)
    ensures
        r@ == readme_text(*c),
{
    let mut out = String::new();
    append_badge(&mut out, &c.version, "](https://img.shields.io/badge/version-", "-red)");
    out.append(" ");
    append_badge(&mut out, &c.license, "](https://img.shields.io/badge/license-", "-blue)");
    out.append("\n# ");
    out.append(c.name.as_str());
    out.append("\n\n");
    out.append(c.tldr.as_str());
    out.append("\n\n## Usage\n\n");
    out.append(c.usage.as_str());
    assert(out@ =~= readme_text(*c));
    out
}

} // verus!
