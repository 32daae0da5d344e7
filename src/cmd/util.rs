use vstd::prelude::*;

verus! {

/// The first `length` characters of `text`, or all of it when it is shorter.
pub open spec fn leading_chars(text: Seq<char>, length: nat) -> Seq<char> {
    if length < text.len() {
        text.take(length as int)
    } else {
        text
    }
}

/// What `limit_string` returns: the text itself when its UTF-8 encoding fits
/// in `length` bytes, else its first `length` characters followed by `...`.
pub open spec fn limited(text: Seq<char>, length: nat) -> Seq<char> {
    if vstd::utf8::encode_utf8(text).len() > length {
        leading_chars(text, length) + "..."@
    } else {
        text
    }
}

/// Shortens `text` for display. The test compares the byte length with
/// `length`, while the cut keeps `length` characters.
pub fn limit_string(text: &str, length: usize) -> (r: String)
    ensures
        r@ == limited(text@, length as nat),
{
    if text.as_bytes().len() > length {
        let count = text.unicode_len();
        let keep = if length < count { length } else { count };
        let head = text.substring_char(0, keep);
        let mut trimmed = String::new();
        trimmed.append(head);
        trimmed.append("...");
        trimmed
    } else {
        text.to_owned()
    }
}

} // verus!
