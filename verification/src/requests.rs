//! The requests of the tool server, and how an encode request's input is read.

use crate::text::{trim_end_chars, trim_start_chars, trim_text};
use vstd::prelude::*;
use vstd::string::*;
use vstd::utf8::encode_utf8;

verus! {

/// A request to encode: JSON text, or the path of a file that holds it.
pub struct EncodeReq {
    pub input: String,
}

/// A request to decode an import string.
pub struct DecodeReq {
    pub import_string: String,
}

/// A request to validate an import string.
pub struct ValidateReq {
    pub import_string: String,
}

/// The UTF-8 text of `s` starts with `{`.
pub open spec fn opens_object(s: Seq<char>) -> bool {
    encode_utf8(s).len() > 0 && encode_utf8(s)[0] == 123
}

/// Whether the text starts with `{` (and so is taken for JSON rather than
/// a file path).
pub fn starts_with_brace(text: &str) -> (r: bool)
    ensures
        r == opens_object(text@),
{
    let b = text.as_bytes();
    b.len() > 0 && b[0] == 123
}

impl EncodeReq {
    /// Whether the input is JSON text (it starts with `{` once white space
    /// is trimmed) rather than a file path.
    pub fn is_inline_json(&self) -> (r: bool)
        ensures
            r == opens_object(trim_end_chars(trim_start_chars(self.input@))),
    {
        starts_with_brace(trim_text(self.input.as_str()))
    }
}

} // verus!
