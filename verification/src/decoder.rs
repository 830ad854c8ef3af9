//! Decoding of WeakAura import strings.
//!
//! `!WA:<version>!<data>`: the data decodes from the printable format, then
//! inflates (raw DEFLATE, else zlib), then deserializes from LibSerialize.

use crate::compress::{inflate_raw, inflate_raw_bytes, inflate_zlib, inflate_zlib_bytes};
use crate::encodeforprint::{decode_for_print_bytes, decode_for_print_spec, EncodeForPrintError};
use crate::floattext::find_byte;
use crate::libserialize::{deserialize_spec, deserialize_with_floats, strings_view, SerializeError};
use crate::text::{
    ascii_chars,
    concat_text,
    decimal_digits,
    decimal_text,
    is_ascii_char_text,
    parse_int,
    parse_int_spec,
    trim_end_chars,
    trim_start_chars,
    trim_text,
};
use crate::types::{LuaModel, LuaValue};
use vstd::prelude::*;
use vstd::string::*;
use vstd::utf8::encode_utf8;

verus! {

/// Errors of decoding an import string.
#[derive(Debug)]
pub enum DecodeError {
    /// The text does not start with `!WA:<version>!`.
    InvalidPrefix,
    /// A version below 2.
    UnsupportedVersion(u8),
    /// The data is not in the printable format.
    DecodeForPrint(EncodeForPrintError),
    /// The data does not inflate; the text of the decompressor's error.
    Decompression(String),
    /// The inflated data does not deserialize.
    Deserialize(SerializeError),
    /// The value does not print as JSON; the text of the printer's error.
    JsonSerialize(String),
}

/// A decoding error, with its texts as characters.
pub enum DecodeFailure {
    InvalidPrefix,
    UnsupportedVersion(u8),
    DecodeForPrint(EncodeForPrintError),
    Decompression(Seq<char>),
    Deserialize(SerializeError),
    JsonSerialize(Seq<char>),
}

impl DecodeError {
    /// Which error this is.
    pub open spec fn failure(&self) -> DecodeFailure {
        match self {
            DecodeError::InvalidPrefix => DecodeFailure::InvalidPrefix,
            DecodeError::UnsupportedVersion(v) => DecodeFailure::UnsupportedVersion(*v),
            DecodeError::DecodeForPrint(e) => DecodeFailure::DecodeForPrint(*e),
            DecodeError::Decompression(t) => DecodeFailure::Decompression(t@),
            DecodeError::Deserialize(e) => DecodeFailure::Deserialize(*e),
            DecodeError::JsonSerialize(t) => DecodeFailure::JsonSerialize(t@),
        }
    }

    /// The text of the error (what its `Display` shows).
    pub fn message(&self) -> (r: String)
        ensures
            r@ == message_spec(self.failure()),
    {
        match self {
            DecodeError::InvalidPrefix => {
                let m = "Invalid WA string format: missing !WA:2! prefix";
                m.to_owned()
            },
            DecodeError::UnsupportedVersion(v) => {
                let t = decimal_text(*v as u64);
                concat_text("Unsupported WA version: ", t.as_str())
            },
            DecodeError::DecodeForPrint(e) => {
                let t = e.message();
                concat_text("Decode error: ", t.as_str())
            },
            DecodeError::Decompression(t) => concat_text("Decompression error: ", t.as_str()),
            DecodeError::Deserialize(e) => {
                let t = e.message();
                concat_text("Deserialization error: ", t.as_str())
            },
            DecodeError::JsonSerialize(t) => concat_text("JSON serialization error: ", t.as_str()),
        }
    }
}

/// The text of a decoding error.
pub open spec fn message_spec(f: DecodeFailure) -> Seq<char> {
    match f {
        DecodeFailure::InvalidPrefix => "Invalid WA string format: missing !WA:2! prefix"@,
        DecodeFailure::UnsupportedVersion(v) => "Unsupported WA version: "@ + ascii_chars(
            decimal_digits(v as nat),
        ),
        DecodeFailure::DecodeForPrint(e) => "Decode error: "@ + e.message_spec(),
        DecodeFailure::Decompression(t) => "Decompression error: "@ + t,
        DecodeFailure::Deserialize(e) => "Deserialization error: "@ + e.message_spec(),
        DecodeFailure::JsonSerialize(t) => "JSON serialization error: "@ + t,
    }
}

/// `!WA:` as bytes.
pub open spec fn wa_prefix() -> Seq<u8> {
    seq![33u8, 87u8, 65u8, 58u8]
}

/// The bytes of the import text after trimming white space.
pub open spec fn trimmed_bytes(text: Seq<char>) -> Seq<u8> {
    encode_utf8(trim_end_chars(trim_start_chars(text)))
}

/// What inflating `c` gives: its raw DEFLATE stream, or else its zlib
/// stream, or else the text of the zlib decoder's error.
pub open spec fn inflate_spec(c: Seq<u8>) -> Result<Seq<u8>, Seq<char>> {
    match inflate_raw(c) {
        Some(x) => Ok(x),
        None => inflate_zlib(c),
    }
}

/// Inflates compressed data as raw DEFLATE, or else as zlib; on failure, the
/// text of the zlib decoder's error.
pub fn inflate_payload(compressed: &[u8]) -> (r: Result<Vec<u8>, String>)
    ensures
        match inflate_spec(compressed@) {
            Ok(x) => r matches Ok(v) && v@ == x,
            Err(t) => r matches Err(e) && e@ == t,
        },
{
    match inflate_raw_bytes(compressed) {
        Some(buf) => Ok(buf),
        None => inflate_zlib_bytes(compressed),
    }
}

/// The position of the first `!` after the four bytes of `!WA:`.
fn find_marker(t: &[u8]) -> (r: Option<usize>)
    requires
        t@.len() >= 4,
    ensures
        match find_byte(t@.skip(4), 33, 0) {
            Some(p) => r matches Some(q) && q == p + 4,
            None => r is None,
        },
        r matches Some(q) ==> 4 <= q < t@.len() && t@[q as int] == 33,
{
    let ghost after = t@.skip(4);
    let mut q: usize = 4;
    while q < t.len() && t[q] != 33
        invariant
            4 <= q <= t@.len(),
            after == t@.skip(4),
            find_byte(after, 33, 0) == find_byte(after, 33, q - 4),
        decreases t.len() - q,
    {
        q += 1;
    }
    if q >= t.len() {
        None
    } else {
        Some(q)
    }
}

/// The inflated data of an import string, or why there is none: the
/// trimmed text must start with `!WA:`, then a version of 2 or more (as
/// `u8::from_str` reads it) up to the next `!`; what follows decodes from
/// the printable format and inflates, as raw DEFLATE or else as zlib.
pub open spec fn payload_spec(text: Seq<char>) -> Result<Seq<u8>, DecodeFailure> {
    let t = trimmed_bytes(text);
    if t.len() < 4 || t.take(4) != wa_prefix() {
        Err(DecodeFailure::InvalidPrefix)
    } else {
        let after = t.skip(4);
        match find_byte(after, 33, 0) {
            None => Err(DecodeFailure::InvalidPrefix),
            Some(p) => match parse_int_spec(after.take(p), false, 0, 255) {
                None => Err(DecodeFailure::InvalidPrefix),
                Some(v) => if v < 2 {
                    Err(DecodeFailure::UnsupportedVersion(v as u8))
                } else {
                    match decode_for_print_spec(after.skip(p + 1)) {
                        Err(e) => Err(DecodeFailure::DecodeForPrint(e)),
                        Ok(c) => match inflate_spec(c) {
                            Ok(x) => Ok(x),
                            Err(t) => Err(DecodeFailure::Decompression(t)),
                        },
                    }
                },
            },
        }
    }
}

/// What decoding an import string gives, where `fl[k]` is the value of the
/// `k`-th float that the data writes as text.
pub open spec fn decode_spec(text: Seq<char>, fl: Seq<u64>) -> Result<LuaModel, DecodeFailure> {
    match payload_spec(text) {
        Err(f) => Err(f),
        Ok(p) => match deserialize_spec(p, fl) {
            Ok((m, _)) => Ok(m),
            Err(e) => Err(DecodeFailure::Deserialize(e)),
        },
    }
}

/// White space around an import string changes nothing of what decoding
/// gives.
pub proof fn lemma_decode_ignores_surrounding_space(
    w1: Seq<char>,
    text: Seq<char>,
    w2: Seq<char>,
    fl: Seq<u64>,
)
    requires
        crate::text::all_white_space(w1),
        crate::text::all_white_space(w2),
    ensures
        payload_spec(w1 + text + w2) == payload_spec(text),
        decode_spec(w1 + text + w2, fl) == decode_spec(text, fl),
{
    crate::text::lemma_trim_surrounding(w1, text, w2);
}

/// Decodes an import string as far as the inflated LibSerialize data.
pub fn decode_payload(import_string: &str) -> (r: Result<Vec<u8>, DecodeError>)
    ensures
        match payload_spec(import_string@) {
            Ok(p) => r matches Ok(v) && v@ == p,
            Err(f) => r matches Err(e) && e.failure() == f,
        },
{
    let trimmed = trim_text(import_string);
    let t = trimmed.as_bytes();
    let ghost tb = t@;
    assert(tb == trimmed_bytes(import_string@));
    if t.len() < 4 || t[0] != 33 || t[1] != 87 || t[2] != 65 || t[3] != 58 {
        proof {
            if tb.len() >= 4 {
                assert(tb.take(4)[0] == tb[0] && tb.take(4)[1] == tb[1] && tb.take(4)[2] == tb[2]
                    && tb.take(4)[3] == tb[3]);
            }
        }
        return Err(DecodeError::InvalidPrefix);
    }
    assert(tb.take(4) =~= wa_prefix());
    let ghost after = tb.skip(4);
    let q = match find_marker(t) {
        Some(q) => q,
        None => return Err(DecodeError::InvalidPrefix),
    };
    let p: usize = q - 4;
    assert(find_byte(after, 33, 0) == Some(p as int));
    let version_bytes = vstd::slice::slice_subrange(t, 4, q);
    assert(version_bytes@ =~= after.take(p as int));
    let version: u8 = match parse_int(version_bytes, false, 0, 255) {
        Some(v) => v as u8,
        None => return Err(DecodeError::InvalidPrefix),
    };
    if version < 2 {
        return Err(DecodeError::UnsupportedVersion(version));
    }
    let encoded = vstd::slice::slice_subrange(t, q + 1, t.len());
    assert(encoded@ =~= after.skip(p + 1));
    let compressed = match decode_for_print_bytes(encoded) {
        Ok(c) => c,
        Err(e) => return Err(DecodeError::DecodeForPrint(e)),
    };
    match inflate_payload(compressed.as_slice()) {
        Ok(buf) => Ok(buf),
        Err(e) => Err(DecodeError::Decompression(e)),
    }
}

/// Why an import string has no data to dump.
#[derive(Debug, Clone, Copy, PartialEq, Eq, Structural)]
pub enum DataError {
    /// The text does not start with `!WA:`.
    InvalidPrefix,
    /// No `!` follows the prefix.
    MissingMarker,
}

/// The data of an import string as a dump reads it: what follows the first
/// `!` after `!WA:` in the trimmed text; the version is not read.
pub open spec fn import_data_spec(text: Seq<char>) -> Result<Seq<u8>, DataError> {
    let t = trimmed_bytes(text);
    if t.len() < 4 || t.take(4) != wa_prefix() {
        Err(DataError::InvalidPrefix)
    } else {
        let after = t.skip(4);
        match find_byte(after, 33, 0) {
            None => Err(DataError::MissingMarker),
            Some(p) => Ok(after.skip(p + 1)),
        }
    }
}

/// The data of an import string, whatever its version, as its bytes.
pub fn import_data(import_string: &str) -> (r: Result<Vec<u8>, DataError>)
    ensures
        match import_data_spec(import_string@) {
            Ok(d) => r matches Ok(v) && v@ == d,
            Err(f) => r == Err::<Vec<u8>, DataError>(f),
        },
{
    let trimmed = trim_text(import_string);
    let t = trimmed.as_bytes();
    let ghost tb = t@;
    assert(tb == trimmed_bytes(import_string@));
    if t.len() < 4 || t[0] != 33 || t[1] != 87 || t[2] != 65 || t[3] != 58 {
        proof {
            if tb.len() >= 4 {
                assert(tb.take(4)[0] == tb[0] && tb.take(4)[1] == tb[1] && tb.take(4)[2] == tb[2]
                    && tb.take(4)[3] == tb[3]);
            }
        }
        return Err(DataError::InvalidPrefix);
    }
    assert(tb.take(4) =~= wa_prefix());
    let ghost after = tb.skip(4);
    let q = match find_marker(t) {
        Some(q) => q,
        None => return Err(DataError::MissingMarker),
    };
    assert(find_byte(after, 33, 0) == Some((q - 4) as int));
    let encoded = vstd::slice::slice_subrange(t, q + 1, t.len());
    assert(encoded@ =~= after.skip(q - 4 + 1));
    Ok(vstd::slice::slice_to_vec(encoded))
}

/// Decodes an import string to a value; `floats[k]` is the value (bit
/// pattern) of the `k`-th float that the data writes as text (see
/// `float_literals`).
pub fn decode_to_value_with_floats(import_string: &str, floats: &[u64]) -> (r: Result<LuaValue, DecodeError>)
    ensures
        match decode_spec(import_string@, floats@) {
            Ok(m) => r matches Ok(v) && v.model() == m,
            Err(f) => r matches Err(e) && e.failure() == f,
        },
{
    let payload = match decode_payload(import_string) {
        Ok(p) => p,
        Err(e) => return Err(e),
    };
    match deserialize_with_floats(payload.as_slice(), floats) {
        Ok(v) => Ok(v),
        Err(e) => Err(DecodeError::Deserialize(e)),
    }
}

/// The result of validating an import string.
#[derive(Debug)]
pub struct ValidationResult {
    pub valid: bool,
    pub errors: Vec<String>,
    pub warnings: Vec<String>,
}

/// Values that differ at most in their floats get the same warnings.
pub proof fn lemma_warnings_similar(m1: LuaModel, m2: LuaModel)
    requires
        crate::floatvalues::similar(m1, m2),
    ensures
        warnings_spec(m1) == warnings_spec(m2),
{
    if let LuaModel::Table(ps) = m1 {
        let qs = m2->Table_0;
        crate::floatvalues::lemma_similar_pairs_len(ps, qs);
        assert forall|k: int| 0 <= k < ps.len() implies #[trigger] is_d_key(ps[k].0) == is_d_key(
            qs[k].0,
        ) by {
            crate::floatvalues::lemma_similar_pairs_index(ps, qs, k);
        }
        if has_d_key(ps) {
            let k = choose|k: int| 0 <= k < ps.len() && #[trigger] is_d_key(ps[k].0);
            assert(is_d_key(qs[k].0) == is_d_key(ps[k].0));
        }
        if has_d_key(qs) {
            let k = choose|k: int| 0 <= k < qs.len() && #[trigger] is_d_key(qs[k].0);
            assert(is_d_key(qs[k].0) == is_d_key(ps[k].0));
        }
    }
}

/// Each item on a line of its own, after `  - `.
pub open spec fn bullet_lines(items: Seq<Seq<char>>) -> Seq<char>
    decreases items.len(),
{
    if items.len() == 0 {
        seq![]
    } else {
        bullet_lines(items.drop_last()) + "  - "@ + items.last() + "\n"@
    }
}

/// The report on a validation: a valid string with its warnings, if any,
/// or an invalid one with its errors.
pub open spec fn report_spec(valid: bool, errors: Seq<Seq<char>>, warnings: Seq<Seq<char>>) -> Seq<
    char,
> {
    if valid {
        if warnings.len() == 0 {
            "Valid WeakAura string\n"@
        } else {
            "Valid WeakAura string\n"@ + "\nWarnings:\n"@ + bullet_lines(warnings)
        }
    } else {
        "Invalid WeakAura string\n\nErrors:\n"@ + bullet_lines(errors)
    }
}

/// Appends each item on a line of its own, after `  - `.
fn push_bullets(out: &mut String, items: &Vec<String>)
    ensures
        final(out)@ == old(out)@ + bullet_lines(strings_view(items@)),
{
    let ghost all = strings_view(items@);
    let mut i: usize = 0;
    assert(all.take(0) =~= Seq::<Seq<char>>::empty());
    assert(out@ =~= old(out)@ + bullet_lines(all.take(0)));
    while i < items.len()
        invariant
            i <= items@.len(),
            all == strings_view(items@),
            out@ == old(out)@ + bullet_lines(all.take(i as int)),
        decreases items.len() - i,
    {
        out.append("  - ");
        out.append(items[i].as_str());
        out.append("\n");
        proof {
            let t = all.take(i + 1);
            assert(t.drop_last() =~= all.take(i as int));
            assert(t.last() == items@[i as int]@);
            assert(out@ =~= old(out)@ + bullet_lines(t));
        }
        i += 1;
    }
    assert(all.take(items@.len() as int) =~= all);
}

impl ValidationResult {
    /// The report on the validation, as the tool server gives it.
    pub fn report(&self) -> (r: String)
        ensures
            r@ == report_spec(self.valid, strings_view(self.errors@), strings_view(self.warnings@)),
    {
        if self.valid {
            let mut out = "Valid WeakAura string\n".to_owned();
            if self.warnings.len() > 0 {
                out.append("\nWarnings:\n");
                push_bullets(&mut out, &self.warnings);
            }
            out
        } else {
            let mut out = "Invalid WeakAura string\n\nErrors:\n".to_owned();
            push_bullets(&mut out, &self.errors);
            out
        }
    }
}

/// The value is the string `d`.
pub open spec fn is_d_key(m: LuaModel) -> bool {
    m matches LuaModel::Str(s) && s == seq!['d']
}

/// Some key of the table is the string `d`.
pub open spec fn has_d_key(ps: Seq<(LuaModel, LuaModel)>) -> bool {
    exists|k: int| 0 <= k < ps.len() && #[trigger] is_d_key(ps[k].0)
}

/// The warnings for a decoded value: a table without a `d` key, or a value
/// that is not a table.
pub open spec fn warnings_spec(m: LuaModel) -> Seq<Seq<char>> {
    match m {
        LuaModel::Table(ps) => if has_d_key(ps) {
            seq![]
        } else {
            seq!["Missing 'd' field (aura definition)"@]
        },
        _ => seq!["Root value is not a table"@],
    }
}

/// The result of a validation says what decoding gave: a valid string
/// with the warnings for its value, or an invalid one with the text of its
/// error.
pub open spec fn validation_agrees(res: ValidationResult, d: Result<LuaModel, DecodeFailure>) -> bool {
    match d {
        Ok(m) => res.valid && res.errors@.len() == 0 && strings_view(res.warnings@) == warnings_spec(m),
        Err(f) => !res.valid && res.warnings@.len() == 0 && res.errors@.len() == 1
            && res.errors@[0]@ == message_spec(f),
    }
}

/// Validates an import string: it is valid when it decodes, and a valid
/// string whose value is not a table with a `d` key gets a warning. Floats
/// written as text are checked for their syntax only; their values cannot
/// change the outcome.
pub fn validate(import_string: &str) -> (res: ValidationResult)
    ensures
        forall|fl: Seq<u64>| validation_agrees(res, #[trigger] decode_spec(import_string@, fl)),
        forall|fl: Seq<u64>|
            #[trigger] decode_spec(import_string@, fl) matches Ok(m) ==> (match m {
                LuaModel::Table(ps) => if exists|k: int|
                    0 <= k < ps.len() && #[trigger] ps[k].0 == LuaModel::Str(seq!['d']) {
                    res.warnings@.len() == 0
                } else {
                    strings_view(res.warnings@) == seq!["Missing 'd' field (aura definition)"@]
                },
                _ => strings_view(res.warnings@) == seq!["Root value is not a table"@],
            }),
{
    let none: Vec<u64> = Vec::new();
    assert(none@ =~= Seq::<u64>::empty());
    let res = match decode_to_value_with_floats(import_string, none.as_slice()) {
        Ok(value) => {
            let mut warnings: Vec<String> = Vec::new();
            match &value {
                LuaValue::Table(pairs) => {
                    let mut has_d = false;
                    let mut i: usize = 0;
                    proof {
                        crate::types::lemma_model_pairs(pairs@);
                    }
                    let ghost ps = crate::types::model_pairs(pairs@);
                    while i < pairs.len()
                        invariant
                            i <= pairs@.len(),
                            ps == crate::types::model_pairs(pairs@),
                            ps.len() == pairs@.len(),
                            forall|k: int|
                                0 <= k < pairs@.len() ==> #[trigger] ps[k] == (
                                    pairs@[k].0.model(),
                                    pairs@[k].1.model(),
                                ),
                            has_d == has_d_key(ps.take(i as int)),
                        decreases pairs@.len() - i,
                    {
                        let found = match &pairs[i].0 {
                            LuaValue::String(s) => is_ascii_char_text(s.as_str(), 100),
                            _ => false,
                        };
                        proof {
                            let t = ps.take(i + 1);
                            let u = ps.take(i as int);
                            assert(found == is_d_key(ps[i as int].0));
                            assert(t[i as int] == ps[i as int]);
                            assert forall|k: int| 0 <= k < i implies #[trigger] t[k] == u[k] by {}
                            if found {
                                assert(is_d_key(t[i as int].0));
                            }
                            if has_d_key(u) {
                                let k = choose|k: int| 0 <= k < u.len() && #[trigger] is_d_key(u[k].0);
                                assert(t[k] == u[k]);
                                assert(is_d_key(t[k].0));
                            }
                            if has_d_key(t) {
                                let k = choose|k: int| 0 <= k < t.len() && #[trigger] is_d_key(t[k].0);
                                if k < i {
                                    assert(is_d_key(u[k].0));
                                }
                            }
                        }
                        has_d = has_d || found;
                        i += 1;
                    }
                    assert(ps.take(pairs@.len() as int) =~= ps);
                    if !has_d {
                        warnings.push("Missing 'd' field (aura definition)".to_owned());
                    }
                },
                _ => {
                    warnings.push("Root value is not a table".to_owned());
                },
            }
            assert(strings_view(warnings@) =~= warnings_spec(value.model()));
            ValidationResult { valid: true, errors: Vec::new(), warnings }
        },
        Err(e) => {
            let mut errors: Vec<String> = Vec::new();
            errors.push(e.message());
            ValidationResult { valid: false, errors, warnings: Vec::new() }
        },
    };
    proof {
        assert forall|fl: Seq<u64>| validation_agrees(res, #[trigger] decode_spec(import_string@, fl)) by {
            crate::floatvalues::lemma_decode_float_values(import_string@, fl, seq![]);
            if let Ok(m1) = decode_spec(import_string@, fl) {
                let m0 = decode_spec(import_string@, seq![])->Ok_0;
                lemma_warnings_similar(m1, m0);
            }
        }
        assert forall|fl: Seq<u64>|
            #[trigger] decode_spec(import_string@, fl) matches Ok(m) ==> (match m {
                LuaModel::Table(ps) => if exists|k: int|
                    0 <= k < ps.len() && #[trigger] ps[k].0 == LuaModel::Str(seq!['d']) {
                    res.warnings@.len() == 0
                } else {
                    strings_view(res.warnings@) == seq!["Missing 'd' field (aura definition)"@]
                },
                _ => strings_view(res.warnings@) == seq!["Root value is not a table"@],
            }) by {
            if let Ok(LuaModel::Table(ps)) = decode_spec(import_string@, fl) {
                assert(validation_agrees(res, decode_spec(import_string@, fl)));
                if exists|k: int| 0 <= k < ps.len() && #[trigger] ps[k].0 == LuaModel::Str(seq!['d']) {
                    let k = choose|k: int| 0 <= k < ps.len() && #[trigger] ps[k].0 == LuaModel::Str(seq!['d']);
                    assert(is_d_key(ps[k].0));
                } else {
                    assert forall|k: int| 0 <= k < ps.len() implies !#[trigger] is_d_key(ps[k].0) by {
                        if is_d_key(ps[k].0) {
                            assert(ps[k].0 == LuaModel::Str(seq!['d']));
                        }
                    }
                }
            }
        }
    }
    res
}

} // verus!
