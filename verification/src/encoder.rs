//! Encoding of WeakAura import strings.
//!
//! JSON value -> Lua value -> LibSerialize -> DEFLATE -> printable format,
//! behind the prefix `!WA:2!`.

use crate::compress::{deflate_best, deflate_best_bytes, inflate_raw};
use crate::decoder::{decode_spec, trimmed_bytes, wa_prefix, DecodeFailure};
use crate::encodeforprint::{
    encode_for_print,
    encode_print_bytes,
    lemma_encode_print_ascii,
    lemma_print_roundtrip,
};
use crate::floattext::find_byte;
use crate::libserialize::{serialize, serialize_spec};
use crate::roundtrip::{canonical, lemma_serialize_roundtrip, refs_fit};
use crate::text::{
    ascii_chars,
    concat_text,
    digits_value,
    is_ascii_bytes,
    is_ascii_char_text,
    is_white_space,
    lemma_ascii_bytes_utf8,
    trim_end_chars,
    trim_start_chars,
};
use crate::types::{
    from_json_spec,
    json_model_entries,
    lemma_json_model_entries,
    JsonModel,
    JsonNumber,
    JsonValue,
    LuaModel,
    LuaValue,
};
use vstd::prelude::*;
use vstd::string::*;
use vstd::utf8::encode_utf8;

verus! {

/// Errors of encoding.
#[derive(Debug)]
pub enum EncodeError {
    /// The input is not JSON; the text of the parser's error.
    JsonParse(String),
    /// The compressor failed; the text of its error.
    Compression(String),
}

/// An encoding error, with its text as characters.
pub enum EncodeFailure {
    JsonParse(Seq<char>),
    Compression(Seq<char>),
}

impl EncodeError {
    /// Which error this is.
    pub open spec fn failure(&self) -> EncodeFailure {
        match self {
            EncodeError::JsonParse(t) => EncodeFailure::JsonParse(t@),
            EncodeError::Compression(t) => EncodeFailure::Compression(t@),
        }
    }

    /// The text of the error (what its `Display` shows).
    pub fn message(&self) -> (r: String)
        ensures
            r@ == failure_message(self.failure()),
    {
        match self {
            EncodeError::JsonParse(t) => concat_text("JSON parse error: ", t.as_str()),
            EncodeError::Compression(t) => concat_text("Compression error: ", t.as_str()),
        }
    }
}

/// The text of an encoding error.
pub open spec fn failure_message(f: EncodeFailure) -> Seq<char> {
    match f {
        EncodeFailure::JsonParse(t) => "JSON parse error: "@ + t,
        EncodeFailure::Compression(t) => "Compression error: "@ + t,
    }
}

// ---------------------------------------------------------------------
// Metadata
// ---------------------------------------------------------------------

/// Some entry has the one-character key `c`.
pub open spec fn has_key(es: Seq<(Seq<char>, JsonModel)>, c: char) -> bool {
    exists|i: int| 0 <= i < es.len() && #[trigger] es[i].0 == seq![c]
}

/// `k` sorts after the one-byte key `c` in the order of `String` (bytewise
/// on the UTF-8 encoding).
pub open spec fn sorts_after(k: Seq<char>, c: u8) -> bool {
    let b = encode_utf8(k);
    b.len() > 0 && (b[0] > c || (b[0] == c && b.len() > 1))
}

/// The index of the first entry at or after `i` whose key sorts after `c`,
/// or the length when there is none.
pub open spec fn insert_index(es: Seq<(Seq<char>, JsonModel)>, c: u8, i: int) -> int
    decreases es.len() - i,
{
    if i >= es.len() {
        es.len() as int
    } else if sorts_after(es[i].0, c) {
        i
    } else {
        insert_index(es, c, i + 1)
    }
}

/// The entries with `(c, v)` added in key order when no key is `c`, as a
/// sorted map inserts it.
pub open spec fn with_entry(es: Seq<(Seq<char>, JsonModel)>, c: char, v: JsonModel) -> Seq<
    (Seq<char>, JsonModel),
> {
    if has_key(es, c) {
        es
    } else {
        es.insert(insert_index(es, c as u8, 0), (seq![c], v))
    }
}

/// A JSON value with the metadata that an import string carries: an object
/// without `m` gets `m = "d"`, without `s` gets `s = "5.17.0"`, without `v`
/// gets `v = 2000`; any other value is unchanged.
pub open spec fn with_metadata(j: JsonModel) -> JsonModel {
    match j {
        JsonModel::Object(es) => JsonModel::Object(
            with_entry(
                with_entry(with_entry(es, 'm', JsonModel::Str("d"@)), 's', JsonModel::Str("5.17.0"@)),
                'v',
                JsonModel::Number(JsonNumber::PosInt(2000)),
            ),
        ),
        _ => j,
    }
}

proof fn lemma_insert_index_bounds(es: Seq<(Seq<char>, JsonModel)>, c: u8, i: int)
    requires
        0 <= i <= es.len(),
    ensures
        i <= insert_index(es, c, i) <= es.len(),
    decreases es.len() - i,
{
    if i < es.len() && !sorts_after(es[i].0, c) {
        lemma_insert_index_bounds(es, c, i + 1);
    }
}

proof fn lemma_with_entry_keys(es: Seq<(Seq<char>, JsonModel)>, c: char, v: JsonModel, d: char)
    requires
        has_key(es, d) || d == c,
    ensures
        has_key(with_entry(es, c, v), d),
{
    if !has_key(es, c) {
        let i = insert_index(es, c as u8, 0);
        lemma_insert_index_bounds(es, c as u8, 0);
        let r = es.insert(i, (seq![c], v));
        if d == c {
            assert(r[i].0 == seq![c]);
        } else {
            let k = choose|k: int| 0 <= k < es.len() && #[trigger] es[k].0 == seq![d];
            if k < i {
                assert(r[k] == es[k]);
            } else {
                assert(r[k + 1] == es[k]);
            }
        }
    }
}

/// Adding the metadata twice is adding it once: once added, each field is
/// present and is left alone.
pub proof fn lemma_metadata_idempotent(j: JsonModel)
    ensures
        with_metadata(with_metadata(j)) == with_metadata(j),
{
    if let JsonModel::Object(es) = j {
        let e1 = with_entry(es, 'm', JsonModel::Str("d"@));
        let e2 = with_entry(e1, 's', JsonModel::Str("5.17.0"@));
        let e3 = with_entry(e2, 'v', JsonModel::Number(JsonNumber::PosInt(2000)));
        lemma_with_entry_keys(es, 'm', JsonModel::Str("d"@), 'm');
        lemma_with_entry_keys(e1, 's', JsonModel::Str("5.17.0"@), 'm');
        lemma_with_entry_keys(e1, 's', JsonModel::Str("5.17.0"@), 's');
        lemma_with_entry_keys(e2, 'v', JsonModel::Number(JsonNumber::PosInt(2000)), 'm');
        lemma_with_entry_keys(e2, 'v', JsonModel::Number(JsonNumber::PosInt(2000)), 's');
        lemma_with_entry_keys(e2, 'v', JsonModel::Number(JsonNumber::PosInt(2000)), 'v');
    }
}

proof fn lemma_with_entry_keeps(es: Seq<(Seq<char>, JsonModel)>, c: char, v: JsonModel)
    ensures
        forall|i: int| 0 <= i < es.len() ==> with_entry(es, c, v).contains(#[trigger] es[i]),
        !has_key(es, c) ==> with_entry(es, c, v).contains((seq![c], v)),
{
    let r = with_entry(es, c, v);
    if !has_key(es, c) {
        let i = insert_index(es, c as u8, 0);
        lemma_insert_index_bounds(es, c as u8, 0);
        assert forall|k: int| 0 <= k < es.len() implies r.contains(#[trigger] es[k]) by {
            if k < i {
                assert(r[k] == es[k]);
            } else {
                assert(r[k + 1] == es[k]);
            }
        }
        assert(r[i] == (seq![c], v));
    } else {
        assert forall|k: int| 0 <= k < es.len() implies r.contains(#[trigger] es[k]) by {
            assert(r[k] == es[k]);
        }
    }
}

proof fn lemma_with_entry_other_key(es: Seq<(Seq<char>, JsonModel)>, c: char, v: JsonModel, d: char)
    requires
        d != c,
        has_key(with_entry(es, c, v), d),
    ensures
        has_key(es, d),
{
    if !has_key(es, c) {
        let i = insert_index(es, c as u8, 0);
        lemma_insert_index_bounds(es, c as u8, 0);
        let r = es.insert(i, (seq![c], v));
        let k = choose|k: int| 0 <= k < r.len() && #[trigger] r[k].0 == seq![d];
        assert(seq![c][0] != seq![d][0]);
        if k < i {
            assert(r[k] == es[k]);
        } else if k > i {
            assert(r[k] == es[k - 1]);
        }
    }
}

/// Adding the metadata keeps every entry that the object had, and adds
/// each of `m = "d"`, `s = "5.17.0"` and `v = 2000` that it lacked.
pub proof fn lemma_metadata_fields(es: Seq<(Seq<char>, JsonModel)>)
    ensures
        with_metadata(JsonModel::Object(es)) matches JsonModel::Object(rs) && (forall|i: int|
            0 <= i < es.len() ==> rs.contains(#[trigger] es[i])) && (!has_key(es, 'm')
            ==> rs.contains((seq!['m'], JsonModel::Str("d"@)))) && (!has_key(es, 's')
            ==> rs.contains((seq!['s'], JsonModel::Str("5.17.0"@)))) && (!has_key(es, 'v')
            ==> rs.contains((seq!['v'], JsonModel::Number(JsonNumber::PosInt(2000))))),
{
    let vm = JsonModel::Str("d"@);
    let vs = JsonModel::Str("5.17.0"@);
    let vv = JsonModel::Number(JsonNumber::PosInt(2000));
    let e1 = with_entry(es, 'm', vm);
    let e2 = with_entry(e1, 's', vs);
    let e3 = with_entry(e2, 'v', vv);
    lemma_with_entry_keeps(es, 'm', vm);
    lemma_with_entry_keeps(e1, 's', vs);
    lemma_with_entry_keeps(e2, 'v', vv);
    // what is in e1 is in e3
    assert forall|x: (Seq<char>, JsonModel)| e1.contains(x) implies e3.contains(x) by {
        let j = choose|j: int| 0 <= j < e1.len() && e1[j] == x;
        assert(e2.contains(e1[j]));
        let k = choose|k: int| 0 <= k < e2.len() && e2[k] == e1[j];
        assert(e3.contains(e2[k]));
    }
    assert forall|i: int| 0 <= i < es.len() implies e3.contains(#[trigger] es[i]) by {
        assert(e1.contains(es[i]));
    }
    if !has_key(es, 's') {
        if has_key(e1, 's') {
            lemma_with_entry_other_key(es, 'm', vm, 's');
        }
        assert(e2.contains((seq!['s'], vs)));
        let k = choose|k: int| 0 <= k < e2.len() && e2[k] == (seq!['s'], vs);
        assert(e3.contains(e2[k]));
    }
    if !has_key(es, 'v') {
        if has_key(e1, 'v') {
            lemma_with_entry_other_key(es, 'm', vm, 'v');
        }
        if has_key(e2, 'v') {
            lemma_with_entry_other_key(e1, 's', vs, 'v');
        }
    }
}

/// The Lua value of an object with the metadata added is a table, holding
/// the pair `"m" = "d"`, `"s" = "5.17.0"` or `"v" = 2000` for each of these
/// keys that the object lacked.
pub proof fn lemma_metadata_table(es: Seq<(Seq<char>, JsonModel)>)
    ensures
        from_json_spec(with_metadata(JsonModel::Object(es))) matches LuaModel::Table(ps) && (
        !has_key(es, 'm') ==> ps.contains((LuaModel::Str(seq!['m']), LuaModel::Str("d"@)))) && (
        !has_key(es, 's') ==> ps.contains((LuaModel::Str(seq!['s']), LuaModel::Str("5.17.0"@))))
            && (!has_key(es, 'v') ==> ps.contains((LuaModel::Str(seq!['v']), LuaModel::Int(2000)))),
{
    lemma_metadata_fields(es);
    lemma_metadata_idempotent(JsonModel::Object(es));
    let rs = with_metadata(JsonModel::Object(es))->Object_0;
    let vm = JsonModel::Str("d"@);
    let vs = JsonModel::Str("5.17.0"@);
    let vv = JsonModel::Number(JsonNumber::PosInt(2000));
    let e1 = with_entry(es, 'm', vm);
    let e2 = with_entry(e1, 's', vs);
    lemma_with_entry_keys(es, 'm', vm, 'm');
    lemma_with_entry_keys(e1, 's', vs, 'm');
    lemma_with_entry_keys(e2, 'v', vv, 'm');
    assert(has_key(rs, 'm'));
    crate::types::lemma_convert_entries(rs);
    let conv = crate::types::convert_entries(rs);
    crate::types::lemma_letter_key(109);
    crate::types::lemma_letter_key(115);
    crate::types::lemma_letter_key(118);
    assert(!crate::types::keys_positive(conv)) by {
        let j = choose|j: int| 0 <= j < rs.len() && #[trigger] rs[j].0 == seq!['m'];
        assert(conv[j].0 == seq![109u8 as char]);
    }
    let ps = crate::types::table_pairs(conv);
    assert(from_json_spec(JsonModel::Object(rs)) == LuaModel::Table(ps));
    if !has_key(es, 'm') {
        let j = choose|j: int| 0 <= j < rs.len() && rs[j] == (seq!['m'], vm);
        assert(conv[j].0 == seq![109u8 as char]);
        assert(ps[j] == (LuaModel::Str(seq!['m']), LuaModel::Str("d"@)));
    }
    if !has_key(es, 's') {
        let j = choose|j: int| 0 <= j < rs.len() && rs[j] == (seq!['s'], vs);
        assert(conv[j].0 == seq![115u8 as char]);
        assert(ps[j] == (LuaModel::Str(seq!['s']), LuaModel::Str("5.17.0"@)));
    }
    if !has_key(es, 'v') {
        let j = choose|j: int| 0 <= j < rs.len() && rs[j] == (seq!['v'], vv);
        assert(conv[j].0 == seq![118u8 as char]);
        assert(ps[j] == (LuaModel::Str(seq!['v']), LuaModel::Int(2000)));
    }
}

/// Adds the entry `(c, v)` in key order when no key is `c`.
fn add_entry(es: &mut Vec<(String, JsonValue)>, c: u8, v: JsonValue)
    requires
        c < 128,
    ensures
        json_model_entries(final(es)@) == with_entry(
            json_model_entries(old(es)@),
            c as char,
            v.model(),
        ),
{
    let ghost m0 = json_model_entries(es@);
    proof {
        lemma_json_model_entries(es@);
    }
    // is the key there?
    let mut i: usize = 0;
    while i < es.len()
        invariant
            c < 128,
            i <= es@.len(),
            m0 == json_model_entries(es@),
            m0.len() == es@.len(),
            forall|k: int| 0 <= k < es@.len() ==> #[trigger] m0[k] == (es@[k].0@, es@[k].1.model()),
            forall|k: int| 0 <= k < i ==> m0[k].0 != seq![c as char],
        decreases es.len() - i,
    {
        if is_ascii_char_text(es[i].0.as_str(), c) {
            assert(m0[i as int].0 == seq![c as char]);
            assert(has_key(m0, c as char));
            return;
        }
        i += 1;
    }
    assert(!has_key(m0, c as char));
    // where it goes
    let mut j: usize = 0;
    assert(insert_index(m0, c, 0) == insert_index(m0, c, j as int));
    while j < es.len()
        invariant
            j <= es@.len(),
            m0 == json_model_entries(es@),
            m0.len() == es@.len(),
            forall|k: int| 0 <= k < es@.len() ==> #[trigger] m0[k] == (es@[k].0@, es@[k].1.model()),
            insert_index(m0, c, 0) == insert_index(m0, c, j as int),
        ensures
            j <= es@.len(),
            insert_index(m0, c, 0) == j as int,
        decreases es.len() - j,
    {
        let b = es[j].0.as_str().as_bytes();
        if b.len() > 0 && (b[0] > c || (b[0] == c && b.len() > 1)) {
            assert(sorts_after(m0[j as int].0, c));
            break;
        }
        assert(!sorts_after(m0[j as int].0, c));
        j += 1;
    }
    assert(insert_index(m0, c, 0) == j as int);
    let key = crate::text::char_text(c as char);
    let ghost entry = (key@, v.model());
    es.insert(j, (key, v));
    proof {
        lemma_json_model_entries(es@);
        assert(json_model_entries(es@) =~= m0.insert(j as int, entry));
    }
}

/// Adds the metadata fields that an import string carries (see
/// `with_metadata`).
pub fn add_metadata(value: JsonValue) -> (r: JsonValue)
    ensures
        r.model() == with_metadata(value.model()),
{
    match value {
        JsonValue::Object(mut es) => {
            add_entry(&mut es, 109, JsonValue::String("d".to_owned()));
            add_entry(&mut es, 115, JsonValue::String("5.17.0".to_owned()));
            add_entry(&mut es, 118, JsonValue::Number(JsonNumber::PosInt(2000)));
            JsonValue::Object(es)
        },
        other => other,
    }
}

// ---------------------------------------------------------------------
// Encoding
// ---------------------------------------------------------------------

/// `!WA:2!` as bytes.
pub open spec fn wa2_prefix() -> Seq<u8> {
    seq![33u8, 87u8, 65u8, 58u8, 50u8, 33u8]
}

/// The import string for the compressed data `c`: `!WA:2!` and the
/// printable encoding of `c`.
pub open spec fn import_text(c: Seq<u8>) -> Seq<char> {
    ascii_chars(wa2_prefix() + encode_print_bytes(c))
}

/// The import string for compressed data.
pub fn import_string_from_compressed(compressed: &[u8]) -> (r: String)
    ensures
        r@ == import_text(compressed@),
{
    let body = encode_for_print(compressed);
    let r = concat_text("!WA:2!", body.as_str());
    proof {
        reveal_strlit("!WA:2!");
        assert(r@ =~= import_text(compressed@));
    }
    r
}

/// Encodes a Lua value: serializes it, compresses the bytes with DEFLATE at
/// the best level, and writes the import string for them. Whenever it
/// succeeds, decoding the string gives the value back, for every value that
/// serialization writes exactly (see `canonical` and `refs_fit`).
pub fn encode_value(value: &LuaValue) -> (r: Result<String, EncodeError>)
    ensures
        match deflate_best(serialize_spec(value.model())) {
            Ok(c) => r matches Ok(s) && s@ == import_text(c),
            Err(t) => r matches Err(e) && e.failure() == EncodeFailure::Compression(t),
        },
        r matches Ok(s) ==> (canonical(value.model()) && refs_fit(value.model(), seq![])
            ==> forall|fl: Seq<u64>|
            #[trigger] decode_spec(s@, fl) == Ok::<LuaModel, DecodeFailure>(value.model())),
{
    let serialized = serialize(value);
    match deflate_best_bytes(serialized.as_slice()) {
        Ok(compressed) => {
            let s = import_string_from_compressed(compressed.as_slice());
            proof {
                let m = value.model();
                if canonical(m) && refs_fit(m, seq![]) {
                    assert forall|fl: Seq<u64>|
                        #[trigger] decode_spec(s@, fl) == Ok::<LuaModel, DecodeFailure>(m) by {
                        lemma_import_roundtrip(m, compressed@, fl);
                    }
                }
            }
            Ok(s)
        },
        Err(e) => Err(EncodeError::Compression(e)),
    }
}

/// Encodes a JSON value: adds the metadata fields (see `with_metadata`),
/// converts it to a Lua value and encodes that. Whenever it succeeds,
/// decoding the string gives that Lua value back, when serialization writes
/// it exactly (see `canonical` and `refs_fit`).
pub fn encode(json: JsonValue) -> (r: Result<String, EncodeError>)
    ensures
        match deflate_best(serialize_spec(from_json_spec(with_metadata(json.model())))) {
            Ok(c) => r matches Ok(s) && s@ == import_text(c),
            Err(t) => r matches Err(e) && e.failure() == EncodeFailure::Compression(t),
        },
        r matches Ok(s) ==> ({
            let m = from_json_spec(with_metadata(json.model()));
            canonical(m) && refs_fit(m, seq![]) ==> forall|fl: Seq<u64>|
                #[trigger] decode_spec(s@, fl) == Ok::<LuaModel, DecodeFailure>(m)
        }),
{
    let value = add_metadata(json);
    let lua = LuaValue::from_json(&value);
    encode_value(&lua)
}

/// The import string of any compressed data that inflates to the
/// serialization of a value decodes to that value, for every value that
/// serialization writes exactly.
pub proof fn lemma_import_roundtrip(m: LuaModel, c: Seq<u8>, fl: Seq<u64>)
    requires
        canonical(m),
        refs_fit(m, seq![]),
        inflate_raw(c) == Some(serialize_spec(m)),
    ensures
        decode_spec(import_text(c), fl) == Ok::<LuaModel, DecodeFailure>(m),
{
    let e = encode_print_bytes(c);
    let b = wa2_prefix() + e;
    lemma_encode_print_ascii(c);
    assert(is_ascii_bytes(b)) by {
        assert forall|i: int| 0 <= i < b.len() implies #[trigger] b[i] < 128 by {
            if i >= 6 {
                assert(b[i] == e[i - 6]);
            }
        }
    }
    lemma_ascii_bytes_utf8(b);
    let text = import_text(c);
    assert(text.len() == b.len());
    assert(!is_white_space(text[0])) by {
        assert(text[0] == (33u8 as char));
    }
    assert(!is_white_space(text.last())) by {
        if e.len() > 0 {
            assert(b.last() == e[e.len() - 1]);
            assert(40 <= e[e.len() - 1] <= 122);
        } else {
            assert(b.last() == 33u8);
        }
    }
    assert(trim_start_chars(text) == text);
    assert(trim_end_chars(text) == text);
    assert(trimmed_bytes(text) == b);
    assert(b.take(4) =~= wa_prefix());
    let after = b.skip(4);
    assert(after[0] == 50u8 && after[1] == 33u8);
    assert(find_byte(after, 33, 1) == Some(1int));
    assert(find_byte(after, 33, 0) == Some(1int));
    let v = after.take(1);
    assert(v =~= seq![50u8]);
    assert(digits_value(v) == 2) by {
        assert(v.drop_last() =~= Seq::<u8>::empty());
        assert(digits_value(v.drop_last()) == 0);
        assert(v.last() == 50u8);
    }
    assert(crate::floattext::all_digits(v));
    assert(after.skip(2) =~= e);
    lemma_ascii_bytes_utf8(e);
    lemma_print_roundtrip(c);
    lemma_serialize_roundtrip(m, fl);
}

} // verus!
