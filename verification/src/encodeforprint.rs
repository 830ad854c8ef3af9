//! The printable encoding of LibDeflate (`EncodeForPrint` / `DecodeForPrint`).
//!
//! A base64 variant with the alphabet `a-z A-Z 0-9 ( )` (values 0 to 63 in
//! that order) that packs bytes LITTLE-ENDIAN: three bytes `x1 x2 x3` form the
//! 24-bit number `x1 + x2 * 256 + x3 * 65536`, which is written as four
//! characters, lowest six bits first. A tail of one or two bytes is written
//! with as many characters as its bits need (two or three).

use crate::text::{char_text, concat_text, ascii_chars, ascii_to_string, is_ascii_bytes, lemma_ascii_bytes_utf8};
use vstd::prelude::*;
use vstd::string::*;
use vstd::utf8::encode_utf8;

verus! {

/// Errors of [`decode_for_print`].
#[derive(Debug, Clone, Copy, PartialEq, Eq, Structural)]
pub enum EncodeForPrintError {
    /// A printable character outside the alphabet.
    InvalidChar(char),
    /// Input too short to decode.
    InputTooShort,
}

impl EncodeForPrintError {
    /// The text of the error.
    pub open spec fn message_spec(&self) -> Seq<char> {
        match self {
            EncodeForPrintError::InvalidChar(c) => "Invalid character in input: "@ + seq![*c],
            EncodeForPrintError::InputTooShort => "Input too short"@,
        }
    }

    /// The text of the error.
    pub fn message(&self) -> (r: String)
        ensures
            r@ == self.message_spec(),
    {
        match self {
            EncodeForPrintError::InvalidChar(c) => {
                let t = char_text(*c);
                concat_text("Invalid character in input: ", t.as_str())
            },
            EncodeForPrintError::InputTooShort => "Input too short".to_owned(),
        }
    }
}

/// The alphabet character (as an ASCII byte) for the 6-bit value `v`.
pub open spec fn alphabet_byte(v: int) -> u8 {
    if v < 26 {
        (97 + v) as u8
    } else if v < 52 {
        (65 + (v - 26)) as u8
    } else if v < 62 {
        (48 + (v - 52)) as u8
    } else if v == 62 {
        40u8
    } else {
        41u8
    }
}

/// The 6-bit value of an alphabet character, `None` for any other byte.
pub open spec fn char_value(c: u8) -> Option<u8> {
    if 97 <= c <= 122 {
        Some((c - 97) as u8)
    } else if 65 <= c <= 90 {
        Some((c - 65 + 26) as u8)
    } else if 48 <= c <= 57 {
        Some((c - 48 + 52) as u8)
    } else if c == 40 {
        Some(62u8)
    } else if c == 41 {
        Some(63u8)
    } else {
        None
    }
}

/// Four characters for three bytes.
pub open spec fn encode_group(x1: u8, x2: u8, x3: u8) -> Seq<u8> {
    let cache = x1 + x2 * 256 + x3 * 65536;
    seq![
        alphabet_byte(cache % 64),
        alphabet_byte((cache / 64) % 64),
        alphabet_byte((cache / 4096) % 64),
        alphabet_byte((cache / 262144) % 64),
    ]
}

/// The characters for a tail of fewer than three bytes.
pub open spec fn encode_tail(d: Seq<u8>) -> Seq<u8> {
    if d.len() == 0 {
        seq![]
    } else if d.len() == 1 {
        seq![alphabet_byte(d[0] as int % 64), alphabet_byte(d[0] as int / 64)]
    } else {
        let cache = d[0] + d[1] * 256;
        seq![
            alphabet_byte(cache % 64),
            alphabet_byte((cache / 64) % 64),
            alphabet_byte((cache / 4096) % 64),
        ]
    }
}

/// The printable encoding of `d`, as ASCII bytes.
pub open spec fn encode_print_bytes(d: Seq<u8>) -> Seq<u8>
    decreases d.len(),
{
    if d.len() >= 3 {
        encode_group(d[0], d[1], d[2]) + encode_print_bytes(d.skip(3))
    } else {
        encode_tail(d)
    }
}

/// The bytes that decoding looks at: those strictly between space and DEL.
pub open spec fn is_printable(b: u8) -> bool {
    32 < b < 127
}

/// `s` with every byte that is not printable left out.
pub open spec fn printable_bytes(s: Seq<u8>) -> Seq<u8>
    decreases s.len(),
{
    if s.len() == 0 {
        seq![]
    } else if is_printable(s.last()) {
        printable_bytes(s.drop_last()).push(s.last())
    } else {
        printable_bytes(s.drop_last())
    }
}

/// The first byte of `c` that is not an alphabet character.
pub open spec fn first_invalid(c: Seq<u8>) -> Option<u8>
    decreases c.len(),
{
    if c.len() == 0 {
        None
    } else if char_value(c[0]) is None {
        Some(c[0])
    } else {
        first_invalid(c.drop_first())
    }
}

/// The value of an alphabet character as an integer.
pub open spec fn cv(c: u8) -> int {
    char_value(c).unwrap() as int
}

/// Three bytes for four characters.
pub open spec fn decode_group(c: Seq<u8>) -> Seq<u8> {
    let cache = cv(c[0]) + cv(c[1]) * 64 + cv(c[2]) * 4096 + cv(c[3]) * 262144;
    seq![(cache % 256) as u8, ((cache / 256) % 256) as u8, ((cache / 65536) % 256) as u8]
}

/// The bytes for a tail of fewer than four characters: every complete byte
/// of its bits, leftover bits dropped.
pub open spec fn decode_tail(c: Seq<u8>) -> Seq<u8> {
    if c.len() <= 1 {
        seq![]
    } else if c.len() == 2 {
        seq![((cv(c[0]) + cv(c[1]) * 64) % 256) as u8]
    } else {
        let cache = cv(c[0]) + cv(c[1]) * 64 + cv(c[2]) * 4096;
        seq![(cache % 256) as u8, ((cache / 256) % 256) as u8]
    }
}

/// The bytes that the alphabet characters `c` decode to.
pub open spec fn decode_print_bytes(c: Seq<u8>) -> Seq<u8>
    decreases c.len(),
{
    if c.len() >= 4 {
        decode_group(c) + decode_print_bytes(c.skip(4))
    } else {
        decode_tail(c)
    }
}

/// What decoding the text with UTF-8 bytes `s` gives: the first character
/// outside the alphabet is an error, else the decoded bytes.
pub open spec fn decode_for_print_spec(s: Seq<u8>) -> Result<Seq<u8>, EncodeForPrintError> {
    let c = printable_bytes(s);
    match first_invalid(c) {
        Some(b) => Err(EncodeForPrintError::InvalidChar(b as char)),
        None => Ok(decode_print_bytes(c)),
    }
}

fn alphabet_char(v: u32) -> (b: u8)
    requires
        v < 64,
    ensures
        b == alphabet_byte(v as int),
        b < 128,
{
    if v < 26 {
        (97 + v) as u8
    } else if v < 52 {
        (65 + (v - 26)) as u8
    } else if v < 62 {
        (48 + (v - 52)) as u8
    } else if v == 62 {
        40u8
    } else {
        41u8
    }
}

/// The printable encoding is made of alphabet characters, all of them
/// ASCII between `(` and `z`.
pub proof fn lemma_encode_print_ascii(d: Seq<u8>)
    ensures
        is_ascii_bytes(encode_print_bytes(d)),
        forall|i: int|
            0 <= i < encode_print_bytes(d).len() ==> 40 <= #[trigger] encode_print_bytes(d)[i]
                <= 122,
    decreases d.len(),
{
    if d.len() >= 3 {
        lemma_encode_print_ascii(d.skip(3));
    }
}

/// Encodes bytes in the printable format (LibDeflate's `EncodeForPrint`).
pub fn encode_for_print(data: &[u8]) -> (res: String)
    ensures
        res@ == ascii_chars(encode_print_bytes(data@)),
{
    let n = data.len();
    let mut out: Vec<u8> = Vec::new();
    let mut i: usize = 0;
    assert(data@.skip(0) =~= data@);
    while n - i > 2
        invariant
            n == data@.len(),
            i <= n,
            out@ + encode_print_bytes(data@.skip(i as int)) == encode_print_bytes(data@),
        decreases n - i,
    {
        let x1 = data[i] as u32;
        let x2 = data[i + 1] as u32;
        let x3 = data[i + 2] as u32;
        let cache = x1 + x2 * 256 + x3 * 65536;
        let b1 = alphabet_char(cache % 64);
        let b2 = alphabet_char((cache / 64) % 64);
        let b3 = alphabet_char((cache / 4096) % 64);
        let b4 = alphabet_char((cache / 262144) % 64);
        let ghost rest = data@.skip(i as int);
        assert(rest.skip(3) =~= data@.skip(i + 3));
        assert(encode_print_bytes(rest) == seq![b1, b2, b3, b4] + encode_print_bytes(
            data@.skip(i + 3),
        ));
        out.push(b1);
        out.push(b2);
        out.push(b3);
        out.push(b4);
        assert(out@ + encode_print_bytes(data@.skip(i + 3)) =~= encode_print_bytes(data@));
        i += 3;
    }
    let remaining = n - i;
    let ghost rest = data@.skip(i as int);
    if remaining == 1 {
        let x = data[i] as u32;
        out.push(alphabet_char(x % 64));
        out.push(alphabet_char(x / 64));
    } else if remaining == 2 {
        let cache = data[i] as u32 + data[i + 1] as u32 * 256;
        out.push(alphabet_char(cache % 64));
        out.push(alphabet_char((cache / 64) % 64));
        out.push(alphabet_char((cache / 4096) % 64));
    }
    assert(out@ =~= encode_print_bytes(data@));
    proof {
        lemma_encode_print_ascii(data@);
    }
    ascii_to_string(out)
}

/// The value of an alphabet character.
pub fn decode_char(c: u8) -> (res: Result<u8, EncodeForPrintError>)
    ensures
        match char_value(c) {
            Some(v) => res == Ok::<u8, EncodeForPrintError>(v),
            None => res == Err::<u8, EncodeForPrintError>(EncodeForPrintError::InvalidChar(c as char)),
        },
{
    if c >= 128 {
        return Err(EncodeForPrintError::InvalidChar(c as char));
    }
    if 97 <= c && c <= 122 {
        Ok(c - 97)
    } else if 65 <= c && c <= 90 {
        Ok(c - 65 + 26)
    } else if 48 <= c && c <= 57 {
        Ok(c - 48 + 52)
    } else if c == 40 {
        Ok(62)
    } else if c == 41 {
        Ok(63)
    } else {
        Err(EncodeForPrintError::InvalidChar(c as char))
    }
}

proof fn lemma_first_invalid_at(c: Seq<u8>, j: int)
    requires
        0 <= j < c.len(),
        forall|k: int| 0 <= k < j ==> #[trigger] char_value(c[k]) is Some,
        char_value(c[j]) is None,
    ensures
        first_invalid(c) == Some(c[j]),
    decreases j,
{
    if j > 0 {
        assert(char_value(c[0]) is Some);
        let t = c.drop_first();
        assert forall|k: int| 0 <= k < j - 1 implies #[trigger] char_value(t[k]) is Some by {
            assert(t[k] == c[k + 1]);
        }
        lemma_first_invalid_at(t, j - 1);
    }
}

proof fn lemma_no_invalid(c: Seq<u8>)
    requires
        forall|k: int| 0 <= k < c.len() ==> #[trigger] char_value(c[k]) is Some,
    ensures
        first_invalid(c) is None,
    decreases c.len(),
{
    if c.len() > 0 {
        let t = c.drop_first();
        assert forall|k: int| 0 <= k < t.len() implies #[trigger] char_value(t[k]) is Some by {
            assert(t[k] == c[k + 1]);
        }
        lemma_no_invalid(t);
    }
}

fn printable_only(s: &[u8]) -> (clean: Vec<u8>)
    ensures
        clean@ == printable_bytes(s@),
{
    let mut clean: Vec<u8> = Vec::new();
    let mut i: usize = 0;
    assert(s@.take(0) =~= Seq::<u8>::empty());
    while i < s.len()
        invariant
            i <= s@.len(),
            clean@ == printable_bytes(s@.take(i as int)),
        decreases s.len() - i,
    {
        let b = s[i];
        assert(s@.take(i + 1).drop_last() =~= s@.take(i as int));
        assert(s@.take(i + 1).last() == b);
        if b > 32 && b < 127 {
            clean.push(b);
        }
        i += 1;
    }
    assert(s@.take(s@.len() as int) =~= s@);
    clean
}

/// Decodes the four characters at `i`, or gives the error of the first
/// character outside the alphabet when every character before `i` is valid.
fn decode_quad(clean: &Vec<u8>, i: usize) -> (res: Result<(u8, u8, u8), EncodeForPrintError>)
    requires
        i + 4 <= clean.len(),
        forall|k: int| 0 <= k < i ==> #[trigger] char_value(clean@[k]) is Some,
    ensures
        match res {
            Ok((b1, b2, b3)) => {
                &&& forall|k: int| 0 <= k < i + 4 ==> #[trigger] char_value(clean@[k]) is Some
                &&& seq![b1, b2, b3] == decode_group(clean@.skip(i as int))
            },
            Err(e) => first_invalid(clean@) matches Some(b) && e == EncodeForPrintError::InvalidChar(
                b as char,
            ),
        },
{
    let ghost c = clean@;
    let x1 = match decode_char(clean[i]) {
        Ok(v) => v as u32,
        Err(e) => {
            proof {
                lemma_first_invalid_at(c, i as int);
            }
            return Err(e);
        },
    };
    let x2 = match decode_char(clean[i + 1]) {
        Ok(v) => v as u32,
        Err(e) => {
            proof {
                lemma_first_invalid_at(c, i + 1);
            }
            return Err(e);
        },
    };
    let x3 = match decode_char(clean[i + 2]) {
        Ok(v) => v as u32,
        Err(e) => {
            proof {
                lemma_first_invalid_at(c, i + 2);
            }
            return Err(e);
        },
    };
    let x4 = match decode_char(clean[i + 3]) {
        Ok(v) => v as u32,
        Err(e) => {
            proof {
                lemma_first_invalid_at(c, i + 3);
            }
            return Err(e);
        },
    };
    let cache = x1 + x2 * 64 + x3 * 4096 + x4 * 262144;
    let b1 = (cache % 256) as u8;
    let b2 = ((cache / 256) % 256) as u8;
    let b3 = ((cache / 65536) % 256) as u8;
    let ghost rest = c.skip(i as int);
    assert(rest[0] == c[i as int] && rest[1] == c[i + 1] && rest[2] == c[i + 2] && rest[3] == c[i + 3]);
    assert forall|k: int| 0 <= k < i + 4 implies #[trigger] char_value(c[k]) is Some by {
        if k >= i {
            assert(k == i || k == i + 1 || k == i + 2 || k == i + 3);
        }
    }
    assert(seq![b1, b2, b3] =~= decode_group(rest));
    Ok((b1, b2, b3))
}

/// Decodes the printable format (LibDeflate's `DecodeForPrint`).
///
/// Bytes that are not printable (space, control characters, DEL and all
/// bytes of non-ASCII characters) are skipped; any other character outside
/// the alphabet is an error.
pub fn decode_for_print(data: &str) -> (res: Result<Vec<u8>, EncodeForPrintError>)
    ensures
        match res {
            Ok(v) => decode_for_print_spec(data.spec_bytes()) == Ok::<
                Seq<u8>,
                EncodeForPrintError,
            >(v@),
            Err(e) => decode_for_print_spec(data.spec_bytes()) == Err::<
                Seq<u8>,
                EncodeForPrintError,
            >(e),
        },
{
    decode_for_print_bytes(data.as_bytes())
}

/// Decodes the printable format from the bytes of a text.
pub fn decode_for_print_bytes(bytes: &[u8]) -> (res: Result<Vec<u8>, EncodeForPrintError>)
    ensures
        match res {
            Ok(v) => decode_for_print_spec(bytes@) == Ok::<Seq<u8>, EncodeForPrintError>(v@),
            Err(e) => decode_for_print_spec(bytes@) == Err::<Seq<u8>, EncodeForPrintError>(e),
        },
{
    let clean = printable_only(bytes);
    let ghost c = clean@;
    let mut result: Vec<u8> = Vec::new();
    if clean.len() == 0 {
        proof {
            lemma_no_invalid(c);
        }
        assert(decode_print_bytes(c) =~= Seq::<u8>::empty());
        return Ok(result);
    }
    let strlen = clean.len();
    let strlen_minus_3 = if strlen >= 4 {
        strlen - 3
    } else {
        0
    };
    let mut i: usize = 0;
    assert(c.skip(0) =~= c);
    while i < strlen_minus_3
        invariant
            strlen == c.len(),
            clean@ == c,
            strlen_minus_3 == (if strlen >= 4 {
                strlen - 3
            } else {
                0
            }),
            c == printable_bytes(bytes@),
            i <= strlen,
            forall|k: int| 0 <= k < i ==> #[trigger] char_value(c[k]) is Some,
            result@ + decode_print_bytes(c.skip(i as int)) == decode_print_bytes(c),
        decreases strlen - i,
    {
        let (b1, b2, b3) = match decode_quad(&clean, i) {
            Ok(t) => t,
            Err(e) => {
                return Err(e);
            },
        };
        let ghost rest = c.skip(i as int);
        assert(rest.skip(4) =~= c.skip(i + 4));
        assert(decode_print_bytes(rest) == seq![b1, b2, b3] + decode_print_bytes(c.skip(i + 4)));
        result.push(b1);
        result.push(b2);
        result.push(b3);
        assert(result@ + decode_print_bytes(c.skip(i + 4)) =~= decode_print_bytes(c));
        i += 4;
    }
    let ghost start = i;
    let mut vals: Vec<u32> = Vec::new();
    while i < strlen
        invariant
            strlen == c.len(),
            clean@ == c,
            c == printable_bytes(bytes@),
            start <= i <= strlen,
            forall|k: int| 0 <= k < i ==> #[trigger] char_value(c[k]) is Some,
            vals@.len() == i - start,
            forall|k: int| 0 <= k < vals@.len() ==> #[trigger] vals@[k] == cv(c[start + k]),
        decreases strlen - i,
    {
        let r = decode_char(clean[i]);
        match r {
            Ok(v) => {
                vals.push(v as u32);
            },
            Err(e) => {
                proof {
                    lemma_first_invalid_at(c, i as int);
                }
                return Err(e);
            },
        }
        i += 1;
    }
    proof {
        lemma_no_invalid(c);
    }
    let ghost rest = c.skip(start as int);
    assert(rest.len() < 4);
    assert(decode_print_bytes(rest) == decode_tail(rest));
    if vals.len() == 2 {
        let cache = vals[0] + vals[1] * 64;
        assert(rest[0] == c[start + 0]);
        assert(rest[1] == c[start + 1]);
        result.push((cache % 256) as u8);
    } else if vals.len() == 3 {
        let cache = vals[0] + vals[1] * 64 + vals[2] * 4096;
        assert(rest[0] == c[start + 0]);
        assert(rest[1] == c[start + 1]);
        assert(rest[2] == c[start + 2]);
        result.push((cache % 256) as u8);
        result.push(((cache / 256) % 256) as u8);
    }
    assert(result@ =~= decode_print_bytes(c));
    Ok(result)
}

proof fn lemma_alphabet_inverse(v: int)
    requires
        0 <= v < 64,
    ensures
        char_value(alphabet_byte(v)) == Some(v as u8),
        is_printable(alphabet_byte(v)),
{
}

proof fn lemma_group_roundtrip(x1: u8, x2: u8, x3: u8)
    ensures
        decode_group(encode_group(x1, x2, x3)) == seq![x1, x2, x3],
        forall|k: int| 0 <= k < 4 ==> #[trigger] char_value(encode_group(x1, x2, x3)[k]) is Some,
        forall|k: int| 0 <= k < 4 ==> is_printable(#[trigger] encode_group(x1, x2, x3)[k]),
{
    let cache = x1 + x2 * 256 + x3 * 65536;
    let v0 = cache % 64;
    let v1 = (cache / 64) % 64;
    let v2 = (cache / 4096) % 64;
    let v3 = (cache / 262144) % 64;
    assert(0 <= v0 < 64 && 0 <= v1 < 64 && 0 <= v2 < 64 && 0 <= v3 < 64) by (nonlinear_arith)
        requires
            v0 == cache % 64,
            v1 == (cache / 64) % 64,
            v2 == (cache / 4096) % 64,
            v3 == (cache / 262144) % 64,
            cache >= 0,
    ;
    lemma_alphabet_inverse(v0);
    lemma_alphabet_inverse(v1);
    lemma_alphabet_inverse(v2);
    lemma_alphabet_inverse(v3);
    let g = encode_group(x1, x2, x3);
    assert(cv(g[0]) == v0 && cv(g[1]) == v1 && cv(g[2]) == v2 && cv(g[3]) == v3);
    assert(v0 + v1 * 64 + v2 * 4096 + v3 * 262144 == cache) by (nonlinear_arith)
        requires
            v0 == cache % 64,
            v1 == (cache / 64) % 64,
            v2 == (cache / 4096) % 64,
            v3 == (cache / 262144) % 64,
            0 <= cache < 16777216,
    ;
    assert(cache % 256 == x1 && (cache / 256) % 256 == x2 && (cache / 65536) % 256 == x3)
        by (nonlinear_arith)
        requires
            cache == x1 + x2 * 256 + x3 * 65536,
            0 <= x1 < 256,
            0 <= x2 < 256,
            0 <= x3 < 256,
    ;
    assert(decode_group(g) =~= seq![x1, x2, x3]);
}

proof fn lemma_tail_roundtrip(d: Seq<u8>)
    requires
        d.len() < 3,
    ensures
        decode_tail(encode_tail(d)) == d,
        encode_tail(d).len() < 4,
        forall|k: int| 0 <= k < encode_tail(d).len() ==> #[trigger] char_value(encode_tail(d)[k]) is Some,
        forall|k: int| 0 <= k < encode_tail(d).len() ==> is_printable(#[trigger] encode_tail(d)[k]),
{
    let t = encode_tail(d);
    if d.len() == 0 {
        assert(decode_tail(t) =~= d);
    } else if d.len() == 1 {
        let x = d[0] as int;
        let v0 = x % 64;
        let v1 = x / 64;
        assert(0 <= v0 < 64 && 0 <= v1 < 4 && v0 + v1 * 64 == x) by (nonlinear_arith)
            requires
                v0 == x % 64,
                v1 == x / 64,
                0 <= x < 256,
        ;
        lemma_alphabet_inverse(v0);
        lemma_alphabet_inverse(v1);
        assert(decode_tail(t) =~= d);
    } else {
        let cache = d[0] + d[1] * 256;
        let v0 = cache % 64;
        let v1 = (cache / 64) % 64;
        let v2 = (cache / 4096) % 64;
        assert(0 <= v0 < 64 && 0 <= v1 < 64 && 0 <= v2 < 64 && v0 + v1 * 64 + v2 * 4096
            == cache) by (nonlinear_arith)
            requires
                v0 == cache % 64,
                v1 == (cache / 64) % 64,
                v2 == (cache / 4096) % 64,
                0 <= cache < 65536,
        ;
        assert(cache % 256 == d[0] && (cache / 256) % 256 == d[1]) by (nonlinear_arith)
            requires
                cache == d[0] + d[1] * 256,
                0 <= d[0] < 256,
                0 <= d[1] < 256,
        ;
        lemma_alphabet_inverse(v0);
        lemma_alphabet_inverse(v1);
        lemma_alphabet_inverse(v2);
        assert(decode_tail(t) =~= d);
    }
}

proof fn lemma_encoded_alphabet_roundtrip(d: Seq<u8>)
    ensures
        decode_print_bytes(encode_print_bytes(d)) == d,
        forall|k: int|
            0 <= k < encode_print_bytes(d).len() ==> #[trigger] char_value(
                encode_print_bytes(d)[k],
            ) is Some,
        forall|k: int|
            0 <= k < encode_print_bytes(d).len() ==> is_printable(
                #[trigger] encode_print_bytes(d)[k],
            ),
    decreases d.len(),
{
    let e = encode_print_bytes(d);
    if d.len() >= 3 {
        let g = encode_group(d[0], d[1], d[2]);
        let r = encode_print_bytes(d.skip(3));
        lemma_group_roundtrip(d[0], d[1], d[2]);
        lemma_encoded_alphabet_roundtrip(d.skip(3));
        assert(e == g + r);
        assert(e.skip(4) =~= r);
        assert(decode_group(e) == decode_group(g)) by {
            assert(e[0] == g[0] && e[1] == g[1] && e[2] == g[2] && e[3] == g[3]);
        }
        assert(e.len() >= 4);
        assert(decode_print_bytes(e) == decode_group(e) + decode_print_bytes(e.skip(4)));
        assert(seq![d[0], d[1], d[2]] + d.skip(3) =~= d);
        assert forall|k: int| 0 <= k < e.len() implies #[trigger] char_value(e[k]) is Some
            && is_printable(e[k]) by {
            if k < 4 {
                assert(e[k] == g[k]);
            } else {
                assert(e[k] == r[k - 4]);
            }
        }
    } else {
        lemma_tail_roundtrip(d);
    }
}

proof fn lemma_printable_identity(c: Seq<u8>)
    requires
        forall|k: int| 0 <= k < c.len() ==> is_printable(#[trigger] c[k]),
    ensures
        printable_bytes(c) == c,
    decreases c.len(),
{
    if c.len() > 0 {
        lemma_printable_identity(c.drop_last());
        assert(c.drop_last().push(c.last()) =~= c);
    }
}

/// Decoding gives back what encoding was given: for every byte string `d`,
/// the text that `encode_for_print(d)` returns decodes to `d`.
pub proof fn lemma_print_roundtrip(d: Seq<u8>)
    ensures
        decode_for_print_spec(encode_utf8(ascii_chars(encode_print_bytes(d)))) == Ok::<
            Seq<u8>,
            EncodeForPrintError,
        >(d),
{
    let e = encode_print_bytes(d);
    lemma_encode_print_ascii(d);
    lemma_ascii_bytes_utf8(e);
    lemma_encoded_alphabet_roundtrip(d);
    lemma_printable_identity(e);
    lemma_no_invalid(e);
}

// ---------------------------------------------------------------------
// Laws of decoding
// ---------------------------------------------------------------------

/// The number of bytes that `m` alphabet characters decode to: three for
/// each whole group of four, then none, none, one or two for a tail of
/// zero to three characters.
pub open spec fn decoded_len(m: nat) -> nat {
    3 * (m / 4) + (if m % 4 == 3 {
        2nat
    } else if m % 4 == 2 {
        1nat
    } else {
        0nat
    })
}

/// Decoding `m` characters gives `decoded_len(m)` bytes.
pub proof fn lemma_decoded_len(c: Seq<u8>)
    ensures
        decode_print_bytes(c).len() == decoded_len(c.len()),
    decreases c.len(),
{
    if c.len() >= 4 {
        lemma_decoded_len(c.skip(4));
        assert((c.len() - 4) / 4 == c.len() / 4 - 1);
        assert((c.len() - 4) % 4 == c.len() % 4);
    }
}

/// What decoding gives has `decoded_len` bytes for the number of printable
/// bytes of the input.
pub proof fn lemma_decode_for_print_len(s: Seq<u8>)
    ensures
        decode_for_print_spec(s) matches Ok(v) ==> v.len() == decoded_len(printable_bytes(s).len()),
{
    lemma_decoded_len(printable_bytes(s));
}

/// The printable bytes of a concatenation are those of each part.
pub proof fn lemma_printable_concat(a: Seq<u8>, b: Seq<u8>)
    ensures
        printable_bytes(a + b) == printable_bytes(a) + printable_bytes(b),
    decreases b.len(),
{
    if b.len() == 0 {
        assert(a + b =~= a);
        assert(printable_bytes(a) + printable_bytes(b) =~= printable_bytes(a));
    } else {
        lemma_printable_concat(a, b.drop_last());
        assert((a + b).drop_last() =~= a + b.drop_last());
        assert((a + b).last() == b.last());
        if is_printable(b.last()) {
            assert(printable_bytes(a) + printable_bytes(b.drop_last()).push(b.last())
                =~= (printable_bytes(a) + printable_bytes(b.drop_last())).push(b.last()));
        }
    }
}

/// Filtering twice is filtering once.
pub proof fn lemma_printable_idempotent(s: Seq<u8>)
    ensures
        printable_bytes(printable_bytes(s)) == printable_bytes(s),
{
    lemma_printable_all(s);
    lemma_printable_identity(printable_bytes(s));
}

proof fn lemma_printable_all(s: Seq<u8>)
    ensures
        forall|k: int|
            0 <= k < printable_bytes(s).len() ==> is_printable(#[trigger] printable_bytes(s)[k]),
    decreases s.len(),
{
    if s.len() > 0 {
        lemma_printable_all(s.drop_last());
        let p = printable_bytes(s.drop_last());
        if is_printable(s.last()) {
            assert forall|k: int| 0 <= k < p.len() + 1 implies is_printable(
                #[trigger] p.push(s.last())[k],
            ) by {
                if k < p.len() {
                    assert(p.push(s.last())[k] == p[k]);
                }
            }
        }
    }
}

/// Decoding looks only at the printable bytes: a byte at or below space, or
/// at or above DEL, can be left out or put in anywhere without changing
/// what decoding gives.
pub proof fn lemma_decode_ignores_unprintable(a: Seq<u8>, x: u8, b: Seq<u8>)
    requires
        !is_printable(x),
    ensures
        decode_for_print_spec(a + seq![x] + b) == decode_for_print_spec(a + b),
        decode_for_print_spec(a + b) == decode_for_print_spec(printable_bytes(a + b)),
{
    let one = seq![x];
    assert(one.drop_last() =~= Seq::<u8>::empty());
    assert(one.last() == x);
    assert(printable_bytes(Seq::<u8>::empty()) =~= Seq::<u8>::empty());
    assert(printable_bytes(one) == printable_bytes(one.drop_last()));
    assert(printable_bytes(one) =~= Seq::<u8>::empty());
    lemma_printable_concat(a, one);
    lemma_printable_concat(a + one, b);
    lemma_printable_concat(a, b);
    assert(printable_bytes(a + one) =~= printable_bytes(a));
    assert(printable_bytes(a + one + b) == printable_bytes(a + b));
    lemma_printable_idempotent(a + b);
}

proof fn lemma_alphabet_char_inverse(b: u8)
    requires
        char_value(b) is Some,
    ensures
        alphabet_byte(char_value(b).unwrap() as int) == b,
{
}

proof fn lemma_group_reencode(c: Seq<u8>)
    requires
        c.len() == 4,
        forall|k: int| 0 <= k < 4 ==> #[trigger] char_value(c[k]) is Some,
    ensures
        decode_group(c).len() == 3,
        encode_group(decode_group(c)[0], decode_group(c)[1], decode_group(c)[2]) == c,
{
    let v0 = cv(c[0]);
    let v1 = cv(c[1]);
    let v2 = cv(c[2]);
    let v3 = cv(c[3]);
    assert(char_value(c[0]) is Some && char_value(c[1]) is Some && char_value(c[2]) is Some
        && char_value(c[3]) is Some);
    assert(0 <= v0 < 64 && 0 <= v1 < 64 && 0 <= v2 < 64 && 0 <= v3 < 64);
    let cache = v0 + v1 * 64 + v2 * 4096 + v3 * 262144;
    let g = decode_group(c);
    let x1 = g[0] as int;
    let x2 = g[1] as int;
    let x3 = g[2] as int;
    assert(x1 == cache % 256 && x2 == (cache / 256) % 256 && x3 == (cache / 65536) % 256);
    assert(x1 + x2 * 256 + x3 * 65536 == cache && cache % 64 == v0 && (cache / 64) % 64 == v1
        && (cache / 4096) % 64 == v2 && (cache / 262144) % 64 == v3) by (nonlinear_arith)
        requires
            0 <= v0 < 64,
            0 <= v1 < 64,
            0 <= v2 < 64,
            0 <= v3 < 64,
            cache == v0 + v1 * 64 + v2 * 4096 + v3 * 262144,
            x1 == cache % 256,
            x2 == (cache / 256) % 256,
            x3 == (cache / 65536) % 256,
    ;
    lemma_alphabet_char_inverse(c[0]);
    lemma_alphabet_char_inverse(c[1]);
    lemma_alphabet_char_inverse(c[2]);
    lemma_alphabet_char_inverse(c[3]);
    assert(encode_group(g[0], g[1], g[2]) =~= c);
}

/// Encoding undoes decoding on whole groups: alphabet characters in groups
/// of four decode to three bytes a group, which encode back to the same
/// characters.
pub proof fn lemma_reencode_groups(c: Seq<u8>)
    requires
        c.len() % 4 == 0,
        forall|k: int| 0 <= k < c.len() ==> #[trigger] char_value(c[k]) is Some,
    ensures
        decode_for_print_spec(c) == Ok::<Seq<u8>, EncodeForPrintError>(decode_print_bytes(c)),
        decode_print_bytes(c).len() == 3 * c.len() / 4,
        encode_print_bytes(decode_print_bytes(c)) == c,
{
    assert forall|k: int| 0 <= k < c.len() implies is_printable(#[trigger] c[k]) by {
        assert(char_value(c[k]) is Some);
    }
    lemma_printable_identity(c);
    lemma_no_invalid(c);
    lemma_decoded_len(c);
    lemma_reencode_bytes(c);
}

proof fn lemma_reencode_bytes(c: Seq<u8>)
    requires
        c.len() % 4 == 0,
        forall|k: int| 0 <= k < c.len() ==> #[trigger] char_value(c[k]) is Some,
    ensures
        encode_print_bytes(decode_print_bytes(c)) == c,
    decreases c.len(),
{
    if c.len() == 0 {
        assert(decode_print_bytes(c) =~= Seq::<u8>::empty());
        assert(encode_print_bytes(Seq::<u8>::empty()) =~= c);
    } else {
        let c4 = c.take(4);
        let r = c.skip(4);
        assert forall|k: int| 0 <= k < 4 implies #[trigger] char_value(c4[k]) is Some by {
            assert(c4[k] == c[k]);
        }
        assert forall|k: int| 0 <= k < r.len() implies #[trigger] char_value(r[k]) is Some by {
            assert(r[k] == c[k + 4]);
        }
        lemma_reencode_bytes(r);
        lemma_group_reencode(c4);
        assert(decode_group(c) == decode_group(c4)) by {
            assert(c[0] == c4[0] && c[1] == c4[1] && c[2] == c4[2] && c[3] == c4[3]);
        }
        let g = decode_group(c);
        let d = decode_print_bytes(c);
        assert(d == g + decode_print_bytes(r));
        assert(d.len() >= 3);
        assert(d.skip(3) =~= decode_print_bytes(r));
        assert(d[0] == g[0] && d[1] == g[1] && d[2] == g[2]);
        assert(encode_print_bytes(d) == encode_group(d[0], d[1], d[2]) + encode_print_bytes(d.skip(3)));
        assert(c4 + r =~= c);
    }
}

// ---------------------------------------------------------------------
// Byte order
// ---------------------------------------------------------------------

/// The bytes read as one little-endian number: the first byte lowest.
pub open spec fn le_bytes_value(d: Seq<u8>) -> nat
    decreases d.len(),
{
    if d.len() == 0 {
        0
    } else {
        d[0] as nat + 256 * le_bytes_value(d.skip(1))
    }
}

/// The value of an alphabet character (0 for any other byte).
pub open spec fn digit(b: u8) -> nat {
    match char_value(b) {
        Some(v) => v as nat,
        None => 0nat,
    }
}

/// Alphabet characters read as one little-endian base-64 number: the
/// first character lowest.
pub open spec fn le_chars_value(c: Seq<u8>) -> nat
    decreases c.len(),
{
    if c.len() == 0 {
        0
    } else {
        digit(c[0]) + 64 * le_chars_value(c.skip(1))
    }
}

/// 64 to the power `n`.
pub open spec fn pow64(n: nat) -> nat
    decreases n,
{
    if n == 0 {
        1
    } else {
        64 * pow64((n - 1) as nat)
    }
}

proof fn lemma_le_chars_concat(a: Seq<u8>, b: Seq<u8>)
    ensures
        le_chars_value(a + b) == le_chars_value(a) + pow64(a.len()) * le_chars_value(b),
    decreases a.len(),
{
    if a.len() == 0 {
        assert(a + b =~= b);
        assert(pow64(0) == 1);
        assert(le_chars_value(a) == 0);
    } else {
        lemma_le_chars_concat(a.skip(1), b);
        assert((a + b).skip(1) =~= a.skip(1) + b);
        assert((a + b)[0] == a[0]);
        let x = le_chars_value(a.skip(1));
        let y = le_chars_value(b);
        let p = pow64((a.len() - 1) as nat);
        assert(le_chars_value(a + b) == digit(a[0]) + 64 * le_chars_value(a.skip(1) + b));
        assert(le_chars_value(a) == digit(a[0]) + 64 * x);
        assert(pow64(a.len()) == 64 * p);
        assert(64 * (x + p * y) == 64 * x + (64 * p) * y) by (nonlinear_arith);
        assert(le_chars_value(a.skip(1) + b) == x + p * y);
        assert(le_chars_value(a + b) == digit(a[0]) + 64 * x + (64 * p) * y);
    }
}

proof fn lemma_le_chars_short(g: Seq<u8>)
    requires
        1 <= g.len() <= 4,
    ensures
        le_chars_value(g) == digit(g[0]) + 64 * (if g.len() > 1 {
            digit(g[1])
        } else {
            0
        }) + 4096 * (if g.len() > 2 {
            digit(g[2])
        } else {
            0
        }) + 262144 * (if g.len() > 3 {
            digit(g[3])
        } else {
            0
        }),
    decreases g.len(),
{
    let t = g.skip(1);
    assert(le_chars_value(g) == digit(g[0]) + 64 * le_chars_value(t));
    if g.len() > 1 {
        lemma_le_chars_short(t);
        assert(t[0] == g[1]);
        if g.len() > 2 {
            assert(t[1] == g[2]);
        }
        if g.len() > 3 {
            assert(t[2] == g[3]);
        }
    } else {
        assert(t.len() == 0);
    }
}

proof fn lemma_le_bytes_three(d: Seq<u8>)
    requires
        d.len() >= 3,
    ensures
        le_bytes_value(d) == d[0] + 256 * d[1] + 65536 * d[2] + 16777216 * le_bytes_value(d.skip(3)),
{
    let d1 = d.skip(1);
    let d2 = d1.skip(1);
    assert(d2.skip(1) =~= d.skip(3));
    assert(d1[0] == d[1] && d2[0] == d[2]);
    assert(le_bytes_value(d) == d[0] + 256 * le_bytes_value(d1));
    assert(le_bytes_value(d1) == d[1] + 256 * le_bytes_value(d2));
    assert(le_bytes_value(d2) == d[2] + 256 * le_bytes_value(d.skip(3)));
    let r = le_bytes_value(d.skip(3));
    let x2 = d[1] as int;
    let x3 = d[2] as int;
    assert(256 * (x2 + 256 * (x3 + 256 * r)) == 256 * x2 + 65536 * x3 + 16777216 * r)
        by (nonlinear_arith);
}

/// The printable encoding is little-endian: its characters, read as
/// base-64 digits lowest first, make the same number as the bytes read
/// lowest first.
pub proof fn lemma_encode_little_endian(d: Seq<u8>)
    ensures
        le_chars_value(encode_print_bytes(d)) == le_bytes_value(d),
    decreases d.len(),
{
    let e = encode_print_bytes(d);
    if d.len() >= 3 {
        let cache = d[0] + d[1] * 256 + d[2] * 65536;
        let g = encode_group(d[0], d[1], d[2]);
        let r = encode_print_bytes(d.skip(3));
        lemma_encode_little_endian(d.skip(3));
        lemma_le_chars_concat(g, r);
        lemma_le_chars_short(g);
        assert(pow64(4) == 16777216) by {
            reveal_with_fuel(pow64, 5);
        }
        let v0 = cache % 64;
        let v1 = (cache / 64) % 64;
        let v2 = (cache / 4096) % 64;
        let v3 = (cache / 262144) % 64;
        assert(0 <= v0 < 64 && 0 <= v1 < 64 && 0 <= v2 < 64 && 0 <= v3 < 64 && v0 + 64 * v1
            + 4096 * v2 + 262144 * v3 == cache) by (nonlinear_arith)
            requires
                v0 == cache % 64,
                v1 == (cache / 64) % 64,
                v2 == (cache / 4096) % 64,
                v3 == (cache / 262144) % 64,
                0 <= cache < 16777216,
        ;
        lemma_alphabet_inverse(v0);
        lemma_alphabet_inverse(v1);
        lemma_alphabet_inverse(v2);
        lemma_alphabet_inverse(v3);
        lemma_le_bytes_three(d);
        assert(e == g + r);
        assert(digit(g[0]) == v0 && digit(g[1]) == v1 && digit(g[2]) == v2 && digit(g[3]) == v3);
        assert(le_chars_value(g) == cache);
        assert(le_chars_value(e) == cache + 16777216 * le_chars_value(r));
    } else if d.len() == 2 {
        let cache = d[0] + d[1] * 256;
        let v0 = cache % 64;
        let v1 = (cache / 64) % 64;
        let v2 = (cache / 4096) % 64;
        assert(0 <= v0 < 64 && 0 <= v1 < 64 && 0 <= v2 < 64 && v0 + 64 * v1 + 4096 * v2 == cache)
            by (nonlinear_arith)
            requires
                v0 == cache % 64,
                v1 == (cache / 64) % 64,
                v2 == (cache / 4096) % 64,
                0 <= cache < 65536,
        ;
        lemma_alphabet_inverse(v0);
        lemma_alphabet_inverse(v1);
        lemma_alphabet_inverse(v2);
        lemma_le_chars_short(e);
        assert(e == encode_tail(d));
        assert(digit(e[0]) == v0 && digit(e[1]) == v1 && digit(e[2]) == v2);
        assert(d.skip(1).skip(1) =~= Seq::<u8>::empty());
        assert(d.skip(1)[0] == d[1]);
        assert(le_bytes_value(d.skip(1)) == d[1] + 256 * le_bytes_value(d.skip(1).skip(1)));
        assert(le_bytes_value(d) == d[0] + 256 * le_bytes_value(d.skip(1)));
    } else if d.len() == 1 {
        let x = d[0] as int;
        let v0 = x % 64;
        let v1 = x / 64;
        assert(0 <= v0 < 64 && 0 <= v1 < 4 && v0 + 64 * v1 == x) by (nonlinear_arith)
            requires
                v0 == x % 64,
                v1 == x / 64,
                0 <= x < 256,
        ;
        lemma_alphabet_inverse(v0);
        lemma_alphabet_inverse(v1);
        lemma_le_chars_short(e);
        assert(e == encode_tail(d));
        assert(digit(e[0]) == v0 && digit(e[1]) == v1);
        assert(d.skip(1) =~= Seq::<u8>::empty());
        assert(le_bytes_value(d) == d[0] + 256 * le_bytes_value(d.skip(1)));
    }
}

/// 256 to the power `n`.
pub open spec fn pow256(n: nat) -> nat
    decreases n,
{
    if n == 0 {
        1
    } else {
        256 * pow256((n - 1) as nat)
    }
}

proof fn lemma_pow256_pos(n: nat)
    ensures
        pow256(n) > 0,
    decreases n,
{
    if n > 0 {
        lemma_pow256_pos((n - 1) as nat);
    }
}

/// Decoding is little-endian too: the bytes, read lowest first, are the
/// characters read as base-64 digits lowest first, cut to the whole bytes
/// that decoding gives (the leftover high bits of a tail dropped).
pub proof fn lemma_decode_little_endian(c: Seq<u8>)
    requires
        forall|k: int| 0 <= k < c.len() ==> #[trigger] char_value(c[k]) is Some,
    ensures
        le_bytes_value(decode_print_bytes(c)) == le_chars_value(c) % pow256(decoded_len(c.len())),
    decreases c.len(),
{
    let m = c.len();
    if m >= 4 {
        let r = c.skip(4);
        assert forall|k: int| 0 <= k < r.len() implies #[trigger] char_value(r[k]) is Some by {
            assert(r[k] == c[k + 4]);
        }
        lemma_decode_little_endian(r);
        let g4 = c.take(4);
        assert(g4 + r =~= c);
        lemma_le_chars_concat(g4, r);
        lemma_le_chars_short(g4);
        assert(pow64(4) == 16777216) by {
            reveal_with_fuel(pow64, 5);
        }
        assert(g4[0] == c[0] && g4[1] == c[1] && g4[2] == c[2] && g4[3] == c[3]);
        assert(char_value(c[0]) is Some && char_value(c[1]) is Some && char_value(c[2]) is Some
            && char_value(c[3]) is Some);
        let v0 = cv(c[0]);
        let v1 = cv(c[1]);
        let v2 = cv(c[2]);
        let v3 = cv(c[3]);
        assert(digit(c[0]) == v0 && digit(c[1]) == v1 && digit(c[2]) == v2 && digit(c[3]) == v3);
        let cache = v0 + v1 * 64 + v2 * 4096 + v3 * 262144;
        let x = le_chars_value(r);
        assert(le_chars_value(c) == cache + 16777216 * x);
        let dg = decode_group(c);
        let d = decode_print_bytes(c);
        assert(d == dg + decode_print_bytes(r));
        assert(d.skip(3) =~= decode_print_bytes(r));
        assert(d[0] == dg[0] && d[1] == dg[1] && d[2] == dg[2]);
        lemma_le_bytes_three(d);
        assert(dg[0] + 256 * dg[1] + 65536 * dg[2] == cache) by (nonlinear_arith)
            requires
                dg[0] == (cache % 256) as u8,
                dg[1] == ((cache / 256) % 256) as u8,
                dg[2] == ((cache / 65536) % 256) as u8,
                0 <= cache < 16777216,
        ;
        let n2 = decoded_len(r.len());
        assert(decoded_len(m) == 3 + n2) by {
            assert((m - 4) / 4 == m / 4 - 1);
            assert((m - 4) % 4 == m % 4);
        }
        assert(pow256(3 + n2) == 16777216 * pow256(n2)) by {
            reveal_with_fuel(pow256, 4);
        }
        lemma_pow256_pos(n2);
        let p = pow256(n2);
        let big = cache + 16777216 * x;
        assert(big / 16777216 == x && big % 16777216 == cache) by (nonlinear_arith)
            requires
                big == cache + 16777216 * x,
                0 <= cache < 16777216,
                x >= 0,
        ;
        vstd::arithmetic::div_mod::lemma_mod_breakdown(big, 16777216, p as int);
    } else {
        assert forall|k: int| 0 <= k < m implies digit(c[k]) == cv(c[k]) by {
            assert(char_value(c[k]) is Some);
        }
        if m == 0 {
            assert(decode_print_bytes(c) =~= Seq::<u8>::empty());
        } else {
            lemma_le_chars_short(c);
            assert(char_value(c[0]) is Some);
            let d = decode_print_bytes(c);
            if m == 1 {
                assert(d =~= Seq::<u8>::empty());
                assert(decoded_len(1) == 0);
                assert(pow256(0) == 1);
            } else if m == 2 {
                assert(char_value(c[1]) is Some);
                let v = cv(c[0]) + cv(c[1]) * 64;
                assert(decoded_len(2) == 1);
                assert(pow256(1) == 256) by {
                    reveal_with_fuel(pow256, 2);
                }
                assert(d.len() == 1 && d[0] == (v % 256) as u8);
                assert(d.skip(1) =~= Seq::<u8>::empty());
                assert(le_bytes_value(d) == d[0] + 256 * le_bytes_value(d.skip(1)));
            } else {
                assert(char_value(c[1]) is Some && char_value(c[2]) is Some);
                let v = cv(c[0]) + cv(c[1]) * 64 + cv(c[2]) * 4096;
                assert(decoded_len(3) == 2);
                assert(pow256(2) == 65536) by {
                    reveal_with_fuel(pow256, 3);
                }
                assert(d.len() == 2 && d[0] == (v % 256) as u8 && d[1] == ((v / 256) % 256) as u8);
                assert(d.skip(1).skip(1) =~= Seq::<u8>::empty());
                assert(d.skip(1)[0] == d[1]);
                assert(le_bytes_value(d.skip(1)) == d[1] + 256 * le_bytes_value(d.skip(1).skip(1)));
                assert(le_bytes_value(d) == d[0] + 256 * le_bytes_value(d.skip(1)));
                assert((v % 256) + 256 * ((v / 256) % 256) == v % 65536) by (nonlinear_arith)
                    requires
                        0 <= v,
                ;
            }
        }
    }
}

} // verus!
