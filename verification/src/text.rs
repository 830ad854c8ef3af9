//! Text helpers: building `String`s from bytes, and the UTF-8 facts they rest on.

use vstd::prelude::*;
use vstd::string::*;
use vstd::utf8::*;

verus! {

/// The characters of a byte sequence read as ASCII, one character per byte.
pub open spec fn ascii_chars(b: Seq<u8>) -> Seq<char> {
    Seq::new(b.len(), |i: int| b[i] as char)
}

/// Every byte is below 128.
pub open spec fn is_ascii_bytes(b: Seq<u8>) -> bool {
    forall|i: int| 0 <= i < b.len() ==> #[trigger] b[i] < 128
}

/// ASCII bytes are valid UTF-8 and decode to one character per byte.
pub proof fn lemma_ascii_bytes_utf8(b: Seq<u8>)
    requires
        is_ascii_bytes(b),
    ensures
        valid_utf8(b),
        decode_utf8(b) == ascii_chars(b),
        encode_utf8(ascii_chars(b)) == b,
{
    let c = ascii_chars(b);
    assert(is_ascii_chars(c)) by {
        assert forall|i: int| 0 <= i < c.len() implies '\0' <= #[trigger] c[i] <= '\u{7f}' by {
            assert(b[i] < 128);
        }
    }
    is_ascii_chars_encode_utf8(c);
    assert(encode_utf8(c) =~= b) by {
        assert forall|i: int| 0 <= i < b.len() implies encode_utf8(c)[i] == b[i] by {
            assert(c[i] as u8 == encode_utf8(c)[i]);
            assert(b[i] < 128);
        }
    }
    encode_utf8_valid_utf8(c);
    encode_utf8_decode_utf8(c);
}

/// `String::from_utf8`: the bytes become a `String` exactly when they are
/// valid UTF-8, and the string then holds the characters they encode.
#[verifier::external_body]
fn utf8_to_string(bytes: Vec<u8>) -> (res: Option<String>)
    ensures
        res is Some <==> valid_utf8(bytes@),
        res matches Some(s) ==> s@ == decode_utf8(bytes@),
{
    String::from_utf8(bytes).ok()
}

/// Builds a `String` from ASCII bytes.
pub fn ascii_to_string(bytes: Vec<u8>) -> (res: String)
    requires
        is_ascii_bytes(bytes@),
    ensures
        res@ == ascii_chars(bytes@),
{
    proof {
        lemma_ascii_bytes_utf8(bytes@);
    }
    match utf8_to_string(bytes) {
        Some(s) => s,
        None => String::new(),
    }
}

/// Whether the text is the one ASCII character `c`.
pub fn is_ascii_char_text(s: &str, c: u8) -> (r: bool)
    requires
        c < 128,
    ensures
        r == (s@ == seq![c as char]),
{
    let b = s.as_bytes();
    proof {
        let one = seq![c];
        assert(is_ascii_bytes(one));
        lemma_ascii_bytes_utf8(one);
        assert(ascii_chars(one) =~= seq![c as char]);
        encode_utf8_decode_utf8(s@);
        encode_utf8_decode_utf8(seq![c as char]);
    }
    let r = b.len() == 1 && b[0] == c;
    proof {
        if r {
            assert(b@ =~= seq![c]);
        }
    }
    r
}

/// What `String::from_utf8_lossy` makes of a byte string (each invalid
/// sequence replaced by U+FFFD).
pub uninterp spec fn utf8_lossy(bytes: Seq<u8>) -> Seq<char>;

/// The characters that `String::from_utf8_lossy` gives for `b`: the
/// decoded characters of valid UTF-8, else `utf8_lossy(b)`.
pub open spec fn lossy_chars(b: Seq<u8>) -> Seq<char> {
    if valid_utf8(b) {
        decode_utf8(b)
    } else {
        utf8_lossy(b)
    }
}

/// `String::from_utf8_lossy`: the characters of the bytes, each invalid
/// sequence replaced by U+FFFD; valid UTF-8 decodes unchanged.
#[verifier::external_body]
pub(crate) fn string_from_utf8_lossy(bytes: &[u8]) -> (res: String)
    ensures
        valid_utf8(bytes@) ==> res@ == decode_utf8(bytes@),
        !valid_utf8(bytes@) ==> res@ == utf8_lossy(bytes@),
{
    String::from_utf8_lossy(bytes).into_owned()
}

/// `std::str::from_utf8(bytes).is_ok()`: whether the bytes are valid UTF-8.
#[verifier::external_body]
pub(crate) fn is_valid_utf8(bytes: &[u8]) -> (b: bool)
    ensures
        b == valid_utf8(bytes@),
{
    std::str::from_utf8(bytes).is_ok()
}

/// A character with the Unicode `White_Space` property (what
/// `char::is_whitespace` tests).
pub open spec fn is_white_space(c: char) -> bool {
    let u = c as u32;
    ||| 0x9 <= u <= 0xd
    ||| u == 0x20
    ||| u == 0x85
    ||| u == 0xa0
    ||| u == 0x1680
    ||| 0x2000 <= u <= 0x200a
    ||| u == 0x2028
    ||| u == 0x2029
    ||| u == 0x202f
    ||| u == 0x205f
    ||| u == 0x3000
}

/// `s` without its leading white space.
pub open spec fn trim_start_chars(s: Seq<char>) -> Seq<char>
    decreases s.len(),
{
    if s.len() > 0 && is_white_space(s[0]) {
        trim_start_chars(s.drop_first())
    } else {
        s
    }
}

/// `s` without its trailing white space.
pub open spec fn trim_end_chars(s: Seq<char>) -> Seq<char>
    decreases s.len(),
{
    if s.len() > 0 && is_white_space(s.last()) {
        trim_end_chars(s.drop_last())
    } else {
        s
    }
}

/// Every character is white space.
pub open spec fn all_white_space(w: Seq<char>) -> bool {
    forall|i: int| 0 <= i < w.len() ==> is_white_space(#[trigger] w[i])
}

/// Leading white space goes whatever more of it stands before.
pub proof fn lemma_trim_start_leading(w: Seq<char>, x: Seq<char>)
    requires
        all_white_space(w),
    ensures
        trim_start_chars(w + x) == trim_start_chars(x),
    decreases w.len(),
{
    if w.len() > 0 {
        assert((w + x)[0] == w[0]);
        assert((w + x).drop_first() =~= w.drop_first() + x);
        lemma_trim_start_leading(w.drop_first(), x);
    } else {
        assert(w + x =~= x);
    }
}

/// Trailing white space goes whatever more of it stands after.
pub proof fn lemma_trim_end_trailing(y: Seq<char>, w: Seq<char>)
    requires
        all_white_space(w),
    ensures
        trim_end_chars(y + w) == trim_end_chars(y),
    decreases w.len(),
{
    if w.len() > 0 {
        assert((y + w).last() == w.last());
        assert((y + w).drop_last() =~= y + w.drop_last());
        lemma_trim_end_trailing(y, w.drop_last());
    } else {
        assert(y + w =~= y);
    }
}

proof fn lemma_trim_start_then_space(a: Seq<char>, w: Seq<char>)
    requires
        all_white_space(w),
    ensures
        trim_start_chars(a).len() > 0 ==> trim_start_chars(a + w) == trim_start_chars(a) + w,
        trim_start_chars(a).len() == 0 ==> trim_start_chars(a + w).len() == 0,
    decreases a.len(),
{
    if a.len() == 0 {
        assert(a + w =~= w);
        lemma_trim_start_leading(w, Seq::<char>::empty());
        assert(w + Seq::<char>::empty() =~= w);
    } else if is_white_space(a[0]) {
        assert((a + w)[0] == a[0]);
        assert((a + w).drop_first() =~= a.drop_first() + w);
        lemma_trim_start_then_space(a.drop_first(), w);
    } else {
        assert((a + w)[0] == a[0]);
    }
}

/// Trimming ignores white space added before and after the text.
pub proof fn lemma_trim_surrounding(w1: Seq<char>, t: Seq<char>, w2: Seq<char>)
    requires
        all_white_space(w1),
        all_white_space(w2),
    ensures
        trim_end_chars(trim_start_chars(w1 + t + w2)) == trim_end_chars(trim_start_chars(t)),
{
    assert(w1 + t + w2 =~= w1 + (t + w2));
    lemma_trim_start_leading(w1, t + w2);
    lemma_trim_start_then_space(t, w2);
    if trim_start_chars(t).len() > 0 {
        lemma_trim_end_trailing(trim_start_chars(t), w2);
    } else {
        assert(trim_start_chars(t + w2) =~= trim_start_chars(t));
    }
}

/// `str::trim`: the text without leading and trailing white space (the
/// Unicode `White_Space` property).
#[verifier::external_body]
pub(crate) fn trim_text(s: &str) -> (r: &str)
    ensures
        r@ == trim_end_chars(trim_start_chars(s@)),
{
    s.trim()
}

/// The two texts one after the other.
pub(crate) fn concat_text(a: &str, b: &str) -> (r: String)
    ensures
        r@ == a@ + b@,
{
    let mut r = a.to_owned();
    r.append(b);
    r
}

/// `String::from(c)`: the text of one character.
#[verifier::external_body]
pub(crate) fn char_text(c: char) -> (r: String)
    ensures
        r@ == seq![c],
{
    String::from(c)
}

/// The decimal digits of `n`, as ASCII bytes.
pub open spec fn decimal_digits(n: nat) -> Seq<u8>
    decreases n,
{
    if n < 10 {
        seq![(48 + n) as u8]
    } else {
        decimal_digits(n / 10).push((48 + n % 10) as u8)
    }
}

/// The decimal text of `i` (a `-` before the digits of a negative number),
/// as ASCII bytes.
pub open spec fn signed_decimal(i: int) -> Seq<u8> {
    if i < 0 {
        seq![45u8] + decimal_digits((-i) as nat)
    } else {
        decimal_digits(i as nat)
    }
}

proof fn lemma_decimal_ascii(n: nat)
    ensures
        is_ascii_bytes(decimal_digits(n)),
        decimal_digits(n).len() >= 1,
    decreases n,
{
    if n >= 10 {
        lemma_decimal_ascii(n / 10);
    }
}

fn push_decimal(out: &mut Vec<u8>, n: u64)
    ensures
        final(out)@ == old(out)@ + decimal_digits(n as nat),
    decreases n,
{
    if n >= 10 {
        push_decimal(out, n / 10);
    }
    out.push((48 + n % 10) as u8);
    assert(final(out)@ =~= old(out)@ + decimal_digits(n as nat));
}

/// The decimal text of `n` (what `n.to_string()` gives).
pub fn decimal_text(n: u64) -> (r: String)
    ensures
        r@ == ascii_chars(decimal_digits(n as nat)),
{
    let mut out: Vec<u8> = Vec::new();
    push_decimal(&mut out, n);
    assert(out@ =~= decimal_digits(n as nat));
    proof {
        lemma_decimal_ascii(n as nat);
    }
    ascii_to_string(out)
}

/// The decimal text of `i` (what `i.to_string()` gives).
pub fn signed_decimal_text(i: i64) -> (r: String)
    ensures
        r@ == ascii_chars(signed_decimal(i as int)),
{
    let mut out: Vec<u8> = Vec::new();
    if i < 0 {
        out.push(45u8);
        let a: u64 = if i == i64::MIN {
            0x8000_0000_0000_0000u64
        } else {
            (-i) as u64
        };
        push_decimal(&mut out, a);
    } else {
        push_decimal(&mut out, i as u64);
    }
    assert(out@ =~= signed_decimal(i as int));
    proof {
        lemma_decimal_ascii(if i < 0 { (-i) as nat } else { i as nat });
        assert(is_ascii_bytes(out@));
    }
    ascii_to_string(out)
}

/// The lowercase hexadecimal digit of `v` (below 16).
pub open spec fn hex_digit(v: nat) -> u8 {
    if v < 10 {
        (48 + v) as u8
    } else {
        (87 + v) as u8
    }
}

/// `format!("{:#04x}", b)`: `0x` and two lowercase hexadecimal digits.
pub open spec fn hex_byte(b: u8) -> Seq<u8> {
    seq![48u8, 120u8, hex_digit(b as nat / 16), hex_digit(b as nat % 16)]
}

fn hex_digit_exec(v: u8) -> (r: u8)
    requires
        v < 16,
    ensures
        r == hex_digit(v as nat),
        r < 128,
{
    if v < 10 {
        48 + v
    } else {
        87 + v
    }
}

/// The text `0x` and two lowercase hexadecimal digits of `b`.
pub fn hex_byte_text(b: u8) -> (r: String)
    ensures
        r@ == ascii_chars(hex_byte(b)),
{
    let mut out: Vec<u8> = Vec::new();
    out.push(48u8);
    out.push(120u8);
    out.push(hex_digit_exec(b / 16));
    out.push(hex_digit_exec(b % 16));
    assert(out@ =~= hex_byte(b));
    ascii_to_string(out)
}

/// The value of ASCII decimal digits.
pub open spec fn digits_value(d: Seq<u8>) -> nat
    decreases d.len(),
{
    if d.len() == 0 {
        0
    } else {
        digits_value(d.drop_last()) * 10 + (d.last() - 48) as nat
    }
}

/// What `from_str` of an integer type with range `min..=max` gives for the
/// bytes `b`: an optional `+` (or `-` for a signed type), at least one
/// digit and nothing else, with a value in range.
pub open spec fn parse_int_spec(b: Seq<u8>, signed: bool, min: int, max: int) -> Option<int> {
    let neg = signed && b.len() > 0 && b[0] == 45;
    let d = if neg || (b.len() > 0 && b[0] == 43) {
        b.skip(1)
    } else {
        b
    };
    if d.len() == 0 || !crate::floattext::all_digits(d) {
        None
    } else {
        let v: int = if neg {
            -(digits_value(d) as int)
        } else {
            digits_value(d) as int
        };
        if min <= v <= max {
            Some(v)
        } else {
            None
        }
    }
}

proof fn lemma_digits_value_monotone(d: Seq<u8>, k: int)
    requires
        0 <= k <= d.len(),
        crate::floattext::all_digits(d),
    ensures
        digits_value(d.take(k)) <= digits_value(d),
    decreases d.len() - k,
{
    if k < d.len() {
        lemma_digits_value_monotone(d, k + 1);
        assert(d.take(k + 1).drop_last() =~= d.take(k));
        assert(crate::floattext::is_digit(d[k]));
    } else {
        assert(d.take(k) =~= d);
    }
}

/// Parses an integer the way `from_str` does for a type with range
/// `min..=max`.
#[verifier::loop_isolation(false)]
pub fn parse_int(b: &[u8], signed: bool, min: i128, max: i128) -> (r: Option<i128>)
    requires
        -0x1_0000_0000_0000_0000i128 <= min <= max <= 0x1_0000_0000_0000_0000i128,
    ensures
        match parse_int_spec(b@, signed, min as int, max as int) {
            Some(v) => r == Some(v as i128),
            None => r is None,
        },
{
    let neg = signed && b.len() > 0 && b[0] == 45;
    let start: usize = if neg || (b.len() > 0 && b[0] == 43) {
        1
    } else {
        0
    };
    let ghost d = b@.skip(start as int);
    assert(start == 0 ==> d =~= b@);
    if start >= b.len() {
        return None;
    }
    let cap: u128 = 0x10_0000_0000_0000_0000u128;
    let mut v: u128 = 0;
    let mut i = start;
    assert(d.take(0) =~= Seq::<u8>::empty());
    while i < b.len()
        invariant
            start <= i <= b@.len(),
            d == b@.skip(start as int),
            crate::floattext::all_digits(d.take(i - start)),
            v == (if digits_value(d.take(i - start)) < cap { digits_value(d.take(i - start)) } else { cap as nat }),
        decreases b.len() - i,
    {
        let c = b[i];
        if !(48 <= c && c <= 57) {
            assert(!crate::floattext::all_digits(d)) by {
                assert(d[i - start] == c);
            }
            return None;
        }
        let ghost t = d.take(i + 1 - start);
        assert(t.drop_last() =~= d.take(i - start));
        assert(t.last() == c);
        if v >= cap {
            v = cap;
        } else {
            assert(v < cap);
            let nv = v * 10 + (c - 48) as u128;
            v = if nv >= cap {
                cap
            } else {
                nv
            };
        }
        assert(crate::floattext::all_digits(t)) by {
            assert forall|k: int| 0 <= k < t.len() implies crate::floattext::is_digit(#[trigger] t[k]) by {
                if k < t.len() - 1 {
                    assert(t[k] == d.take(i - start)[k]);
                }
            }
        }
        i += 1;
    }
    assert(d.take(i - start) =~= d);
    assert(crate::floattext::all_digits(d));
    assert(v == (if digits_value(d) < cap {
        digits_value(d)
    } else {
        cap as nat
    }));
    if v >= cap {
        assert(digits_value(d) >= cap);
        return None;
    }
    assert(v == digits_value(d));
    let value: i128 = if neg {
        -(v as i128)
    } else {
        v as i128
    };
    if min <= value && value <= max {
        Some(value)
    } else {
        None
    }
}

} // verus!
