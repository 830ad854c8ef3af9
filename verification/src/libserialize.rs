//! The LibSerialize binary format.
//!
//! A serialized value is a version byte followed by the value. Each value
//! starts with a type byte:
//! - `b & 1 == 1`: a small integer `(b - 1) / 2` (0 to 127);
//! - `b & 3 == 2`: an embedded string, table, array or mixed table whose
//!   count (0 to 15) is `b >> 4` and whose kind is `(b >> 2) & 3`;
//! - `b & 7 == 4`: a 12-bit integer, sign in bit 3, low four bits in the high
//!   nibble of `b`, high eight bits in the next byte;
//! - `b & 7 == 0`: a reader index `b >> 3` that says how the rest is read.
//!
//! Multi-byte counts and integers are BIG-ENDIAN. String and table
//! references are 1-based.

use crate::number::{
    clamp_i64,
    float_integer_clamped,
    float_integral_value,
    i64_double_value,
    i64_through_double,
};
use crate::types::{lemma_model_list, lemma_model_pairs, model_list, model_pairs, LuaModel, LuaValue};
use vstd::arithmetic::power2::{lemma2_to64, lemma2_to64_rest, lemma_pow2_adds, pow2};
use vstd::prelude::*;
use vstd::string::*;
use vstd::utf8::encode_utf8;
use crate::text::{ascii_chars, concat_text, decimal_digits, decimal_text, hex_byte, hex_byte_text};

verus! {

/// Errors of deserialization.
#[derive(Debug, Clone, Copy, PartialEq, Eq, Structural)]
pub enum SerializeError {
    /// A type byte that no rule reads.
    InvalidTypeByte(u8),
    /// The input ended inside a value.
    UnexpectedEnd,
    /// A float written as text whose bytes are not UTF-8.
    InvalidString,
    /// A table reference to no table read so far.
    InvalidTableRef(usize),
    /// A string reference to no string read so far.
    InvalidStringRef(usize),
    /// A float written as text that is not a float.
    UnsupportedFloat,
    /// A version byte above 2.
    InvalidVersion(u8),
}

impl SerializeError {
    /// The text of the error.
    pub open spec fn message_spec(&self) -> Seq<char> {
        match self {
            SerializeError::InvalidTypeByte(b) => "Invalid type byte: "@ + ascii_chars(hex_byte(*b)),
            SerializeError::UnexpectedEnd => "Unexpected end of input"@,
            SerializeError::InvalidString => "Invalid string encoding"@,
            SerializeError::InvalidTableRef(n) => "Invalid table reference: "@ + ascii_chars(
                decimal_digits(*n as nat),
            ),
            SerializeError::InvalidStringRef(n) => "Invalid string reference: "@ + ascii_chars(
                decimal_digits(*n as nat),
            ),
            SerializeError::UnsupportedFloat => "Unsupported float value"@,
            SerializeError::InvalidVersion(v) => "Invalid serialization version: "@ + ascii_chars(
                decimal_digits(*v as nat),
            ),
        }
    }

    /// The text of the error.
    pub fn message(&self) -> (r: String)
        ensures
            r@ == self.message_spec(),
    {
        match self {
            SerializeError::InvalidTypeByte(b) => {
                let t = hex_byte_text(*b);
                concat_text("Invalid type byte: ", t.as_str())
            },
            SerializeError::UnexpectedEnd => "Unexpected end of input".to_owned(),
            SerializeError::InvalidString => "Invalid string encoding".to_owned(),
            SerializeError::InvalidTableRef(n) => {
                let t = decimal_text(*n as u64);
                concat_text("Invalid table reference: ", t.as_str())
            },
            SerializeError::InvalidStringRef(n) => {
                let t = decimal_text(*n as u64);
                concat_text("Invalid string reference: ", t.as_str())
            },
            SerializeError::UnsupportedFloat => "Unsupported float value".to_owned(),
            SerializeError::InvalidVersion(v) => {
                let t = decimal_text(*v as u64);
                concat_text("Invalid serialization version: ", t.as_str())
            },
        }
    }
}

// ---------------------------------------------------------------------
// The format, as functions on the value model
// ---------------------------------------------------------------------

/// `val` as `count` big-endian bytes (higher bytes than `count` dropped).
pub open spec fn be_bytes(val: nat, count: nat) -> Seq<u8>
    decreases count,
{
    if count == 0 {
        seq![]
    } else {
        be_bytes(val / 256, (count - 1) as nat).push((val % 256) as u8)
    }
}

/// The big-endian value of `bytes`.
pub open spec fn be_value(bytes: Seq<u8>) -> nat
    decreases bytes.len(),
{
    if bytes.len() == 0 {
        0
    } else {
        be_value(bytes.drop_last()) * 256 + bytes.last() as nat
    }
}

/// Bytes needed for a count or a reference: 1, 2 or 3.
pub open spec fn count_width(n: nat) -> nat {
    if n <= 0xff {
        1
    } else if n <= 0xffff {
        2
    } else {
        3
    }
}

/// Bytes used for the magnitude of an integer of 4096 and above: 2, 3, 4 or 7.
pub open spec fn int_width(abs: nat) -> nat {
    if abs <= 0xffff {
        2
    } else if abs <= 0xff_ffff {
        3
    } else if abs <= 0xffff_ffff {
        4
    } else {
        7
    }
}

/// The reader index for an integer of width `w` (`NUM_16_POS` to `NUM_64_NEG`).
pub open spec fn int_reader(negative: bool, w: nat) -> nat {
    if !negative {
        if w == 2 {
            1
        } else if w == 3 {
            3
        } else if w == 4 {
            5
        } else {
            7
        }
    } else {
        if w == 2 {
            2
        } else if w == 3 {
            4
        } else if w == 4 {
            6
        } else {
            8
        }
    }
}

/// The bytes of the integer `j`.
pub open spec fn integer_bytes(j: i64) -> Seq<u8> {
    if 0 <= j <= 127 {
        seq![(j * 2 + 1) as u8]
    } else {
        let abs: nat = if j < 0 {
            (-j) as nat
        } else {
            j as nat
        };
        let sign: int = if j < 0 {
            1
        } else {
            0
        };
        if abs <= 4095 {
            seq![((abs % 16) * 16 + sign * 8 + 4) as u8, (abs / 16) as u8]
        } else {
            let w = int_width(abs);
            seq![(8 * int_reader(j < 0, w)) as u8] + be_bytes(abs, w)
        }
    }
}

/// The bytes of `Int(i)`: the integer is first converted to binary64, as
/// every Lua number is, then written as that number.
pub open spec fn int_value_bytes(i: i64) -> Seq<u8> {
    integer_bytes(clamp_i64(i64_double_value(i)))
}

/// The bytes of `Float(bits)`: an integral float is written as an integer,
/// any other float as reader `NUM_FLOAT` and its eight big-endian bytes.
pub open spec fn float_value_bytes(bits: u64) -> Seq<u8> {
    match float_integral_value(bits) {
        Some(v) => integer_bytes(clamp_i64(v)),
        None => seq![72u8] + be_bytes(bits as nat, 8),
    }
}

/// The header of a string, table or array of `n` elements: embedded when
/// `n <= 15`, else the reader `reader8 + width - 1` and the count.
pub open spec fn count_header(n: nat, embedded: nat, reader8: nat) -> Seq<u8> {
    if n <= 15 {
        seq![(n * 16 + embedded * 4 + 2) as u8]
    } else {
        let w = count_width(n);
        seq![(8 * (reader8 + w - 1)) as u8] + be_bytes(n, w)
    }
}

/// The index of the first occurrence of `s` in `refs` at or after `i`.
pub open spec fn find_from(refs: Seq<Seq<char>>, s: Seq<char>, i: int) -> Option<int>
    decreases refs.len() - i,
{
    if i < 0 || i >= refs.len() {
        None
    } else if refs[i] == s {
        Some(i)
    } else {
        find_from(refs, s, i + 1)
    }
}

/// The bytes of a string and the string table after it. A string of more
/// than two bytes that was written before is written as a reference to its
/// first writing; one written for the first time joins the table.
pub open spec fn ser_string(s: Seq<char>, refs: Seq<Seq<char>>) -> (Seq<u8>, Seq<Seq<char>>) {
    let b = encode_utf8(s);
    if b.len() > 2 {
        match find_from(refs, s, 0) {
            Some(k) => {
                let r = (k + 1) as nat;
                let w = count_width(r);
                (seq![(8 * (26 + w - 1)) as u8] + be_bytes(r, w), refs)
            },
            None => (count_header(b.len(), 0, 14) + b, refs.push(s)),
        }
    } else {
        (count_header(b.len(), 0, 14) + b, refs)
    }
}

/// The bytes of a value and the string table after it.
pub open spec fn ser_value(m: LuaModel, refs: Seq<Seq<char>>) -> (Seq<u8>, Seq<Seq<char>>)
    decreases m,
{
    match m {
        LuaModel::Nil => (seq![0u8], refs),
        LuaModel::Bool(b) => (
            if b {
                seq![96u8]
            } else {
                seq![104u8]
            },
            refs,
        ),
        LuaModel::Int(i) => (int_value_bytes(i), refs),
        LuaModel::Float(f) => (float_value_bytes(f), refs),
        LuaModel::Str(s) => ser_string(s, refs),
        LuaModel::Array(items) => {
            let (b, r) = ser_items(items, refs);
            (count_header(items.len(), 2, 20) + b, r)
        },
        LuaModel::Table(pairs) => {
            let (b, r) = ser_pairs(pairs, refs);
            (count_header(pairs.len(), 1, 17) + b, r)
        },
    }
}

/// The bytes of values written one after the other.
pub open spec fn ser_items(items: Seq<LuaModel>, refs: Seq<Seq<char>>) -> (Seq<u8>, Seq<Seq<char>>)
    decreases items,
{
    if items.len() == 0 {
        (seq![], refs)
    } else {
        let (b1, r1) = ser_value(items[0], refs);
        let (b2, r2) = ser_items(items.drop_first(), r1);
        (b1 + b2, r2)
    }
}

/// The bytes of key-value pairs written one after the other, key first.
pub open spec fn ser_pairs(pairs: Seq<(LuaModel, LuaModel)>, refs: Seq<Seq<char>>) -> (
    Seq<u8>,
    Seq<Seq<char>>,
)
    decreases pairs,
{
    if pairs.len() == 0 {
        (seq![], refs)
    } else {
        let (b1, r1) = ser_value(pairs[0].0, refs);
        let (b2, r2) = ser_value(pairs[0].1, r1);
        let (b3, r3) = ser_pairs(pairs.drop_first(), r2);
        (b1 + b2 + b3, r3)
    }
}

/// What `serialize` returns for a value with model `m`.
pub open spec fn serialize_spec(m: LuaModel) -> Seq<u8> {
    seq![1u8] + ser_value(m, seq![]).0
}

proof fn lemma_find_from_none(refs: Seq<Seq<char>>, s: Seq<char>, i: int)
    requires
        0 <= i,
        find_from(refs, s, i) is None,
    ensures
        forall|k: int| i <= k < refs.len() ==> refs[k] != s,
    decreases refs.len() - i,
{
    if i < refs.len() {
        lemma_find_from_none(refs, s, i + 1);
    }
}

/// Serialization adds a string to its table only when the table does not
/// hold it yet: a table without repeats stays without repeats.
pub proof fn lemma_string_table_distinct(m: LuaModel, refs: Seq<Seq<char>>)
    requires
        refs.no_duplicates(),
    ensures
        ser_value(m, refs).1.no_duplicates(),
    decreases m,
{
    match m {
        LuaModel::Str(s) => {
            if encode_utf8(s).len() > 2 && find_from(refs, s, 0) is None {
                lemma_find_from_none(refs, s, 0);
                let r = refs.push(s);
                assert forall|a: int, b: int| 0 <= a < r.len() && 0 <= b < r.len() && a != b implies r[a]
                    != r[b] by {
                    if a < refs.len() && b < refs.len() {
                        assert(r[a] == refs[a] && r[b] == refs[b]);
                    } else if a < refs.len() {
                        assert(r[a] == refs[a]);
                    } else if b < refs.len() {
                        assert(r[b] == refs[b]);
                    }
                }
            }
        },
        LuaModel::Array(items) => lemma_string_table_distinct_items(items, refs),
        LuaModel::Table(ps) => lemma_string_table_distinct_pairs(ps, refs),
        _ => {},
    }
}

/// `lemma_string_table_distinct` for values written one after the other.
pub proof fn lemma_string_table_distinct_items(items: Seq<LuaModel>, refs: Seq<Seq<char>>)
    requires
        refs.no_duplicates(),
    ensures
        ser_items(items, refs).1.no_duplicates(),
    decreases items,
{
    if items.len() > 0 {
        lemma_string_table_distinct(items[0], refs);
        lemma_string_table_distinct_items(items.drop_first(), ser_value(items[0], refs).1);
    }
}

/// `lemma_string_table_distinct` for key-value pairs written one after the
/// other.
pub proof fn lemma_string_table_distinct_pairs(ps: Seq<(LuaModel, LuaModel)>, refs: Seq<Seq<char>>)
    requires
        refs.no_duplicates(),
    ensures
        ser_pairs(ps, refs).1.no_duplicates(),
    decreases ps,
{
    if ps.len() > 0 {
        let r1 = ser_value(ps[0].0, refs).1;
        let r2 = ser_value(ps[0].1, r1).1;
        lemma_string_table_distinct(ps[0].0, refs);
        lemma_string_table_distinct(ps[0].1, r1);
        lemma_string_table_distinct_pairs(ps.drop_first(), r2);
    }
}

// ---------------------------------------------------------------------
// Serializer
// ---------------------------------------------------------------------

/// The characters of each string.
pub open spec fn strings_view(v: Seq<String>) -> Seq<Seq<char>> {
    Seq::new(v.len(), |i: int| v[i]@)
}

/// Serializer state: the bytes written so far and the strings that later
/// writings refer to.
pub struct Serializer {
    output: Vec<u8>,
    string_refs: Vec<String>,
    table_count: usize,
}

fn append_bytes(out: &mut Vec<u8>, b: &[u8])
    ensures
        final(out)@ == old(out)@ + b@,
{
    let mut i: usize = 0;
    while i < b.len()
        invariant
            i <= b@.len(),
            out@ == old(out)@ + b@.take(i as int),
        decreases b.len() - i,
    {
        out.push(b[i]);
        i += 1;
        assert(out@ =~= old(out)@ + b@.take(i as int));
    }
    assert(b@.take(b@.len() as int) =~= b@);
}

impl Serializer {
    /// The bytes written so far.
    pub closed spec fn written(&self) -> Seq<u8> {
        self.output@
    }

    /// The strings that later writings refer to, in the order they were added.
    pub closed spec fn string_table(&self) -> Seq<Seq<char>> {
        strings_view(self.string_refs@)
    }

    /// A serializer with nothing written.
    pub fn new() -> (s: Self)
        ensures
            s.written() == Seq::<u8>::empty(),
            s.string_table() == Seq::<Seq<char>>::empty(),
    {
        let s = Self { output: Vec::new(), string_refs: Vec::new(), table_count: 0 };
        assert(s.string_table() =~= Seq::<Seq<char>>::empty());
        s
    }

    /// Writes the version byte and the value, and returns all bytes written.
    pub fn serialize(self, value: &LuaValue) -> (res: Vec<u8>)
        ensures
            res@ == self.written() + seq![1u8] + ser_value(value.model(), self.string_table()).0,
    {
        let mut this = self;
        this.output.push(1u8);
        this.write_value(value);
        this.output
    }

    fn write_byte(&mut self, b: u8)
        ensures
            final(self).written() == old(self).written().push(b),
            final(self).string_table() == old(self).string_table(),
    {
        self.output.push(b);
    }

    /// Writes the low `count` bytes of `val`, highest first.
    fn write_int_bytes(&mut self, val: u64, count: usize)
        ensures
            final(self).written() == old(self).written() + be_bytes(val as nat, count as nat),
            final(self).string_table() == old(self).string_table(),
        decreases count,
    {
        if count > 0 {
            assert(val >> 8u64 == val / 256) by (bit_vector);
            assert(val & 0xff == val % 256) by (bit_vector);
            self.write_int_bytes(val >> 8u64, count - 1);
            self.output.push((val & 0xff) as u8);
            assert(self.written() =~= old(self).written() + be_bytes(val as nat, count as nat));
        }
    }

    /// Writes a count or a reference with the header for `reader8` (the
    /// 1-byte reader) or the embedded header.
    fn write_count_header(&mut self, n: usize, embedded: u8, reader8: u8)
        requires
            embedded <= 2,
            reader8 <= 26,
        ensures
            final(self).written() == old(self).written() + count_header(
                n as nat,
                embedded as nat,
                reader8 as nat,
            ),
            final(self).string_table() == old(self).string_table(),
    {
        if n <= 15 {
            self.write_byte((n as u8) * 16 + embedded * 4 + 2);
            assert(self.written() =~= old(self).written() + count_header(
                n as nat,
                embedded as nat,
                reader8 as nat,
            ));
        } else {
            let required: u8 = if n <= 0xff {
                1
            } else if n <= 0xffff {
                2
            } else {
                3
            };
            self.write_byte(8 * (reader8 + required - 1));
            self.write_int_bytes(n as u64, required as usize);
            assert(self.written() =~= old(self).written() + count_header(
                n as nat,
                embedded as nat,
                reader8 as nat,
            ));
        }
    }

    /// Writes an integer that is known to be the value of a Lua number.
    fn write_integer(&mut self, j: i64)
        ensures
            final(self).written() == old(self).written() + integer_bytes(j),
            final(self).string_table() == old(self).string_table(),
    {
        if 0 <= j && j <= 127 {
            self.write_byte((j as u8) * 2 + 1);
            assert(self.written() =~= old(self).written() + integer_bytes(j));
            return ;
        }
        let abs: u64 = if j < 0 {
            if j == i64::MIN {
                0x8000_0000_0000_0000u64
            } else {
                (-j) as u64
            }
        } else {
            j as u64
        };
        let sign: u8 = if j < 0 {
            1
        } else {
            0
        };
        if abs <= 4095 {
            let lower = ((abs as u8) << 4u8) | (sign << 3u8) | 0x04;
            let upper = (abs >> 4u64) as u8;
            assert(lower == ((abs % 16) * 16 + sign * 8 + 4) as u8) by (bit_vector)
                requires
                    lower == ((abs as u8) << 4u8) | (sign << 3u8) | 0x04,
                    sign <= 1,
                    abs <= 4095,
            ;
            assert(upper == abs / 16) by (bit_vector)
                requires
                    upper == (abs >> 4u64) as u8,
                    abs <= 4095,
            ;
            self.write_byte(lower);
            self.write_byte(upper);
            assert(self.written() =~= old(self).written() + integer_bytes(j));
            return ;
        }
        let required: usize = if abs <= 0xffff {
            2
        } else if abs <= 0xff_ffff {
            3
        } else if abs <= 0xffff_ffff {
            4
        } else {
            7
        };
        let reader_idx: u8 = if j >= 0 {
            if required == 2 {
                1
            } else if required == 3 {
                3
            } else if required == 4 {
                5
            } else {
                7
            }
        } else {
            if required == 2 {
                2
            } else if required == 3 {
                4
            } else if required == 4 {
                6
            } else {
                8
            }
        };
        self.write_byte(8 * reader_idx);
        self.write_int_bytes(abs, required);
        assert(self.written() =~= old(self).written() + integer_bytes(j));
    }

    fn write_float(&mut self, bits: u64)
        ensures
            final(self).written() == old(self).written() + float_value_bytes(bits),
            final(self).string_table() == old(self).string_table(),
    {
        match float_integer_clamped(bits) {
            Some(j) => self.write_integer(j),
            None => {
                self.write_byte(72);
                self.write_int_bytes(bits, 8);
                assert(self.written() =~= old(self).written() + float_value_bytes(bits));
            },
        }
    }

    fn write_string(&mut self, s: &str)
        ensures
            final(self).written() == old(self).written() + ser_string(s@, old(self).string_table()).0,
            final(self).string_table() == ser_string(s@, old(self).string_table()).1,
    {
        let bytes = s.as_bytes();
        let len = bytes.len();
        assert(bytes@ == encode_utf8(s@));
        let ghost refs = self.string_table();
        if len > 2 {
            let owned = s.to_owned();
            let mut k: usize = 0;
            while k < self.string_refs.len()
                invariant
                    self.string_table() == refs,
                    refs == old(self).string_table(),
                    self.written() == old(self).written(),
                    k <= self.string_refs@.len(),
                    owned@ == s@,
                    len as int == encode_utf8(s@).len(),
                    len > 2,
                    bytes@ == encode_utf8(s@),
                    find_from(refs, s@, 0) == find_from(refs, s@, k as int),
                decreases self.string_refs@.len() - k,
            {
                assert(refs[k as int] == self.string_refs@[k as int]@);
                if self.string_refs[k] == owned {
                    let ref_1based = k + 1;
                    let required: u8 = if ref_1based <= 0xff {
                        1
                    } else if ref_1based <= 0xffff {
                        2
                    } else {
                        3
                    };
                    self.write_byte(8 * (26 + required - 1));
                    self.write_int_bytes(ref_1based as u64, required as usize);
                    assert(self.written() =~= old(self).written() + ser_string(s@, refs).0);
                    return ;
                }
                k += 1;
            }
            self.string_refs.push(owned);
            assert(self.string_table() =~= refs.push(s@));
        }
        self.write_count_header(len, 0, 14);
        append_bytes(&mut self.output, bytes);
        assert(self.written() =~= old(self).written() + ser_string(s@, refs).0);
    }

    fn write_value(&mut self, value: &LuaValue)
        ensures
            final(self).written() == old(self).written() + ser_value(
                value.model(),
                old(self).string_table(),
            ).0,
            final(self).string_table() == ser_value(value.model(), old(self).string_table()).1,
        decreases value,
    {
        match value {
            LuaValue::Nil => {
                self.write_byte(0);
            },
            LuaValue::Bool(b) => {
                if *b {
                    self.write_byte(96);
                } else {
                    self.write_byte(104);
                }
            },
            LuaValue::Int(i) => {
                let j = i64_through_double(*i);
                self.write_integer(j);
            },
            LuaValue::Float(f) => {
                self.write_float(*f);
            },
            LuaValue::String(s) => {
                self.write_string(s.as_str());
            },
            LuaValue::Array(arr) => {
                self.write_array(arr);
            },
            LuaValue::Table(pairs) => {
                self.write_table(pairs);
            },
        }
    }

    /// Writes an array: its header, then its items.
    fn write_array(&mut self, arr: &Vec<LuaValue>)
        ensures
            final(self).written() == old(self).written() + ser_value(
                LuaModel::Array(model_list(arr@)),
                old(self).string_table(),
            ).0,
            final(self).string_table() == ser_value(
                LuaModel::Array(model_list(arr@)),
                old(self).string_table(),
            ).1,
        decreases arr,
    {
        let ghost refs0 = self.string_table();
        let ghost out0 = self.written();
        let ghost items = model_list(arr@);
        proof {
            lemma_model_list(arr@);
        }
        self.table_count = self.table_count.wrapping_add(1);
        self.write_count_header(arr.len(), 2, 20);
        let ghost out1 = self.written();
        let ghost mut done: Seq<u8> = seq![];
        let mut i: usize = 0;
        assert(items.skip(0) =~= items);
        while i < arr.len()
            invariant
                i <= arr@.len(),
                items == model_list(arr@),
                items.len() == arr@.len(),
                forall|k: int| 0 <= k < arr@.len() ==> #[trigger] items[k] == arr@[k].model(),
                self.written() == out1 + done,
                ser_items(items, refs0) == (
                    done + ser_items(items.skip(i as int), self.string_table()).0,
                    ser_items(items.skip(i as int), self.string_table()).1,
                ),
            decreases arr@.len() - i,
        {
            proof {
                assert(decreases_to!(arr@ => arr@[i as int]));
                assert(decreases_to!(*arr => arr@));
            }
            let ghost rest = items.skip(i as int);
            let ghost w_i = self.written();
            assert(rest.drop_first() =~= items.skip(i + 1));
            assert(rest[0] == arr@[i as int].model());
            self.write_value(&arr[i]);
            proof {
                let b = self.written().subrange(w_i.len() as int, self.written().len() as int);
                assert(self.written() =~= w_i + b);
                done = done + b;
                assert(self.written() =~= out1 + done);
            }
            i += 1;
        }
        assert(items.skip(arr@.len() as int) =~= Seq::<LuaModel>::empty());
        assert(done + Seq::<u8>::empty() =~= done);
        assert(self.written() =~= out0 + ser_value(LuaModel::Array(model_list(arr@)), refs0).0);
    }

    /// Writes a table: its header, then each key and value.
    fn write_table(&mut self, pairs: &Vec<(LuaValue, LuaValue)>)
        ensures
            final(self).written() == old(self).written() + ser_value(
                LuaModel::Table(model_pairs(pairs@)),
                old(self).string_table(),
            ).0,
            final(self).string_table() == ser_value(
                LuaModel::Table(model_pairs(pairs@)),
                old(self).string_table(),
            ).1,
        decreases pairs,
    {
        let ghost refs0 = self.string_table();
        let ghost out0 = self.written();
        let ghost ps = model_pairs(pairs@);
        proof {
            lemma_model_pairs(pairs@);
        }
        self.table_count = self.table_count.wrapping_add(1);
        self.write_count_header(pairs.len(), 1, 17);
        let ghost out1 = self.written();
        let ghost mut done: Seq<u8> = seq![];
        let mut i: usize = 0;
        assert(ps.skip(0) =~= ps);
        while i < pairs.len()
            invariant
                i <= pairs@.len(),
                ps == model_pairs(pairs@),
                ps.len() == pairs@.len(),
                forall|k: int|
                    0 <= k < pairs@.len() ==> #[trigger] ps[k] == (
                        pairs@[k].0.model(),
                        pairs@[k].1.model(),
                    ),
                self.written() == out1 + done,
                ser_pairs(ps, refs0) == (
                    done + ser_pairs(ps.skip(i as int), self.string_table()).0,
                    ser_pairs(ps.skip(i as int), self.string_table()).1,
                ),
            decreases pairs@.len() - i,
        {
            let pair = &pairs[i];
            proof {
                assert(decreases_to!(pairs@ => pairs@[i as int]));
                assert(decreases_to!(pairs@[i as int] => pairs@[i as int].0));
                assert(decreases_to!(pairs@[i as int] => pairs@[i as int].1));
                assert(decreases_to!(*pairs => pairs@));
            }
            let ghost rest = ps.skip(i as int);
            let ghost w_i = self.written();
            assert(rest.drop_first() =~= ps.skip(i + 1));
            assert(rest[0] == ps[i as int]);
            self.write_value(&pair.0);
            self.write_value(&pair.1);
            proof {
                let b = self.written().subrange(w_i.len() as int, self.written().len() as int);
                assert(self.written() =~= w_i + b);
                done = done + b;
                assert(self.written() =~= out1 + done);
            }
            i += 1;
        }
        assert(ps.skip(pairs@.len() as int) =~= Seq::<(LuaModel, LuaModel)>::empty());
        assert(done + Seq::<u8>::empty() =~= done);
        assert(self.written() =~= out0 + ser_value(LuaModel::Table(model_pairs(pairs@)), refs0).0);
    }
}

/// Serializes a value: the version byte, then the value.
pub fn serialize(value: &LuaValue) -> (res: Vec<u8>)
    ensures
        res@ == serialize_spec(value.model()),
{
    let s = Serializer::new();
    let r = s.serialize(value);
    assert(r@ =~= serialize_spec(value.model()));
    r
}

// ---------------------------------------------------------------------
// Deserialization, as functions on the input bytes
// ---------------------------------------------------------------------

/// Where reading stands: the position, the strings of more than two bytes
/// and the tables read so far (what references point at), and the floats
/// written as text read so far.
pub struct ParseState {
    pub pos: int,
    pub strings: Seq<Seq<char>>,
    pub tables: Seq<LuaModel>,
    pub float_texts: Seq<Seq<u8>>,
}

/// The state before anything is read, at position `pos`.
pub open spec fn start_state(pos: int) -> ParseState {
    ParseState { pos, strings: seq![], tables: seq![], float_texts: seq![] }
}

/// `st` moved on by `n` bytes.
pub open spec fn advance(st: ParseState, n: int) -> ParseState {
    ParseState { pos: st.pos + n, strings: st.strings, tables: st.tables, float_texts: st.float_texts }
}

/// `st` with `t` added to the tables read.
pub open spec fn with_table(st: ParseState, t: LuaModel) -> ParseState {
    ParseState { pos: st.pos, strings: st.strings, tables: st.tables.push(t), float_texts: st.float_texts }
}

/// The next `n` bytes.
pub open spec fn take(data: Seq<u8>, st: ParseState, n: int) -> Result<(Seq<u8>, ParseState), SerializeError> {
    if 0 <= st.pos && 0 <= n && st.pos + n <= data.len() {
        Ok((data.subrange(st.pos, st.pos + n), advance(st, n)))
    } else {
        Err(SerializeError::UnexpectedEnd)
    }
}

/// The next `n` bytes as a big-endian number.
pub open spec fn take_int(data: Seq<u8>, st: ParseState, n: int) -> Result<(nat, ParseState), SerializeError> {
    match take(data, st, n) {
        Ok((b, st2)) => Ok((be_value(b), st2)),
        Err(e) => Err(e),
    }
}

/// The value given for the `k`-th float written as text (0 when none is given).
pub open spec fn float_value_at(fl: Seq<u64>, k: int) -> u64 {
    if 0 <= k < fl.len() {
        fl[k]
    } else {
        0
    }
}

/// `bits` with the sign flipped (the negation of a binary64 value).
pub open spec fn negated_bits(bits: u64) -> u64 {
    bits ^ 0x8000_0000_0000_0000u64
}

/// The count width of the readers that come in threes (1, 2, 3 bytes).
pub open spec fn reader_width(idx: u8) -> int {
    ((idx - 14) % 3) as int + 1
}

/// A string of `len` bytes.
pub open spec fn parse_string(data: Seq<u8>, st: ParseState, len: int) -> Result<(LuaModel, ParseState), SerializeError> {
    match take(data, st, len) {
        Ok((b, st2)) => {
            let s = crate::text::lossy_chars(b);
            let st3 = if len > 2 {
                ParseState { pos: st2.pos, strings: st2.strings.push(s), tables: st2.tables, float_texts: st2.float_texts }
            } else {
                st2
            };
            Ok((LuaModel::Str(s), st3))
        },
        Err(e) => Err(e),
    }
}

/// A float written as text: a length byte and the text.
pub open spec fn parse_float_text(data: Seq<u8>, fl: Seq<u64>, st: ParseState, negative: bool) -> Result<(LuaModel, ParseState), SerializeError> {
    match take(data, st, 1) {
        Err(e) => Err(e),
        Ok((lb, st2)) => match take(data, st2, lb[0] as int) {
            Err(e) => Err(e),
            Ok((t, st3)) => if !vstd::utf8::valid_utf8(t) {
                Err(SerializeError::InvalidString)
            } else if !crate::floattext::float_syntax(t) {
                Err(SerializeError::UnsupportedFloat)
            } else {
                let bits = float_value_at(fl, st3.float_texts.len() as int);
                Ok((
                    LuaModel::Float(if negative { negated_bits(bits) } else { bits }),
                    ParseState { pos: st3.pos, strings: st3.strings, tables: st3.tables, float_texts: st3.float_texts.push(t) },
                ))
            },
        },
    }
}

/// A reference (1-based; 0 reads as 1) into the strings or tables read so far.
pub open spec fn parse_ref(data: Seq<u8>, st: ParseState, w: int, tables: bool) -> Result<(LuaModel, ParseState), SerializeError> {
    match take_int(data, st, w) {
        Err(e) => Err(e),
        Ok((idx, st2)) => {
            let idx0: int = if idx == 0 { 0 } else { idx - 1 };
            if tables {
                if idx0 < st2.tables.len() {
                    Ok((st2.tables[idx0], st2))
                } else {
                    Err(SerializeError::InvalidTableRef(idx as usize))
                }
            } else {
                if idx0 < st2.strings.len() {
                    Ok((LuaModel::Str(st2.strings[idx0]), st2))
                } else {
                    Err(SerializeError::InvalidStringRef(idx as usize))
                }
            }
        },
    }
}

/// One value.
pub open spec fn parse_value(data: Seq<u8>, fl: Seq<u64>, st: ParseState) -> Result<(LuaModel, ParseState), SerializeError>
    decreases data.len() - st.pos, 0nat,
{
    if st.pos < 0 || st.pos >= data.len() {
        Err(SerializeError::UnexpectedEnd)
    } else {
        let b = data[st.pos];
        let st1 = advance(st, 1);
        if b & 1 == 1 {
            Ok((LuaModel::Int(((b - 1) / 2) as i64), st1))
        } else if b & 3 == 2 {
            let count = b >> 4u8;
            let t = (b >> 2u8) & 3;
            if t == 0 {
                parse_string(data, st1, count as int)
            } else if t == 1 {
                parse_table(data, fl, st1, count as int, seq![])
            } else if t == 2 {
                parse_array(data, fl, st1, count as int, seq![])
            } else {
                parse_mixed(data, fl, st1, 1, (count & 3) as int + 1, (count >> 2u8) as int + 1, seq![])
            }
        } else if b & 7 == 4 {
            match take(data, st1, 1) {
                Err(e) => Err(e),
                Ok((u, st2)) => {
                    let val = (b >> 4u8) as int + u[0] as int * 16;
                    Ok((LuaModel::Int((if (b >> 3u8) & 1 == 1 { -val } else { val }) as i64), st2))
                },
            }
        } else if b & 7 == 0 {
            parse_reader(data, fl, st1, b >> 3u8)
        } else {
            Err(SerializeError::InvalidTypeByte(b))
        }
    }
}

/// `n` more values of an array, after the values `acc`.
pub open spec fn parse_array(data: Seq<u8>, fl: Seq<u64>, st: ParseState, n: int, acc: Seq<LuaModel>) -> Result<(LuaModel, ParseState), SerializeError>
    decreases data.len() - st.pos, 1nat,
{
    if st.pos < 0 || st.pos > data.len() {
        Err(SerializeError::UnexpectedEnd)
    } else if n <= 0 {
        Ok((LuaModel::Array(acc), with_table(st, LuaModel::Array(acc))))
    } else {
        match parse_value(data, fl, st) {
            Err(e) => Err(e),
            Ok((v, st2)) => if st2.pos <= st.pos || st2.pos > data.len() {
                Err(SerializeError::UnexpectedEnd)
            } else {
                parse_array(data, fl, st2, n - 1, acc.push(v))
            },
        }
    }
}

/// `n` more key-value pairs of a table, after the pairs `acc`.
pub open spec fn parse_table(data: Seq<u8>, fl: Seq<u64>, st: ParseState, n: int, acc: Seq<(LuaModel, LuaModel)>) -> Result<(LuaModel, ParseState), SerializeError>
    decreases data.len() - st.pos, 1nat,
{
    if st.pos < 0 || st.pos > data.len() {
        Err(SerializeError::UnexpectedEnd)
    } else if n <= 0 {
        Ok((LuaModel::Table(acc), with_table(st, LuaModel::Table(acc))))
    } else {
        match parse_value(data, fl, st) {
            Err(e) => Err(e),
            Ok((k, st2)) => if st2.pos <= st.pos || st2.pos > data.len() {
                Err(SerializeError::UnexpectedEnd)
            } else {
                match parse_value(data, fl, st2) {
                    Err(e) => Err(e),
                    Ok((v, st3)) => if st3.pos <= st2.pos || st3.pos > data.len() {
                        Err(SerializeError::UnexpectedEnd)
                    } else {
                        parse_table(data, fl, st3, n - 1, acc.push((k, v)))
                    },
                }
            },
        }
    }
}

/// A mixed table: the array part from key `i` to `arr_len` (keys 1, 2, ...),
/// then `hash_len` key-value pairs.
pub open spec fn parse_mixed(data: Seq<u8>, fl: Seq<u64>, st: ParseState, i: int, arr_len: int, hash_len: int, acc: Seq<(LuaModel, LuaModel)>) -> Result<(LuaModel, ParseState), SerializeError>
    decreases data.len() - st.pos, 2nat,
{
    if st.pos < 0 || st.pos > data.len() {
        Err(SerializeError::UnexpectedEnd)
    } else if i > arr_len {
        parse_table(data, fl, st, hash_len, acc)
    } else {
        match parse_value(data, fl, st) {
            Err(e) => Err(e),
            Ok((v, st2)) => if st2.pos <= st.pos || st2.pos > data.len() {
                Err(SerializeError::UnexpectedEnd)
            } else {
                parse_mixed(data, fl, st2, i + 1, arr_len, hash_len, acc.push((LuaModel::Int(i as i64), v)))
            },
        }
    }
}

/// A value introduced by reader index `idx`.
pub open spec fn parse_reader(data: Seq<u8>, fl: Seq<u64>, st: ParseState, idx: u8) -> Result<(LuaModel, ParseState), SerializeError>
    decreases data.len() - st.pos, 3nat,
{
    if st.pos < 0 || st.pos > data.len() {
        Err(SerializeError::UnexpectedEnd)
    } else if idx == 0 {
        Ok((LuaModel::Nil, st))
    } else if 1 <= idx <= 8 {
        let w: int = if idx <= 2 { 2 } else if idx <= 4 { 3 } else if idx <= 6 { 4 } else { 7 };
        match take_int(data, st, w) {
            Err(e) => Err(e),
            Ok((v, st2)) => Ok((LuaModel::Int((if idx % 2 == 0 { -(v as int) } else { v as int }) as i64), st2)),
        }
    } else if idx == 9 {
        match take_int(data, st, 8) {
            Err(e) => Err(e),
            Ok((v, st2)) => Ok((LuaModel::Float(v as u64), st2)),
        }
    } else if idx == 10 || idx == 11 {
        parse_float_text(data, fl, st, idx == 11)
    } else if idx == 12 {
        Ok((LuaModel::Bool(true), st))
    } else if idx == 13 {
        Ok((LuaModel::Bool(false), st))
    } else if 14 <= idx <= 22 {
        match take_int(data, st, reader_width(idx)) {
            Err(e) => Err(e),
            Ok((len, st2)) => if idx <= 16 {
                parse_string(data, st2, len as int)
            } else if idx <= 19 {
                parse_table(data, fl, st2, len as int, seq![])
            } else {
                parse_array(data, fl, st2, len as int, seq![])
            },
        }
    } else if 23 <= idx <= 25 {
        match take_int(data, st, reader_width(idx)) {
            Err(e) => Err(e),
            Ok((a, st2)) => match take_int(data, st2, reader_width(idx)) {
                Err(e) => Err(e),
                Ok((h, st3)) => parse_mixed(data, fl, st3, 1, a as int, h as int, seq![]),
            },
        }
    } else if 26 <= idx <= 31 {
        parse_ref(data, st, reader_width(idx), idx >= 29)
    } else {
        Err(SerializeError::InvalidTypeByte((idx * 8) as u8))
    }
}

/// The version byte at `st`, then one value.
pub open spec fn deserialize_from(data: Seq<u8>, fl: Seq<u64>, st: ParseState) -> Result<(LuaModel, ParseState), SerializeError> {
    match take(data, st, 1) {
        Err(e) => Err(e),
        Ok((v, st2)) => if v[0] > 2 {
            Err(SerializeError::InvalidVersion(v[0]))
        } else {
            parse_value(data, fl, st2)
        },
    }
}

/// What deserializing `data` gives, where `fl[k]` is the value (bit
/// pattern) of the `k`-th float written as text.
pub open spec fn deserialize_spec(data: Seq<u8>, fl: Seq<u64>) -> Result<(LuaModel, ParseState), SerializeError> {
    deserialize_from(data, fl, start_state(0))
}

// ---------------------------------------------------------------------
// Deserializer
// ---------------------------------------------------------------------

/// The bytes of each byte string.
pub open spec fn texts_view(v: Seq<Vec<u8>>) -> Seq<Seq<u8>> {
    Seq::new(v.len(), |i: int| v[i]@)
}

/// The exec result `r` and final state `fin` are what `spec` says.
pub open spec fn agrees(
    r: Result<LuaValue, SerializeError>,
    spec: Result<(LuaModel, ParseState), SerializeError>,
    fin: ParseState,
) -> bool {
    match spec {
        Ok((m, st)) => r matches Ok(v) && v.model() == m && fin == st,
        Err(e) => r == Err::<LuaValue, SerializeError>(e),
    }
}

/// The exec result `r` is the value or the error that `spec` says.
pub open spec fn value_agrees(
    r: Result<LuaValue, SerializeError>,
    spec: Result<(LuaModel, ParseState), SerializeError>,
) -> bool {
    match spec {
        Ok((m, _)) => r matches Ok(v) && v.model() == m,
        Err(e) => r == Err::<LuaValue, SerializeError>(e),
    }
}

/// Deserializer state. `floats[k]` is the value (bit pattern) of the `k`-th
/// float that the input writes as text; the text itself is checked here.
pub struct Deserializer<'a> {
    input: &'a [u8],
    pos: usize,
    string_refs: Vec<String>,
    table_refs: Vec<LuaValue>,
    floats: &'a [u64],
    float_texts: Vec<Vec<u8>>,
}

impl<'a> Deserializer<'a> {
    /// The bytes being read.
    pub closed spec fn data(&self) -> Seq<u8> {
        self.input@
    }

    /// The values given for floats written as text.
    pub closed spec fn float_values(&self) -> Seq<u64> {
        self.floats@
    }

    /// Where reading stands.
    pub closed spec fn state(&self) -> ParseState {
        ParseState {
            pos: self.pos as int,
            strings: strings_view(self.string_refs@),
            tables: model_list(self.table_refs@),
            float_texts: texts_view(self.float_texts@),
        }
    }

    /// The position is within the input.
    pub closed spec fn wf(&self) -> bool {
        self.pos <= self.input@.len()
    }

    /// A deserializer at the start of `input`.
    pub fn new(input: &'a [u8], floats: &'a [u64]) -> (d: Self)
        ensures
            d.wf(),
            d.data() == input@,
            d.float_values() == floats@,
            d.state() == start_state(0),
    {
        let d = Self {
            input,
            pos: 0,
            string_refs: Vec::new(),
            table_refs: Vec::new(),
            floats,
            float_texts: Vec::new(),
        };
        assert(strings_view(d.string_refs@) =~= Seq::<Seq<char>>::empty());
        assert(texts_view(d.float_texts@) =~= Seq::<Seq<u8>>::empty());
        assert(model_list(d.table_refs@) =~= Seq::<LuaModel>::empty());
        assert(d.state() == start_state(0));
        d
    }

    /// Reads the version byte and one value.
    pub fn deserialize(self) -> (r: Result<LuaValue, SerializeError>)
        requires
            self.wf(),
        ensures
            value_agrees(r, deserialize_from(self.data(), self.float_values(), self.state())),
            !(r matches Err(SerializeError::InvalidTypeByte(_))),
    {
        let mut this = self;
        this.run()
    }

    fn run(&mut self) -> (r: Result<LuaValue, SerializeError>)
        requires
            old(self).wf(),
        ensures
            final(self).wf(),
            agrees(r, deserialize_from(old(self).data(), old(self).float_values(), old(self).state()), final(self).state()),
            !(r matches Err(SerializeError::InvalidTypeByte(_))),
    {
        let version = match self.read_u8() {
            Ok(v) => v,
            Err(e) => return Err(e),
        };
        if version > 2 {
            return Err(SerializeError::InvalidVersion(version));
        }
        self.read_value()
    }

    fn read_u8(&mut self) -> (r: Result<u8, SerializeError>)
        requires
            old(self).wf(),
        ensures
            final(self).wf(),
            final(self).data() == old(self).data(),
            final(self).float_values() == old(self).float_values(),
            final(self).pos >= old(self).pos,
            match take(old(self).data(), old(self).state(), 1) {
                Ok((b, st)) => r == Ok::<u8, SerializeError>(b[0]) && final(self).state() == st,
                Err(e) => r == Err::<u8, SerializeError>(e),
            },
    {
        if self.pos >= self.input.len() {
            return Err(SerializeError::UnexpectedEnd);
        }
        let b = self.input[self.pos];
        self.pos += 1;
        assert(self.state() =~= advance(old(self).state(), 1));
        Ok(b)
    }

    fn read_bytes(&mut self, n: usize) -> (r: Result<&'a [u8], SerializeError>)
        requires
            old(self).wf(),
        ensures
            final(self).wf(),
            final(self).data() == old(self).data(),
            final(self).float_values() == old(self).float_values(),
            final(self).pos >= old(self).pos,
            match take(old(self).data(), old(self).state(), n as int) {
                Ok((b, st)) => r matches Ok(x) && x@ == b && final(self).state() == st,
                Err(e) => r matches Err(x) && x == e,
            },
    {
        if n > self.input.len() - self.pos {
            return Err(SerializeError::UnexpectedEnd);
        }
        let bytes = vstd::slice::slice_subrange(self.input, self.pos, self.pos + n);
        self.pos += n;
        assert(self.state() =~= advance(old(self).state(), n as int));
        Ok(bytes)
    }

    /// Reads `count` bytes as a big-endian number.
    fn read_int(&mut self, count: usize) -> (r: Result<u64, SerializeError>)
        requires
            old(self).wf(),
            count <= 7,
        ensures
            final(self).wf(),
            final(self).data() == old(self).data(),
            final(self).float_values() == old(self).float_values(),
            final(self).pos >= old(self).pos,
            match take_int(old(self).data(), old(self).state(), count as int) {
                Ok((v, st)) => r == Ok::<u64, SerializeError>(v as u64) && final(self).state() == st
                    && v < pow2(8 * count as nat) && v < 0x100_0000_0000_0000,
                Err(e) => r == Err::<u64, SerializeError>(e),
            },
    {
        let bytes = match self.read_bytes(count) {
            Ok(b) => b,
            Err(e) => return Err(e),
        };
        let mut val: u64 = 0;
        let mut i: usize = 0;
        proof {
            lemma2_to64();
            lemma2_to64_rest();
        }
        assert(bytes@.take(0) =~= Seq::<u8>::empty());
        while i < count
            invariant
                i <= count <= 7,
                bytes@.len() == count,
                val == be_value(bytes@.take(i as int)),
                val < pow2(8 * i as nat),
            decreases count - i,
        {
            let b = bytes[i];
            proof {
                lemma2_to64();
                lemma2_to64_rest();
                if i < 6 {
                    vstd::arithmetic::power2::lemma_pow2_strictly_increases(8 * i as nat, 48);
                }
                lemma_pow2_adds(8 * i as nat, 8);
            }
            assert(val < 0x1_0000_0000_0000);
            assert((val << 8u64) | (b as u64) == val * 256 + b) by (bit_vector)
                requires
                    val < 0x1_0000_0000_0000,
            ;
            assert(bytes@.take(i + 1).drop_last() =~= bytes@.take(i as int));
            val = (val << 8u64) | (b as u64);
            i += 1;
        }
        assert(bytes@.take(count as int) =~= bytes@);
        proof {
            if count < 7 {
                vstd::arithmetic::power2::lemma_pow2_strictly_increases(8 * count as nat, 56);
            }
        }
        Ok(val)
    }

    fn read_string(&mut self, len: usize) -> (r: Result<LuaValue, SerializeError>)
        requires
            old(self).wf(),
        ensures
            final(self).wf(),
            final(self).data() == old(self).data(),
            final(self).float_values() == old(self).float_values(),
            r is Ok ==> final(self).pos >= old(self).pos,
            agrees(r, parse_string(old(self).data(), old(self).state(), len as int), final(self).state()),
    {
        let bytes = match self.read_bytes(len) {
            Ok(b) => b,
            Err(e) => return Err(e),
        };
        let s = crate::text::string_from_utf8_lossy(bytes);
        if len > 2 {
            let ghost before = self.string_refs@;
            self.string_refs.push(s.clone());
            assert(strings_view(self.string_refs@) =~= strings_view(before).push(s@));
        }
        Ok(LuaValue::String(s))
    }

    fn read_float_text(&mut self, negative: bool) -> (r: Result<LuaValue, SerializeError>)
        requires
            old(self).wf(),
        ensures
            final(self).wf(),
            final(self).data() == old(self).data(),
            final(self).float_values() == old(self).float_values(),
            r is Ok ==> final(self).pos >= old(self).pos,
            agrees(r, parse_float_text(old(self).data(), old(self).float_values(), old(self).state(), negative), final(self).state()),
    {
        let len = match self.read_u8() {
            Ok(b) => b as usize,
            Err(e) => return Err(e),
        };
        let bytes = match self.read_bytes(len) {
            Ok(b) => b,
            Err(e) => return Err(e),
        };
        if !crate::text::is_valid_utf8(bytes) {
            return Err(SerializeError::InvalidString);
        }
        if !crate::floattext::float_text_ok(bytes) {
            return Err(SerializeError::UnsupportedFloat);
        }
        let k = self.float_texts.len();
        let bits = if k < self.floats.len() {
            self.floats[k]
        } else {
            0
        };
        let ghost before = self.float_texts@;
        self.float_texts.push(vstd::slice::slice_to_vec(bytes));
        assert(texts_view(self.float_texts@) =~= texts_view(before).push(bytes@));
        if negative {
            Ok(LuaValue::Float(bits ^ 0x8000_0000_0000_0000u64))
        } else {
            Ok(LuaValue::Float(bits))
        }
    }

    fn read_ref(&mut self, w: usize, tables: bool) -> (r: Result<LuaValue, SerializeError>)
        requires
            old(self).wf(),
            1 <= w <= 3,
        ensures
            final(self).wf(),
            final(self).data() == old(self).data(),
            final(self).float_values() == old(self).float_values(),
            r is Ok ==> final(self).pos >= old(self).pos,
            agrees(r, parse_ref(old(self).data(), old(self).state(), w as int, tables), final(self).state()),
    {
        let v = match self.read_int(w) {
            Ok(v) => v,
            Err(e) => return Err(e),
        };
        proof {
            lemma2_to64();
            if w < 3 {
                vstd::arithmetic::power2::lemma_pow2_strictly_increases(8 * w as nat, 24);
            }
        }
        let idx = v as usize;
        let idx0 = if idx == 0 {
            0
        } else {
            idx - 1
        };
        if tables {
            if idx0 < self.table_refs.len() {
                proof {
                    lemma_model_list(self.table_refs@);
                }
                Ok(self.table_refs[idx0].deep_clone())
            } else {
                proof {
                    lemma_model_list(self.table_refs@);
                }
                Err(SerializeError::InvalidTableRef(idx))
            }
        } else {
            if idx0 < self.string_refs.len() {
                Ok(LuaValue::String(self.string_refs[idx0].clone()))
            } else {
                Err(SerializeError::InvalidStringRef(idx))
            }
        }
    }

    fn read_value(&mut self) -> (r: Result<LuaValue, SerializeError>)
        requires
            old(self).wf(),
        ensures
            final(self).wf(),
            final(self).data() == old(self).data(),
            final(self).float_values() == old(self).float_values(),
            r is Ok ==> final(self).pos > old(self).pos,
            agrees(r, parse_value(old(self).data(), old(self).float_values(), old(self).state()), final(self).state()),
            !(r matches Err(SerializeError::InvalidTypeByte(_))),
        decreases old(self).input@.len() - old(self).pos, 0nat,
    {
        proof {
            crate::floatvalues::lemma_value_type_byte_known(self.data(), self.float_values(), self.state());
        }
        let byte = match self.read_u8() {
            Ok(b) => b,
            Err(e) => return Err(e),
        };
        if byte & 1 == 1 {
            assert(byte >= 1) by (bit_vector)
                requires
                    byte & 1 == 1,
            ;
            return Ok(LuaValue::Int(((byte - 1) / 2) as i64));
        }
        if byte & 3 == 2 {
            let count = byte >> 4u8;
            let type_idx = (byte >> 2u8) & 3;
            if type_idx == 0 {
                return self.read_string(count as usize);
            } else if type_idx == 1 {
                return self.read_table(Vec::new(), count as usize);
            } else if type_idx == 2 {
                return self.read_array(count as usize);
            } else {
                let arr_count = (count & 3) as usize + 1;
                let hash_count = (count >> 2u8) as usize + 1;
                assert(count < 16) by (bit_vector)
                    requires
                        count == byte >> 4u8,
                ;
                return self.read_mixed(arr_count, hash_count);
            }
        } else if byte & 7 == 4 {
            let sign = (byte >> 3u8) & 1;
            let lower = (byte >> 4u8) as u16;
            assert(byte >> 4u8 < 16) by (bit_vector);
            let upper = match self.read_u8() {
                Ok(b) => b as u16,
                Err(e) => return Err(e),
            };
            let val = lower | (upper << 4u16);
            assert(val == lower + upper * 16) by (bit_vector)
                requires
                    val == lower | (upper << 4u16),
                    lower < 16,
                    upper < 256,
            ;
            if sign == 1 {
                Ok(LuaValue::Int(-(val as i64)))
            } else {
                Ok(LuaValue::Int(val as i64))
            }
        } else if byte & 7 == 0 {
            let reader_idx = byte >> 3u8;
            assert(byte >> 3u8 < 32) by (bit_vector);
            self.read_by_reader_index(reader_idx)
        } else {
            Err(SerializeError::InvalidTypeByte(byte))
        }
    }

    fn read_array(&mut self, len: usize) -> (r: Result<LuaValue, SerializeError>)
        requires
            old(self).wf(),
        ensures
            final(self).wf(),
            final(self).data() == old(self).data(),
            final(self).float_values() == old(self).float_values(),
            r is Ok ==> final(self).pos >= old(self).pos,
            agrees(r, parse_array(old(self).data(), old(self).float_values(), old(self).state(), len as int, seq![]), final(self).state()),
        decreases old(self).input@.len() - old(self).pos, 1nat,
    {
        let mut arr: Vec<LuaValue> = Vec::new();
        let mut i: usize = 0;
        let ghost data = self.data();
        let ghost fl = self.float_values();
        let ghost st0 = self.state();
        assert(model_list(arr@) =~= Seq::<LuaModel>::empty());
        while i < len
            invariant
                self.wf(),
                self.data() == data,
                self.float_values() == fl,
                data == old(self).data(),
                fl == old(self).float_values(),
                st0 == old(self).state(),
                self.pos >= old(self).pos,
                i <= len,
                parse_array(data, fl, st0, len as int, seq![]) == parse_array(data, fl, self.state(), len - i, model_list(arr@)),
            decreases len - i,
        {
            let v = match self.read_value() {
                Ok(v) => v,
                Err(e) => return Err(e),
            };
            let ghost before = arr@;
            arr.push(v);
            assert(arr@.drop_last() =~= before);
            i += 1;
        }
        let result = LuaValue::Array(arr);
        let c = result.deep_clone();
        let ghost before = self.table_refs@;
        self.table_refs.push(c);
        assert(self.table_refs@.drop_last() =~= before);
        Ok(result)
    }

    /// Reads `n` more key-value pairs after `pairs` and ends the table.
    fn read_table(&mut self, acc: Vec<(LuaValue, LuaValue)>, n: usize) -> (r: Result<LuaValue, SerializeError>)
        requires
            old(self).wf(),
        ensures
            final(self).wf(),
            final(self).data() == old(self).data(),
            final(self).float_values() == old(self).float_values(),
            r is Ok ==> final(self).pos >= old(self).pos,
            agrees(r, parse_table(old(self).data(), old(self).float_values(), old(self).state(), n as int, model_pairs(acc@)), final(self).state()),
        decreases old(self).input@.len() - old(self).pos, 1nat,
    {
        let mut pairs = acc;
        let mut i: usize = 0;
        let ghost data = self.data();
        let ghost fl = self.float_values();
        let ghost st0 = self.state();
        let ghost acc0 = model_pairs(pairs@);
        while i < n
            invariant
                self.wf(),
                self.data() == data,
                self.float_values() == fl,
                data == old(self).data(),
                fl == old(self).float_values(),
                st0 == old(self).state(),
                acc0 == model_pairs(acc@),
                self.pos >= old(self).pos,
                i <= n,
                parse_table(data, fl, st0, n as int, acc0) == parse_table(data, fl, self.state(), n - i, model_pairs(pairs@)),
            decreases n - i,
        {
            let ghost st_i = self.state();
            let ghost acc_i = model_pairs(pairs@);
            let key = match self.read_value() {
                Ok(v) => v,
                Err(e) => {
                    assert(parse_value(data, fl, st_i) == Err::<(LuaModel, ParseState), SerializeError>(e));
                    assert(parse_table(data, fl, st_i, n - i, acc_i) == Err::<(LuaModel, ParseState), SerializeError>(e));
                    return Err(e);
                },
            };
            let value = match self.read_value() {
                Ok(v) => v,
                Err(e) => return Err(e),
            };
            let ghost before = pairs@;
            pairs.push((key, value));
            assert(pairs@.drop_last() =~= before);
            i += 1;
        }
        let result = LuaValue::Table(pairs);
        let c = result.deep_clone();
        let ghost before = self.table_refs@;
        self.table_refs.push(c);
        assert(self.table_refs@.drop_last() =~= before);
        Ok(result)
    }

    fn read_mixed(&mut self, arr_len: usize, hash_len: usize) -> (r: Result<LuaValue, SerializeError>)
        requires
            old(self).wf(),
            arr_len <= 0xff_ffff,
        ensures
            final(self).wf(),
            final(self).data() == old(self).data(),
            final(self).float_values() == old(self).float_values(),
            r is Ok ==> final(self).pos >= old(self).pos,
            agrees(r, parse_mixed(old(self).data(), old(self).float_values(), old(self).state(), 1, arr_len as int, hash_len as int, seq![]), final(self).state()),
        decreases old(self).input@.len() - old(self).pos, 2nat,
    {
        let mut pairs: Vec<(LuaValue, LuaValue)> = Vec::new();
        let mut i: usize = 1;
        let ghost data = self.data();
        let ghost fl = self.float_values();
        let ghost st0 = self.state();
        assert(model_pairs(pairs@) =~= Seq::<(LuaModel, LuaModel)>::empty());
        while i <= arr_len
            invariant
                self.wf(),
                self.data() == data,
                self.float_values() == fl,
                data == old(self).data(),
                fl == old(self).float_values(),
                st0 == old(self).state(),
                self.pos >= old(self).pos,
                1 <= i <= arr_len + 1,
                arr_len <= 0xff_ffff,
                parse_mixed(data, fl, st0, 1, arr_len as int, hash_len as int, seq![]) == parse_mixed(data, fl, self.state(), i as int, arr_len as int, hash_len as int, model_pairs(pairs@)),
            decreases arr_len + 1 - i,
        {
            let ghost st_i = self.state();
            let value = match self.read_value() {
                Ok(v) => v,
                Err(e) => return Err(e),
            };
            let ghost before = pairs@;
            let ki = i as i64;
            assert((i as int) as i64 == ki);
            let ghost vm = value.model();
            let kv = LuaValue::Int(ki);
            assert(kv.model() == LuaModel::Int(ki));
            pairs.push((kv, value));
            assert(pairs@.drop_last() =~= before);
            assert(pairs@.last().1.model() == vm);
            assert(model_pairs(pairs@) == model_pairs(before).push((LuaModel::Int(ki), vm)));
            assert(parse_mixed(data, fl, st_i, i as int, arr_len as int, hash_len as int, model_pairs(before)) == parse_mixed(data, fl, self.state(), i + 1, arr_len as int, hash_len as int, model_pairs(pairs@)));
            i += 1;
        }
        self.read_table(pairs, hash_len)
    }

    #[verifier::spinoff_prover]
    #[verifier::rlimit(20)]
    fn read_by_reader_index(&mut self, idx: u8) -> (r: Result<LuaValue, SerializeError>)
        requires
            old(self).wf(),
            idx < 32,
        ensures
            final(self).wf(),
            final(self).data() == old(self).data(),
            final(self).float_values() == old(self).float_values(),
            r is Ok ==> final(self).pos >= old(self).pos,
            agrees(r, parse_reader(old(self).data(), old(self).float_values(), old(self).state(), idx), final(self).state()),
        decreases old(self).input@.len() - old(self).pos, 3nat,
    {
        if idx == 0 {
            return Ok(LuaValue::Nil);
        }
        if idx <= 8 {
            let w: usize = if idx <= 2 {
                2
            } else if idx <= 4 {
                3
            } else if idx <= 6 {
                4
            } else {
                7
            };
            let val = match self.read_int(w) {
                Ok(v) => v,
                Err(e) => return Err(e),
            };
            if idx % 2 == 0 {
                return Ok(LuaValue::Int(-(val as i64)));
            } else {
                return Ok(LuaValue::Int(val as i64));
            }
        }
        if idx == 9 {
            let bytes = match self.read_bytes(8) {
                Ok(b) => b,
                Err(e) => return Err(e),
            };
            let mut bits: u64 = 0;
            let mut i: usize = 0;
            assert(bytes@.take(0) =~= Seq::<u8>::empty());
            proof {
                lemma2_to64();
                lemma2_to64_rest();
            }
            while i < 8
                invariant
                    i <= 8,
                    bytes@.len() == 8,
                    bits == be_value(bytes@.take(i as int)),
                    bits < pow2(8 * i as nat),
                decreases 8 - i,
            {
                let b = bytes[i];
                proof {
                    lemma2_to64();
                    lemma2_to64_rest();
                    if i < 7 {
                        vstd::arithmetic::power2::lemma_pow2_strictly_increases(8 * i as nat, 56);
                    }
                    lemma_pow2_adds(8 * i as nat, 8);
                }
                assert(bits < 0x100_0000_0000_0000);
                assert((bits << 8u64) | (b as u64) == bits * 256 + b) by (bit_vector)
                    requires
                        bits < 0x100_0000_0000_0000,
                ;
                assert(bytes@.take(i + 1).drop_last() =~= bytes@.take(i as int));
                bits = (bits << 8u64) | (b as u64);
                i += 1;
            }
            assert(bytes@.take(8) =~= bytes@);
            return Ok(LuaValue::Float(bits));
        }
        if idx == 10 || idx == 11 {
            return self.read_float_text(idx == 11);
        }
        if idx == 12 {
            return Ok(LuaValue::Bool(true));
        }
        if idx == 13 {
            return Ok(LuaValue::Bool(false));
        }
        let w: usize = ((idx - 14) % 3) as usize + 1;
        proof {
            lemma2_to64();
            if w < 3 {
                vstd::arithmetic::power2::lemma_pow2_strictly_increases(8 * w as nat, 24);
            }
        }
        if idx <= 22 {
            let len = match self.read_int(w) {
                Ok(v) => v as usize,
                Err(e) => return Err(e),
            };
            if idx <= 16 {
                return self.read_string(len);
            } else if idx <= 19 {
                return self.read_table(Vec::new(), len);
            } else {
                return self.read_array(len);
            }
        }
        if idx <= 25 {
            let arr_len = match self.read_int(w) {
                Ok(v) => v as usize,
                Err(e) => return Err(e),
            };
            let hash_len = match self.read_int(w) {
                Ok(v) => v as usize,
                Err(e) => return Err(e),
            };
            return self.read_mixed(arr_len, hash_len);
        }
        if idx <= 31 {
            return self.read_ref(w, idx >= 29);
        }
        Err(SerializeError::InvalidTypeByte(idx * 8))
    }
}

/// Deserializes `data`; `floats[k]` is the value of the `k`-th float that
/// `data` writes as text.
pub fn deserialize_with_floats(data: &[u8], floats: &[u64]) -> (r: Result<LuaValue, SerializeError>)
    ensures
        value_agrees(r, deserialize_spec(data@, floats@)),
        !(r matches Err(SerializeError::InvalidTypeByte(_))),
{
    let d = Deserializer::new(data, floats);
    d.deserialize()
}

/// The floats that `data` writes as text, in the order they are read (none
/// when `data` does not deserialize).
pub fn float_literals(data: &[u8]) -> (r: Vec<Vec<u8>>)
    ensures
        match deserialize_spec(data@, seq![]) {
            Ok((_, st)) => texts_view(r@) == st.float_texts,
            Err(_) => r@.len() == 0,
        },
{
    let none: Vec<u64> = Vec::new();
    let mut d = Deserializer::new(data, none.as_slice());
    assert(none@ =~= Seq::<u64>::empty());
    match d.run() {
        Ok(_) => d.float_texts,
        Err(_) => Vec::new(),
    }
}

} // verus!
