//! Deserializing what was serialized gives the value back.

use crate::libserialize::{
    be_bytes,
    be_value,
    count_header,
    count_width,
    deserialize_spec,
    find_from,
    int_reader,
    int_width,
    integer_bytes,
    parse_array,
    parse_table,
    parse_value,
    ser_items,
    ser_pairs,
    ser_string,
    ser_value,
    serialize_spec,
    start_state,
    ParseState,
};
use crate::number::{clamp_i64, float_integral_value, i64_double_value};
use crate::types::LuaModel;
use vstd::arithmetic::div_mod::lemma_mod_breakdown;
use vstd::arithmetic::power2::{lemma2_to64, lemma2_to64_rest, lemma_pow2_adds, lemma_pow2_pos, pow2};
use vstd::prelude::*;
use vstd::utf8::{encode_utf8, encode_utf8_decode_utf8, encode_utf8_valid_utf8};

verus! {

/// The values that serialization writes so that deserialization reads them
/// back unchanged: integers that binary64 holds exactly and whose magnitude
/// is below 2^56, floats that are not integral, strings, arrays and tables
/// of fewer than 2^24 bytes or elements.
pub open spec fn canonical(m: LuaModel) -> bool
    decreases m,
{
    match m {
        LuaModel::Int(i) => i64_double_value(i) == i as int && -0x100_0000_0000_0000 < i
            < 0x100_0000_0000_0000,
        LuaModel::Float(b) => float_integral_value(b) is None,
        LuaModel::Str(s) => encode_utf8(s).len() < 0x100_0000,
        LuaModel::Array(items) => items.len() < 0x100_0000 && canonical_items(items),
        LuaModel::Table(ps) => ps.len() < 0x100_0000 && canonical_pairs(ps),
        _ => true,
    }
}

/// Every item is canonical.
pub open spec fn canonical_items(items: Seq<LuaModel>) -> bool
    decreases items,
{
    if items.len() == 0 {
        true
    } else {
        canonical(items[0]) && canonical_items(items.drop_first())
    }
}

/// Every key and value is canonical.
pub open spec fn canonical_pairs(ps: Seq<(LuaModel, LuaModel)>) -> bool
    decreases ps,
{
    if ps.len() == 0 {
        true
    } else {
        canonical(ps[0].0) && canonical(ps[0].1) && canonical_pairs(ps.drop_first())
    }
}

/// Writing the string `s` after the strings `refs` writes no reference
/// beyond 2^24 - 1 (the largest that three bytes hold).
pub open spec fn string_ref_fits(s: Seq<char>, refs: Seq<Seq<char>>) -> bool {
    encode_utf8(s).len() > 2 ==> match find_from(refs, s, 0) {
        Some(k) => k + 1 <= 0xff_ffff,
        None => true,
    }
}

/// Writing `m` after the strings `refs` writes no string reference beyond
/// 2^24 - 1.
pub open spec fn refs_fit(m: LuaModel, refs: Seq<Seq<char>>) -> bool
    decreases m,
{
    match m {
        LuaModel::Str(s) => string_ref_fits(s, refs),
        LuaModel::Array(items) => refs_fit_items(items, refs),
        LuaModel::Table(ps) => refs_fit_pairs(ps, refs),
        _ => true,
    }
}

/// `refs_fit` for values written one after the other.
pub open spec fn refs_fit_items(items: Seq<LuaModel>, refs: Seq<Seq<char>>) -> bool
    decreases items,
{
    items.len() == 0 || (refs_fit(items[0], refs) && refs_fit_items(
        items.drop_first(),
        ser_value(items[0], refs).1,
    ))
}

/// `refs_fit` for key-value pairs written one after the other.
pub open spec fn refs_fit_pairs(ps: Seq<(LuaModel, LuaModel)>, refs: Seq<Seq<char>>) -> bool
    decreases ps,
{
    ps.len() == 0 || ({
        let r1 = ser_value(ps[0].0, refs).1;
        refs_fit(ps[0].0, refs) && refs_fit(ps[0].1, r1) && refs_fit_pairs(
            ps.drop_first(),
            ser_value(ps[0].1, r1).1,
        )
    })
}

proof fn lemma_be_roundtrip(v: nat, c: nat)
    ensures
        be_bytes(v, c).len() == c,
        be_value(be_bytes(v, c)) == v % pow2(8 * c),
    decreases c,
{
    lemma2_to64();
    if c == 0 {
    } else {
        lemma_be_roundtrip(v / 256, (c - 1) as nat);
        let b = be_bytes(v, c);
        assert(b.drop_last() == be_bytes(v / 256, (c - 1) as nat));
        lemma_pow2_adds(8, 8 * (c - 1) as nat);
        lemma_pow2_pos(8 * (c - 1) as nat);
        lemma_mod_breakdown(v as int, 256, pow2(8 * (c - 1) as nat) as int);
        assert(8 + 8 * (c - 1) == 8 * c);
    }
}

proof fn lemma_be_exact(v: nat, c: nat)
    requires
        1 <= c <= 7,
        c == 7 ==> v < 0x100_0000_0000_0000,
        c == 4 ==> v <= 0xffff_ffff,
        c == 3 ==> v <= 0xff_ffff,
        c == 2 ==> v <= 0xffff,
        c == 1 ==> v <= 0xff,
        c == 5 || c == 6 ==> v <= 0xffff_ffff,
    ensures
        be_bytes(v, c).len() == c,
        be_value(be_bytes(v, c)) == v,
{
    lemma2_to64();
    lemma2_to64_rest();
    lemma_be_roundtrip(v, c);
    vstd::arithmetic::div_mod::lemma_small_mod(v, pow2(8 * c));
}

proof fn lemma_refs_grow(m: LuaModel, refs: Seq<Seq<char>>)
    ensures
        ser_value(m, refs).1.len() >= refs.len(),
    decreases m,
{
    match m {
        LuaModel::Array(items) => lemma_refs_grow_items(items, refs),
        LuaModel::Table(ps) => lemma_refs_grow_pairs(ps, refs),
        _ => {},
    }
}

proof fn lemma_refs_grow_items(items: Seq<LuaModel>, refs: Seq<Seq<char>>)
    ensures
        ser_items(items, refs).1.len() >= refs.len(),
    decreases items,
{
    if items.len() > 0 {
        lemma_refs_grow(items[0], refs);
        lemma_refs_grow_items(items.drop_first(), ser_value(items[0], refs).1);
    }
}

proof fn lemma_refs_grow_pairs(ps: Seq<(LuaModel, LuaModel)>, refs: Seq<Seq<char>>)
    ensures
        ser_pairs(ps, refs).1.len() >= refs.len(),
    decreases ps,
{
    if ps.len() > 0 {
        let r1 = ser_value(ps[0].0, refs).1;
        let r2 = ser_value(ps[0].1, r1).1;
        lemma_refs_grow(ps[0].0, refs);
        lemma_refs_grow(ps[0].1, r1);
        lemma_refs_grow_pairs(ps.drop_first(), r2);
    }
}

proof fn lemma_find_from(refs: Seq<Seq<char>>, s: Seq<char>, i: int)
    requires
        0 <= i,
    ensures
        find_from(refs, s, i) matches Some(k) ==> i <= k < refs.len() && refs[k] == s,
    decreases refs.len() - i,
{
    if i < refs.len() && refs[i] != s {
        lemma_find_from(refs, s, i + 1);
    }
}

/// While the writer's string table stays within 2^24 - 1 strings, every
/// string reference written is in reach of three bytes.
pub proof fn lemma_table_size_fits(m: LuaModel, refs: Seq<Seq<char>>)
    requires
        ser_value(m, refs).1.len() <= 0xff_ffff,
    ensures
        refs_fit(m, refs),
    decreases m,
{
    match m {
        LuaModel::Str(s) => {
            lemma_find_from(refs, s, 0);
        },
        LuaModel::Array(items) => lemma_table_size_fits_items(items, refs),
        LuaModel::Table(ps) => lemma_table_size_fits_pairs(ps, refs),
        _ => {},
    }
}

/// `lemma_table_size_fits` for values written one after the other.
pub proof fn lemma_table_size_fits_items(items: Seq<LuaModel>, refs: Seq<Seq<char>>)
    requires
        ser_items(items, refs).1.len() <= 0xff_ffff,
    ensures
        refs_fit_items(items, refs),
    decreases items,
{
    if items.len() > 0 {
        let r1 = ser_value(items[0], refs).1;
        lemma_refs_grow_items(items.drop_first(), r1);
        lemma_table_size_fits(items[0], refs);
        lemma_table_size_fits_items(items.drop_first(), r1);
    }
}

/// `lemma_table_size_fits` for key-value pairs written one after the other.
pub proof fn lemma_table_size_fits_pairs(ps: Seq<(LuaModel, LuaModel)>, refs: Seq<Seq<char>>)
    requires
        ser_pairs(ps, refs).1.len() <= 0xff_ffff,
    ensures
        refs_fit_pairs(ps, refs),
    decreases ps,
{
    if ps.len() > 0 {
        let r1 = ser_value(ps[0].0, refs).1;
        let r2 = ser_value(ps[0].1, r1).1;
        lemma_refs_grow_pairs(ps.drop_first(), r2);
        lemma_refs_grow(ps[0].1, r1);
        lemma_table_size_fits(ps[0].0, refs);
        lemma_table_size_fits(ps[0].1, r1);
        lemma_table_size_fits_pairs(ps.drop_first(), r2);
    }
}

/// `data` holds `x` followed by `y` at `p`.
proof fn lemma_split(data: Seq<u8>, p: int, x: Seq<u8>, y: Seq<u8>)
    requires
        0 <= p,
        p + x.len() + y.len() <= data.len(),
        data.subrange(p, p + x.len() + y.len()) == x + y,
    ensures
        data.subrange(p, p + x.len()) == x,
        data.subrange(p + x.len(), p + x.len() + y.len()) == y,
{
    assert(data.subrange(p, p + x.len()) =~= (x + y).subrange(0, x.len() as int));
    assert(data.subrange(p + x.len(), p + x.len() + y.len()) =~= (x + y).subrange(
        x.len() as int,
        (x.len() + y.len()) as int,
    ));
    assert((x + y).subrange(0, x.len() as int) =~= x);
    assert((x + y).subrange(x.len() as int, (x.len() + y.len()) as int) =~= y);
}

proof fn lemma_byte_at(data: Seq<u8>, p: int, x: Seq<u8>)
    requires
        0 <= p,
        p + x.len() <= data.len(),
        data.subrange(p, p + x.len()) == x,
        x.len() >= 1,
    ensures
        data[p] == x[0],
{
    assert(data.subrange(p, p + x.len())[0] == data[p]);
}

proof fn lemma_small_int_byte(j: i64)
    requires
        0 <= j <= 127,
    ensures
        ({
            let b = (j * 2 + 1) as u8;
            &&& b & 1 == 1
            &&& (b - 1) / 2 == j
        }),
{
    let b = (j * 2 + 1) as u8;
    assert(b == j * 2 + 1);
    assert(b & 1 == 1) by (bit_vector)
        requires
            b % 2 == 1,
    ;
}

proof fn lemma_twelve_bit_byte(abs: nat, sign: int)
    requires
        abs <= 4095,
        sign == 0 || sign == 1,
    ensures
        ({
            let b = ((abs % 16) * 16 + sign * 8 + 4) as u8;
            &&& b & 1 != 1
            &&& b & 3 != 2
            &&& b & 7 == 4
            &&& b >> 4u8 == abs % 16
            &&& ((b >> 3u8) & 1 == 1) == (sign == 1)
        }),
{
    let lo = (abs % 16) as u8;
    let sg = sign as u8;
    let b = ((abs % 16) * 16 + sign * 8 + 4) as u8;
    assert(b == lo * 16 + sg * 8 + 4);
    assert({
        &&& b & 1 != 1
        &&& b & 3 != 2
        &&& b & 7 == 4
        &&& b >> 4u8 == lo
        &&& ((b >> 3u8) & 1 == 1) == (sg == 1)
    }) by (bit_vector)
        requires
            b == lo * 16 + sg * 8 + 4,
            lo < 16,
            sg <= 1,
    ;
}

proof fn lemma_reader_byte(idx: int)
    requires
        0 <= idx < 32,
    ensures
        ({
            let b = (8 * idx) as u8;
            &&& b & 1 != 1
            &&& b & 3 != 2
            &&& b & 7 != 4
            &&& b & 7 == 0
            &&& b >> 3u8 == idx
        }),
{
    let i = idx as u8;
    let b = (8 * idx) as u8;
    assert(b == 8 * i);
    assert({
        &&& b & 1 != 1
        &&& b & 3 != 2
        &&& b & 7 != 4
        &&& b & 7 == 0
        &&& b >> 3u8 == i
    }) by (bit_vector)
        requires
            b == 8 * i,
            i < 32,
    ;
}

proof fn lemma_embedded_byte(n: int, emb: int)
    requires
        0 <= n <= 15,
        0 <= emb <= 2,
    ensures
        ({
            let b = (n * 16 + emb * 4 + 2) as u8;
            &&& b & 1 != 1
            &&& b & 3 == 2
            &&& b >> 4u8 == n
            &&& (b >> 2u8) & 3 == emb
        }),
{
    let nn = n as u8;
    let e = emb as u8;
    let b = (n * 16 + emb * 4 + 2) as u8;
    assert(b == nn * 16 + e * 4 + 2);
    assert({
        &&& b & 1 != 1
        &&& b & 3 == 2
        &&& b >> 4u8 == nn
        &&& (b >> 2u8) & 3 == e
    }) by (bit_vector)
        requires
            b == nn * 16 + e * 4 + 2,
            nn <= 15,
            e <= 2,
    ;
}

/// An integer reads back.
proof fn lemma_rt_integer(j: i64, data: Seq<u8>, fl: Seq<u64>, st: ParseState)
    requires
        -0x100_0000_0000_0000 < j < 0x100_0000_0000_0000,
        0 <= st.pos,
        st.pos + integer_bytes(j).len() <= data.len(),
        data.subrange(st.pos, st.pos + integer_bytes(j).len()) == integer_bytes(j),
    ensures
        integer_bytes(j).len() >= 1,
        parse_value(data, fl, st) matches Ok((m2, st2)) && m2 == LuaModel::Int(j) && st2.pos
            == st.pos + integer_bytes(j).len() && st2.strings == st.strings && st2.float_texts
            == st.float_texts,
{
    let b = integer_bytes(j);
    lemma_byte_at(data, st.pos, b);
    if 0 <= j <= 127 {
        lemma_small_int_byte(j);
    } else {
        let abs: nat = if j < 0 {
            (-j) as nat
        } else {
            j as nat
        };
        let sign: int = if j < 0 {
            1
        } else {
            0
        };
        if abs <= 4095 {
            lemma_twelve_bit_byte(abs, sign);
            assert(data[st.pos + 1] == b[1]) by {
                assert(data.subrange(st.pos, st.pos + 2)[1] == data[st.pos + 1]);
            }
            assert(data.subrange(st.pos + 1, st.pos + 2) =~= seq![b[1]]);
        } else {
            let w = int_width(abs);
            let idx = int_reader(j < 0, w);
            lemma_reader_byte(idx as int);
            lemma_be_exact(abs, w);
            lemma_split(data, st.pos, seq![(8 * idx) as u8], be_bytes(abs, w));
        }
    }
}

/// A value that holds no other values reads back.
proof fn lemma_rt_scalar(m: LuaModel, refs: Seq<Seq<char>>, data: Seq<u8>, fl: Seq<u64>, st: ParseState)
    requires
        canonical(m),
        !(m is Array),
        !(m is Table),
        st.strings == refs,
        0 <= st.pos,
        st.pos + ser_value(m, refs).0.len() <= data.len(),
        data.subrange(st.pos, st.pos + ser_value(m, refs).0.len()) == ser_value(m, refs).0,
        refs_fit(m, refs),
    ensures
        ser_value(m, refs).0.len() >= 1,
        parse_value(data, fl, st) matches Ok((m2, st2)) && m2 == m && st2.pos == st.pos
            + ser_value(m, refs).0.len() && st2.strings == ser_value(m, refs).1
            && st2.float_texts == st.float_texts,
{
    let b = ser_value(m, refs).0;
    match m {
        LuaModel::Nil => {
            lemma_byte_at(data, st.pos, b);
            lemma_reader_byte(0);
        },
        LuaModel::Bool(x) => {
            lemma_byte_at(data, st.pos, b);
            if x {
                lemma_reader_byte(12);
            } else {
                lemma_reader_byte(13);
            }
        },
        LuaModel::Int(i) => {
            assert(clamp_i64(i64_double_value(i)) == i);
            assert(b == integer_bytes(i));
            lemma_rt_integer(i, data, fl, st);
        },
        LuaModel::Float(f) => {
            assert(b == seq![72u8] + be_bytes(f as nat, 8));
            lemma_byte_at(data, st.pos, b);
            lemma_reader_byte(9);
            lemma2_to64();
            lemma2_to64_rest();
            lemma_be_roundtrip(f as nat, 8);
            vstd::arithmetic::div_mod::lemma_small_mod(f as nat, pow2(64));
            lemma_split(data, st.pos, seq![72u8], be_bytes(f as nat, 8));
        },
        LuaModel::Str(s) => {
            lemma_rt_string(s, refs, data, fl, st);
        },
        _ => {},
    }
}

/// A value reads back, and the string table of the reader follows that of
/// the writer.
#[verifier::rlimit(40)]
proof fn lemma_rt_value(m: LuaModel, refs: Seq<Seq<char>>, data: Seq<u8>, fl: Seq<u64>, st: ParseState)
    requires
        canonical(m),
        st.strings == refs,
        0 <= st.pos,
        st.pos + ser_value(m, refs).0.len() <= data.len(),
        data.subrange(st.pos, st.pos + ser_value(m, refs).0.len()) == ser_value(m, refs).0,
        refs_fit(m, refs),
    ensures
        ser_value(m, refs).0.len() >= 1,
        parse_value(data, fl, st) matches Ok((m2, st2)) && m2 == m && st2.pos == st.pos
            + ser_value(m, refs).0.len() && st2.strings == ser_value(m, refs).1
            && st2.float_texts == st.float_texts,
    decreases m,
{
    let b = ser_value(m, refs).0;
    match m {
        LuaModel::Nil | LuaModel::Bool(_) | LuaModel::Int(_) | LuaModel::Float(_) | LuaModel::Str(_) => {
            lemma_rt_scalar(m, refs, data, fl, st);
        },
        LuaModel::Array(items) => {
            let n = items.len();
            let h = count_header(n, 2, 20);
            let body = ser_items(items, refs).0;
            assert(b == h + body);
            lemma_rt_header(n, 2, 20, data, st.pos, body);
            let st1 = ParseState {
                pos: st.pos + h.len(),
                strings: st.strings,
                tables: st.tables,
                float_texts: st.float_texts,
            };
            lemma_split(data, st.pos, h, body);
            lemma_rt_items(items, refs, data, fl, st1, seq![]);
            assert(seq![] + items =~= items);
            if n > 15 {
                let w = count_width(n);
                let st_a = ParseState {
                    pos: st.pos + 1,
                    strings: st.strings,
                    tables: st.tables,
                    float_texts: st.float_texts,
                };
                assert(crate::libserialize::parse_reader(data, fl, st_a, (20 + w - 1) as u8)
                    == parse_array(data, fl, st1, n as int, seq![]));
            }
        },
        LuaModel::Table(ps) => {
            let n = ps.len();
            let h = count_header(n, 1, 17);
            let body = ser_pairs(ps, refs).0;
            assert(b == h + body);
            lemma_rt_header(n, 1, 17, data, st.pos, body);
            let st1 = ParseState {
                pos: st.pos + h.len(),
                strings: st.strings,
                tables: st.tables,
                float_texts: st.float_texts,
            };
            lemma_split(data, st.pos, h, body);
            lemma_rt_pairs(ps, refs, data, fl, st1, seq![]);
            assert(seq![] + ps =~= ps);
            if n > 15 {
                let w = count_width(n);
                let st_a = ParseState {
                    pos: st.pos + 1,
                    strings: st.strings,
                    tables: st.tables,
                    float_texts: st.float_texts,
                };
                assert(crate::libserialize::parse_reader(data, fl, st_a, (17 + w - 1) as u8)
                    == parse_table(data, fl, st1, n as int, seq![]));
            }
        },
    }
}

/// The header of `n` elements reads back: an embedded byte, or a reader
/// byte and the count.
proof fn lemma_rt_header(n: nat, emb: nat, r8: nat, data: Seq<u8>, p: int, body: Seq<u8>)
    requires
        n < 0x100_0000,
        emb <= 2,
        r8 == 14 || r8 == 17 || r8 == 20,
        0 <= p,
        p + count_header(n, emb, r8).len() + body.len() <= data.len(),
        data.subrange(p, p + count_header(n, emb, r8).len() + body.len()) == count_header(
            n,
            emb,
            r8,
        ) + body,
    ensures
        count_header(n, emb, r8).len() >= 1,
        n <= 15 ==> ({
            let b = data[p];
            &&& count_header(n, emb, r8).len() == 1
            &&& b & 1 != 1
            &&& b & 3 == 2
            &&& b >> 4u8 == n
            &&& (b >> 2u8) & 3 == emb
        }),
        n > 15 ==> ({
            let b = data[p];
            let w = count_width(n);
            &&& count_header(n, emb, r8).len() == 1 + w
            &&& b & 1 != 1
            &&& b & 3 != 2
            &&& b & 7 != 4
            &&& b & 7 == 0
            &&& b >> 3u8 == r8 + w - 1
            &&& ((b >> 3u8) - 14) % 3 + 1 == w
            &&& data.subrange(p + 1, p + 1 + w) == be_bytes(n, w)
            &&& be_value(be_bytes(n, w)) == n
        }),
{
    let h = count_header(n, emb, r8);
    lemma_split(data, p, h, body);
    lemma_byte_at(data, p, h);
    if n <= 15 {
        lemma_embedded_byte(n as int, emb as int);
    } else {
        let w = count_width(n);
        lemma_reader_byte(r8 + w - 1);
        lemma_be_exact(n, w);
        lemma_split(data, p, seq![(8 * (r8 + w - 1)) as u8], be_bytes(n, w));
    }
}

/// A string reads back, as a string or as a reference to its first writing.
proof fn lemma_rt_string(s: Seq<char>, refs: Seq<Seq<char>>, data: Seq<u8>, fl: Seq<u64>, st: ParseState)
    requires
        encode_utf8(s).len() < 0x100_0000,
        st.strings == refs,
        0 <= st.pos,
        st.pos + ser_string(s, refs).0.len() <= data.len(),
        data.subrange(st.pos, st.pos + ser_string(s, refs).0.len()) == ser_string(s, refs).0,
        string_ref_fits(s, refs),
    ensures
        ser_string(s, refs).0.len() >= 1,
        parse_value(data, fl, st) matches Ok((m2, st2)) && m2 == LuaModel::Str(s) && st2.pos
            == st.pos + ser_string(s, refs).0.len() && st2.strings == ser_string(s, refs).1
            && st2.float_texts == st.float_texts,
{
    let e = encode_utf8(s);
    encode_utf8_valid_utf8(s);
    encode_utf8_decode_utf8(s);
    let b = ser_string(s, refs).0;
    let found = e.len() > 2 && find_from(refs, s, 0) is Some;
    if found {
        let k = find_from(refs, s, 0).unwrap();
        lemma_find_from(refs, s, 0);
        let r = (k + 1) as nat;
        let w = count_width(r);
        lemma_reader_byte(26 + w - 1);
        lemma_byte_at(data, st.pos, b);
        lemma_be_exact(r, w);
        lemma_split(data, st.pos, seq![(8 * (26 + w - 1)) as u8], be_bytes(r, w));
    } else {
        let n = e.len();
        let h = count_header(n, 0, 14);
        assert(b == h + e);
        lemma_rt_header(n, 0, 14, data, st.pos, e);
        lemma_split(data, st.pos, h, e);
    }
}

/// Values written one after the other read back as the rest of an array.
proof fn lemma_rt_items(
    items: Seq<LuaModel>,
    refs: Seq<Seq<char>>,
    data: Seq<u8>,
    fl: Seq<u64>,
    st: ParseState,
    acc: Seq<LuaModel>,
)
    requires
        canonical_items(items),
        st.strings == refs,
        0 <= st.pos,
        st.pos + ser_items(items, refs).0.len() <= data.len(),
        data.subrange(st.pos, st.pos + ser_items(items, refs).0.len()) == ser_items(items, refs).0,
        refs_fit_items(items, refs),
    ensures
        parse_array(data, fl, st, items.len() as int, acc) matches Ok((m2, st2)) && m2
            == LuaModel::Array(acc + items) && st2.pos == st.pos + ser_items(items, refs).0.len()
            && st2.strings == ser_items(items, refs).1 && st2.float_texts == st.float_texts,
    decreases items,
{
    if items.len() == 0 {
        assert(acc + items =~= acc);
    } else {
        let (b1, r1) = ser_value(items[0], refs);
        let (b2, r2) = ser_items(items.drop_first(), r1);
        lemma_split(data, st.pos, b1, b2);
        lemma_rt_value(items[0], refs, data, fl, st);
        let st2 = match parse_value(data, fl, st) {
            Ok((_, x)) => x,
            Err(_) => st,
        };
        lemma_rt_items(items.drop_first(), r1, data, fl, st2, acc.push(items[0]));
        assert(acc.push(items[0]) + items.drop_first() =~= acc + items);
    }
}

/// Pairs written one after the other read back as the rest of a table.
#[verifier::spinoff_prover]
#[verifier::rlimit(30)]
proof fn lemma_rt_pairs(
    ps: Seq<(LuaModel, LuaModel)>,
    refs: Seq<Seq<char>>,
    data: Seq<u8>,
    fl: Seq<u64>,
    st: ParseState,
    acc: Seq<(LuaModel, LuaModel)>,
)
    requires
        canonical_pairs(ps),
        st.strings == refs,
        0 <= st.pos,
        st.pos + ser_pairs(ps, refs).0.len() <= data.len(),
        data.subrange(st.pos, st.pos + ser_pairs(ps, refs).0.len()) == ser_pairs(ps, refs).0,
        refs_fit_pairs(ps, refs),
    ensures
        parse_table(data, fl, st, ps.len() as int, acc) matches Ok((m2, st2)) && m2
            == LuaModel::Table(acc + ps) && st2.pos == st.pos + ser_pairs(ps, refs).0.len()
            && st2.strings == ser_pairs(ps, refs).1 && st2.float_texts == st.float_texts,
    decreases ps,
{
    if ps.len() == 0 {
        assert(acc + ps =~= acc);
    } else {
        let (b1, r1) = ser_value(ps[0].0, refs);
        let (b2, r2) = ser_value(ps[0].1, r1);
        let (b3, r3) = ser_pairs(ps.drop_first(), r2);
        assert(b1 + b2 + b3 == b1 + (b2 + b3));
        lemma_split(data, st.pos, b1, b2 + b3);
        lemma_split(data, st.pos + b1.len(), b2, b3);
        lemma_rt_value(ps[0].0, refs, data, fl, st);
        let st2 = match parse_value(data, fl, st) {
            Ok((_, x)) => x,
            Err(_) => st,
        };
        lemma_rt_value(ps[0].1, r1, data, fl, st2);
        let st3 = match parse_value(data, fl, st2) {
            Ok((_, x)) => x,
            Err(_) => st,
        };
        lemma_rt_pairs(ps.drop_first(), r2, data, fl, st3, acc.push(ps[0]));
        assert(acc.push(ps[0]) + ps.drop_first() =~= acc + ps);
    }
}

/// Deserializing what `serialize` wrote gives the value back, whatever
/// values are given for floats written as text (serialization writes none),
/// for every canonical value whose string references all fit in three
/// bytes (see `refs_fit`; so for every canonical value with at most
/// 2^24 - 1 distinct strings of more than two bytes, by
/// `lemma_table_size_fits`).
pub proof fn lemma_serialize_roundtrip(m: LuaModel, fl: Seq<u64>)
    requires
        canonical(m),
        refs_fit(m, seq![]),
    ensures
        deserialize_spec(serialize_spec(m), fl) matches Ok((m2, _)) && m2 == m,
{
    let data = serialize_spec(m);
    let b = ser_value(m, seq![]).0;
    let st = start_state(1);
    assert(data.subrange(1, (1 + b.len()) as int) =~= b);
    lemma_rt_value(m, seq![], data, fl, st);
    assert(data.subrange(0, 1) =~= seq![1u8]);
}

} // verus!
