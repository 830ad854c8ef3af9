//! What deserialization gives for data of given shapes: mixed tables, whose
//! array part comes first, and floats written as text, which take the
//! values given for them in the order they are read.

use crate::libserialize::{
    advance,
    deserialize_spec,
    parse_mixed,
    parse_table,
    parse_value,
    start_state,
    ParseState,
    SerializeError,
};
use crate::types::LuaModel;
use vstd::prelude::*;

verus! {

/// The integer that an odd byte holds on its own: `(b - 1) / 2`.
pub open spec fn small_int(b: u8) -> LuaModel {
    LuaModel::Int(((b - 1) / 2) as i64)
}

/// Every byte of `data` from `p` on, for `n` bytes, is odd.
pub open spec fn odd_bytes(data: Seq<u8>, p: int, n: int) -> bool {
    0 <= p && p + n <= data.len() && forall|k: int| p <= k < p + n ==> #[trigger] data[k] % 2 == 1
}

proof fn lemma_small_int_value(data: Seq<u8>, fl: Seq<u64>, st: ParseState)
    requires
        odd_bytes(data, st.pos, 1),
    ensures
        parse_value(data, fl, st) == Ok::<(LuaModel, ParseState), SerializeError>(
            (small_int(data[st.pos]), advance(st, 1)),
        ),
{
    let b = data[st.pos];
    assert(b % 2 == 1);
    assert(b & 1 == 1) by (bit_vector)
        requires
            b % 2 == 1,
    ;
}

/// The pairs of `n` key-value pairs of odd bytes from `q` on.
pub open spec fn small_pairs(data: Seq<u8>, q: int, n: int) -> Seq<(LuaModel, LuaModel)> {
    Seq::new(n as nat, |k: int| (small_int(data[q + 2 * k]), small_int(data[q + 2 * k + 1])))
}

/// The pairs of the array part, keys `i` to `i + n - 1`, values the odd
/// bytes from `p` on.
pub open spec fn small_items(data: Seq<u8>, p: int, i: int, n: int) -> Seq<(LuaModel, LuaModel)> {
    Seq::new(n as nat, |k: int| (LuaModel::Int((i + k) as i64), small_int(data[p + k])))
}

proof fn lemma_table_small(
    data: Seq<u8>,
    fl: Seq<u64>,
    st: ParseState,
    n: int,
    acc: Seq<(LuaModel, LuaModel)>,
)
    requires
        n >= 0,
        odd_bytes(data, st.pos, 2 * n),
    ensures
        parse_table(data, fl, st, n, acc) matches Ok((t, _)) && t == LuaModel::Table(
            acc + small_pairs(data, st.pos, n),
        ),
    decreases n,
{
    if n == 0 {
        assert(acc + small_pairs(data, st.pos, n) =~= acc);
    } else {
        lemma_small_int_value(data, fl, st);
        let st2 = advance(st, 1);
        lemma_small_int_value(data, fl, st2);
        let st3 = advance(st2, 1);
        let p = (small_int(data[st.pos]), small_int(data[st.pos + 1]));
        lemma_table_small(data, fl, st3, n - 1, acc.push(p));
        assert(acc.push(p) + small_pairs(data, st3.pos, n - 1) =~= acc + small_pairs(
            data,
            st.pos,
            n,
        ));
    }
}

proof fn lemma_mixed_small(
    data: Seq<u8>,
    fl: Seq<u64>,
    st: ParseState,
    i: int,
    arr: int,
    hash: int,
    acc: Seq<(LuaModel, LuaModel)>,
)
    requires
        1 <= i <= arr + 1,
        arr < 0x8000_0000,
        hash >= 0,
        odd_bytes(data, st.pos, arr - i + 1 + 2 * hash),
    ensures
        parse_mixed(data, fl, st, i, arr, hash, acc) matches Ok((t, _)) && t == LuaModel::Table(
            acc + small_items(data, st.pos, i, arr - i + 1) + small_pairs(
                data,
                st.pos + arr - i + 1,
                hash,
            ),
        ),
    decreases arr - i + 1,
{
    if i > arr {
        lemma_table_small(data, fl, st, hash, acc);
        assert(acc + small_items(data, st.pos, i, arr - i + 1) =~= acc);
    } else {
        lemma_small_int_value(data, fl, st);
        let st2 = advance(st, 1);
        let p = (LuaModel::Int(i as i64), small_int(data[st.pos]));
        lemma_mixed_small(data, fl, st2, i + 1, arr, hash, acc.push(p));
        assert(acc.push(p) + small_items(data, st2.pos, i + 1, arr - i) =~= acc + small_items(
            data,
            st.pos,
            i,
            arr - i + 1,
        ));
    }
}

/// An embedded mixed table, type byte `c * 16 + 14`, reads `c % 4 + 1`
/// array values, keyed 1, 2, ... in order, then `c / 4 + 1` key-value
/// pairs. Shown for values that are small integers: the table of
/// `[1, c * 16 + 14] + s` for odd bytes `s` pairs the key `k + 1` with the
/// `k`-th byte of the array part, then each two following bytes as a key
/// and its value.
pub proof fn lemma_embedded_mixed_table(c: u8, s: Seq<u8>, fl: Seq<u64>)
    requires
        c < 16,
        s.len() == (c % 4 + 1) + 2 * (c / 4 + 1),
        forall|k: int| 0 <= k < s.len() ==> #[trigger] s[k] % 2 == 1,
    ensures
        deserialize_spec(seq![1u8, (c * 16 + 14) as u8] + s, fl) matches Ok((t, _)) && t
            matches LuaModel::Table(ps) && ps.len() == (c % 4 + 1) + (c / 4 + 1) && (forall|k: int|
            0 <= k < c % 4 + 1 ==> #[trigger] ps[k] == (LuaModel::Int((k + 1) as i64), small_int(s[k])))
            && (forall|j: int|
            0 <= j < c / 4 + 1 ==> #[trigger] ps[c % 4 + 1 + j] == (
                small_int(s[c % 4 + 1 + 2 * j]),
                small_int(s[c % 4 + 1 + 2 * j + 1]),
            )),
{
    let b = (c * 16 + 14) as u8;
    let data = seq![1u8, b] + s;
    let arr = (c % 4 + 1) as int;
    let hash = (c / 4 + 1) as int;
    assert(b & 1 != 1 && b & 3 == 2 && (b >> 2u8) & 3 == 3 && b >> 4u8 == c && (c & 3) == c % 4
        && (c >> 2u8) == c / 4) by (bit_vector)
        requires
            c < 16,
            b == (c * 16 + 14) as u8,
    ;
    assert(data[0] == 1u8 && data[1] == b);
    assert forall|k: int| 2 <= k < 2 + arr + 2 * hash implies #[trigger] data[k] % 2 == 1 by {
        assert(data[k] == s[k - 2]);
    }
    let st0 = start_state(0);
    let st1 = advance(st0, 1);
    let st2 = advance(st1, 1);
    assert(crate::libserialize::take(data, st0, 1) matches Ok((v, x)) && v[0] == 1u8 && x == st1);
    lemma_mixed_small(data, fl, st2, 1, arr, hash, seq![]);
    let ps = Seq::<(LuaModel, LuaModel)>::empty() + small_items(data, 2, 1, arr) + small_pairs(
        data,
        2 + arr,
        hash,
    );
    assert(parse_value(data, fl, st1) == parse_mixed(data, fl, st2, 1, arr, hash, seq![]));
    assert forall|k: int| 0 <= k < arr implies #[trigger] ps[k] == (
        LuaModel::Int((k + 1) as i64),
        small_int(s[k]),
    ) by {
        assert(data[2 + k] == s[k]);
    }
    assert forall|j: int| 0 <= j < hash implies #[trigger] ps[arr + j] == (
        small_int(s[arr + 2 * j]),
        small_int(s[arr + 2 * j + 1]),
    ) by {
        assert(data[2 + arr + 2 * j] == s[arr + 2 * j]);
        assert(data[2 + arr + 2 * j + 1] == s[arr + 2 * j + 1]);
    }
}

/// Floats written as text one after the other: for each text its reader
/// byte (10), its length and its bytes.
pub open spec fn text_items(ts: Seq<Seq<u8>>) -> Seq<u8>
    decreases ts.len(),
{
    if ts.len() == 0 {
        seq![]
    } else {
        seq![80u8, ts[0].len() as u8] + ts[0] + text_items(ts.drop_first())
    }
}

/// Each text is a float as `f64::from_str` reads it, of fewer than 256
/// bytes.
pub open spec fn float_texts_ok(ts: Seq<Seq<u8>>) -> bool {
    forall|k: int|
        0 <= k < ts.len() ==> #[trigger] ts[k].len() < 256 && vstd::utf8::valid_utf8(ts[k])
            && crate::floattext::float_syntax(ts[k])
}

proof fn lemma_text_items_len(ts: Seq<Seq<u8>>)
    ensures
        text_items(ts).len() >= 2 * ts.len(),
    decreases ts.len(),
{
    if ts.len() > 0 {
        lemma_text_items_len(ts.drop_first());
    }
}

proof fn lemma_array_of_texts(
    data: Seq<u8>,
    fl: Seq<u64>,
    st: ParseState,
    ts: Seq<Seq<u8>>,
    acc: Seq<LuaModel>,
)
    requires
        float_texts_ok(ts),
        0 <= st.pos,
        st.pos + text_items(ts).len() <= data.len(),
        data.subrange(st.pos, st.pos + text_items(ts).len()) == text_items(ts),
        st.float_texts.len() + ts.len() <= fl.len(),
    ensures
        crate::libserialize::parse_array(data, fl, st, ts.len() as int, acc) matches Ok((a, st2))
            && a == LuaModel::Array(
            acc + Seq::new(ts.len(), |k: int| LuaModel::Float(fl[st.float_texts.len() + k])),
        ) && st2.float_texts == st.float_texts + ts,
    decreases ts.len(),
{
    let n = ts.len();
    let f = st.float_texts;
    if n == 0 {
        assert(acc + Seq::new(0, |k: int| LuaModel::Float(fl[f.len() + k])) =~= acc);
        assert(f + ts =~= f);
    } else {
        let t = ts[0];
        let rest = ts.drop_first();
        let p = st.pos;
        assert(float_texts_ok(rest)) by {
            assert forall|k: int| 0 <= k < rest.len() implies #[trigger] rest[k].len() < 256
                && vstd::utf8::valid_utf8(rest[k]) && crate::floattext::float_syntax(rest[k]) by {
                assert(rest[k] == ts[k + 1]);
            }
        }
        assert(t.len() < 256 && vstd::utf8::valid_utf8(t) && crate::floattext::float_syntax(t));
        let items = text_items(ts);
        let head = seq![80u8, t.len() as u8] + t;
        assert(items == head + text_items(rest));
        assert(data[p] == 80u8) by {
            assert(data.subrange(p, p + items.len())[0] == items[0]);
        }
        assert(data[p + 1] == t.len() as u8) by {
            assert(data.subrange(p, p + items.len())[1] == items[1]);
        }
        assert(data.subrange(p + 2, p + 2 + t.len()) =~= t) by {
            assert forall|k: int| 0 <= k < t.len() implies data[p + 2 + k] == t[k] by {
                assert(data.subrange(p, p + items.len())[2 + k] == items[2 + k]);
            }
        }
        let q = p + 2 + t.len();
        assert(data.subrange(q, q + text_items(rest).len()) =~= text_items(rest)) by {
            assert forall|k: int| 0 <= k < text_items(rest).len() implies data[q + k] == text_items(
                rest,
            )[k] by {
                assert(data.subrange(p, p + items.len())[2 + t.len() + k] == items[2 + t.len() + k]);
            }
        }
        assert((80u8 & 1) == 0 && (80u8 & 3) == 0 && (80u8 & 7) == 0 && (80u8 >> 3u8) == 10)
            by (bit_vector);
        let st1 = advance(st, 1);
        let st2 = advance(st1, 1);
        let st3 = advance(st2, t.len() as int);
        let st4 = ParseState {
            pos: st3.pos,
            strings: st3.strings,
            tables: st3.tables,
            float_texts: f.push(t),
        };
        assert(crate::libserialize::take(data, st1, 1) matches Ok((lb, x)) && lb[0] == t.len() as u8
            && x == st2);
        assert(crate::libserialize::take(data, st2, t.len() as int) == Ok::<
            (Seq<u8>, ParseState),
            SerializeError,
        >((t, st3)));
        assert(crate::libserialize::float_value_at(fl, f.len() as int) == fl[f.len() as int]);
        assert(parse_value(data, fl, st) == Ok::<(LuaModel, ParseState), SerializeError>(
            (LuaModel::Float(fl[f.len() as int]), st4),
        ));
        let v = LuaModel::Float(fl[f.len() as int]);
        lemma_array_of_texts(data, fl, st4, rest, acc.push(v));
        assert(acc.push(v) + Seq::new(rest.len(), |k: int| LuaModel::Float(fl[f.len() + 1 + k]))
            =~= acc + Seq::new(n, |k: int| LuaModel::Float(fl[f.len() + k])));
        assert(f.push(t) + rest =~= f + ts);
    }
}

/// Floats written as text take the values given for them in the order they
/// are read: an embedded array of `n` float texts `ts` reads as the floats
/// `fl[0]`, ..., `fl[n - 1]`, and the texts it reads are `ts`, in order.
pub proof fn lemma_float_texts_in_order(ts: Seq<Seq<u8>>, fl: Seq<u64>)
    requires
        ts.len() <= 15,
        float_texts_ok(ts),
        ts.len() <= fl.len(),
    ensures
        deserialize_spec(seq![1u8, (ts.len() * 16 + 10) as u8] + text_items(ts), fl) matches Ok(
            (a, st),
        ) && a == LuaModel::Array(Seq::new(ts.len(), |k: int| LuaModel::Float(fl[k])))
            && st.float_texts == ts,
{
    let n = ts.len();
    let b = (n * 16 + 10) as u8;
    let data = seq![1u8, b] + text_items(ts);
    let nn = n as u8;
    assert(b & 1 != 1 && b & 3 == 2 && (b >> 2u8) & 3 == 2 && b >> 4u8 == nn) by (bit_vector)
        requires
            nn < 16,
            b == (nn * 16 + 10) as u8,
    ;
    let st0 = start_state(0);
    let st1 = advance(st0, 1);
    let st2 = advance(st1, 1);
    assert(data[0] == 1u8 && data[1] == b);
    assert(crate::libserialize::take(data, st0, 1) matches Ok((v, x)) && v[0] == 1u8 && x == st1);
    assert(data.subrange(2, 2 + text_items(ts).len() as int) =~= text_items(ts));
    lemma_array_of_texts(data, fl, st2, ts, seq![]);
    assert(Seq::<LuaModel>::empty() + Seq::new(n, |k: int| LuaModel::Float(fl[0 + k])) =~= Seq::new(
        n,
        |k: int| LuaModel::Float(fl[k]),
    ));
    assert(Seq::<Seq<u8>>::empty() + ts =~= ts);
}

/// Lengths and integers are big-endian: the integer reader 1 (`NUM_16_POS`)
/// reads the next two bytes high byte first.
pub proof fn lemma_read_int16_big_endian(x: u8, y: u8, fl: Seq<u64>)
    ensures
        deserialize_spec(seq![1u8, 8u8, x, y], fl) matches Ok((v, _)) && v == LuaModel::Int(
            (x * 256 + y) as i64,
        ),
{
    let data = seq![1u8, 8u8, x, y];
    assert((8u8 & 1) == 0 && (8u8 & 3) == 0 && (8u8 & 7) == 0 && (8u8 >> 3u8) == 1) by (bit_vector);
    let st0 = start_state(0);
    let st1 = advance(st0, 1);
    let st2 = advance(st1, 1);
    assert(crate::libserialize::take(data, st0, 1) matches Ok((v, z)) && v[0] == 1u8 && z == st1);
    let two = data.subrange(2, 4);
    assert(two =~= seq![x, y]);
    assert(two.drop_last() =~= seq![x]);
    assert(seq![x].drop_last() =~= Seq::<u8>::empty());
    assert(crate::libserialize::be_value(Seq::<u8>::empty()) == 0);
    assert(seq![x].last() == x);
    assert(crate::libserialize::be_value(seq![x]) == x as nat);
    assert(two.last() == y);
    assert(crate::libserialize::be_value(two) == x * 256 + y);
}

/// Integers from 4096 to 65535 are written as reader 1 (`NUM_16_POS`) and
/// two bytes, high byte first.
pub proof fn lemma_write_int16_big_endian(i: i64)
    requires
        4096 <= i <= 65535,
    ensures
        crate::libserialize::serialize_spec(LuaModel::Int(i)) == seq![
            1u8,
            8u8,
            (i / 256) as u8,
            (i % 256) as u8,
        ],
{
    assert(crate::number::i64_double_value(i) == i as int);
    assert(crate::number::clamp_i64(i as int) == i);
    let b = crate::libserialize::be_bytes(i as nat, 2);
    assert(b =~= seq![((i as nat / 256) % 256) as u8, (i as nat % 256) as u8]) by {
        let h = i as nat / 256;
        assert(crate::libserialize::be_bytes(h / 256, 0) =~= Seq::<u8>::empty());
        assert(crate::libserialize::be_bytes(h, 1) == crate::libserialize::be_bytes(h / 256, 0).push(
            (h % 256) as u8,
        ));
        assert(b == crate::libserialize::be_bytes(h, 1).push((i as nat % 256) as u8));
    }
    assert((i as nat / 256) % 256 == i / 256);
    assert(crate::libserialize::integer_bytes(i) =~= seq![8u8] + b);
    assert(crate::libserialize::serialize_spec(LuaModel::Int(i)) =~= seq![
        1u8,
        8u8,
        (i / 256) as u8,
        (i % 256) as u8,
    ]);
}

/// An embedded string reads its bytes in order, as UTF-8.
pub proof fn lemma_read_embedded_string(b: Seq<u8>, fl: Seq<u64>)
    requires
        b.len() <= 15,
        vstd::utf8::valid_utf8(b),
    ensures
        deserialize_spec(seq![1u8, (b.len() * 16 + 2) as u8] + b, fl) matches Ok((v, _)) && v
            == LuaModel::Str(vstd::utf8::decode_utf8(b)),
{
    let n = b.len() as u8;
    let h = (b.len() * 16 + 2) as u8;
    let data = seq![1u8, h] + b;
    assert(h & 1 != 1 && h & 3 == 2 && (h >> 2u8) & 3 == 0 && h >> 4u8 == n) by (bit_vector)
        requires
            n < 16,
            h == (n * 16 + 2) as u8,
    ;
    let st0 = start_state(0);
    let st1 = advance(st0, 1);
    let st2 = advance(st1, 1);
    assert(data[0] == 1u8 && data[1] == h);
    assert(crate::libserialize::take(data, st0, 1) matches Ok((v, z)) && v[0] == 1u8 && z == st1);
    assert(data.subrange(2, 2 + b.len() as int) =~= b);
}

} // verus!
