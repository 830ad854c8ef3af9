//! What deserialization reads, and whether it succeeds, does not depend on
//! the values given for the floats written as text: those values only fill
//! in the floats of the result.

use crate::decoder::{decode_spec, DecodeFailure};
use crate::libserialize::{
    deserialize_spec,
    parse_array,
    parse_float_text,
    parse_mixed,
    parse_reader,
    parse_ref,
    parse_string,
    parse_table,
    parse_value,
    start_state,
    take,
    take_int,
    ParseState,
    SerializeError,
};
use crate::types::LuaModel;
use vstd::prelude::*;

verus! {

/// Two values that differ at most in the values of their floats.
pub open spec fn similar(a: LuaModel, b: LuaModel) -> bool
    decreases a,
{
    match a {
        LuaModel::Float(_) => b is Float,
        LuaModel::Array(xs) => match b {
            LuaModel::Array(ys) => similar_list(xs, ys),
            _ => false,
        },
        LuaModel::Table(ps) => match b {
            LuaModel::Table(qs) => similar_pairs(ps, qs),
            _ => false,
        },
        _ => a == b,
    }
}

/// Two lists of values, `similar` item by item.
pub open spec fn similar_list(xs: Seq<LuaModel>, ys: Seq<LuaModel>) -> bool
    decreases xs,
{
    if xs.len() == 0 {
        ys.len() == 0
    } else {
        ys.len() > 0 && similar(xs.last(), ys.last()) && similar_list(xs.drop_last(), ys.drop_last())
    }
}

/// Two lists of key-value pairs, `similar` pair by pair.
pub open spec fn similar_pairs(ps: Seq<(LuaModel, LuaModel)>, qs: Seq<(LuaModel, LuaModel)>) -> bool
    decreases ps,
{
    if ps.len() == 0 {
        qs.len() == 0
    } else {
        qs.len() > 0 && similar(ps.last().0, qs.last().0) && similar(ps.last().1, qs.last().1)
            && similar_pairs(ps.drop_last(), qs.drop_last())
    }
}

/// `similar_list` relates the items one by one.
pub proof fn lemma_similar_list_index(xs: Seq<LuaModel>, ys: Seq<LuaModel>, i: int)
    requires
        similar_list(xs, ys),
        0 <= i < xs.len(),
    ensures
        xs.len() == ys.len(),
        similar(xs[i], ys[i]),
    decreases xs.len(),
{
    if i < xs.len() - 1 {
        lemma_similar_list_index(xs.drop_last(), ys.drop_last(), i);
    } else {
        lemma_similar_list_len(xs.drop_last(), ys.drop_last());
    }
}

proof fn lemma_similar_list_len(xs: Seq<LuaModel>, ys: Seq<LuaModel>)
    requires
        similar_list(xs, ys),
    ensures
        xs.len() == ys.len(),
    decreases xs.len(),
{
    if xs.len() > 0 {
        lemma_similar_list_len(xs.drop_last(), ys.drop_last());
    }
}

/// `similar_pairs` relates the pairs one by one.
pub proof fn lemma_similar_pairs_index(
    ps: Seq<(LuaModel, LuaModel)>,
    qs: Seq<(LuaModel, LuaModel)>,
    i: int,
)
    requires
        similar_pairs(ps, qs),
        0 <= i < ps.len(),
    ensures
        ps.len() == qs.len(),
        similar(ps[i].0, qs[i].0),
        similar(ps[i].1, qs[i].1),
    decreases ps.len(),
{
    if i < ps.len() - 1 {
        lemma_similar_pairs_index(ps.drop_last(), qs.drop_last(), i);
    } else {
        lemma_similar_pairs_len(ps.drop_last(), qs.drop_last());
    }
}

/// Similar lists of pairs are as long as each other.
pub proof fn lemma_similar_pairs_len(ps: Seq<(LuaModel, LuaModel)>, qs: Seq<(LuaModel, LuaModel)>)
    requires
        similar_pairs(ps, qs),
    ensures
        ps.len() == qs.len(),
    decreases ps.len(),
{
    if ps.len() > 0 {
        lemma_similar_pairs_len(ps.drop_last(), qs.drop_last());
    }
}

/// Two reading states that differ at most in the values of the floats in
/// the tables read.
pub open spec fn same_shape(a: ParseState, b: ParseState) -> bool {
    &&& a.pos == b.pos
    &&& a.strings == b.strings
    &&& a.float_texts == b.float_texts
    &&& similar_list(a.tables, b.tables)
}

/// Two outcomes of reading: the same error, or success with `similar`
/// values in states of the same shape.
pub open spec fn same_outcome(
    r1: Result<(LuaModel, ParseState), SerializeError>,
    r2: Result<(LuaModel, ParseState), SerializeError>,
) -> bool {
    match r1 {
        Err(e1) => r2 == Err::<(LuaModel, ParseState), SerializeError>(e1),
        Ok((v1, s1)) => r2 matches Ok((v2, s2)) && similar(v1, v2) && same_shape(s1, s2),
    }
}

/// The outcome is not the error of an unknown type byte.
pub open spec fn type_byte_known(r: Result<(LuaModel, ParseState), SerializeError>) -> bool {
    !(r matches Err(SerializeError::InvalidTypeByte(_)))
}

proof fn lemma_similar_push(xs: Seq<LuaModel>, ys: Seq<LuaModel>, x: LuaModel, y: LuaModel)
    requires
        similar_list(xs, ys),
        similar(x, y),
    ensures
        similar_list(xs.push(x), ys.push(y)),
{
    assert(xs.push(x).drop_last() =~= xs);
    assert(ys.push(y).drop_last() =~= ys);
}

proof fn lemma_similar_pairs_push(
    ps: Seq<(LuaModel, LuaModel)>,
    qs: Seq<(LuaModel, LuaModel)>,
    p: (LuaModel, LuaModel),
    q: (LuaModel, LuaModel),
)
    requires
        similar_pairs(ps, qs),
        similar(p.0, q.0),
        similar(p.1, q.1),
    ensures
        similar_pairs(ps.push(p), qs.push(q)),
{
    assert(ps.push(p).drop_last() =~= ps);
    assert(qs.push(q).drop_last() =~= qs);
}

proof fn lemma_shape_take(data: Seq<u8>, st1: ParseState, st2: ParseState, n: int)
    requires
        same_shape(st1, st2),
    ensures
        match take(data, st1, n) {
            Err(e) => take(data, st2, n) == Err::<(Seq<u8>, ParseState), SerializeError>(e),
            Ok((b1, s1)) => take(data, st2, n) matches Ok((b2, s2)) && b1 == b2 && same_shape(
                s1,
                s2,
            ),
        },
        match take_int(data, st1, n) {
            Err(e) => take_int(data, st2, n) == Err::<(nat, ParseState), SerializeError>(e),
            Ok((v1, s1)) => take_int(data, st2, n) matches Ok((v2, s2)) && v1 == v2 && same_shape(
                s1,
                s2,
            ),
        },
{
}

proof fn lemma_shape_string(data: Seq<u8>, st1: ParseState, st2: ParseState, len: int)
    requires
        same_shape(st1, st2),
    ensures
        same_outcome(parse_string(data, st1, len), parse_string(data, st2, len)),
{
    lemma_shape_take(data, st1, st2, len);
}

proof fn lemma_shape_float_text(
    data: Seq<u8>,
    fl1: Seq<u64>,
    fl2: Seq<u64>,
    st1: ParseState,
    st2: ParseState,
    negative: bool,
)
    requires
        same_shape(st1, st2),
    ensures
        same_outcome(
            parse_float_text(data, fl1, st1, negative),
            parse_float_text(data, fl2, st2, negative),
        ),
{
    lemma_shape_take(data, st1, st2, 1);
    if let Ok((lb, s1)) = take(data, st1, 1) {
        let s2 = take(data, st2, 1).unwrap().1;
        lemma_shape_take(data, s1, s2, lb[0] as int);
    }
}

proof fn lemma_shape_ref(data: Seq<u8>, st1: ParseState, st2: ParseState, w: int, tables: bool)
    requires
        same_shape(st1, st2),
    ensures
        same_outcome(parse_ref(data, st1, w, tables), parse_ref(data, st2, w, tables)),
{
    lemma_shape_take(data, st1, st2, w);
    lemma_similar_list_len(st1.tables, st2.tables);
    if let Ok((idx, s1)) = take_int(data, st1, w) {
        let idx0: int = if idx == 0 {
            0
        } else {
            idx - 1
        };
        if tables && idx0 < s1.tables.len() {
            lemma_similar_list_index(st1.tables, st2.tables, idx0);
        }
    }
}

/// Reading one value succeeds or fails the same way whatever the float
/// values, from states of the same shape.
pub proof fn lemma_shape_value(
    data: Seq<u8>,
    fl1: Seq<u64>,
    fl2: Seq<u64>,
    st1: ParseState,
    st2: ParseState,
)
    requires
        same_shape(st1, st2),
    ensures
        same_outcome(parse_value(data, fl1, st1), parse_value(data, fl2, st2)),
        type_byte_known(parse_value(data, fl1, st1)),
    decreases data.len() - st1.pos, 0nat,
{
    if 0 <= st1.pos < data.len() {
        let b = data[st1.pos];
        let a1 = crate::libserialize::advance(st1, 1);
        let a2 = crate::libserialize::advance(st2, 1);
        assert(same_shape(a1, a2));
        if b & 1 == 1 {
        } else if b & 3 == 2 {
            let count = b >> 4u8;
            let t = (b >> 2u8) & 3;
            if t == 0 {
                lemma_shape_string(data, a1, a2, count as int);
            } else if t == 1 {
                lemma_shape_table(data, fl1, fl2, a1, a2, count as int, seq![], seq![]);
            } else if t == 2 {
                lemma_shape_array(data, fl1, fl2, a1, a2, count as int, seq![], seq![]);
            } else {
                lemma_shape_mixed(
                    data,
                    fl1,
                    fl2,
                    a1,
                    a2,
                    1,
                    (count & 3) as int + 1,
                    (count >> 2u8) as int + 1,
                    seq![],
                    seq![],
                );
            }
        } else if b & 7 == 4 {
            lemma_shape_take(data, a1, a2, 1);
        } else {
            assert(b & 7 == 0 && b >> 3u8 <= 31) by (bit_vector)
                requires
                    b & 1 != 1,
                    b & 3 != 2,
                    b & 7 != 4,
            ;
            lemma_shape_reader(data, fl1, fl2, a1, a2, b >> 3u8);
        }
    }
}

/// The rest of an array, as `lemma_shape_value` says for one value.
pub proof fn lemma_shape_array(
    data: Seq<u8>,
    fl1: Seq<u64>,
    fl2: Seq<u64>,
    st1: ParseState,
    st2: ParseState,
    n: int,
    acc1: Seq<LuaModel>,
    acc2: Seq<LuaModel>,
)
    requires
        same_shape(st1, st2),
        similar_list(acc1, acc2),
    ensures
        same_outcome(parse_array(data, fl1, st1, n, acc1), parse_array(data, fl2, st2, n, acc2)),
        type_byte_known(parse_array(data, fl1, st1, n, acc1)),
    decreases data.len() - st1.pos, 1nat,
{
    if 0 <= st1.pos <= data.len() {
        if n <= 0 {
            assert(similar(LuaModel::Array(acc1), LuaModel::Array(acc2)));
            lemma_similar_push(st1.tables, st2.tables, LuaModel::Array(acc1), LuaModel::Array(acc2));
        } else {
            lemma_shape_value(data, fl1, fl2, st1, st2);
            if let Ok((v1, s1)) = parse_value(data, fl1, st1) {
                let (v2, s2) = parse_value(data, fl2, st2).unwrap();
                if s1.pos > st1.pos && s1.pos <= data.len() {
                    lemma_similar_push(acc1, acc2, v1, v2);
                    lemma_shape_array(data, fl1, fl2, s1, s2, n - 1, acc1.push(v1), acc2.push(v2));
                }
            }
        }
    }
}

/// The rest of a table, as `lemma_shape_value` says for one value.
pub proof fn lemma_shape_table(
    data: Seq<u8>,
    fl1: Seq<u64>,
    fl2: Seq<u64>,
    st1: ParseState,
    st2: ParseState,
    n: int,
    acc1: Seq<(LuaModel, LuaModel)>,
    acc2: Seq<(LuaModel, LuaModel)>,
)
    requires
        same_shape(st1, st2),
        similar_pairs(acc1, acc2),
    ensures
        same_outcome(parse_table(data, fl1, st1, n, acc1), parse_table(data, fl2, st2, n, acc2)),
        type_byte_known(parse_table(data, fl1, st1, n, acc1)),
    decreases data.len() - st1.pos, 1nat,
{
    if 0 <= st1.pos <= data.len() {
        if n <= 0 {
            assert(similar(LuaModel::Table(acc1), LuaModel::Table(acc2)));
            lemma_similar_push(st1.tables, st2.tables, LuaModel::Table(acc1), LuaModel::Table(acc2));
        } else {
            lemma_shape_value(data, fl1, fl2, st1, st2);
            if let Ok((k1, s1)) = parse_value(data, fl1, st1) {
                let (k2, s2) = parse_value(data, fl2, st2).unwrap();
                if s1.pos > st1.pos && s1.pos <= data.len() {
                    lemma_shape_value(data, fl1, fl2, s1, s2);
                    if let Ok((v1, t1)) = parse_value(data, fl1, s1) {
                        let (v2, t2) = parse_value(data, fl2, s2).unwrap();
                        if t1.pos > s1.pos && t1.pos <= data.len() {
                            lemma_similar_pairs_push(acc1, acc2, (k1, v1), (k2, v2));
                            lemma_shape_table(
                                data,
                                fl1,
                                fl2,
                                t1,
                                t2,
                                n - 1,
                                acc1.push((k1, v1)),
                                acc2.push((k2, v2)),
                            );
                        }
                    }
                }
            }
        }
    }
}

/// The rest of a mixed table, as `lemma_shape_value` says for one value.
pub proof fn lemma_shape_mixed(
    data: Seq<u8>,
    fl1: Seq<u64>,
    fl2: Seq<u64>,
    st1: ParseState,
    st2: ParseState,
    i: int,
    arr_len: int,
    hash_len: int,
    acc1: Seq<(LuaModel, LuaModel)>,
    acc2: Seq<(LuaModel, LuaModel)>,
)
    requires
        same_shape(st1, st2),
        similar_pairs(acc1, acc2),
    ensures
        same_outcome(
            parse_mixed(data, fl1, st1, i, arr_len, hash_len, acc1),
            parse_mixed(data, fl2, st2, i, arr_len, hash_len, acc2),
        ),
        type_byte_known(parse_mixed(data, fl1, st1, i, arr_len, hash_len, acc1)),
    decreases data.len() - st1.pos, 2nat,
{
    if 0 <= st1.pos <= data.len() {
        if i > arr_len {
            lemma_shape_table(data, fl1, fl2, st1, st2, hash_len, acc1, acc2);
        } else {
            lemma_shape_value(data, fl1, fl2, st1, st2);
            if let Ok((v1, s1)) = parse_value(data, fl1, st1) {
                let (v2, s2) = parse_value(data, fl2, st2).unwrap();
                if s1.pos > st1.pos && s1.pos <= data.len() {
                    lemma_similar_pairs_push(
                        acc1,
                        acc2,
                        (LuaModel::Int(i as i64), v1),
                        (LuaModel::Int(i as i64), v2),
                    );
                    lemma_shape_mixed(
                        data,
                        fl1,
                        fl2,
                        s1,
                        s2,
                        i + 1,
                        arr_len,
                        hash_len,
                        acc1.push((LuaModel::Int(i as i64), v1)),
                        acc2.push((LuaModel::Int(i as i64), v2)),
                    );
                }
            }
        }
    }
}

/// A value introduced by a reader index, as `lemma_shape_value` says.
pub proof fn lemma_shape_reader(
    data: Seq<u8>,
    fl1: Seq<u64>,
    fl2: Seq<u64>,
    st1: ParseState,
    st2: ParseState,
    idx: u8,
)
    requires
        same_shape(st1, st2),
    ensures
        same_outcome(parse_reader(data, fl1, st1, idx), parse_reader(data, fl2, st2, idx)),
        idx <= 31 ==> type_byte_known(parse_reader(data, fl1, st1, idx)),
    decreases data.len() - st1.pos, 3nat,
{
    if 0 <= st1.pos <= data.len() {
        if 1 <= idx <= 8 {
            let w: int = if idx <= 2 {
                2
            } else if idx <= 4 {
                3
            } else if idx <= 6 {
                4
            } else {
                7
            };
            lemma_shape_take(data, st1, st2, w);
        } else if idx == 9 {
            lemma_shape_take(data, st1, st2, 8);
        } else if idx == 10 || idx == 11 {
            lemma_shape_float_text(data, fl1, fl2, st1, st2, idx == 11);
        } else if 14 <= idx <= 22 {
            let w = crate::libserialize::reader_width(idx);
            lemma_shape_take(data, st1, st2, w);
            if let Ok((len, s1)) = take_int(data, st1, w) {
                let s2 = take_int(data, st2, w).unwrap().1;
                if idx <= 16 {
                    lemma_shape_string(data, s1, s2, len as int);
                } else if idx <= 19 {
                    lemma_shape_table(data, fl1, fl2, s1, s2, len as int, seq![], seq![]);
                } else {
                    lemma_shape_array(data, fl1, fl2, s1, s2, len as int, seq![], seq![]);
                }
            }
        } else if 23 <= idx <= 25 {
            let w = crate::libserialize::reader_width(idx);
            lemma_shape_take(data, st1, st2, w);
            if let Ok((a, s1)) = take_int(data, st1, w) {
                let s2 = take_int(data, st2, w).unwrap().1;
                lemma_shape_take(data, s1, s2, w);
                if let Ok((h, t1)) = take_int(data, s1, w) {
                    let t2 = take_int(data, s2, w).unwrap().1;
                    lemma_shape_mixed(data, fl1, fl2, t1, t2, 1, a as int, h as int, seq![], seq![]);
                }
            }
        } else if 26 <= idx <= 31 {
            lemma_shape_ref(data, st1, st2, crate::libserialize::reader_width(idx), idx >= 29);
        }
    }
}

/// Whether deserializing succeeds, the error it fails with, the floats it
/// finds written as text, and the value it gives but for its floats do not
/// depend on the values given for those floats.
pub proof fn lemma_float_values_irrelevant(data: Seq<u8>, fl1: Seq<u64>, fl2: Seq<u64>)
    ensures
        deserialize_spec(data, fl1) is Ok <==> deserialize_spec(data, fl2) is Ok,
        deserialize_spec(data, fl1) matches Err(e) ==> deserialize_spec(data, fl2) == Err::<
            (LuaModel, ParseState),
            SerializeError,
        >(e),
        deserialize_spec(data, fl1) matches Ok((m1, s1)) ==> deserialize_spec(data, fl2) matches Ok(
            (m2, s2),
        ) && s1.float_texts == s2.float_texts && similar(m1, m2),
{
    let st = start_state(0);
    lemma_shape_take(data, st, st, 1);
    if let Ok((v, s)) = take(data, st, 1) {
        if v[0] <= 2 {
            lemma_shape_value(data, fl1, fl2, s, s);
        }
    }
}

/// No input makes deserializing fail with an unknown type byte: every byte
/// is a small integer, an embedded value, a 12-bit integer or one of the 32
/// readers.
pub proof fn lemma_no_invalid_type_byte(data: Seq<u8>, fl: Seq<u64>)
    ensures
        !(deserialize_spec(data, fl) matches Err(SerializeError::InvalidTypeByte(_))),
{
    let st = start_state(0);
    if let Ok((v, s)) = take(data, st, 1) {
        if v[0] <= 2 {
            lemma_shape_value(data, fl, fl, s, s);
        }
    }
}

/// Whether an import string decodes, the error it fails with, and the value
/// it decodes to but for its floats do not depend on the values given for
/// the floats written as text.
pub proof fn lemma_decode_float_values(text: Seq<char>, fl1: Seq<u64>, fl2: Seq<u64>)
    ensures
        decode_spec(text, fl1) is Ok <==> decode_spec(text, fl2) is Ok,
        decode_spec(text, fl1) matches Err(f) ==> decode_spec(text, fl2) == Err::<
            LuaModel,
            DecodeFailure,
        >(f),
        decode_spec(text, fl1) matches Ok(m1) ==> decode_spec(text, fl2) matches Ok(m2) && similar(
            m1,
            m2,
        ),
{
    if let Ok(p) = crate::decoder::payload_spec(text) {
        lemma_float_values_irrelevant(p, fl1, fl2);
    }
}

proof fn lemma_similar_refl(m: LuaModel)
    ensures
        similar(m, m),
    decreases m,
{
    match m {
        LuaModel::Array(xs) => lemma_similar_list_refl(xs),
        LuaModel::Table(ps) => lemma_similar_pairs_refl(ps),
        _ => {},
    }
}

proof fn lemma_similar_list_refl(xs: Seq<LuaModel>)
    ensures
        similar_list(xs, xs),
    decreases xs,
{
    if xs.len() > 0 {
        lemma_similar_refl(xs.last());
        lemma_similar_list_refl(xs.drop_last());
    }
}

proof fn lemma_similar_pairs_refl(ps: Seq<(LuaModel, LuaModel)>)
    ensures
        similar_pairs(ps, ps),
    decreases ps,
{
    if ps.len() > 0 {
        lemma_similar_refl(ps.last().0);
        lemma_similar_refl(ps.last().1);
        lemma_similar_pairs_refl(ps.drop_last());
    }
}

/// From any state, reading a value never fails with an unknown type byte.
pub proof fn lemma_value_type_byte_known(data: Seq<u8>, fl: Seq<u64>, st: ParseState)
    ensures
        type_byte_known(parse_value(data, fl, st)),
{
    lemma_similar_list_refl(st.tables);
    lemma_shape_value(data, fl, fl, st, st);
}

} // verus!
