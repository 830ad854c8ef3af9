//! Lua values and JSON values, and the conversions between them.

use crate::number::{
    float_exponent,
    float_integer_small,
    float_integral_value,
    large_integer_double_bits,
    large_u64_to_double_bits,
};
use crate::text::{ascii_chars, parse_int, parse_int_spec, signed_decimal};
use vstd::prelude::*;
use vstd::string::*;
use vstd::utf8::encode_utf8;

verus! {

/// A Lua value as a WeakAura string holds it. A number is an integer or a
/// float (its binary64 bit pattern); a table is a list of key-value pairs in
/// the order they are written; an array is a table with the keys 1 to n.
#[derive(Debug, PartialEq)]
pub enum LuaValue {
    Nil,
    Bool(bool),
    Int(i64),
    Float(u64),
    String(String),
    Array(Vec<LuaValue>),
    Table(Vec<(LuaValue, LuaValue)>),
}

/// A Lua value with its strings as characters: what a `LuaValue` means.
pub enum LuaModel {
    Nil,
    Bool(bool),
    Int(i64),
    Float(u64),
    Str(Seq<char>),
    Array(Seq<LuaModel>),
    Table(Seq<(LuaModel, LuaModel)>),
}

impl LuaValue {
    /// What the value means.
    pub open spec fn model(&self) -> LuaModel
        decreases self,
    {
        match self {
            LuaValue::Nil => LuaModel::Nil,
            LuaValue::Bool(b) => LuaModel::Bool(*b),
            LuaValue::Int(i) => LuaModel::Int(*i),
            LuaValue::Float(f) => LuaModel::Float(*f),
            LuaValue::String(s) => LuaModel::Str(s@),
            LuaValue::Array(v) => LuaModel::Array(model_list(v@)),
            LuaValue::Table(v) => LuaModel::Table(model_pairs(v@)),
        }
    }
}

/// The models of values, in order.
pub open spec fn model_list(s: Seq<LuaValue>) -> Seq<LuaModel>
    decreases s,
{
    if s.len() == 0 {
        Seq::empty()
    } else {
        model_list(s.drop_last()).push(s.last().model())
    }
}

/// The models of key-value pairs, in order.
pub open spec fn model_pairs(s: Seq<(LuaValue, LuaValue)>) -> Seq<(LuaModel, LuaModel)>
    decreases s,
{
    if s.len() == 0 {
        Seq::empty()
    } else {
        model_pairs(s.drop_last()).push((s.last().0.model(), s.last().1.model()))
    }
}

/// `model_list` keeps length and position.
pub proof fn lemma_model_list(s: Seq<LuaValue>)
    ensures
        model_list(s).len() == s.len(),
        forall|i: int| 0 <= i < s.len() ==> #[trigger] model_list(s)[i] == s[i].model(),
    decreases s.len(),
{
    if s.len() > 0 {
        lemma_model_list(s.drop_last());
    }
}

/// `model_pairs` keeps length and position.
pub proof fn lemma_model_pairs(s: Seq<(LuaValue, LuaValue)>)
    ensures
        model_pairs(s).len() == s.len(),
        forall|i: int|
            0 <= i < s.len() ==> #[trigger] model_pairs(s)[i] == (s[i].0.model(), s[i].1.model()),
    decreases s.len(),
{
    if s.len() > 0 {
        lemma_model_pairs(s.drop_last());
    }
}

impl Clone for LuaValue {
    /// A copy of the value, with the same model.
    fn clone(&self) -> (r: Self)
        ensures
            r.model() == self.model(),
    {
        self.deep_clone()
    }
}

impl LuaValue {
    /// A copy of the value, with the same model.
    pub fn deep_clone(&self) -> (r: LuaValue)
        ensures
            r.model() == self.model(),
        decreases self,
    {
        match self {
            LuaValue::Nil => LuaValue::Nil,
            LuaValue::Bool(b) => LuaValue::Bool(*b),
            LuaValue::Int(i) => LuaValue::Int(*i),
            LuaValue::Float(f) => LuaValue::Float(*f),
            LuaValue::String(s) => LuaValue::String(s.clone()),
            LuaValue::Array(v) => {
                let mut out: Vec<LuaValue> = Vec::new();
                let mut i: usize = 0;
                proof {
                    lemma_model_list(v@);
                }
                while i < v.len()
                    invariant
                        *self == LuaValue::Array(*v),
                        i <= v@.len(),
                        model_list(out@) == model_list(v@.take(i as int)),
                    decreases v@.len() - i,
                {
                    proof {
                        assert(decreases_to!(v@ => v@[i as int]));
                        assert(decreases_to!(*v => v@));
                        assert(decreases_to!(*self => self->Array_0));
                    }
                    let c = v[i].deep_clone();
                    let ghost before = out@;
                    out.push(c);
                    assert(out@.drop_last() =~= before);
                    assert(v@.take(i + 1).drop_last() =~= v@.take(i as int));
                    i += 1;
                }
                assert(v@.take(v@.len() as int) =~= v@);
                LuaValue::Array(out)
            },
            LuaValue::Table(v) => {
                let mut out: Vec<(LuaValue, LuaValue)> = Vec::new();
                let mut i: usize = 0;
                while i < v.len()
                    invariant
                        *self == LuaValue::Table(*v),
                        i <= v@.len(),
                        model_pairs(out@) == model_pairs(v@.take(i as int)),
                    decreases v@.len() - i,
                {
                    proof {
                        assert(decreases_to!(v@ => v@[i as int]));
                        assert(decreases_to!(v@[i as int] => v@[i as int].0));
                        assert(decreases_to!(v@[i as int] => v@[i as int].1));
                        assert(decreases_to!(*v => v@));
                        assert(decreases_to!(*self => self->Table_0));
                    }
                    let k = v[i].0.deep_clone();
                    let x = v[i].1.deep_clone();
                    let ghost before = out@;
                    out.push((k, x));
                    assert(out@.drop_last() =~= before);
                    assert(v@.take(i + 1).drop_last() =~= v@.take(i as int));
                    i += 1;
                }
                assert(v@.take(v@.len() as int) =~= v@);
                LuaValue::Table(out)
            },
        }
    }
}

// ---------------------------------------------------------------------
// JSON values
// ---------------------------------------------------------------------

/// A JSON number as `serde_json` holds it: a non-negative integer, a
/// negative integer, or a float (its binary64 bit pattern).
#[derive(Debug, Clone, Copy, PartialEq, Eq, Structural)]
pub enum JsonNumber {
    PosInt(u64),
    NegInt(i64),
    Float(u64),
}

/// A JSON value. The entries of an object are a list: a parsed object
/// lists them in the order of `serde_json`'s map (sorted by key); an object
/// that `to_json` builds lists them in the order of the table, and a map
/// built from it by inserting them in turn keeps the last of equal keys.
#[derive(Debug, PartialEq)]
pub enum JsonValue {
    Null,
    Bool(bool),
    Number(JsonNumber),
    String(String),
    Array(Vec<JsonValue>),
    Object(Vec<(String, JsonValue)>),
}

/// A JSON value with its strings as characters.
pub enum JsonModel {
    Null,
    Bool(bool),
    Number(JsonNumber),
    Str(Seq<char>),
    Array(Seq<JsonModel>),
    Object(Seq<(Seq<char>, JsonModel)>),
}

impl JsonValue {
    /// What the value means.
    pub open spec fn model(&self) -> JsonModel
        decreases self,
    {
        match self {
            JsonValue::Null => JsonModel::Null,
            JsonValue::Bool(b) => JsonModel::Bool(*b),
            JsonValue::Number(n) => JsonModel::Number(*n),
            JsonValue::String(s) => JsonModel::Str(s@),
            JsonValue::Array(v) => JsonModel::Array(json_model_list(v@)),
            JsonValue::Object(v) => JsonModel::Object(json_model_entries(v@)),
        }
    }
}

/// The models of JSON values, in order.
pub open spec fn json_model_list(s: Seq<JsonValue>) -> Seq<JsonModel>
    decreases s,
{
    if s.len() == 0 {
        Seq::empty()
    } else {
        json_model_list(s.drop_last()).push(s.last().model())
    }
}

/// The models of object entries, in order.
pub open spec fn json_model_entries(s: Seq<(String, JsonValue)>) -> Seq<(Seq<char>, JsonModel)>
    decreases s,
{
    if s.len() == 0 {
        Seq::empty()
    } else {
        json_model_entries(s.drop_last()).push((s.last().0@, s.last().1.model()))
    }
}

/// `json_model_list` keeps length and position.
pub proof fn lemma_json_model_list(s: Seq<JsonValue>)
    ensures
        json_model_list(s).len() == s.len(),
        forall|i: int| 0 <= i < s.len() ==> #[trigger] json_model_list(s)[i] == s[i].model(),
    decreases s.len(),
{
    if s.len() > 0 {
        lemma_json_model_list(s.drop_last());
    }
}

/// `json_model_entries` keeps length and position.
pub proof fn lemma_json_model_entries(s: Seq<(String, JsonValue)>)
    ensures
        json_model_entries(s).len() == s.len(),
        forall|i: int|
            0 <= i < s.len() ==> #[trigger] json_model_entries(s)[i] == (s[i].0@, s[i].1.model()),
    decreases s.len(),
{
    if s.len() > 0 {
        lemma_json_model_entries(s.drop_last());
    }
}

/// A key read as an `i64` the way `str::parse::<i64>` reads it.
pub open spec fn key_int(k: Seq<char>) -> Option<i64> {
    match parse_int_spec(encode_utf8(k), true, i64::MIN as int, i64::MAX as int) {
        Some(v) => Some(v as i64),
        None => None,
    }
}

/// The Lua number for a JSON number: an integer when it has an `i64` value
/// or is a float that is integral and below 2^63 in magnitude, else a
/// float (an integer beyond `i64` becomes the nearest float).
pub open spec fn number_to_lua(n: JsonNumber) -> LuaModel {
    match n {
        JsonNumber::PosInt(u) => if u <= i64::MAX {
            LuaModel::Int(u as i64)
        } else {
            LuaModel::Float(large_integer_double_bits(u as nat))
        },
        JsonNumber::NegInt(i) => LuaModel::Int(i),
        JsonNumber::Float(b) => match float_integral_value(b) {
            Some(v) => if -0x8000_0000_0000_0000 < v < 0x8000_0000_0000_0000 {
                LuaModel::Int(v as i64)
            } else {
                LuaModel::Float(b)
            },
            None => LuaModel::Float(b),
        },
    }
}

/// The Lua value for a JSON value.
pub open spec fn from_json_spec(j: JsonModel) -> LuaModel
    decreases j,
{
    match j {
        JsonModel::Null => LuaModel::Nil,
        JsonModel::Bool(b) => LuaModel::Bool(b),
        JsonModel::Number(n) => number_to_lua(n),
        JsonModel::Str(s) => LuaModel::Str(s),
        JsonModel::Array(items) => LuaModel::Array(from_json_list(items)),
        JsonModel::Object(entries) => object_to_lua(convert_entries(entries)),
    }
}

/// The Lua values for JSON values, in order.
pub open spec fn from_json_list(items: Seq<JsonModel>) -> Seq<LuaModel>
    decreases items,
{
    if items.len() == 0 {
        seq![]
    } else {
        seq![from_json_spec(items[0])] + from_json_list(items.drop_first())
    }
}

/// The entries of an object with their values converted.
pub open spec fn convert_entries(entries: Seq<(Seq<char>, JsonModel)>) -> Seq<(Seq<char>, LuaModel)>
    decreases entries,
{
    if entries.len() == 0 {
        seq![]
    } else {
        seq![(entries[0].0, from_json_spec(entries[0].1))] + convert_entries(entries.drop_first())
    }
}

/// Every key is a positive integer.
pub open spec fn keys_positive(conv: Seq<(Seq<char>, LuaModel)>) -> bool {
    forall|i: int| 0 <= i < conv.len() ==> (#[trigger] key_int(conv[i].0) matches Some(v) && v > 0)
}

/// The largest key (0 for no keys), when every key is a positive integer.
pub open spec fn max_key(conv: Seq<(Seq<char>, LuaModel)>) -> int
    decreases conv.len(),
{
    if conv.len() == 0 {
        0
    } else {
        let m = max_key(conv.drop_last());
        let k = key_int(conv.last().0).unwrap() as int;
        if k > m {
            k
        } else {
            m
        }
    }
}

/// An object whose keys are the integers 1 to its length (in any order,
/// repeats allowed) is array-like.
pub open spec fn array_like(conv: Seq<(Seq<char>, LuaModel)>) -> bool {
    keys_positive(conv) && max_key(conv) == conv.len()
}

/// The values whose key is `k`, in order.
pub open spec fn values_with_key(conv: Seq<(Seq<char>, LuaModel)>, k: int) -> Seq<LuaModel>
    decreases conv.len(),
{
    if conv.len() == 0 {
        seq![]
    } else {
        (if key_int(conv[0].0) == Some(k as i64) {
            seq![conv[0].1]
        } else {
            seq![]
        }) + values_with_key(conv.drop_first(), k)
    }
}

/// The values sorted by key (stable): those of key `k`, then `k + 1`, up to `n`.
pub open spec fn values_by_key(conv: Seq<(Seq<char>, LuaModel)>, k: int, n: int) -> Seq<LuaModel>
    decreases n - k + 1,
{
    if k > n {
        seq![]
    } else {
        values_with_key(conv, k) + values_by_key(conv, k + 1, n)
    }
}

/// The pairs of a table: a key that reads as an `i64` becomes that
/// integer, any other key stays a string.
pub open spec fn table_pairs(conv: Seq<(Seq<char>, LuaModel)>) -> Seq<(LuaModel, LuaModel)> {
    Seq::new(
        conv.len(),
        |i: int|
            (
                match key_int(conv[i].0) {
                    Some(v) => LuaModel::Int(v),
                    None => LuaModel::Str(conv[i].0),
                },
                conv[i].1,
            ),
    )
}

/// An object becomes an array when it is array-like, else a table.
pub open spec fn object_to_lua(conv: Seq<(Seq<char>, LuaModel)>) -> LuaModel {
    if array_like(conv) {
        LuaModel::Array(values_by_key(conv, 1, conv.len() as int))
    } else {
        LuaModel::Table(table_pairs(conv))
    }
}

/// The JSON value for a Lua value: a float that is not finite becomes
/// null; a table becomes an object of its string keys and its integer keys
/// (as decimal text), other keys left out.
pub open spec fn to_json_spec(m: LuaModel) -> JsonModel
    decreases m,
{
    match m {
        LuaModel::Nil => JsonModel::Null,
        LuaModel::Bool(b) => JsonModel::Bool(b),
        LuaModel::Int(i) => JsonModel::Number(
            if i < 0 {
                JsonNumber::NegInt(i)
            } else {
                JsonNumber::PosInt(i as u64)
            },
        ),
        LuaModel::Float(b) => if float_exponent(b) != 2047 {
            JsonModel::Number(JsonNumber::Float(b))
        } else {
            JsonModel::Null
        },
        LuaModel::Str(s) => JsonModel::Str(s),
        LuaModel::Array(items) => JsonModel::Array(to_json_list(items)),
        LuaModel::Table(ps) => JsonModel::Object(to_json_entries(ps)),
    }
}

/// The JSON values for Lua values, in order.
pub open spec fn to_json_list(items: Seq<LuaModel>) -> Seq<JsonModel>
    decreases items,
{
    if items.len() == 0 {
        seq![]
    } else {
        seq![to_json_spec(items[0])] + to_json_list(items.drop_first())
    }
}

/// The object entries for table pairs: a string key as it is, an integer
/// key as its decimal text, any other pair left out.
pub open spec fn to_json_entries(ps: Seq<(LuaModel, LuaModel)>) -> Seq<(Seq<char>, JsonModel)>
    decreases ps,
{
    if ps.len() == 0 {
        seq![]
    } else {
        (match ps[0].0 {
            LuaModel::Str(s) => seq![(s, to_json_spec(ps[0].1))],
            LuaModel::Int(i) => seq![(ascii_chars(signed_decimal(i as int)), to_json_spec(ps[0].1))],
            _ => seq![],
        }) + to_json_entries(ps.drop_first())
    }
}

/// `convert_entries` converts each value in place.
pub proof fn lemma_convert_entries(es: Seq<(Seq<char>, JsonModel)>)
    ensures
        convert_entries(es).len() == es.len(),
        forall|i: int|
            0 <= i < es.len() ==> #[trigger] convert_entries(es)[i] == (es[i].0, from_json_spec(
                es[i].1,
            )),
    decreases es.len(),
{
    if es.len() > 0 {
        lemma_convert_entries(es.drop_first());
        let c = convert_entries(es);
        assert forall|i: int| 0 <= i < es.len() implies #[trigger] c[i] == (es[i].0, from_json_spec(
            es[i].1,
        )) by {
            if i > 0 {
                assert(c[i] == convert_entries(es.drop_first())[i - 1]);
                assert(es.drop_first()[i - 1] == es[i]);
            }
        }
    }
}

/// A one-letter key that is no digit does not read as an integer.
pub proof fn lemma_letter_key(c: u8)
    requires
        c < 128,
        !(48 <= c <= 57),
        c != 43,
        c != 45,
    ensures
        key_int(seq![c as char]) is None,
{
    let b = seq![c];
    assert(crate::text::is_ascii_bytes(b));
    crate::text::lemma_ascii_bytes_utf8(b);
    assert(ascii_chars(b) =~= seq![c as char]);
    assert(!crate::floattext::is_digit(b[0]));
}

// ---------------------------------------------------------------------
// Converting back
// ---------------------------------------------------------------------

/// A key that reads as an integer is that integer's decimal text.
pub open spec fn key_canonical(k: Seq<char>) -> bool {
    key_int(k) matches Some(v) ==> k == ascii_chars(signed_decimal(v as int))
}

/// A JSON value that comes back unchanged from a Lua value: every number an
/// `i64` or a finite float that is not integral, every object not
/// array-like and with its integer keys in decimal form.
pub open spec fn json_plain(j: JsonModel) -> bool
    decreases j,
{
    match j {
        JsonModel::Number(JsonNumber::PosInt(u)) => u <= i64::MAX,
        JsonModel::Number(JsonNumber::NegInt(i)) => i < 0,
        JsonModel::Number(JsonNumber::Float(b)) => float_integral_value(b) is None
            && float_exponent(b) != 2047,
        JsonModel::Array(items) => json_plain_list(items),
        JsonModel::Object(es) => !array_like(convert_entries(es)) && json_plain_entries(es),
        _ => true,
    }
}

/// Every value is `json_plain`.
pub open spec fn json_plain_list(items: Seq<JsonModel>) -> bool
    decreases items,
{
    items.len() == 0 || (json_plain(items[0]) && json_plain_list(items.drop_first()))
}

/// Every key is canonical and every value `json_plain`.
pub open spec fn json_plain_entries(es: Seq<(Seq<char>, JsonModel)>) -> bool
    decreases es,
{
    es.len() == 0 || (key_canonical(es[0].0) && json_plain(es[0].1) && json_plain_entries(
        es.drop_first(),
    ))
}

/// `to_json` undoes `from_json` on the JSON values that a Lua value can
/// hold as they are.
pub proof fn lemma_json_roundtrip(j: JsonModel)
    requires
        json_plain(j),
    ensures
        to_json_spec(from_json_spec(j)) == j,
    decreases j,
{
    match j {
        JsonModel::Array(items) => lemma_json_roundtrip_list(items),
        JsonModel::Object(es) => lemma_json_roundtrip_entries(es),
        _ => {},
    }
}

/// `lemma_json_roundtrip` for values one after the other.
pub proof fn lemma_json_roundtrip_list(items: Seq<JsonModel>)
    requires
        json_plain_list(items),
    ensures
        to_json_list(from_json_list(items)) == items,
    decreases items,
{
    if items.len() > 0 {
        lemma_json_roundtrip(items[0]);
        lemma_json_roundtrip_list(items.drop_first());
        let l = from_json_list(items);
        assert(l[0] == from_json_spec(items[0]));
        assert(l.drop_first() =~= from_json_list(items.drop_first()));
        assert(seq![items[0]] + items.drop_first() =~= items);
    } else {
        assert(from_json_list(items) =~= Seq::<LuaModel>::empty());
    }
}

/// `lemma_json_roundtrip` for the entries of an object.
pub proof fn lemma_json_roundtrip_entries(es: Seq<(Seq<char>, JsonModel)>)
    requires
        json_plain_entries(es),
    ensures
        to_json_entries(table_pairs(convert_entries(es))) == es,
    decreases es,
{
    let ps = table_pairs(convert_entries(es));
    if es.len() > 0 {
        lemma_json_roundtrip(es[0].1);
        lemma_json_roundtrip_entries(es.drop_first());
        let conv = convert_entries(es);
        assert(conv.drop_first() =~= convert_entries(es.drop_first()));
        assert(conv[0] == (es[0].0, from_json_spec(es[0].1)));
        assert(ps.drop_first() =~= table_pairs(convert_entries(es.drop_first())));
        assert(seq![es[0]] + es.drop_first() =~= es);
    } else {
        assert(ps =~= Seq::<(LuaModel, LuaModel)>::empty());
    }
}

/// A key read as an `i64`, from a `String`.
fn parse_key(k: &String) -> (r: Option<i64>)
    ensures
        r == key_int(k@),
{
    let b = k.as_str().as_bytes();
    match parse_int(b, true, i64::MIN as i128, i64::MAX as i128) {
        Some(v) => Some(v as i64),
        None => None,
    }
}

fn number_from_json(n: JsonNumber) -> (r: LuaValue)
    ensures
        r.model() == number_to_lua(n),
{
    match n {
        JsonNumber::PosInt(u) => {
            if u <= i64::MAX as u64 {
                LuaValue::Int(u as i64)
            } else {
                LuaValue::Float(large_u64_to_double_bits(u))
            }
        },
        JsonNumber::NegInt(i) => LuaValue::Int(i),
        JsonNumber::Float(b) => {
            match float_integer_small(b) {
                Some(j) => LuaValue::Int(j),
                None => LuaValue::Float(b),
            }
        },
    }
}

/// Each key with the model of its value.
pub open spec fn conv_view(v: Seq<(String, LuaValue)>) -> Seq<(Seq<char>, LuaModel)> {
    Seq::new(v.len(), |i: int| (v[i].0@, v[i].1.model()))
}

proof fn lemma_values_with_key_skip(conv: Seq<(Seq<char>, LuaModel)>, k: int, j: int)
    requires
        0 <= j < conv.len(),
    ensures
        values_with_key(conv.skip(j), k) == (if key_int(conv[j].0) == Some(k as i64) {
            seq![conv[j].1]
        } else {
            seq![]
        }) + values_with_key(conv.skip(j + 1), k),
{
    assert(conv.skip(j).drop_first() =~= conv.skip(j + 1));
    assert(conv.skip(j)[0] == conv[j]);
}

proof fn lemma_max_key_step(conv: Seq<(Seq<char>, LuaModel)>, i: int)
    requires
        0 <= i < conv.len(),
    ensures
        max_key(conv.take(i + 1)) == (if key_int(conv[i].0).unwrap() as int > max_key(conv.take(i)) {
            key_int(conv[i].0).unwrap() as int
        } else {
            max_key(conv.take(i))
        }),
{
    assert(conv.take(i + 1).drop_last() =~= conv.take(i));
    assert(conv.take(i + 1).last() == conv[i]);
}

/// The values of array-like entries, sorted by key.
fn array_from_entries(conv: &Vec<(String, LuaValue)>, keys: &Vec<Option<i64>>) -> (r: Vec<LuaValue>)
    requires
        conv@.len() <= i64::MAX,
        keys@.len() == conv@.len(),
        forall|i: int| 0 <= i < conv@.len() ==> #[trigger] keys@[i] == key_int(conv@[i].0@),
    ensures
        model_list(r@) == values_by_key(conv_view(conv@), 1, conv@.len() as int),
{
    let ghost cv = conv_view(conv@);
    let n = conv.len();
    let mut out: Vec<LuaValue> = Vec::new();
    let mut k0: usize = 0;
    assert(model_list(out@) =~= Seq::<LuaModel>::empty());
    while k0 < n
        invariant
            k0 <= n,
            n <= i64::MAX,
            n == conv@.len(),
            cv == conv_view(conv@),
            keys@.len() == conv@.len(),
            forall|i: int| 0 <= i < conv@.len() ==> #[trigger] keys@[i] == key_int(conv@[i].0@),
            values_by_key(cv, 1, n as int) == model_list(out@) + values_by_key(cv, k0 + 1, n as int),
        decreases n - k0,
    {
        let kk: i64 = (k0 as i64) + 1;
        let ghost k: int = kk as int;
        let ghost start = model_list(out@);
        let mut j: usize = 0;
        assert(cv.skip(0) =~= cv);
        while j < n
            invariant
                j <= n,
                k0 < n,
                kk == k0 + 1,
                k == kk as int,
                n <= i64::MAX,
                n == conv@.len(),
                cv == conv_view(conv@),
                keys@.len() == conv@.len(),
                forall|i: int| 0 <= i < conv@.len() ==> #[trigger] keys@[i] == key_int(conv@[i].0@),
                start + values_with_key(cv, k) == model_list(out@) + values_with_key(cv.skip(j as int), k),
            decreases n - j,
        {
            proof {
                lemma_values_with_key_skip(cv, k, j as int);
            }
            if keys[j] == Some(kk) {
                let c = conv[j].1.deep_clone();
                let ghost before = out@;
                out.push(c);
                assert(out@.drop_last() =~= before);
                assert(model_list(out@) == model_list(before).push(cv[j as int].1));
            }
            j += 1;
            assert(start + values_with_key(cv, k) =~= model_list(out@) + values_with_key(cv.skip(j as int), k));
        }
        assert(cv.skip(n as int) =~= Seq::<(Seq<char>, LuaModel)>::empty());
        assert(values_by_key(cv, k, n as int) == values_with_key(cv, k) + values_by_key(cv, k + 1, n as int));
        k0 += 1;
        assert(values_by_key(cv, 1, n as int) =~= model_list(out@) + values_by_key(cv, k0 + 1, n as int));
    }
    assert(values_by_key(cv, k0 + 1, n as int) =~= Seq::<LuaModel>::empty());
    assert(values_by_key(cv, 1, n as int) =~= model_list(out@));
    out
}

/// The pairs of a table from converted entries.
fn table_from_entries(conv: &Vec<(String, LuaValue)>, keys: &Vec<Option<i64>>) -> (r: Vec<(LuaValue, LuaValue)>)
    requires
        keys@.len() == conv@.len(),
        forall|i: int| 0 <= i < conv@.len() ==> #[trigger] keys@[i] == key_int(conv@[i].0@),
    ensures
        model_pairs(r@) == table_pairs(conv_view(conv@)),
{
    let ghost cv = conv_view(conv@);
    let n = conv.len();
    let mut out: Vec<(LuaValue, LuaValue)> = Vec::new();
    let mut i: usize = 0;
    assert(model_pairs(out@) =~= table_pairs(cv).take(0));
    while i < n
        invariant
            i <= n,
            n == conv@.len(),
            cv == conv_view(conv@),
            keys@.len() == conv@.len(),
            forall|k: int| 0 <= k < conv@.len() ==> #[trigger] keys@[k] == key_int(conv@[k].0@),
            model_pairs(out@) == table_pairs(cv).take(i as int),
        decreases n - i,
    {
        let v = conv[i].1.deep_clone();
        let key = match keys[i] {
            Some(x) => LuaValue::Int(x),
            None => LuaValue::String(conv[i].0.clone()),
        };
        let ghost before = out@;
        let ghost km = key.model();
        let ghost vm = v.model();
        assert(cv[i as int] == (conv@[i as int].0@, conv@[i as int].1.model()));
        assert(km == (match key_int(cv[i as int].0) {
            Some(x) => LuaModel::Int(x),
            None => LuaModel::Str(cv[i as int].0),
        }));
        assert(vm == cv[i as int].1);
        out.push((key, v));
        assert(out@.drop_last() =~= before);
        assert(model_pairs(out@) == model_pairs(before).push((km, vm)));
        i += 1;
        assert(model_pairs(out@) =~= table_pairs(cv).take(i as int));
    }
    assert(table_pairs(cv).take(n as int) =~= table_pairs(cv));
    out
}

impl LuaValue {
    /// Converts a JSON value.
    pub fn from_json(value: &JsonValue) -> (r: LuaValue)
        ensures
            r.model() == from_json_spec(value.model()),
            json_plain(value.model()) ==> to_json_spec(r.model()) == value.model(),
        decreases value,
    {
        proof {
            if json_plain(value.model()) {
                lemma_json_roundtrip(value.model());
            }
        }
        match value {
            JsonValue::Null => LuaValue::Nil,
            JsonValue::Bool(b) => LuaValue::Bool(*b),
            JsonValue::Number(n) => number_from_json(*n),
            JsonValue::String(s) => LuaValue::String(s.clone()),
            JsonValue::Array(arr) => {
                let ghost items = json_model_list(arr@);
                proof {
                    lemma_json_model_list(arr@);
                }
                let mut out: Vec<LuaValue> = Vec::new();
                let mut i: usize = 0;
                assert(items.skip(0) =~= items);
                assert(model_list(out@) =~= Seq::<LuaModel>::empty());
                while i < arr.len()
                    invariant
                        i <= arr@.len(),
                        *value == JsonValue::Array(*arr),
                        items == json_model_list(arr@),
                        items.len() == arr@.len(),
                        forall|k: int| 0 <= k < arr@.len() ==> #[trigger] items[k] == arr@[k].model(),
                        from_json_list(items) == model_list(out@) + from_json_list(items.skip(i as int)),
                    decreases arr@.len() - i,
                {
                    proof {
                        assert(decreases_to!(arr@ => arr@[i as int]));
                        assert(decreases_to!(*arr => arr@));
                        assert(decreases_to!(*value => value->Array_0));
                    }
                    assert(items.skip(i as int).drop_first() =~= items.skip(i + 1));
                    assert(items.skip(i as int)[0] == items[i as int]);
                    let c = LuaValue::from_json(&arr[i]);
                    let ghost before = out@;
                    out.push(c);
                    assert(out@.drop_last() =~= before);
                    i += 1;
                    assert(from_json_list(items) =~= model_list(out@) + from_json_list(items.skip(i as int)));
                }
                assert(items.skip(arr@.len() as int) =~= Seq::<JsonModel>::empty());
                assert(from_json_list(items) =~= model_list(out@));
                LuaValue::Array(out)
            },
            JsonValue::Object(entries) => {
                let ghost es = json_model_entries(entries@);
                proof {
                    lemma_json_model_entries(entries@);
                }
                let mut conv: Vec<(String, LuaValue)> = Vec::new();
                let mut keys: Vec<Option<i64>> = Vec::new();
                let mut i: usize = 0;
                assert(es.skip(0) =~= es);
                assert(conv_view(conv@) =~= Seq::<(Seq<char>, LuaModel)>::empty());
                while i < entries.len()
                    invariant
                        i <= entries@.len(),
                        *value == JsonValue::Object(*entries),
                        es == json_model_entries(entries@),
                        es.len() == entries@.len(),
                        forall|k: int|
                            0 <= k < entries@.len() ==> #[trigger] es[k] == (entries@[k].0@, entries@[k].1.model()),
                        keys@.len() == conv@.len(),
                        conv@.len() == i,
                        forall|k: int| 0 <= k < conv@.len() ==> #[trigger] keys@[k] == key_int(conv@[k].0@),
                        convert_entries(es) == conv_view(conv@) + convert_entries(es.skip(i as int)),
                    decreases entries@.len() - i,
                {
                    proof {
                        assert(decreases_to!(entries@ => entries@[i as int]));
                        assert(decreases_to!(entries@[i as int] => entries@[i as int].1));
                        assert(decreases_to!(*entries => entries@));
                        assert(decreases_to!(*value => value->Object_0));
                    }
                    assert(es.skip(i as int).drop_first() =~= es.skip(i + 1));
                    assert(es.skip(i as int)[0] == es[i as int]);
                    let entry = &entries[i];
                    let v = LuaValue::from_json(&entry.1);
                    let k = entry.0.clone();
                    let kint = parse_key(&k);
                    let ghost before = conv@;
                    conv.push((k, v));
                    keys.push(kint);
                    assert(conv_view(conv@) =~= conv_view(before).push((entry.0@, v.model())));
                    i += 1;
                    assert(convert_entries(es) =~= conv_view(conv@) + convert_entries(es.skip(i as int)));
                }
                assert(es.skip(entries@.len() as int) =~= Seq::<(Seq<char>, JsonModel)>::empty());
                assert(convert_entries(es) =~= conv_view(conv@));
                let ghost cv = conv_view(conv@);
                // array-like: every key a positive integer, the largest equal to the count
                let mut is_array = true;
                let mut max: i64 = 0;
                let mut j: usize = 0;
                assert(cv.take(0) =~= Seq::<(Seq<char>, LuaModel)>::empty());
                while j < keys.len() && is_array
                    invariant
                        j <= keys@.len(),
                        keys@.len() == conv@.len(),
                        cv == conv_view(conv@),
                        forall|k: int| 0 <= k < conv@.len() ==> #[trigger] keys@[k] == key_int(conv@[k].0@),
                        is_array ==> keys_positive(cv.take(j as int)),
                        is_array ==> max as int == max_key(cv.take(j as int)),
                        !is_array ==> !keys_positive(cv),
                        max >= 0,
                    decreases keys@.len() - j,
                {
                    proof {
                        lemma_max_key_step(cv, j as int);
                    }
                    assert(cv[j as int].0 == conv@[j as int].0@);
                    match keys[j] {
                        Some(x) => {
                            if x > 0 {
                                if x > max {
                                    max = x;
                                }
                            } else {
                                is_array = false;
                                assert(!(key_int(cv[j as int].0) matches Some(v) && v > 0));
                            }
                        },
                        None => {
                            is_array = false;
                            assert(!(key_int(cv[j as int].0) matches Some(v) && v > 0));
                        },
                    }
                    if is_array {
                        assert(keys_positive(cv.take(j + 1))) by {
                            assert forall|k: int| 0 <= k < j + 1 implies (#[trigger] key_int(cv.take(j + 1)[k].0) matches Some(v) && v > 0) by {
                                if k < j {
                                    assert(cv.take(j + 1)[k] == cv.take(j as int)[k]);
                                }
                            }
                        }
                    }
                    j += 1;
                }
                if is_array {
                    assert(cv.take(j as int) =~= cv);
                }
                if is_array && (max as u64) == (conv.len() as u64) {
                    assert(array_like(cv));
                    LuaValue::Array(array_from_entries(&conv, &keys))
                } else {
                    assert(!array_like(cv));
                    LuaValue::Table(table_from_entries(&conv, &keys))
                }
            },
        }
    }
}

impl LuaValue {
    /// Converts to a JSON value.
    pub fn to_json(&self) -> (r: JsonValue)
        ensures
            r.model() == to_json_spec(self.model()),
        decreases self,
    {
        match self {
            LuaValue::Nil => JsonValue::Null,
            LuaValue::Bool(b) => JsonValue::Bool(*b),
            LuaValue::Int(i) => {
                if *i < 0 {
                    JsonValue::Number(JsonNumber::NegInt(*i))
                } else {
                    JsonValue::Number(JsonNumber::PosInt(*i as u64))
                }
            },
            LuaValue::Float(f) => {
                if (*f >> 52u64) & 0x7ff != 0x7ff {
                    JsonValue::Number(JsonNumber::Float(*f))
                } else {
                    JsonValue::Null
                }
            },
            LuaValue::String(s) => JsonValue::String(s.clone()),
            LuaValue::Array(arr) => {
                let ghost items = model_list(arr@);
                proof {
                    lemma_model_list(arr@);
                }
                let mut out: Vec<JsonValue> = Vec::new();
                let mut i: usize = 0;
                assert(items.skip(0) =~= items);
                assert(json_model_list(out@) =~= Seq::<JsonModel>::empty());
                while i < arr.len()
                    invariant
                        i <= arr@.len(),
                        *self == LuaValue::Array(*arr),
                        items == model_list(arr@),
                        items.len() == arr@.len(),
                        forall|k: int| 0 <= k < arr@.len() ==> #[trigger] items[k] == arr@[k].model(),
                        to_json_list(items) == json_model_list(out@) + to_json_list(items.skip(i as int)),
                    decreases arr@.len() - i,
                {
                    proof {
                        assert(decreases_to!(arr@ => arr@[i as int]));
                        assert(decreases_to!(*arr => arr@));
                        assert(decreases_to!(*self => self->Array_0));
                    }
                    assert(items.skip(i as int).drop_first() =~= items.skip(i + 1));
                    assert(items.skip(i as int)[0] == items[i as int]);
                    let c = arr[i].to_json();
                    let ghost before = out@;
                    out.push(c);
                    assert(out@.drop_last() =~= before);
                    i += 1;
                    assert(to_json_list(items) =~= json_model_list(out@) + to_json_list(items.skip(i as int)));
                }
                assert(items.skip(arr@.len() as int) =~= Seq::<LuaModel>::empty());
                assert(to_json_list(items) =~= json_model_list(out@));
                JsonValue::Array(out)
            },
            LuaValue::Table(pairs) => {
                let ghost ps = model_pairs(pairs@);
                proof {
                    lemma_model_pairs(pairs@);
                }
                let mut out: Vec<(String, JsonValue)> = Vec::new();
                let mut i: usize = 0;
                assert(ps.skip(0) =~= ps);
                assert(json_model_entries(out@) =~= Seq::<(Seq<char>, JsonModel)>::empty());
                while i < pairs.len()
                    invariant
                        i <= pairs@.len(),
                        *self == LuaValue::Table(*pairs),
                        ps == model_pairs(pairs@),
                        ps.len() == pairs@.len(),
                        forall|k: int|
                            0 <= k < pairs@.len() ==> #[trigger] ps[k] == (pairs@[k].0.model(), pairs@[k].1.model()),
                        to_json_entries(ps) == json_model_entries(out@) + to_json_entries(ps.skip(i as int)),
                    decreases pairs@.len() - i,
                {
                    proof {
                        assert(decreases_to!(pairs@ => pairs@[i as int]));
                        assert(decreases_to!(pairs@[i as int] => pairs@[i as int].1));
                        assert(decreases_to!(*pairs => pairs@));
                        assert(decreases_to!(*self => self->Table_0));
                    }
                    assert(ps.skip(i as int).drop_first() =~= ps.skip(i + 1));
                    assert(ps.skip(i as int)[0] == ps[i as int]);
                    let pair = &pairs[i];
                    let ghost before = out@;
                    match &pair.0 {
                        LuaValue::String(s) => {
                            let v = pair.1.to_json();
                            out.push((s.clone(), v));
                            assert(out@.drop_last() =~= before);
                        },
                        LuaValue::Int(k) => {
                            let v = pair.1.to_json();
                            let key = crate::text::signed_decimal_text(*k);
                            out.push((key, v));
                            assert(out@.drop_last() =~= before);
                        },
                        _ => {},
                    }
                    i += 1;
                    assert(to_json_entries(ps) =~= json_model_entries(out@) + to_json_entries(ps.skip(i as int)));
                }
                assert(ps.skip(pairs@.len() as int) =~= Seq::<(LuaModel, LuaModel)>::empty());
                assert(to_json_entries(ps) =~= json_model_entries(out@));
                JsonValue::Object(out)
            },
        }
    }
}

} // verus!
