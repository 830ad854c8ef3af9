use wa_encoder::types::{JsonNumber, JsonValue, LuaValue};

fn object(entries: Vec<(&str, JsonValue)>) -> JsonValue {
    JsonValue::Object(entries.into_iter().map(|(k, v)| (k.to_string(), v)).collect())
}

fn num(n: JsonNumber) -> JsonValue {
    JsonValue::Number(n)
}

fn s(t: &str) -> LuaValue {
    LuaValue::String(t.to_string())
}

#[test]
fn from_json_scalars() {
    assert_eq!(LuaValue::from_json(&JsonValue::Null), LuaValue::Nil);
    assert_eq!(LuaValue::from_json(&JsonValue::Bool(true)), LuaValue::Bool(true));
    assert_eq!(LuaValue::from_json(&JsonValue::String("x".to_string())), s("x"));
    assert_eq!(LuaValue::from_json(&num(JsonNumber::PosInt(5))), LuaValue::Int(5));
    assert_eq!(LuaValue::from_json(&num(JsonNumber::NegInt(-3))), LuaValue::Int(-3));
    assert_eq!(
        LuaValue::from_json(&num(JsonNumber::PosInt(i64::MAX as u64))),
        LuaValue::Int(i64::MAX)
    );
}

#[test]
fn from_json_numbers_beyond_i64_and_floats() {
    // an integer beyond i64 becomes the nearest float
    assert_eq!(
        LuaValue::from_json(&num(JsonNumber::PosInt(u64::MAX))),
        LuaValue::Float((u64::MAX as f64).to_bits())
    );
    assert_eq!(
        LuaValue::from_json(&num(JsonNumber::PosInt((1u64 << 63) + 1025))),
        LuaValue::Float((((1u64 << 63) + 1025) as f64).to_bits())
    );
    // integral floats become integers, others stay floats
    assert_eq!(LuaValue::from_json(&num(JsonNumber::Float(2.0f64.to_bits()))), LuaValue::Int(2));
    assert_eq!(
        LuaValue::from_json(&num(JsonNumber::Float((-7.0f64).to_bits()))),
        LuaValue::Int(-7)
    );
    assert_eq!(LuaValue::from_json(&num(JsonNumber::Float((-0.0f64).to_bits()))), LuaValue::Int(0));
    assert_eq!(
        LuaValue::from_json(&num(JsonNumber::Float(2.5f64.to_bits()))),
        LuaValue::Float(2.5f64.to_bits())
    );
    assert_eq!(
        LuaValue::from_json(&num(JsonNumber::Float(1e300f64.to_bits()))),
        LuaValue::Float(1e300f64.to_bits())
    );
    // 2^63 is not below i64::MAX as f64
    let two63 = 9223372036854775808.0f64;
    assert_eq!(
        LuaValue::from_json(&num(JsonNumber::Float((-two63).to_bits()))),
        LuaValue::Float((-two63).to_bits())
    );
    assert_eq!(
        LuaValue::from_json(&num(JsonNumber::Float(9.0e15f64.to_bits()))),
        LuaValue::Int(9_000_000_000_000_000)
    );
}

#[test]
fn from_json_objects() {
    // keys 1..n in any order are an array, sorted by key
    let mut entries = Vec::new();
    for k in ["1", "10", "2", "3", "4", "5", "6", "7", "8", "9"] {
        entries.push((k, num(JsonNumber::PosInt(k.parse::<u64>().unwrap() * 100))));
    }
    let expected: Vec<LuaValue> = (1..=10).map(|k| LuaValue::Int(k * 100)).collect();
    assert_eq!(LuaValue::from_json(&object(entries)), LuaValue::Array(expected));
    // a gap makes it a table with integer keys
    let j = object(vec![("1", JsonValue::Null), ("3", JsonValue::Bool(false))]);
    assert_eq!(
        LuaValue::from_json(&j),
        LuaValue::Table(vec![
            (LuaValue::Int(1), LuaValue::Nil),
            (LuaValue::Int(3), LuaValue::Bool(false))
        ])
    );
    // non-positive or non-integer keys make a table
    let j = object(vec![("-1", JsonValue::Null), ("a", JsonValue::Null)]);
    assert_eq!(
        LuaValue::from_json(&j),
        LuaValue::Table(vec![(LuaValue::Int(-1), LuaValue::Nil), (s("a"), LuaValue::Nil)])
    );
    // the empty object is an empty array
    assert_eq!(LuaValue::from_json(&object(vec![])), LuaValue::Array(vec![]));
    // "+1" and "01" read as 1
    assert_eq!(
        LuaValue::from_json(&object(vec![("+1", JsonValue::Null)])),
        LuaValue::Array(vec![LuaValue::Nil])
    );
    let j = object(vec![("01", JsonValue::Bool(true)), ("1", JsonValue::Bool(false))]);
    assert_eq!(
        LuaValue::from_json(&j),
        LuaValue::Table(vec![
            (LuaValue::Int(1), LuaValue::Bool(true)),
            (LuaValue::Int(1), LuaValue::Bool(false))
        ])
    );
    // arrays convert item by item
    let j = JsonValue::Array(vec![JsonValue::Null, object(vec![("k", JsonValue::Bool(true))])]);
    assert_eq!(
        LuaValue::from_json(&j),
        LuaValue::Array(vec![LuaValue::Nil, LuaValue::Table(vec![(s("k"), LuaValue::Bool(true))])])
    );
}

#[test]
fn to_json_values() {
    assert_eq!(LuaValue::Nil.to_json(), JsonValue::Null);
    assert_eq!(LuaValue::Int(3).to_json(), num(JsonNumber::PosInt(3)));
    assert_eq!(LuaValue::Int(-3).to_json(), num(JsonNumber::NegInt(-3)));
    assert_eq!(
        LuaValue::Float(2.5f64.to_bits()).to_json(),
        num(JsonNumber::Float(2.5f64.to_bits()))
    );
    assert_eq!(LuaValue::Float(f64::NAN.to_bits()).to_json(), JsonValue::Null);
    assert_eq!(LuaValue::Float(f64::INFINITY.to_bits()).to_json(), JsonValue::Null);
    let t = LuaValue::Table(vec![
        (s("name"), LuaValue::Bool(true)),
        (LuaValue::Int(-12), LuaValue::Nil),
        (LuaValue::Bool(true), LuaValue::Int(1)),
        (LuaValue::Float(1.5f64.to_bits()), LuaValue::Int(1)),
    ]);
    assert_eq!(
        t.to_json(),
        object(vec![("name", JsonValue::Bool(true)), ("-12", JsonValue::Null)])
    );
    assert_eq!(
        LuaValue::Array(vec![s("a"), LuaValue::Int(0)]).to_json(),
        JsonValue::Array(vec![JsonValue::String("a".to_string()), num(JsonNumber::PosInt(0))])
    );
}

#[test]
fn clone_keeps_value() {
    let v = LuaValue::Table(vec![(s("k"), LuaValue::Array(vec![LuaValue::Int(1), s("x")]))]);
    assert_eq!(v.clone(), v);
    assert_eq!(v.deep_clone(), v);
}

#[test]
fn to_json_undoes_from_json_on_plain_values() {
    let j = object(vec![
        ("-3", JsonValue::Bool(true)),
        ("a", JsonValue::Array(vec![num(JsonNumber::NegInt(-9)), num(JsonNumber::Float(0.5f64.to_bits()))])),
        ("b", object(vec![("x", JsonValue::Null)])),
        ("n", num(JsonNumber::PosInt(42))),
    ]);
    assert_eq!(LuaValue::from_json(&j).to_json(), j);
}
