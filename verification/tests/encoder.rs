use wa_encoder::decoder::decode_to_value_with_floats;
use wa_encoder::encoder::{add_metadata, encode, encode_value, import_string_from_compressed, EncodeError};
use wa_encoder::encodeforprint::encode_for_print;
use wa_encoder::types::{JsonNumber, JsonValue, LuaValue};

fn text(s: &str) -> JsonValue {
    JsonValue::String(s.to_string())
}

fn object(entries: Vec<(&str, JsonValue)>) -> JsonValue {
    JsonValue::Object(entries.into_iter().map(|(k, v)| (k.to_string(), v)).collect())
}

fn keys(v: &JsonValue) -> Vec<String> {
    match v {
        JsonValue::Object(entries) => entries.iter().map(|(k, _)| k.clone()).collect(),
        _ => panic!("not an object"),
    }
}

#[test]
fn test_encode_simple() {
    // {"d":{"id":"Test","regionType":"icon"}}
    let json = object(vec![("d", object(vec![("id", text("Test")), ("regionType", text("icon"))]))]);
    let result = encode(json).unwrap();
    assert!(result.starts_with("!WA:2!"));
    assert!(result.len() > 10);
}

#[test]
fn metadata_is_added_in_key_order() {
    let json = object(vec![("a", JsonValue::Null), ("n", JsonValue::Null), ("z", JsonValue::Null)]);
    let with = add_metadata(json);
    assert_eq!(keys(&with), vec!["a", "m", "n", "s", "v", "z"]);
    match &with {
        JsonValue::Object(entries) => {
            assert_eq!(entries[1].1, text("d"));
            assert_eq!(entries[3].1, text("5.17.0"));
            assert_eq!(entries[4].1, JsonValue::Number(JsonNumber::PosInt(2000)));
        }
        _ => panic!("not an object"),
    }
}

#[test]
fn metadata_keeps_present_fields() {
    let json = object(vec![("m", text("x")), ("s", text("1.0")), ("v", JsonValue::Bool(true))]);
    let with = add_metadata(json);
    assert_eq!(
        with,
        object(vec![("m", text("x")), ("s", text("1.0")), ("v", JsonValue::Bool(true))])
    );
    // keys that sort after "m" only by length, and multi-byte keys
    let json = object(vec![("ma", JsonValue::Null), ("é", JsonValue::Null)]);
    assert_eq!(keys(&add_metadata(json)), vec!["m", "ma", "s", "v", "é"]);
    // a value that is not an object is left alone
    assert_eq!(add_metadata(JsonValue::Bool(false)), JsonValue::Bool(false));
    assert_eq!(keys(&add_metadata(object(vec![]))), vec!["m", "s", "v"]);
}

#[test]
fn encode_decodes_to_converted_value() {
    let json = object(vec![("d", object(vec![("id", text("Test"))]))]);
    let encoded = encode(json).unwrap();
    let value = decode_to_value_with_floats(&encoded, &[]).unwrap();
    assert_eq!(
        value,
        LuaValue::Table(vec![
            (
                LuaValue::String("d".to_string()),
                LuaValue::Table(vec![(
                    LuaValue::String("id".to_string()),
                    LuaValue::String("Test".to_string())
                )])
            ),
            (LuaValue::String("m".to_string()), LuaValue::String("d".to_string())),
            (LuaValue::String("s".to_string()), LuaValue::String("5.17.0".to_string())),
            (LuaValue::String("v".to_string()), LuaValue::Int(2000)),
        ])
    );
}

#[test]
fn encode_value_roundtrip() {
    let value = LuaValue::Table(vec![
        (LuaValue::String("name".to_string()), LuaValue::String("aura".to_string())),
        (LuaValue::Int(-5000), LuaValue::Float(0.75f64.to_bits())),
        (LuaValue::Bool(true), LuaValue::Array(vec![LuaValue::Nil, LuaValue::Int(70000)])),
        (LuaValue::String("name".to_string()), LuaValue::String("name".to_string())),
    ]);
    let encoded = encode_value(&value).unwrap();
    assert!(encoded.starts_with("!WA:2!"));
    assert_eq!(decode_to_value_with_floats(&encoded, &[]).unwrap(), value);
}

#[test]
fn import_string_is_prefix_and_printable_data() {
    assert_eq!(import_string_from_compressed(&[]), "!WA:2!");
    assert_eq!(import_string_from_compressed(&[0, 0, 0]), "!WA:2!aaaa");
    let data = [9u8, 200, 17, 4];
    assert_eq!(
        import_string_from_compressed(&data),
        format!("!WA:2!{}", encode_for_print(&data))
    );
}

#[test]
fn encode_error_messages() {
    let parse = serde_json::from_str::<serde_json::Value>("{").unwrap_err();
    let m = EncodeError::JsonParse(parse.to_string()).message();
    assert_eq!(m, format!("JSON parse error: {}", parse));
    assert!(m.starts_with("JSON parse error: "));
    assert!(m.len() > "JSON parse error: ".len());
    assert_eq!(
        EncodeError::Compression("disk full".to_string()).message(),
        "Compression error: disk full"
    );
}
