use std::io::Write;
use wa_encoder::decoder::{
    decode_payload, decode_to_value_with_floats, import_data, inflate_payload, validate, DataError,
    DecodeError, ValidationResult,
};
use wa_encoder::encodeforprint::{encode_for_print, EncodeForPrintError};
use wa_encoder::encoder::{encode, encode_value};
use wa_encoder::libserialize::{serialize, SerializeError};
use wa_encoder::types::{JsonNumber, JsonValue, LuaValue};

fn text(s: &str) -> JsonValue {
    JsonValue::String(s.to_string())
}

fn object(entries: Vec<(&str, JsonValue)>) -> JsonValue {
    JsonValue::Object(entries.into_iter().map(|(k, v)| (k.to_string(), v)).collect())
}

fn field<'a>(v: &'a JsonValue, key: &str) -> &'a JsonValue {
    match v {
        JsonValue::Object(entries) => {
            &entries.iter().rev().find(|(k, _)| k == key).expect("missing key").1
        }
        _ => panic!("not an object"),
    }
}

fn decode_value(s: &str) -> Result<LuaValue, DecodeError> {
    decode_to_value_with_floats(s, &[])
}

#[test]
fn decoder_test_roundtrip() {
    // {"d":{"id":"Test","regionType":"icon","width":64,"height":64}}
    let json = object(vec![(
        "d",
        object(vec![
            ("height", JsonValue::Number(JsonNumber::PosInt(64))),
            ("id", text("Test")),
            ("regionType", text("icon")),
            ("width", JsonValue::Number(JsonNumber::PosInt(64))),
        ]),
    )]);
    let encoded = encode(json).unwrap();
    println!("Encoded: {}", encoded);
    let decoded = decode_value(&encoded).unwrap().to_json();
    println!("Decoded: {:?}", decoded);
    assert_eq!(field(field(&decoded, "d"), "id"), &text("Test"));
    assert_eq!(field(field(&decoded, "d"), "regionType"), &text("icon"));
}

#[test]
fn test_invalid_prefix() {
    let result = decode_value("invalid string");
    assert!(matches!(result, Err(DecodeError::InvalidPrefix)));
}

#[test]
fn decode_prefix_errors() {
    assert!(matches!(decode_value("!WA:2"), Err(DecodeError::InvalidPrefix)));
    assert!(matches!(decode_value("!WA:x!aaaa"), Err(DecodeError::InvalidPrefix)));
    assert!(matches!(decode_value("!WA:300!aaaa"), Err(DecodeError::InvalidPrefix)));
    assert!(matches!(decode_value("!WA:!aaaa"), Err(DecodeError::InvalidPrefix)));
    assert!(matches!(decode_value("!WA:1!aaaa"), Err(DecodeError::UnsupportedVersion(1))));
    assert!(matches!(decode_value("!WA:0!"), Err(DecodeError::UnsupportedVersion(0))));
    assert!(matches!(
        decode_value("!WA:2!ab!d"),
        Err(DecodeError::DecodeForPrint(EncodeForPrintError::InvalidChar('!')))
    ));
}

#[test]
fn decode_error_messages() {
    assert_eq!(
        DecodeError::InvalidPrefix.message(),
        "Invalid WA string format: missing !WA:2! prefix"
    );
    assert_eq!(DecodeError::UnsupportedVersion(1).message(), "Unsupported WA version: 1");
    assert_eq!(
        DecodeError::DecodeForPrint(EncodeForPrintError::InvalidChar('?')).message(),
        "Decode error: Invalid character in input: ?"
    );
    assert_eq!(
        DecodeError::Deserialize(SerializeError::UnexpectedEnd).message(),
        "Deserialization error: Unexpected end of input"
    );
    assert_eq!(
        DecodeError::Decompression("corrupt deflate stream".to_string()).message(),
        "Decompression error: corrupt deflate stream"
    );
}

#[test]
fn decode_trims_white_space() {
    let value = LuaValue::Table(vec![(LuaValue::String("d".to_string()), LuaValue::Int(1))]);
    let encoded = encode_value(&value).unwrap();
    let padded = format!("  \n{}\t \n", encoded);
    assert_eq!(decode_value(&padded).unwrap(), value);
}

#[test]
fn decode_accepts_higher_versions() {
    let value = LuaValue::String("abc".to_string());
    let encoded = encode_value(&value).unwrap();
    let data = &encoded["!WA:2!".len()..];
    assert_eq!(decode_value(&format!("!WA:7!{}", data)).unwrap(), value);
    assert_eq!(decode_value(&format!("!WA:+3!{}", data)).unwrap(), value);
}

#[test]
fn decode_zlib_stream() {
    // data that is zlib rather than raw DEFLATE is inflated too
    let value = LuaValue::Array(vec![LuaValue::Int(5), LuaValue::Bool(false)]);
    let bytes = serialize(&value);
    let mut z = flate2::write::ZlibEncoder::new(Vec::new(), flate2::Compression::default());
    z.write_all(&bytes).unwrap();
    let compressed = z.finish().unwrap();
    let s = format!("!WA:2!{}", encode_for_print(&compressed));
    assert_eq!(decode_value(&s).unwrap(), value);
    assert_eq!(decode_payload(&s).unwrap(), bytes);
}

#[test]
fn decode_payload_gives_serialized_bytes() {
    let value = LuaValue::Table(vec![(LuaValue::Int(1), LuaValue::String("one".to_string()))]);
    let encoded = encode_value(&value).unwrap();
    assert_eq!(decode_payload(&encoded).unwrap(), serialize(&value));
}

#[test]
fn decode_reports_deserialize_error() {
    // raw DEFLATE of [3, 0]: a serialization version that is too high
    let mut e = flate2::write::DeflateEncoder::new(Vec::new(), flate2::Compression::best());
    e.write_all(&[3, 0]).unwrap();
    let compressed = e.finish().unwrap();
    let s = format!("!WA:2!{}", encode_for_print(&compressed));
    assert!(matches!(
        decode_value(&s),
        Err(DecodeError::Deserialize(SerializeError::InvalidVersion(3)))
    ));
}

#[test]
fn validate_reports() {
    let with_d = LuaValue::Table(vec![(LuaValue::String("d".to_string()), LuaValue::Nil)]);
    let r = validate(&encode_value(&with_d).unwrap());
    assert!(r.valid);
    assert!(r.errors.is_empty());
    assert!(r.warnings.is_empty());
    assert_eq!(r.report(), "Valid WeakAura string\n");

    let without_d = LuaValue::Table(vec![(LuaValue::String("e".to_string()), LuaValue::Nil)]);
    let r = validate(&encode_value(&without_d).unwrap());
    assert!(r.valid);
    assert_eq!(r.warnings, vec!["Missing 'd' field (aura definition)".to_string()]);
    assert_eq!(
        r.report(),
        "Valid WeakAura string\n\nWarnings:\n  - Missing 'd' field (aura definition)\n"
    );

    let r = validate(&encode_value(&LuaValue::Int(3)).unwrap());
    assert!(r.valid);
    assert_eq!(r.warnings, vec!["Root value is not a table".to_string()]);

    let r = validate("invalid string");
    assert!(!r.valid);
    assert!(r.warnings.is_empty());
    assert_eq!(r.errors, vec!["Invalid WA string format: missing !WA:2! prefix".to_string()]);
    assert_eq!(
        r.report(),
        "Invalid WeakAura string\n\nErrors:\n  - Invalid WA string format: missing !WA:2! prefix\n"
    );

    let r = validate("!WA:1!abcd");
    assert_eq!(r.errors, vec!["Unsupported WA version: 1".to_string()]);
}

#[test]
fn report_lists_every_item() {
    let r = ValidationResult {
        valid: false,
        errors: vec!["one".to_string(), "two".to_string()],
        warnings: vec![],
    };
    assert_eq!(r.report(), "Invalid WeakAura string\n\nErrors:\n  - one\n  - two\n");
}

#[test]
fn import_data_reads_any_version() {
    let value = LuaValue::String("dump me".to_string());
    let encoded = encode_value(&value).unwrap();
    let data = &encoded["!WA:2!".len()..];
    assert_eq!(import_data(&format!("!WA:1!{}", data)).unwrap(), data.as_bytes().to_vec());
    assert_eq!(
        import_data(&format!("  !WA:anything!{}\n", data)).unwrap(),
        data.as_bytes().to_vec()
    );
    assert_eq!(import_data("hello"), Err(DataError::InvalidPrefix));
    assert_eq!(import_data("!WA:2"), Err(DataError::MissingMarker));
    assert_eq!(import_data("!WA:2!"), Ok(vec![]));
    assert_eq!(import_data("!WA:2!a!b"), Ok(b"a!b".to_vec()));
}

#[test]
fn inflate_payload_raw_and_zlib() {
    let bytes = vec![1u8, 0x52, b'h', b'e', b'l', b'l', b'o'];
    let mut d = flate2::write::DeflateEncoder::new(Vec::new(), flate2::Compression::fast());
    d.write_all(&bytes).unwrap();
    assert_eq!(inflate_payload(&d.finish().unwrap()).unwrap(), bytes);
    let mut z = flate2::write::ZlibEncoder::new(Vec::new(), flate2::Compression::fast());
    z.write_all(&bytes).unwrap();
    assert_eq!(inflate_payload(&z.finish().unwrap()).unwrap(), bytes);
    // a stored block whose length check fails is neither
    assert!(inflate_payload(&[0, 5, 0, 0, 0]).is_err());
}

#[test]
fn white_space_around_changes_nothing() {
    let value = LuaValue::Table(vec![(LuaValue::String("d".to_string()), LuaValue::Bool(true))]);
    let encoded = encode_value(&value).unwrap();
    let padded = format!("\u{3000}\t {}\n\u{a0}", encoded);
    assert_eq!(decode_value(&padded).unwrap(), decode_value(&encoded).unwrap());
    let r = validate(&padded);
    assert!(r.valid && r.warnings.is_empty());
}

#[test]
fn decompression_error_carries_the_decoder_text() {
    // neither a raw DEFLATE stream nor a zlib stream
    let s = format!("!WA:2!{}", encode_for_print(&[0, 5, 0, 0, 0]));
    match decode_value(&s) {
        Err(DecodeError::Decompression(t)) => {
            assert!(!t.is_empty());
            let again = format!("  {}\n", s);
            match decode_value(&again) {
                Err(e) => assert_eq!(e.message(), format!("Decompression error: {}", t)),
                Ok(_) => panic!("decoded"),
            }
        }
        other => panic!("{:?}", other),
    }
    assert_eq!(
        DecodeError::JsonSerialize("key must be a string".to_string()).message(),
        "JSON serialization error: key must be a string"
    );
}
