use wa_encoder::libserialize::{
    deserialize_with_floats, float_literals, serialize, Deserializer, SerializeError, Serializer,
};
use wa_encoder::types::LuaValue;

fn deserialize(data: &[u8]) -> Result<LuaValue, SerializeError> {
    deserialize_with_floats(data, &[])
}

#[test]
fn test_small_int() {
    for i in 0..=127i64 {
        let val = LuaValue::Int(i);
        let bytes = serialize(&val);
        let decoded = deserialize(&bytes).unwrap();
        assert_eq!(val, decoded, "Failed for i={}", i);
    }
}

#[test]
fn test_string() {
    let val = LuaValue::String("Hello, World!".to_string());
    let bytes = serialize(&val);
    let decoded = deserialize(&bytes).unwrap();
    assert_eq!(val, decoded);
}

#[test]
fn test_table() {
    let val = LuaValue::Table(vec![(LuaValue::String("key".to_string()), LuaValue::Int(42))]);
    let bytes = serialize(&val);
    let decoded = deserialize(&bytes).unwrap();
    assert_eq!(val, decoded);
}

#[test]
fn serialize_exact_bytes() {
    // version byte, then the value
    assert_eq!(serialize(&LuaValue::Nil), vec![1, 0]);
    assert_eq!(serialize(&LuaValue::Bool(true)), vec![1, 96]);
    assert_eq!(serialize(&LuaValue::Bool(false)), vec![1, 104]);
    // small integers: 2 * n + 1
    assert_eq!(serialize(&LuaValue::Int(0)), vec![1, 1]);
    assert_eq!(serialize(&LuaValue::Int(127)), vec![1, 255]);
    // twelve-bit integers: low nibble, sign, tag 4; then the high byte
    assert_eq!(serialize(&LuaValue::Int(128)), vec![1, 4, 8]);
    assert_eq!(serialize(&LuaValue::Int(-1)), vec![1, 0x1c, 0]);
    assert_eq!(serialize(&LuaValue::Int(4095)), vec![1, 0xf4, 0xff]);
    // 16-bit positive reader
    assert_eq!(serialize(&LuaValue::Int(4096)), vec![1, 8, 0x10, 0x00]);
    // 24-bit negative reader
    assert_eq!(serialize(&LuaValue::Int(-70000)), vec![1, 32, 0x01, 0x11, 0x70]);
    // embedded string: length * 16 + 2
    assert_eq!(serialize(&LuaValue::String("ab".to_string())), vec![1, 0x22, b'a', b'b']);
    // embedded array of two small integers
    assert_eq!(
        serialize(&LuaValue::Array(vec![LuaValue::Int(1), LuaValue::Int(2)])),
        vec![1, 0x2a, 3, 5]
    );
    // embedded table with one pair
    assert_eq!(
        serialize(&LuaValue::Table(vec![(LuaValue::Int(1), LuaValue::Bool(true))])),
        vec![1, 0x16, 3, 96]
    );
}

#[test]
fn serialize_float_and_large_int() {
    // a float that is not integral: reader 9, eight big-endian bytes
    let half = 1.5f64.to_bits();
    let bytes = serialize(&LuaValue::Float(half));
    let mut expected = vec![1u8, 72];
    expected.extend_from_slice(&half.to_be_bytes());
    assert_eq!(bytes, expected);
    assert_eq!(deserialize(&bytes).unwrap(), LuaValue::Float(half));
    // an integral float is written as an integer
    assert_eq!(serialize(&LuaValue::Float(3.0f64.to_bits())), vec![1, 7]);
    // integers pass through binary64: 2^53 + 1 is written as 2^53
    let big = (1i64 << 53) + 1;
    assert_eq!(serialize(&LuaValue::Int(big)), serialize(&LuaValue::Int(1i64 << 53)));
}

#[test]
fn repeated_strings_are_references() {
    let s = LuaValue::String("hello".to_string());
    let val = LuaValue::Array(vec![s.clone(), s.clone()]);
    let bytes = serialize(&val);
    // array of two, the string, then a reference to string 1
    assert_eq!(
        bytes,
        vec![1, 0x2a, 0x52, b'h', b'e', b'l', b'l', b'o', 26 * 8, 1]
    );
    assert_eq!(deserialize(&bytes).unwrap(), val);
}

#[test]
fn deserialize_errors() {
    assert_eq!(deserialize(&[]), Err(SerializeError::UnexpectedEnd));
    assert_eq!(deserialize(&[3, 0]), Err(SerializeError::InvalidVersion(3)));
    assert_eq!(deserialize(&[1]), Err(SerializeError::UnexpectedEnd));
    assert_eq!(deserialize(&[1, 0x32, b'a']), Err(SerializeError::UnexpectedEnd));
    // reader 31 wants three more bytes
    assert_eq!(deserialize(&[1, 0xf8]), Err(SerializeError::UnexpectedEnd));
    // a reference to a string that was never read
    assert_eq!(deserialize(&[1, 26 * 8, 1]), Err(SerializeError::InvalidStringRef(1)));
    // a reference to a table that was never read
    assert_eq!(deserialize(&[1, 29 * 8, 1]), Err(SerializeError::InvalidTableRef(1)));
}

#[test]
fn serialize_error_messages() {
    assert_eq!(SerializeError::InvalidTypeByte(0xf8).message(), "Invalid type byte: 0xf8");
    assert_eq!(SerializeError::InvalidTypeByte(5).message(), "Invalid type byte: 0x05");
    assert_eq!(SerializeError::UnexpectedEnd.message(), "Unexpected end of input");
    assert_eq!(SerializeError::InvalidString.message(), "Invalid string encoding");
    assert_eq!(SerializeError::InvalidTableRef(7).message(), "Invalid table reference: 7");
    assert_eq!(SerializeError::InvalidStringRef(12).message(), "Invalid string reference: 12");
    assert_eq!(SerializeError::UnsupportedFloat.message(), "Unsupported float value");
    assert_eq!(SerializeError::InvalidVersion(9).message(), "Invalid serialization version: 9");
}

#[test]
fn float_written_as_text() {
    // reader 10: a length byte, then the text of the float
    let data = [1u8, 80, 4, b'2', b'.', b'5', b'0'];
    let texts = float_literals(&data);
    assert_eq!(texts, vec![b"2.50".to_vec()]);
    let value = deserialize_with_floats(&data, &[2.5f64.to_bits()]).unwrap();
    assert_eq!(value, LuaValue::Float(2.5f64.to_bits()));
    // reader 11 is the negative of the text
    let data = [1u8, 88, 3, b'0', b'.', b'5'];
    let value = deserialize_with_floats(&data, &[0.5f64.to_bits()]).unwrap();
    assert_eq!(value, LuaValue::Float((-0.5f64).to_bits()));
    // text that is no float
    let data = [1u8, 80, 3, b'a', b'b', b'c'];
    assert_eq!(deserialize(&data), Err(SerializeError::UnsupportedFloat));
}

#[test]
fn serializer_and_deserializer_objects() {
    let val = LuaValue::Table(vec![
        (LuaValue::String("id".to_string()), LuaValue::String("Test".to_string())),
        (LuaValue::Int(1), LuaValue::Array(vec![LuaValue::Nil, LuaValue::Bool(true)])),
    ]);
    let bytes = Serializer::new().serialize(&val);
    assert_eq!(bytes, serialize(&val));
    let back = Deserializer::new(&bytes, &[]).deserialize().unwrap();
    assert_eq!(back, val);
}

#[test]
fn serialize_roundtrip_many_values() {
    let mut items = Vec::new();
    for i in [-100000i64, -4096, -4095, -200, -1, 0, 1, 127, 128, 255, 4095, 4096, 65535, 65536, 1 << 24, 1 << 40] {
        items.push(LuaValue::Int(i));
    }
    items.push(LuaValue::String(String::new()));
    items.push(LuaValue::String("x".repeat(20)));
    items.push(LuaValue::String("x".repeat(20)));
    items.push(LuaValue::String("é√".to_string()));
    items.push(LuaValue::Float(0.25f64.to_bits()));
    let val = LuaValue::Array(items);
    let bytes = serialize(&val);
    assert_eq!(deserialize(&bytes).unwrap(), val);
}

#[test]
fn strings_decode_lossily() {
    // invalid UTF-8 in a string becomes U+FFFD
    let data = [1u8, 0x32, 0xff, b'a', b'b'];
    assert_eq!(deserialize(&data).unwrap(), LuaValue::String("\u{FFFD}ab".to_string()));
    // valid UTF-8 is kept
    let data = [1u8, 0x22, 0xc3, 0xa9];
    assert_eq!(deserialize(&data).unwrap(), LuaValue::String("é".to_string()));
}

#[test]
fn float_text_must_be_utf8() {
    let data = [1u8, 80, 2, 0xff, 0xfe];
    assert_eq!(deserialize(&data), Err(SerializeError::InvalidString));
    assert_eq!(float_literals(&data), Vec::<Vec<u8>>::new());
}

#[test]
fn float_text_syntax() {
    for ok in ["1", "1.", ".5", "-2.5e10", "+3E-2", "inf", "-Infinity", "NaN", "1e+7"] {
        let mut data = vec![1u8, 80, ok.len() as u8];
        data.extend_from_slice(ok.as_bytes());
        let texts = float_literals(&data);
        assert_eq!(texts, vec![ok.as_bytes().to_vec()], "{}", ok);
    }
    for bad in ["", ".", "e5", "1e", "1.2.3", "--1", "1e5e5", "in", "0x10", " 1"] {
        let mut data = vec![1u8, 80, bad.len() as u8];
        data.extend_from_slice(bad.as_bytes());
        assert_eq!(deserialize(&data), Err(SerializeError::UnsupportedFloat), "{}", bad);
    }
}

#[test]
fn no_byte_is_an_unknown_type() {
    for b in 0..=255u8 {
        for tail in [vec![], vec![0u8; 16]] {
            let mut data = vec![1u8, b];
            data.extend_from_slice(&tail);
            let r = deserialize(&data);
            assert!(!matches!(r, Err(SerializeError::InvalidTypeByte(_))), "byte {}", b);
        }
    }
}
