use wa_encoder::encodeforprint::{decode_char, decode_for_print, encode_for_print, EncodeForPrintError};

#[test]
fn encodeforprint_test_roundtrip() {
    let original = b"Hello, World! This is a test of the WeakAura encoding.";
    let encoded = encode_for_print(original);
    let decoded = decode_for_print(&encoded).unwrap();
    assert_eq!(original.to_vec(), decoded);
}

#[test]
fn test_empty() {
    let encoded = encode_for_print(b"");
    assert_eq!(encoded, "");
    let decoded = decode_for_print("").unwrap();
    assert!(decoded.is_empty());
}

#[test]
fn test_single_byte() {
    let original = b"A";
    let encoded = encode_for_print(original);
    let decoded = decode_for_print(&encoded).unwrap();
    assert_eq!(original.to_vec(), decoded);
}

#[test]
fn test_two_bytes() {
    let original = b"AB";
    let encoded = encode_for_print(original);
    let decoded = decode_for_print(&encoded).unwrap();
    assert_eq!(original.to_vec(), decoded);
}

#[test]
fn test_alphabet_chars() {
    let alphabet = b"abcdefghijklmnopqrstuvwxyzABCDEFGHIJKLMNOPQRSTUVWXYZ0123456789()";
    for &c in alphabet.iter() {
        let val = decode_char(c).unwrap();
        assert!(val < 64);
    }
}

#[test]
fn alphabet_values_in_order() {
    let alphabet = b"abcdefghijklmnopqrstuvwxyzABCDEFGHIJKLMNOPQRSTUVWXYZ0123456789()";
    for (i, &c) in alphabet.iter().enumerate() {
        assert_eq!(decode_char(c).unwrap() as usize, i);
    }
    assert_eq!(decode_char(b'!'), Err(EncodeForPrintError::InvalidChar('!')));
    assert_eq!(decode_char(b'~'), Err(EncodeForPrintError::InvalidChar('~')));
}

#[test]
fn encode_known_groups() {
    // three zero bytes are four zero characters
    assert_eq!(encode_for_print(&[0, 0, 0]), "aaaa");
    // little-endian packing: 1 is the lowest six bits of the first character
    assert_eq!(encode_for_print(&[1, 0, 0]), "baaa");
    // 0xff 0xff 0xff is all ones
    assert_eq!(encode_for_print(&[255, 255, 255]), "))))");
    // one byte is two characters, two bytes three
    assert_eq!(encode_for_print(&[255]), ")d");
    assert_eq!(encode_for_print(&[0, 0]), "aaa");
}

#[test]
fn decode_skips_unprintable_bytes() {
    // spaces, newlines and tabs are ignored between characters
    assert_eq!(decode_for_print("aa aa\n").unwrap(), vec![0, 0, 0]);
    assert_eq!(decode_for_print("\tbaaa").unwrap(), vec![1, 0, 0]);
}

#[test]
fn decode_rejects_foreign_character() {
    assert_eq!(decode_for_print("ab!d"), Err(EncodeForPrintError::InvalidChar('!')));
    assert_eq!(
        EncodeForPrintError::InvalidChar('!').message(),
        "Invalid character in input: !"
    );
    assert_eq!(EncodeForPrintError::InputTooShort.message(), "Input too short");
}

#[test]
fn decode_drops_leftover_bits() {
    // a single character holds no complete byte
    assert_eq!(decode_for_print("b").unwrap(), Vec::<u8>::new());
}

#[test]
fn print_roundtrip_all_lengths() {
    for n in 0..40usize {
        let data: Vec<u8> = (0..n).map(|i| (i * 37 + 11) as u8).collect();
        let text = encode_for_print(&data);
        assert_eq!(decode_for_print(&text).unwrap(), data);
    }
}

#[test]
fn decode_then_encode_whole_groups() {
    for text in ["abcd", "()()ZZ09", "aaaabbbbcccc", "Hello)World("] {
        let bytes = decode_for_print(text).unwrap();
        assert_eq!(bytes.len(), 3 * text.len() / 4);
        assert_eq!(encode_for_print(&bytes), text);
    }
}

#[test]
fn decoded_length_and_filtering() {
    assert_eq!(decode_for_print(" b\nb ").unwrap(), vec![0x41]);
    assert_eq!(decode_for_print("bbb").unwrap().len(), 2);
    assert_eq!(decode_for_print("bbbbb").unwrap().len(), 3);
    assert_eq!(decode_for_print("a\u{7f}a\u{1}a\u{e9}a").unwrap(), decode_for_print("aaaa").unwrap());
}
