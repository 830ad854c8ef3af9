use wa_encoder::requests::{starts_with_brace, DecodeReq, EncodeReq, ValidateReq};

#[test]
fn inline_json_or_path() {
    let req = EncodeReq { input: "  {\"d\":{}}".to_string() };
    assert!(req.is_inline_json());
    let req = EncodeReq { input: "\n\t{".to_string() };
    assert!(req.is_inline_json());
    let req = EncodeReq { input: "aura.json".to_string() };
    assert!(!req.is_inline_json());
    let req = EncodeReq { input: "   ".to_string() };
    assert!(!req.is_inline_json());
}

#[test]
fn brace_at_the_very_start() {
    assert!(starts_with_brace("{}"));
    assert!(!starts_with_brace(" {}"));
    assert!(!starts_with_brace(""));
    assert!(!starts_with_brace("[1]"));
}

#[test]
fn request_fields() {
    let d = DecodeReq { import_string: "!WA:2!".to_string() };
    let v = ValidateReq { import_string: d.import_string.clone() };
    assert_eq!(v.import_string, "!WA:2!");
}
