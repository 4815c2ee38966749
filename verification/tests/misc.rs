use autoeq::ffi::error_response_json;
use autoeq::frequency_response::{graphic_eq_text, validate_name};
use autoeq::peq::xorshift_next;
use autoeq::AutoEqError;

#[test]
fn error_json_escapes_quotes() {
    assert_eq!(error_response_json("bad"), r#"{"error":"bad"}"#);
    assert_eq!(error_response_json(r#"say "hi""#), r#"{"error":"say \"hi\""}"#);
    assert_eq!(error_response_json(""), r#"{"error":""}"#);
}

#[test]
fn names_are_trimmed_and_required() {
    assert_eq!(validate_name("  HD 600 \t").unwrap(), "HD 600");
    match validate_name(" \n ") {
        Err(AutoEqError::InvalidInput(m)) => assert_eq!(m, "name must not be empty"),
        other => panic!("{:?}", other),
    }
}

#[test]
fn xorshift_sequence() {
    let mut seed: u64 = 1;
    let a = xorshift_next(&mut seed);
    assert_eq!(a, 1082269761);
    assert_eq!(seed, a);
    let mut z: u64 = 0;
    assert_eq!(xorshift_next(&mut z), 1);
    let mut s: u64 = 0xDEADBEEF;
    for _ in 0..1000 {
        assert_ne!(xorshift_next(&mut s), 0);
    }
}

#[test]
fn validated_names_validate_to_themselves() {
    for name in ["  HD 600 \t", "x", " a b "] {
        let once = validate_name(name).unwrap();
        assert_eq!(validate_name(&once).unwrap(), once);
    }
}

#[test]
fn graphic_eq_line_format() {
    let bands: Vec<String> = vec!["20 -3.0".into(), "1k 0.5".into(), "20k 1.0".into()];
    assert_eq!(graphic_eq_text(&bands), "GraphicEQ: 20 -3.0; 1k 0.5; 20k 1.0");
    assert_eq!(graphic_eq_text(&vec!["20 0.0".to_string()]), "GraphicEQ: 20 0.0");
    assert_eq!(graphic_eq_text(&vec![]), "GraphicEQ: ");
    assert!(graphic_eq_text(&bands).starts_with("GraphicEQ:"));
}
