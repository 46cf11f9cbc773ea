use language::data::{parse_and_validate, SpeFeature};

fn is_plus(f: &SpeFeature, name: &str) -> bool {
    matches!(f, SpeFeature::Plus(n) if n == name)
}

fn is_minus(f: &SpeFeature, name: &str) -> bool {
    matches!(f, SpeFeature::Minus(n) if n == name)
}

#[test]
fn test_spe_feature_from_str() {
    assert!(is_plus(&SpeFeature::parse("+nasal").ok().expect("plus feature"), "nasal"));
    assert!(is_minus(&SpeFeature::parse("-voice").ok().expect("minus feature"), "voice"));
    assert!(SpeFeature::parse("invalid").is_err());
}

#[test]
fn test_spe_feature_display() {
    assert_eq!(SpeFeature::Plus("nasal".to_string()).to_text(), "+nasal");
    assert_eq!(SpeFeature::Minus("voice".to_string()).to_text(), "-voice");
}

#[test]
fn test_parse_and_validate_success() {
    let json_str = r#"{
        "p": {
            "type": "consonant",
            "features": ["-voice", "+bilabial", "+stop"]
        }
    }"#;
    let result = parse_and_validate(json_str);
    assert!(result.is_ok());
}

#[test]
fn test_parse_and_validate_invalid_json() {
    let result = parse_and_validate("{ invalid json ");
    assert!(result.is_err());
}

#[test]
fn test_parse_and_validate_invalid_schema() {
    let json_str = r#"{
        "p": {
            "type": "invalid_type",
            "features": ["-voice"]
        }
    }"#;
    let result = parse_and_validate(json_str);
    assert!(result.is_err());
}

#[test]
fn test_parse_and_validate_deserialization_error() {
    let json_str = r#"{
        "p": {
            "type": "consonant",
            "features": ["invalid"]
        }
    }"#;
    let result = parse_and_validate(json_str);
    assert!(result.is_err());
}

#[test]
fn parsed_dataset_keeps_symbols_and_features() {
    let json_str = r#"{
        "p": { "type": "consonant", "features": ["-voice", "+stop"] },
        "ʰ": { "type": "modifier", "added_features": ["+spread"] }
    }"#;
    let data = parse_and_validate(json_str).ok().expect("valid dataset");
    assert_eq!(data.len(), 2);
    assert_eq!(data[0].0, "p");
    assert_eq!(data[1].0, "ʰ");
}

#[test]
fn unreadable_datasets_name_what_could_not_be_read() {
    let cases: Vec<(&str, &str)> = vec![
        ("[]", "Deserialization error: the dataset must be an object"),
        (r#"{"p": 1}"#, "Deserialization error: an entry must be an object"),
        (r#"{"p": {"features": []}}"#, "Deserialization error: missing entry type"),
        (r#"{"p": {"type": "bogus"}}"#, "Deserialization error: unknown entry type bogus"),
        (
            r#"{"p": {"type": "consonant", "features": ["+voice", "invalid"]}}"#,
            "Deserialization error: Feature invalid must start with '+' or '-'",
        ),
        (r#"{"p": {"type": "consonant", "features": [3]}}"#, "Deserialization error: expected a list of features"),
        (r#"{"p": {"type": "vowel", "place": "front"}}"#, "Deserialization error: expected a list of strings"),
        (r#"{"p": {"type": "vowel", "sonority": 1.5}}"#, "Deserialization error: expected an integer"),
        (r#"{"p": {"type": "vowel", "sonority": 3000000000}}"#, "Deserialization error: integer out of range"),
        (r#"{"h": {"type": "modifier", "removed_features": ["x"]}}"#, "Deserialization error: Feature x must start with '+' or '-'"),
    ];
    for (text, message) in cases {
        match parse_and_validate(text) {
            Err(m) => assert_eq!(m, message),
            Ok(_) => panic!("expected an error for {text}"),
        }
        match language::ipa_system::IpaSystem::new(text) {
            Err(language::ipa_system::IpaError::ParseError(m)) => assert_eq!(m, message),
            _ => panic!("expected a parse error for {text}"),
        }
    }
}
