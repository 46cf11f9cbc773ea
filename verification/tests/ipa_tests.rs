use language::data::SpeFeature;
use language::ipa_string::IpaString;
use language::ipa_system::IpaSystem;
use language::sequence::{is_modifier, PhonemeSequence, ProsodyMarker, SequenceElement};
use language::sequence_parser::{parse_phoneme_segment_op, parse_single_element_op, PhonemeSegmentContext};

/// A small dataset with the symbols the sequence tests use.
fn sample_system() -> IpaSystem {
    let json = r#"{
        "t": { "type": "consonant", "features": ["-voice", "+coronal"] },
        "l": { "type": "consonant", "features": ["+voice", "+lateral"] },
        "k": { "type": "consonant", "features": ["-voice", "+dorsal"] },
        "s": { "type": "consonant", "features": ["-voice", "+strident"] },
        "p": { "type": "consonant", "features": ["-voice", "+labial"] },
        "a": { "type": "vowel", "features": ["+syllabic", "+low"] },
        "i": { "type": "vowel", "features": ["+syllabic", "+high"] },
        "e": { "type": "vowel", "features": ["+syllabic"] },
        "ɑ": { "type": "vowel", "features": ["+syllabic", "+back"] },
        "ʰ": { "type": "modifier", "added_features": ["+spread_glottis"] }
    }"#;
    IpaSystem::new(json).ok().expect("valid ipa system")
}

#[test]
fn test_get_phoneme_data_not_found() {
    let json_data = r"{}";
    let system = IpaSystem::new(json_data).ok().expect("failed to unwrap");
    assert!(system.get_phoneme_data("p").is_none());
}

#[test]
fn test_get_phoneme_data_modifier() {
    let json_data = r#"{
        "h": {
            "type": "modifier",
            "added_features": ["+aspirated"]
        }
    }"#;
    let system = IpaSystem::new(json_data).ok().expect("failed to unwrap");
    assert!(system.get_phoneme_data("h").is_none());
}

#[test]
fn test_combine_with_modifier_base_not_found() {
    let json_data = r#"{
        "h": {
            "type": "modifier",
            "added_features": ["+aspirated"]
        }
    }"#;
    let system = IpaSystem::new(json_data).ok().expect("failed to unwrap");
    assert!(system.combine_with_modifier("p", "h").is_none());
}

#[test]
fn test_combine_with_modifier_mod_not_found() {
    let json_data = r#"{
        "p": {
            "type": "consonant",
            "features": ["-voice"]
        }
    }"#;
    let system = IpaSystem::new(json_data).ok().expect("failed to unwrap");
    assert!(system.combine_with_modifier("p", "h").is_none());
}

#[test]
fn test_combine_with_modifier_mod_is_not_modifier() {
    let json_data = r#"{
        "p": {
            "type": "consonant",
            "features": ["-voice"]
        },
        "t": {
            "type": "consonant",
            "features": ["-voice"]
        }
    }"#;
    let system = IpaSystem::new(json_data).ok().expect("failed to unwrap");
    assert!(system.combine_with_modifier("p", "t").is_none());
}

#[test]
fn test_ipa_system_new_parse_error() {
    let json_data = r"{ invalid json }";
    let result = IpaSystem::new(json_data);
    assert!(result.is_err());
}

#[test]
fn test_combine_with_modifier_success() {
    let json_data = r#"{
        "p": {
            "type": "consonant",
            "features": ["-voice", "+bilabial"]
        },
        "h": {
            "type": "modifier",
            "added_features": ["+aspirated"],
            "removed_features": ["-voice"]
        }
    }"#;
    let system = IpaSystem::new(json_data).ok().expect("failed to unwrap");
    let combined = system
        .combine_with_modifier("p", "h")
        .expect("Combination should succeed");

    assert!(combined
        .iter()
        .any(|f| matches!(f, SpeFeature::Plus(s) if s == "bilabial")));
    assert!(combined
        .iter()
        .any(|f| matches!(f, SpeFeature::Plus(s) if s == "aspirated")));
    assert!(!combined
        .iter()
        .any(|f| matches!(f, SpeFeature::Minus(s) if s == "voice")));
}

#[test]
fn test_is_modifier() {
    assert!(is_modifier('ʰ'));
    assert!(is_modifier('̃'));
    assert!(is_modifier('ː'));
    assert!(!is_modifier('a'));
    assert!(!is_modifier('p'));
}

#[test]
fn test_parse_stress_and_syllable_break() {
    let system = sample_system();
    let seq = PhonemeSequence::parse_with_system("'talk", &system).ok().unwrap();
    assert_eq!(seq.elements.len(), 5);
    assert!(matches!(
        seq.elements[0],
        SequenceElement::Prosody(ProsodyMarker::PrimaryStress)
    ));

    let seq2 = PhonemeSequence::parse_with_system("ˌtalk", &system).ok().unwrap();
    assert_eq!(seq2.elements.len(), 5);
    assert!(matches!(
        seq2.elements[0],
        SequenceElement::Prosody(ProsodyMarker::SecondaryStress)
    ));

    let seq3 = PhonemeSequence::parse_with_system("'sliːp.les", &system).ok().unwrap();
    assert_eq!(seq3.elements.len(), 9);
    assert!(matches!(
        seq3.elements[0],
        SequenceElement::Prosody(ProsodyMarker::PrimaryStress)
    ));
    assert!(matches!(seq3.elements[1], SequenceElement::Phoneme(_)));
    assert!(matches!(seq3.elements[5], SequenceElement::SyllableBreak));
}

#[test]
fn test_conversions() {
    let system = sample_system();
    let seq = PhonemeSequence::parse_with_system("kʰɑʰp", &system).ok().unwrap();
    let ipa = IpaString::from_sequence(seq.copy());
    assert_eq!(ipa.as_str(), "kʰɑʰp");

    let SequenceElement::Phoneme(p0) = &seq.elements[0] else {
        panic!("expected Phoneme");
    };
    let ipa_p = IpaString::from_phoneme(p0);
    assert_eq!(ipa_p.as_str(), "kʰ");
}

#[test]
fn test_parse_simple_word() {
    let system = sample_system();
    let seq = PhonemeSequence::parse_with_system("talk", &system).ok().unwrap();
    assert_eq!(seq.elements.len(), 4);
    assert_eq!(seq.to_text(), "talk");
    let phonemes = language::sequence::phonemes_in(&seq.elements);
    assert_eq!(phonemes.len(), 4);
    assert_eq!(phonemes[0].base, "t");
    assert_eq!(phonemes[1].base, "a");
    assert_eq!(phonemes[2].base, "l");
    assert_eq!(phonemes[3].base, "k");
}

#[test]
fn test_parse_modifiers() {
    let system = sample_system();
    let seq = PhonemeSequence::parse_with_system("kʰɑʰp", &system).ok().unwrap();
    assert_eq!(seq.elements.len(), 3);
    assert_eq!(seq.to_text(), "kʰɑʰp");
    let SequenceElement::Phoneme(p0) = &seq.elements[0] else {
        panic!("expected Phoneme at index 0");
    };
    assert_eq!(p0.base, "k");
    assert_eq!(p0.modifiers, vec!["ʰ"]);
    let SequenceElement::Phoneme(p1) = &seq.elements[1] else {
        panic!("expected Phoneme at index 1");
    };
    assert_eq!(p1.base, "ɑ");
    assert_eq!(p1.modifiers, vec!["ʰ"]);
    let SequenceElement::Phoneme(p2) = &seq.elements[2] else {
        panic!("expected Phoneme at index 2");
    };
    assert_eq!(p2.base, "p");
    assert!(p2.modifiers.is_empty());
}

#[test]
fn test_parse_multiple_modifiers() {
    let system = sample_system();
    let seq = PhonemeSequence::parse_with_system("kʰʰɑʰːpː", &system).ok().unwrap();
    assert_eq!(seq.elements.len(), 3);
    assert_eq!(seq.to_text(), "kʰʰɑʰːpː");
    let SequenceElement::Phoneme(p0) = &seq.elements[0] else {
        panic!("expected Phoneme at index 0");
    };
    assert_eq!(p0.base, "k");
    assert_eq!(p0.modifiers, vec!["ʰ", "ʰ"]);
    let SequenceElement::Phoneme(p1) = &seq.elements[1] else {
        panic!("expected Phoneme at index 1");
    };
    assert_eq!(p1.base, "ɑ");
    assert_eq!(p1.modifiers, vec!["ʰ", "ː"]);
}

#[test]
fn test_parse_combined_modifier() {
    let system = sample_system();
    let seq = PhonemeSequence::parse_with_system("sɑ̃", &system).ok().unwrap();
    assert_eq!(seq.elements.len(), 2);
    assert_eq!(seq.to_text(), "sɑ̃");
    let SequenceElement::Phoneme(p1) = &seq.elements[1] else {
        panic!("expected Phoneme at index 1");
    };
    assert_eq!(p1.base, "ɑ");
    assert_eq!(p1.modifiers, vec!["̃"]);
}

#[test]
fn test_unrecognized_base_phoneme_errors() {
    let system = sample_system();
    let result = PhonemeSequence::parse_with_system("p1a", &system);
    assert!(result.is_err());
    let err = result.err().unwrap().message();
    assert!(err.contains("Unrecognized base phoneme"));
}

#[test]
fn test_modifier_without_base_errors() {
    let system = sample_system();
    let result = PhonemeSequence::parse_with_system("ʰp", &system);
    assert!(result.is_err());
    let err = result.err().unwrap().message();
    assert!(err.contains("Modifier") && err.contains("without a preceding base phoneme"));
}

#[test]
fn test_unrecognized_modifier_preserved() {
    let system = sample_system();
    let char_mod = '\u{1AB0}';
    let word = format!("p{char_mod}a");
    let seq = PhonemeSequence::parse_with_system(&word, &system).ok().unwrap();
    assert_eq!(seq.elements.len(), 2);
    let SequenceElement::Phoneme(p0) = &seq.elements[0] else {
        panic!("expected Phoneme");
    };
    assert_eq!(p0.base, "p");
    assert_eq!(p0.modifiers, vec![char_mod.to_string()]);
}

#[test]
fn aliases_resolve_to_their_symbols() {
    let json = r#"{
        "ɡ": { "type": "consonant", "features": ["+voice", "+dorsal"], "aliases": ["g"] },
        "a": { "type": "vowel", "features": ["+syllabic"] }
    }"#;
    let system = IpaSystem::new(json).ok().expect("valid ipa system");
    assert_eq!(system.resolve_alias("g"), Some("ɡ"));
    assert_eq!(system.resolve_alias("ɡ"), Some("ɡ"));
    assert_eq!(system.resolve_alias("a"), Some("a"));
    assert_eq!(system.resolve_alias("q"), None);
}

#[test]
fn invalid_json_is_a_parse_error_with_the_reader_message() {
    match IpaSystem::new("{ invalid json }") {
        Err(language::ipa_system::IpaError::ParseError(m)) => assert!(m.starts_with("JSON parsing error: ")),
        _ => panic!("expected a parse error"),
    }
}

#[test]
fn segment_past_the_end_is_an_error_and_leaves_the_index() {
    let system = sample_system();
    let chars: Vec<char> = "ta".chars().collect();
    let ctx = PhonemeSegmentContext { chars: &chars, s: "ta" };
    let mut idx = 5usize;
    match parse_phoneme_segment_op(&ctx, 5, &mut idx, &system) {
        Err(language::ipa_string::IpaStringError::InvalidSequence(m)) => assert_eq!(m, "Index out of bounds"),
        _ => panic!("expected an error"),
    }
    assert_eq!(idx, 5);
    let chars: Vec<char> = "xa".chars().collect();
    let ctx = PhonemeSegmentContext { chars: &chars, s: "xa" };
    let mut idx = 0usize;
    match parse_phoneme_segment_op(&ctx, 0, &mut idx, &system) {
        Err(language::ipa_string::IpaStringError::InvalidSequence(m)) => {
            assert_eq!(m, "Unrecognized base phoneme starting with 'x' at index 0 in string \"xa\"")
        },
        _ => panic!("expected an error"),
    }
    assert_eq!(idx, 0);
}

#[test]
fn sequence_errors_name_the_fault() {
    let system = sample_system();
    match PhonemeSequence::parse_with_system("ʰp", &system) {
        Err(language::ipa_string::IpaStringError::InvalidSequence(m)) => {
            assert_eq!(m, "Modifier 'ʰ' found without a preceding base phoneme at index 0 in string \"ʰp\"")
        },
        _ => panic!("expected an error"),
    }
}

#[test]
fn segment_reads_modifiers_where_the_cursor_stands() {
    let system = sample_system();
    let chars: Vec<char> = "tʰaʰ".chars().collect();
    let ctx = PhonemeSegmentContext { chars: &chars, s: "tʰaʰ" };
    let mut idx = 2usize;
    match parse_phoneme_segment_op(&ctx, 0, &mut idx, &system) {
        Ok(SequenceElement::Phoneme(p)) => {
            assert_eq!(p.base, "t");
            assert_eq!(p.modifiers, vec!["ʰ".to_string()]);
        },
        _ => panic!("expected a phoneme"),
    }
    assert_eq!(idx, 4);
    let chars: Vec<char> = "ta".chars().collect();
    let ctx = PhonemeSegmentContext { chars: &chars, s: "ta" };
    let mut idx = 10usize;
    match parse_phoneme_segment_op(&ctx, 0, &mut idx, &system) {
        Ok(SequenceElement::Phoneme(p)) => {
            assert_eq!(p.base, "t");
            assert!(p.modifiers.is_empty());
        },
        _ => panic!("expected a phoneme"),
    }
    assert_eq!(idx, 11);
}

#[test]
fn marks_advance_the_index_wherever_it_stands() {
    let system = sample_system();
    let chars: Vec<char> = "ta".chars().collect();
    let ctx = PhonemeSegmentContext { chars: &chars, s: "ta" };
    let mut idx = 100usize;
    match parse_single_element_op('.', &ctx, &mut idx, &system) {
        Ok(Some(SequenceElement::SyllableBreak)) => {},
        _ => panic!("expected a syllable break"),
    }
    assert_eq!(idx, 101);
    match parse_single_element_op('ˌ', &ctx, &mut idx, &system) {
        Ok(Some(SequenceElement::Prosody(ProsodyMarker::SecondaryStress))) => {},
        _ => panic!("expected a secondary stress"),
    }
    assert_eq!(idx, 102);
    match parse_single_element_op('t', &ctx, &mut idx, &system) {
        Err(language::ipa_string::IpaStringError::InvalidSequence(m)) => assert_eq!(m, "Index out of bounds"),
        _ => panic!("expected an error"),
    }
    assert_eq!(idx, 102);
    let mut idx = 0usize;
    match parse_single_element_op('ʰ', &ctx, &mut idx, &system) {
        Err(language::ipa_string::IpaStringError::InvalidSequence(m)) => {
            assert_eq!(m, "Modifier 'ʰ' found without a preceding base phoneme at index 0 in string \"ta\"")
        },
        _ => panic!("expected an error"),
    }
}
