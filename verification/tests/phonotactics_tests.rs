use language::ipa_system::IpaSystem;
use language::phonotactics::{PhonotacticPattern, PhonotacticsParser};
use language::sound_class::SoundClassKey;

fn sample_system() -> IpaSystem {
    let json = r#"{
        "a": { "type": "vowel", "features": ["+syllabic", "+low"] },
        "i": { "type": "vowel", "features": ["+syllabic", "+high"] },
        "t": { "type": "consonant", "features": ["-voice", "+coronal"] },
        "s": { "type": "consonant", "features": ["-voice", "+strident"] }
    }"#;
    IpaSystem::new(json).ok().expect("valid ipa system")
}

#[test]
fn phonotactics_test_valid_patterns() {
    let system = sample_system();
    let valid_cases = [
        "CVC",
        "CV(C)",
        "CD(L)C",
        "CD(L)50%C",
        "(C)VL",
        "(C)50%V(C)15%",
        "CV(CV)",
        "CV(C(V))",
        "SS(S)",
        "SSS",
        "CaC",
        "Cã(F)",
        "CV(C(V)10%)50%",
        "CtsC",
        "Ct͡sC",
        "CiːC",
        "(Ct)V",
    ];
    for case in valid_cases {
        let res = PhonotacticsParser::parse(case, &system);
        assert!(res.ok().is_some(), "Failed to parse: {case}");
    }
}

#[test]
fn test_phonotactic_pattern_parsing() {
    let system = sample_system();
    let p = PhonotacticPattern::parse("CV(C)50%", &system)
        .ok()
        .expect("valid pattern");
    assert!(matches!(p, PhonotacticPattern::Sequence(_)));
    let PhonotacticPattern::Sequence(seq) = p else {
        return;
    };
    assert_eq!(seq.len(), 3);
    let c = SoundClassKey::parse("C").ok().expect("valid C");
    let v = SoundClassKey::parse("V").ok().expect("valid V");
    assert!(matches!(seq.first(), Some(PhonotacticPattern::SoundClass(k)) if *k == c));
    assert!(matches!(seq.get(1), Some(PhonotacticPattern::SoundClass(k)) if *k == v));
    assert!(matches!(seq.get(2), Some(PhonotacticPattern::OptionalGroup(_, _))));
    let Some(PhonotacticPattern::OptionalGroup(inner, prob)) = seq.get(2) else {
        return;
    };
    assert!(matches!(**inner, PhonotacticPattern::SoundClass(k) if k == c));
    assert_eq!(*prob, 50);
}

#[test]
fn test_invalid_patterns() {
    let system = sample_system();
    let invalid_cases = [
        "C V C",
        "CV(C)100%",
        "()",
        "CV(C)%",
        "12C",
        "50%C",
        "C@",
        "C(V))",
    ];
    for case in invalid_cases {
        let res = PhonotacticPattern::parse(case, &system);
        assert!(res.is_err(), "Should have failed to parse: {case}");
    }
}

#[test]
fn phonotactic_pattern_text_round_trip() {
    let system = sample_system();
    for case in ["CV(C)", "CV(C)50%", "(C)VL", "CV(C(V)10%)50%", "CaC", "(Ct)V"] {
        let p = PhonotacticPattern::parse(case, &system).ok().expect("valid pattern");
        assert_eq!(p.to_text(), case);
    }
    let p = PhonotacticPattern::parse("C(V)20%", &system).ok().expect("valid pattern");
    assert_eq!(p.to_text(), "C(V)");
    let p = PhonotacticPattern::parse("C(V)05%", &system).ok().expect("valid pattern");
    assert_eq!(p.to_text(), "C(V)5%");
}

#[test]
fn phonotactic_unknown_ipa_is_rejected() {
    let system = sample_system();
    assert!(PhonotacticPattern::parse("CoC", &system).is_err());
    let e = PhonotacticPattern::parse("C@", &system).err().expect("error");
    assert!(e.message().starts_with("Failed to parse pattern: "));
}
