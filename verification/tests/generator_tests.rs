use language::config::{
    ensure_default_sound_classes, LanguageConfig, NameConfig, PhonologyConfig, PhonotacticsConfig,
    SoundClass, SoundClassMap,
};
use language::generator::pattern::WordPattern;
use language::generator::validation::{is_valid_derivation_name, ValidationError};
use language::generator::{generate_word, matches_illegal_patterns, Draw, GenerationError, WordGenerator};
use language::ipa_string::IpaString;
use language::ipa_system::IpaSystem;
use language::matcher::ast::SoundMatcherPattern;
use language::prosody::ProsodicConfig;
use language::sound_class::SoundClassKey;
use std::cell::Cell;

fn test_system() -> IpaSystem {
    let json = r#"{
        "a": { "type": "vowel", "features": ["+syllabic"], "sonority": 10 },
        "e": { "type": "vowel", "features": ["+syllabic"], "sonority": 10 },
        "i": { "type": "vowel", "features": ["+syllabic"], "sonority": 10 },
        "k": { "type": "consonant", "features": ["-voice"], "sonority": 1 },
        "l": { "type": "consonant", "features": ["+voice", "+lateral"], "sonority": 7 },
        "p": { "type": "consonant", "features": ["-voice"], "sonority": 1 },
        "s": { "type": "consonant", "features": ["-voice"], "sonority": 3 },
        "t": { "type": "consonant", "features": ["-voice"], "sonority": 1 }
    }"#;
    IpaSystem::new(json).ok().expect("valid ipa system")
}

fn class(c: char, values: &[&str]) -> (SoundClassKey, SoundClass) {
    (
        SoundClassKey { letter: c },
        SoundClass {
            values: values.iter().map(|v| v.to_string()).collect(),
        },
    )
}

fn generator(patterns: &[&str]) -> WordGenerator {
    WordGenerator {
        patterns: patterns
            .iter()
            .map(|p| WordPattern::parse(p).ok().expect("valid pattern"))
            .collect(),
    }
}

fn make_test_config(system: &IpaSystem) -> LanguageConfig {
    LanguageConfig {
        id: 1,
        name: NameConfig {
            endonym: IpaString::parse("tet", system).ok().expect("valid word"),
            exonym: None,
        },
        phonology: PhonologyConfig {
            sound_classes: SoundClassMap {
                entries: vec![class('C', &["p", "t", "k"]), class('V', &["a", "e", "i"])],
            },
            phonotactics: PhonotacticsConfig {
                generators: vec![
                    ("default".to_string(), generator(&["CVC"])),
                    ("noun".to_string(), generator(&["(C)V[default]"])),
                ],
            },
            illegal_patterns: vec![],
            prosody: Some(ProsodicConfig::Unstressed),
        },
        sound_changes: None,
        orthography: None,
        derivations: None,
    }
}

/// A draw that answers with the given numbers in turn, then zeros.
fn scripted(answers: Vec<usize>) -> impl Fn(Draw) -> usize {
    let next = Cell::new(0usize);
    move |_d: Draw| {
        let i = next.get();
        next.set(i + 1);
        answers.get(i).copied().unwrap_or(0)
    }
}

#[test]
fn test_word_pattern_parsing_and_display() {
    let cases = vec![
        "CVC",
        "VV",
        "kV",
        "{p,t,k}V",
        "CV(C)",
        "CV(C)15%",
        "RVC",
        "QVC",
        "CV(CV)",
        "CV(C(V)10%)VF",
        "CV.CV",
        "CVˈCV",
        "[noun.masculine]t",
        "V[verb]",
        "{C,p,t}V", // Set containing sound class C
    ];

    for case in cases {
        let parsed = WordPattern::parse(case).ok().expect("failed to parse pattern");
        let displayed = parsed.to_text();
        assert_eq!(displayed, case, "Display mismatch for case: {case}");
    }
}

#[test]
fn test_word_generation() {
    let system = test_system();
    let config = make_test_config(&system);

    // Verify config is valid
    assert!(config.validate().is_ok(), "config should be valid");

    let draw = scripted(vec![]);
    let mut warning_logged = false;
    let word = generate_word("noun", &config, &system, &draw, 1, &mut warning_logged)
        .ok()
        .expect("should generate word");

    // We assert that the generated word is not empty
    assert!(!word.is_empty());
}

#[test]
fn generation_follows_the_draws() {
    let system = test_system();
    let config = make_test_config(&system);
    // noun: pattern 0; optional kept (percentile 0 < 20); C -> t; V -> e;
    // default: pattern 0; C -> k; V -> i; C -> p.
    let draw = scripted(vec![0, 0, 1, 1, 0, 2, 2, 0]);
    let mut warning_logged = false;
    let word = generate_word("noun", &config, &system, &draw, 1, &mut warning_logged)
        .ok()
        .expect("should generate word");
    assert_eq!(word, "te.kip");
    assert!(!warning_logged);
}

#[test]
fn optional_group_dropped_above_its_probability() {
    let system = test_system();
    let config = make_test_config(&system);
    // noun: pattern 0; optional dropped (percentile 50); V -> a;
    // default: pattern 0; C -> p; V -> a; C -> t.
    let draw = scripted(vec![0, 50, 0, 0, 0, 0, 1]);
    let mut warning_logged = false;
    let word = generate_word("noun", &config, &system, &draw, 1, &mut warning_logged)
        .ok()
        .expect("should generate word");
    assert_eq!(word, "a.pat");
}

#[test]
fn generation_reports_undefined_class_and_empty_class() {
    let system = test_system();
    let mut config = make_test_config(&system);
    config.phonology.phonotactics.generators = vec![("default".to_string(), generator(&["X"]))];
    let draw = scripted(vec![]);
    let mut warning_logged = false;
    match generate_word("default", &config, &system, &draw, 1, &mut warning_logged) {
        Err(GenerationError::UndefinedSoundClass(c)) => assert_eq!(c, "X"),
        _ => panic!("expected an undefined class"),
    }

    config.phonology.sound_classes.entries.push(class('X', &[]));
    match generate_word("default", &config, &system, &draw, 1, &mut warning_logged) {
        Err(GenerationError::EmptySoundClass(c)) => assert_eq!(c, "X"),
        _ => panic!("expected an empty class"),
    }
}

#[test]
fn generation_reports_unresolved_references_and_cycles() {
    let system = test_system();
    let mut config = make_test_config(&system);
    config.phonology.phonotactics.generators = vec![("noun".to_string(), generator(&["[verb]"]))];
    let draw = scripted(vec![]);
    let mut warning_logged = false;
    match generate_word("noun", &config, &system, &draw, 1, &mut warning_logged) {
        Err(GenerationError::Validation(ValidationError::UnresolvedGrammarRef(r))) => assert_eq!(r, "verb"),
        _ => panic!("expected an unresolved reference"),
    }

    config.phonology.phonotactics.generators = vec![("default".to_string(), generator(&["C[default]"]))];
    match generate_word("default", &config, &system, &draw, 1, &mut warning_logged) {
        Err(GenerationError::CircularGeneration(k)) => assert_eq!(k, "default"),
        _ => panic!("expected a circular generation"),
    }
}

#[test]
fn drawn_index_beyond_class_values_is_an_error() {
    let system = test_system();
    let config = make_test_config(&system);
    let draw = scripted(vec![0, 7]);
    let mut warning_logged = false;
    match generate_word("default", &config, &system, &draw, 1, &mut warning_logged) {
        Err(GenerationError::UndefinedSoundClass(m)) => {
            assert_eq!(m, "Value index 7 out of bounds for class C")
        }
        _ => panic!("expected an out of bounds value"),
    }
}

#[test]
fn illegal_words_are_retried_and_the_last_kept_with_a_warning() {
    let system = test_system();
    let mut config = make_test_config(&system);
    config.phonology.illegal_patterns =
        vec![SoundMatcherPattern::parse("p", &system).ok().expect("valid matcher")];
    assert!(matches_illegal_patterns("pat", &config, &system));
    assert!(!matches_illegal_patterns("tat", &config, &system));

    // First attempt pap (illegal; then its stress draw), second attempt tat.
    let draw = scripted(vec![0, 0, 0, 0, 0, 0, 1, 0, 1]);
    let mut warning_logged = false;
    let word = generate_word("default", &config, &system, &draw, 2, &mut warning_logged)
        .ok()
        .expect("should generate word");
    assert_eq!(word, "tat");
    assert!(!warning_logged);

    // Every attempt illegal: the last word is kept and the warning flag set.
    let draw = scripted(vec![]);
    let word = generate_word("default", &config, &system, &draw, 2, &mut warning_logged)
        .ok()
        .expect("should generate word");
    assert_eq!(word, "pap");
    assert!(warning_logged);
}

#[test]
fn test_validate_config_reports_first_failure() {
    let system = test_system();
    let mut config = make_test_config(&system);
    assert!(config.validate().is_ok());
    config.phonology.phonotactics.generators.push(("verb".to_string(), generator(&["CZ"])));
    assert_eq!(
        config.validate().unwrap_err(),
        ValidationError::UndefinedSoundClass("Z".to_string())
    );
}

#[test]
fn default_sound_classes_are_added_where_missing() {
    let classes = SoundClassMap {
        entries: vec![class('A', &["a"]), class('C', &["p"])],
    };
    let full = ensure_default_sound_classes(classes);
    let letters: Vec<char> = full.entries.iter().map(|(k, _)| k.letter).collect();
    assert_eq!(letters, vec!['A', 'C', 'D', 'L', 'V']);
    assert_eq!(full.entries[1].1.values, vec!["p".to_string()]);
    assert!(full.entries[2].1.values.is_empty());
}

#[test]
fn test_backreferences_basic() {
    let system = test_system();
    let pattern = SoundMatcherPattern::parse("C1VC1", &system).ok().expect("valid matcher");
    let classes = SoundClassMap {
        entries: vec![class('C', &["k", "l", "t"])],
    };

    assert!(pattern.matches("kak", &system, &classes));
    assert!(!pattern.matches("kal", &system, &classes));
    assert!(pattern.matches("tat", &system, &classes));
    assert!(!pattern.matches("tal", &system, &classes));
}

#[test]
fn test_backreferences_multiple() {
    let system = test_system();
    let pattern = SoundMatcherPattern::parse("C1C2VC2C1", &system).ok().expect("valid matcher");
    let classes = SoundClassMap {
        entries: vec![class('C', &["k", "l", "t", "p"])],
    };

    assert!(pattern.matches("ktatk", &system, &classes));
    assert!(!pattern.matches("ktatp", &system, &classes));
    assert!(pattern.matches("klalk", &system, &classes));
}

#[test]
fn test_ensure_default_sound_classes() {
    let classes = SoundClassMap {
        entries: vec![class('A', &["a"])],
    };
    let res = ensure_default_sound_classes(classes);
    let c = SoundClassKey::parse("C").ok().expect("valid");
    let a = SoundClassKey::parse("A").ok().expect("valid");
    assert!(res.get(&c).is_some());
    assert!(res.get(&a).is_some());
}

#[test]
fn written_patterns_read_back_the_same() {
    for case in ["(C)20%V", "CV(C)015%", "ka(t)VC", "[a_1.b2]{x,Y}"] {
        let parsed = WordPattern::parse(case).ok().expect("valid pattern");
        let text = parsed.to_text();
        let again = WordPattern::parse(&text).ok().expect("text reads back");
        assert_eq!(again.to_text(), text, "for {case}");
    }
    let parsed = WordPattern::parse("(C)20%V").ok().expect("valid pattern");
    assert_eq!(parsed.to_text(), "(C)V");
    let parsed = WordPattern::parse("CV(C)015%").ok().expect("valid pattern");
    assert_eq!(parsed.to_text(), "CV(C)15%");
}

#[test]
fn test_backreferences_feature_class() {
    let system = test_system();
    let pattern = SoundMatcherPattern::parse("[C1 -voiced]V[C1 -voiced]", &system).ok().expect("valid matcher");
    let classes = SoundClassMap {
        entries: vec![class('C', &["k", "l", "t"])],
    };

    assert!(pattern.matches("kak", &system, &classes));
    assert!(!pattern.matches("kal", &system, &classes));
}

#[test]
fn derivation_names_allow_capitals_digits_dots_and_underscores() {
    assert!(is_valid_derivation_name("PL2"));
    assert!(is_valid_derivation_name("DIM.X_1"));
    assert!(!is_valid_derivation_name("pl2"));
    assert!(!is_valid_derivation_name("P2"));
    assert!(!is_valid_derivation_name("A-B"));
}

#[test]
fn unknown_symbols_fall_back_to_vowel_letters() {
    let system = test_system();
    let classes = SoundClassMap { entries: vec![] };
    let cv = SoundMatcherPattern::parse("CV", &system).ok().expect("valid matcher");
    assert!(cv.matches("ko", &system, &classes));
    let cc = SoundMatcherPattern::parse("CC", &system).ok().expect("valid matcher");
    assert!(cc.matches("kx", &system, &classes));
    assert!(!cc.matches("ko", &system, &classes));
}

#[test]
fn the_d_class_is_one_of_the_language() {
    let system = test_system();
    let d = SoundMatcherPattern::parse("D", &system).ok().expect("valid matcher");
    let classes = SoundClassMap { entries: vec![class('D', &["t"])] };
    assert!(d.matches("ta", &system, &classes));
    assert!(!d.matches("ka", &system, &classes));
    let none = SoundClassMap { entries: vec![] };
    assert!(!d.matches("ta", &system, &none));
}
