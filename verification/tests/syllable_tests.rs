use language::config::{LanguageConfig, NameConfig, PhonologyConfig, PhonotacticsConfig, SoundClassMap};
use language::ipa_string::IpaString;
use language::ipa_system::IpaSystem;
use language::matcher::ast::SoundMatcherPattern;
use language::sequence::PhonemeSequence;
use language::syllabifier::syllabify_sequence;

/// The symbols of the syllabification cases, with sonority ranks from stops
/// (lowest) to vowels (highest), the length mark and the non-syllabic mark.
fn test_system() -> IpaSystem {
    let json = r#"{
        "a": { "type": "vowel", "features": ["+syllabic", "+low"], "sonority": 10 },
        "e": { "type": "vowel", "features": ["+syllabic"], "sonority": 10 },
        "i": { "type": "vowel", "features": ["+syllabic", "+high"], "sonority": 10 },
        "o": { "type": "vowel", "features": ["+syllabic", "+round"], "sonority": 10 },
        "u": { "type": "vowel", "features": ["+syllabic", "+high", "+round"], "sonority": 10 },
        "æ": { "type": "vowel", "features": ["+syllabic", "+low"], "sonority": 10 },
        "ɑ": { "type": "vowel", "features": ["+syllabic", "+back", "+low"], "sonority": 10 },
        "ɒ": { "type": "vowel", "features": ["+syllabic", "+back", "+round"], "sonority": 10 },
        "ɔ": { "type": "vowel", "features": ["+syllabic", "+back", "+round"], "sonority": 10 },
        "ə": { "type": "vowel", "features": ["+syllabic"], "sonority": 10 },
        "ɚ": { "type": "vowel", "features": ["+syllabic", "+rhotic"], "sonority": 10 },
        "ɛ": { "type": "vowel", "features": ["+syllabic"], "sonority": 10 },
        "ɪ": { "type": "vowel", "features": ["+syllabic", "+high"], "sonority": 10 },
        "b": { "type": "consonant", "features": ["+voice", "+labial"], "sonority": 2 },
        "c": { "type": "consonant", "features": ["-voice", "+dorsal"], "sonority": 1 },
        "d": { "type": "consonant", "features": ["+voice", "+coronal"], "sonority": 2 },
        "f": { "type": "consonant", "features": ["-voice", "+continuant"], "sonority": 3 },
        "k": { "type": "consonant", "features": ["-voice", "+dorsal"], "sonority": 1 },
        "l": { "type": "consonant", "features": ["+voice", "+lateral", "+liquid"], "sonority": 7 },
        "m": { "type": "consonant", "features": ["+voice", "+nasal"], "sonority": 5 },
        "n": { "type": "consonant", "features": ["+voice", "+nasal"], "sonority": 5 },
        "ŋ": { "type": "consonant", "features": ["+voice", "+nasal"], "sonority": 5 },
        "p": { "type": "consonant", "features": ["-voice", "+labial"], "sonority": 1 },
        "r": { "type": "consonant", "features": ["+voice", "+rhotic", "+liquid"], "sonority": 7 },
        "s": { "type": "consonant", "features": ["-voice", "+strident"], "sonority": 3 },
        "t": { "type": "consonant", "features": ["-voice", "+coronal"], "sonority": 1 },
        "w": { "type": "consonant", "features": ["+voice", "+round", "+glide"], "sonority": 8 },
        "z": { "type": "consonant", "features": ["+voice", "+strident"], "sonority": 4 },
        "ɹ": { "type": "consonant", "features": ["+voice", "+rhotic", "+liquid"], "sonority": 7 },
        "ː": { "type": "modifier", "added_features": ["+long"] },
        "\u032f": { "type": "modifier", "added_features": ["-syllabic"], "removed_features": ["+syllabic"] }
    }"#;
    IpaSystem::new(json).ok().expect("valid ipa system")
}

fn get_test_config(system: &IpaSystem, illegal_patterns: &[&str]) -> LanguageConfig {
    LanguageConfig {
        id: 0x018f4a3e_6b9f_7a1a_9b1a_2b3c4d5e6f7a,
        name: NameConfig {
            endonym: IpaString::parse("p", system).ok().expect("valid ipa"),
            exonym: None,
        },
        phonology: PhonologyConfig {
            sound_classes: SoundClassMap { entries: vec![] },
            phonotactics: PhonotacticsConfig { generators: vec![] },
            illegal_patterns: illegal_patterns
                .iter()
                .map(|p| SoundMatcherPattern::parse(p, system).ok().expect("valid illegal pattern"))
                .collect(),
            prosody: None,
        },
        sound_changes: None,
        orthography: None,
        derivations: None,
    }
}

fn syllabify(config: &LanguageConfig, system: &IpaSystem, text: &str) -> Result<String, String> {
    let ipa = IpaString::parse(text, system).ok().expect("valid ipa");
    match config.syllabify(&ipa, system, |_n: usize| 0) {
        Ok(w) => Ok(w.to_text()),
        Err(e) => Err(e.message()),
    }
}

#[test]
fn test_syllabification_cases() {
    let system = test_system();
    let config = get_test_config(&system, &[]);
    let cases = [
        ("ˈfɑɹmɚ", "ˈfɑɹ.mɚ"),
        ("dɑːns", "dɑːns"),
        ("wɔkɪŋ", "wɔ.kɪŋ"),
        ("mankind", "man.kind"),
        ("ˈsliːp", "ˈsliːp"),
        ("ki̯el", "ki̯el"),
        ("kuo̯l", "kuo̯l"),
        ("kiel", "ki.el"),
        ("əmɛɹɪkən", "ə.mɛɹ.ɪ.kən"),
        ("ˈfɑːmə", "ˈfɑː.mə"),
        ("pəˈlɪtɪkəl", "pəˈlɪt.ɪ.kəl"),
        ("ˌæstrəˈnɒmɪkəl", "ˌæs.trəˈnɒm.ɪ.kəl"),
    ];
    for (input, expected) in cases {
        let word = syllabify(&config, &system, input).ok().expect("valid syllabification");
        assert_eq!(word, expected, "Failed for input: {input}");
    }
}

#[test]
fn test_illegal_onset_rules() {
    let system = test_system();
    let config = get_test_config(&system, &["$cz"]);
    let word = syllabify(&config, &system, "acza").ok().expect("valid syllabification");
    assert_eq!(word, "ac.za");
}

#[test]
fn test_no_vowels_entire_word() {
    let system = test_system();
    let config = get_test_config(&system, &[]);
    let word = syllabify(&config, &system, "pst").ok().expect("valid syllabification");
    assert_eq!(word, "p.s.t");
}

#[test]
fn test_arbitrary_syllable_no_vowels() {
    let system = test_system();
    let config = get_test_config(&system, &[]);
    let word = syllabify(&config, &system, "sl.ip.lɪs").ok().expect("valid syllabification");
    assert_eq!(word, "sl.ip.lɪs");
}

#[test]
fn test_invalid_boundary_errors() {
    let system = test_system();
    let config = get_test_config(&system, &[]);
    assert!(syllabify(&config, &system, ".abc").is_err());
    assert!(syllabify(&config, &system, "abc.").is_err());
    assert!(syllabify(&config, &system, "ab..cd").is_err());
    assert!(syllabify(&config, &system, "abˈ.cd").is_err());
    assert!(syllabify(&config, &system, "abˈˌcd").is_err());
}

#[test]
fn test_syllabify_sequence_direct() {
    let system = test_system();
    let config = get_test_config(&system, &[]);
    let ipa_str = IpaString::parse("əmɛɹɪkən", &system).ok().expect("valid ipa");
    let seq = PhonemeSequence::parse_with_system(ipa_str.as_str(), &system).ok().expect("valid parse");
    let word = syllabify_sequence(&seq, &config, &system).ok().expect("syllabification success");
    assert_eq!(word.to_text(), "ə.mɛɹ.ɪ.kən");
}

#[test]
fn colored_word_marks_derived_phonemes() {
    let system = test_system();
    let config = get_test_config(&system, &[]);
    let ipa = IpaString::parse("ka.ta", &system).ok().expect("valid ipa");
    let word = config.syllabify(&ipa, &system, |_n: usize| 0).ok().expect("valid syllabification");
    assert_eq!(word.to_ipa_string().as_str(), "ka.ta");
    let colored = language::lookup::format_colored_word(&word, &[Some(0), None, Some(1)]);
    assert_eq!(colored, "\x1b[32mk\x1b[0ma.\x1b[31mt\x1b[0ma");
}
