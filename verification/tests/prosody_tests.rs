use language::config::{
    LanguageConfig, NameConfig, PhonologyConfig, PhonotacticsConfig, SoundClassMap,
};
use language::ipa_string::IpaString;
use language::ipa_system::IpaSystem;
use language::prosody::{
    AlternatingConfig, FootSize, MainStress, PatternedConfig, ProsodicConfig, StressLocation,
};

fn test_system() -> IpaSystem {
    let json = r#"{
        "a": { "type": "vowel", "features": ["+syllabic", "+low"], "sonority": 10 },
        "ə": { "type": "vowel", "features": ["+syllabic"], "sonority": 10 },
        "ɪ": { "type": "vowel", "features": ["+syllabic", "+high"], "sonority": 10 },
        "e": { "type": "vowel", "features": ["+syllabic"], "sonority": 10 },
        "k": { "type": "consonant", "features": ["-voice", "+dorsal"], "sonority": 1 },
        "t": { "type": "consonant", "features": ["-voice", "+coronal"], "sonority": 1 },
        "p": { "type": "consonant", "features": ["-voice", "+labial"], "sonority": 1 },
        "s": { "type": "consonant", "features": ["-voice", "+strident"], "sonority": 3 },
        "l": { "type": "consonant", "features": ["+voice", "+lateral"], "sonority": 7 }
    }"#;
    IpaSystem::new(json).ok().expect("valid ipa system")
}

fn get_test_config(system: &IpaSystem, prosody: Option<ProsodicConfig>) -> LanguageConfig {
    LanguageConfig {
        id: 0x018f4a3e_6b9f_7a1a_9b1a_2b3c4d5e6f7a,
        name: NameConfig {
            endonym: IpaString::parse("test", system).ok().expect("valid ipa"),
            exonym: None,
        },
        phonology: PhonologyConfig {
            sound_classes: SoundClassMap { entries: vec![] },
            phonotactics: PhonotacticsConfig { generators: vec![] },
            illegal_patterns: vec![],
            prosody,
        },
        sound_changes: None,
        orthography: None,
        derivations: None,
    }
}

/// Syllabifies a text with the configuration; an unmarked word is stressed
/// on its first syllable where a syllable is drawn.
fn syllabify(config: &LanguageConfig, system: &IpaSystem, text: &str) -> String {
    let ipa = IpaString::parse(text, system).ok().expect("valid ipa");
    config
        .syllabify(&ipa, system, |_n: usize| 0)
        .ok()
        .expect("valid syllabification")
        .to_text()
}

fn alternating(option: AlternatingConfig, monosyllables: Option<bool>) -> Option<ProsodicConfig> {
    Some(ProsodicConfig::Alternating {
        option,
        stress_open_monosyllables: monosyllables,
    })
}

fn patterned(foot: FootSize, stress_location: StressLocation, main_stress: MainStress) -> Option<ProsodicConfig> {
    Some(ProsodicConfig::Patterned(PatternedConfig {
        foot,
        stress_location,
        main_stress,
    }))
}

#[test]
fn test_unstressed() {
    let system = test_system();
    let config = get_test_config(&system, Some(ProsodicConfig::Unstressed));
    // Test that existing stress is kept, but no new stress is added.
    assert_eq!(syllabify(&config, &system, "ˈkat.ka"), "ˈkat.ka");
    assert_eq!(syllabify(&config, &system, "kat.ka"), "kat.ka");
}

#[test]
fn test_alternating_first() {
    let system = test_system();
    let config = get_test_config(&system, alternating(AlternatingConfig::FirstSyllable, None));
    assert_eq!(syllabify(&config, &system, "kat.ka.kat.ka"), "ˈkat.kaˌkat.ka");
}

#[test]
fn test_alternating_second() {
    let system = test_system();
    let config = get_test_config(&system, alternating(AlternatingConfig::SecondSyllable, None));
    assert_eq!(syllabify(&config, &system, "kat.ka.kat.ka"), "katˈkak.atˌka");
}

#[test]
fn test_alternating_penultimate() {
    let system = test_system();
    let config = get_test_config(&system, alternating(AlternatingConfig::Penultimate, None));
    assert_eq!(syllabify(&config, &system, "kat.ka.kat.ka"), "ˌkat.kaˈkat.ka");
}

#[test]
fn test_alternating_antepenultimate() {
    let system = test_system();
    let config = get_test_config(&system, alternating(AlternatingConfig::Antepenultimate, None));
    assert_eq!(syllabify(&config, &system, "kat.ka.kat.ka"), "katˈkak.atˌka");
}

#[test]
fn test_alternating_ultimate() {
    let system = test_system();
    let config = get_test_config(&system, alternating(AlternatingConfig::Ultimate, None));
    assert_eq!(syllabify(&config, &system, "kat.ka.kat.ka"), "katˌkak.atˈka");
}

#[test]
fn test_alternating_single_syllable() {
    let system = test_system();
    let config = get_test_config(&system, alternating(AlternatingConfig::Penultimate, Some(false)));
    // Closed syllable: "kat" -> primary stress
    assert_eq!(syllabify(&config, &system, "kat"), "ˈkat");
    // Open syllable: "ka" -> unstressed
    assert_eq!(syllabify(&config, &system, "ka"), "ka");
}

#[test]
fn test_alternating_monosyllable_default_none() {
    let system = test_system();
    let config = get_test_config(&system, alternating(AlternatingConfig::Penultimate, None));
    // Open syllable: "ka" -> stressed by default
    assert_eq!(syllabify(&config, &system, "ka"), "ˈka");
}

#[test]
fn test_patterned_stress_last() {
    let system = test_system();
    // Foot size 2, stress location 1st, Main stress Last
    let config = get_test_config(&system, patterned(FootSize::Two, StressLocation::First, MainStress::Last));
    assert_eq!(syllabify(&config, &system, "ka"), "ka");
    assert_eq!(syllabify(&config, &system, "kat.ka"), "ˈkat.ka");
    assert_eq!(syllabify(&config, &system, "ka.kat.ka"), "kaˈkat.ka");
    assert_eq!(syllabify(&config, &system, "kat.ka.kat.ka"), "ˌkat.kaˈkat.ka");
}

#[test]
fn test_patterned_stress_first() {
    let system = test_system();
    // Foot size 2, stress location 1st, Main stress First
    let config = get_test_config(&system, patterned(FootSize::Two, StressLocation::First, MainStress::First));
    assert_eq!(syllabify(&config, &system, "ka"), "ka");
    assert_eq!(syllabify(&config, &system, "kat.ka"), "ˈkat.ka");
    assert_eq!(syllabify(&config, &system, "kat.ka.kat"), "ˈkat.ka.kat");
    assert_eq!(syllabify(&config, &system, "kat.ka.kat.ka"), "ˈkat.kaˌkat.ka");
}

#[test]
fn test_no_fixed_stress_zipf_rng() {
    let system = test_system();
    let prosody = ProsodicConfig::NoFixedStress;
    let config = get_test_config(&system, Some(ProsodicConfig::Unstressed));
    let ipa = IpaString::parse("kat.ka.kat.ka", &system).ok().expect("valid ipa");
    let word = config
        .syllabify(&ipa, &system, |_n: usize| 0)
        .ok()
        .expect("valid syllabification");

    // The drawn syllable takes the primary stress, every other one a secondary.
    let res = prosody.apply_prosody(&word, &system, 0);
    let result_str = res.to_text();
    assert!(result_str.contains('ˈ'));
    assert!(result_str.contains('ˌ'));
}

#[test]
fn test_stress_propagation_capture() {
    let system = test_system();
    let config = get_test_config(&system, alternating(AlternatingConfig::Penultimate, None));
    assert_eq!(syllabify(&config, &system, "pəlɪtɪkəl"), "ˌpəl.ɪˈtɪk.əl");
}

#[test]
fn test_prosody_validation() {
    let config_valid = ProsodicConfig::Patterned(PatternedConfig {
        foot: FootSize::Two,
        stress_location: StressLocation::First,
        main_stress: MainStress::First,
    });
    assert!(config_valid.validate().is_ok(), "valid config");

    let config_invalid = ProsodicConfig::Patterned(PatternedConfig {
        foot: FootSize::Two,
        stress_location: StressLocation::Third,
        main_stress: MainStress::First,
    });
    assert!(config_invalid.validate().is_err());
}

#[test]
fn test_alternating_open_monosyllable_configurable() {
    let system = test_system();
    let config_stressed = get_test_config(&system, alternating(AlternatingConfig::Penultimate, Some(true)));
    assert_eq!(syllabify(&config_stressed, &system, "ka"), "ˈka");

    let config_unstressed = get_test_config(&system, alternating(AlternatingConfig::Penultimate, Some(false)));
    assert_eq!(syllabify(&config_unstressed, &system, "ka"), "ka");
}

#[test]
fn test_stress_anchoring_secondary_to_primary() {
    let system = test_system();
    let config = get_test_config(&system, alternating(AlternatingConfig::Penultimate, None));
    assert_eq!(syllabify(&config, &system, "ˌkat.ka.kat.ka"), "ˈkat.kaˌkat.ka");
}

#[test]
fn test_patterned_fallback_short_words() {
    let system = test_system();
    let config = get_test_config(&system, patterned(FootSize::Three, StressLocation::First, MainStress::First));
    assert_eq!(syllabify(&config, &system, "kat"), "ˈkat");
    assert_eq!(syllabify(&config, &system, "ka"), "ka");
    // "ka" is stressed, so "a" (lax vowel) captures the onset "k" from the next syllable
    assert_eq!(syllabify(&config, &system, "ka.ka"), "ˈkak.a");
}

#[test]
fn test_patterned_fallback_anchoring_short_word() {
    let system = test_system();
    let config = get_test_config(&system, patterned(FootSize::Three, StressLocation::First, MainStress::First));
    assert_eq!(syllabify(&config, &system, "kaˈka"), "kaˈka");
}

#[test]
fn no_fixed_stress_puts_the_primary_on_the_drawn_syllable() {
    // The primary goes to the drawn (third) syllable and a secondary two
    // syllables before it; the stressed short vowel then keeps the consonant
    // after it.
    let system = test_system();
    let config = get_test_config(&system, Some(ProsodicConfig::NoFixedStress));
    let ipa = IpaString::parse("ta.ka.pe", &system).ok().expect("valid ipa");
    let word = config
        .syllabify(&ipa, &system, |_n: usize| 2)
        .ok()
        .expect("valid syllabification");
    assert_eq!(word.to_text(), "ˌtak.aˈpe");
}
