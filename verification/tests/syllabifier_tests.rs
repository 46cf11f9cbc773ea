use language::ipa_string::IpaString;
use language::ipa_system::IpaSystem;
use language::sequence::PhonemeSequence;
use language::syllabifier::validate_sequence;
use language::word::IpaWord;

/// The symbols that the syllabification tests use, with sonority ranks from
/// stops (lowest) to vowels (highest).
fn test_system() -> IpaSystem {
    let json = r#"{
        "a": { "type": "vowel", "features": ["+syllabic", "+low"], "sonority": 10 },
        "i": { "type": "vowel", "features": ["+syllabic", "+high"], "sonority": 10 },
        "ɑ": { "type": "vowel", "features": ["+syllabic", "+back", "+low"], "sonority": 10 },
        "ɔ": { "type": "vowel", "features": ["+syllabic", "+back", "+round"], "sonority": 10 },
        "ɪ": { "type": "vowel", "features": ["+syllabic", "+high"], "sonority": 10 },
        "ə": { "type": "vowel", "features": ["+syllabic"], "sonority": 10 },
        "ɛ": { "type": "vowel", "features": ["+syllabic"], "sonority": 10 },
        "ɚ": { "type": "vowel", "features": ["+syllabic", "+rhotic"], "sonority": 10 },
        "b": { "type": "consonant", "features": ["+voice", "+labial"], "sonority": 2 },
        "c": { "type": "consonant", "features": ["-voice", "+dorsal"], "sonority": 1 },
        "d": { "type": "consonant", "features": ["+voice", "+coronal"], "sonority": 2 },
        "f": { "type": "consonant", "features": ["-voice", "+continuant"], "sonority": 3 },
        "k": { "type": "consonant", "features": ["-voice", "+dorsal"], "sonority": 1 },
        "l": { "type": "consonant", "features": ["+voice", "+lateral", "+liquid"], "sonority": 7 },
        "m": { "type": "consonant", "features": ["+voice", "+nasal"], "sonority": 5 },
        "n": { "type": "consonant", "features": ["+voice", "+nasal"], "sonority": 5 },
        "ŋ": { "type": "consonant", "features": ["+voice", "+nasal"], "sonority": 5 },
        "p": { "type": "consonant", "features": ["-voice", "+labial"], "sonority": 1 },
        "s": { "type": "consonant", "features": ["-voice", "+strident"], "sonority": 3 },
        "t": { "type": "consonant", "features": ["-voice", "+coronal"], "sonority": 1 },
        "w": { "type": "consonant", "features": ["+voice", "+round"], "sonority": 8 },
        "ɹ": { "type": "consonant", "features": ["+voice", "+rhotic"], "sonority": 7 }
    }"#;
    IpaSystem::new(json).ok().expect("valid ipa system")
}

#[test]
fn test_validate_sequence_empty() {
    let seq = PhonemeSequence {
        elements: Vec::new(),
    };
    let res = validate_sequence(&seq);
    assert!(res.ok().is_some());
}

#[test]
fn test_validate_sequence_valid() {
    let system = test_system();
    let seq = PhonemeSequence::parse_with_system("ˈfɑɹ.mɚ", &system).ok().expect("valid parse");
    let res = validate_sequence(&seq);
    assert!(res.ok().is_some());
}

#[test]
fn test_validate_sequence_boundary_break_start() {
    let system = test_system();
    let seq = PhonemeSequence::parse_with_system(".abc", &system).ok().expect("valid parse");
    let res = validate_sequence(&seq);
    assert!(res.err().is_some());
}

#[test]
fn test_validate_sequence_boundary_break_end() {
    let system = test_system();
    let seq = PhonemeSequence::parse_with_system("abc.", &system).ok().expect("valid parse");
    let res = validate_sequence(&seq);
    assert!(res.err().is_some());
}

#[test]
fn test_validate_sequence_double_breaks() {
    let system = test_system();
    let seq = PhonemeSequence::parse_with_system("ab..cd", &system).ok().expect("valid parse");
    let res = validate_sequence(&seq);
    assert!(res.err().is_some());
}

#[test]
fn test_validate_sequence_break_near_prosody() {
    let system = test_system();
    let seq1 = PhonemeSequence::parse_with_system("abˈ.cd", &system).ok().expect("valid parse");
    assert!(validate_sequence(&seq1).err().is_some());

    let seq2 = PhonemeSequence::parse_with_system("ab.ˈcd", &system).ok().expect("valid parse");
    assert!(validate_sequence(&seq2).err().is_some());
}

#[test]
fn test_validate_sequence_adjacent_prosody() {
    let system = test_system();
    let seq = PhonemeSequence::parse_with_system("abˈˌcd", &system).ok().expect("valid parse");
    let res = validate_sequence(&seq);
    assert!(res.err().is_some());
}

fn test_syllabification(word: &str, expected: &str) {
    let system = test_system();
    let ipa_str = IpaString::parse(word, &system).ok().expect("valid ipa");
    let ipa_word = IpaWord::syllabify(&ipa_str, &system);
    assert_eq!(ipa_word.to_text(), expected);
}

#[test]
fn test_farmer() {
    test_syllabification("ˈfɑɹmɚ", "ˈfɑɹ.mɚ");
}

#[test]
fn test_dance() {
    test_syllabification("dɑːns", "dɑːns");
}

#[test]
fn test_walking() {
    test_syllabification("wɔkɪŋ", "wɔ.kɪŋ");
}

#[test]
fn test_sleep() {
    test_syllabification("ˈsliːp", "ˈsliːp");
}

#[test]
fn test_sleepless() {
    test_syllabification("sliːpləs", "sliː.pləs");
}

#[test]
fn test_ai() {
    test_syllabification("ai", "a.i");
}

#[test]
fn test_api() {
    test_syllabification("api", "a.pi");
}

#[test]
fn word_syllabify_keeps_explicit_breaks_and_stress() {
    test_syllabification("ˈkat.ka", "ˈkat.ka");
    test_syllabification("kaˌka", "kaˌka");
}

#[test]
fn word_syllabify_empty_text() {
    let system = test_system();
    let ipa_str = IpaString::parse("", &system).ok().expect("valid ipa");
    let ipa_word = IpaWord::syllabify(&ipa_str, &system);
    assert!(ipa_word.syllables.is_empty());
    assert_eq!(ipa_word.to_text(), "");
}

#[test]
fn word_syllabify_consonant_clusters() {
    // Two consonants: the less sonorous one opens the next syllable.
    test_syllabification("apla", "a.pla");
    test_syllabification("alpa", "al.pa");
    // Three consonants: one stays with the first vowel.
    test_syllabification("aspla", "as.pla");
    // Four consonants: two stay.
    test_syllabification("ampspa", "amp.spa");
    // A liquid between vowels stays with the first one.
    test_syllabification("ala", "al.a");
    // A short stressed vowel keeps the consonant after it.
    test_syllabification("ˈapa", "ˈap.a");
}

#[test]
fn syllabify_keeps_every_character_but_the_marks() {
    let system = test_system();
    let unmarked = |s: &str| -> String { s.chars().filter(|c| !matches!(c, '.' | '\u{200B}' | 'ˈ' | '\'' | 'ˌ')).collect() };
    for text in ["ˈfɑɹmɚ", "a.pla", "'kat.ˌsɪm", "ŋwɛlɚ"] {
        let ipa_str = IpaString::parse(text, &system).ok().expect("valid ipa");
        let word = IpaWord::syllabify(&ipa_str, &system);
        assert_eq!(unmarked(&word.to_text()), unmarked(text));
    }
}
