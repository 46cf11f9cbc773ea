use language::config::{SoundClass, SoundClassMap};
use language::generator::pattern::WordPattern;
use language::generator::validation::cycles::{validate_generator_cycles, validate_sound_class_cycles};
use language::generator::validation::{
    validate_generator_keys, validate_pattern_sound_classes, ValidationError,
};
use language::generator::WordGenerator;
use language::sound_class::SoundClassKey;
use std::collections::BTreeMap;

/// Generators in key order, as a configuration holds them.
fn generators(map: BTreeMap<String, Vec<&str>>) -> Vec<(String, WordGenerator)> {
    map.into_iter()
        .map(|(k, pats)| {
            let patterns = pats
                .into_iter()
                .map(|p| WordPattern::parse(p).ok().expect("valid pattern"))
                .collect();
            (k, WordGenerator { patterns })
        })
        .collect()
}

fn key(c: char) -> SoundClassKey {
    SoundClassKey { letter: c }
}

fn class(values: &[&str]) -> SoundClass {
    SoundClass {
        values: values.iter().map(|v| v.to_string()).collect(),
    }
}

fn class_map(map: BTreeMap<char, SoundClass>) -> SoundClassMap {
    SoundClassMap {
        entries: map.into_iter().map(|(c, sc)| (key(c), sc)).collect(),
    }
}

#[test]
fn test_validate_generator_keys() {
    // Valid cases
    let mut base = BTreeMap::new();
    base.insert("default".to_string(), vec![]);
    base.insert("noun.masculine".to_string(), vec![]);
    base.insert("verb".to_string(), vec![]);
    assert!(validate_generator_keys(&generators(base.clone())).is_ok());

    // Missing default
    let mut no_default = BTreeMap::new();
    no_default.insert("verb".to_string(), vec![]);
    assert_eq!(
        validate_generator_keys(&generators(no_default)).unwrap_err(),
        ValidationError::MissingDefaultGenerator
    );

    // Invalid primary type
    let mut invalid_primary = base.clone();
    invalid_primary.insert("invalid_type".to_string(), vec![]);
    assert_eq!(
        validate_generator_keys(&generators(invalid_primary)).unwrap_err(),
        ValidationError::InvalidGrammaticalType("invalid_type".to_string())
    );

    // Invalid secondary type - uppercase
    let mut invalid_sec = base.clone();
    invalid_sec.insert("noun.Masculine".to_string(), vec![]);
    assert_eq!(
        validate_generator_keys(&generators(invalid_sec)).unwrap_err(),
        ValidationError::InvalidSecondaryType("Masculine".to_string())
    );

    // Invalid secondary type - too long
    let mut too_long = base.clone();
    let long_sec = "a".repeat(33);
    too_long.insert(format!("noun.{long_sec}"), vec![]);
    assert_eq!(
        validate_generator_keys(&generators(too_long)).unwrap_err(),
        ValidationError::InvalidSecondaryType(long_sec)
    );
}

#[test]
fn test_validate_sound_class_cycles() {
    let mut scs = BTreeMap::new();
    scs.insert('C', class(&["p", "t", "F"]));
    scs.insert('F', class(&["f", "v"]));
    // No cycles
    assert!(validate_sound_class_cycles(&class_map(scs)).is_ok());

    // Add a cycle: F contains C
    let mut scs = BTreeMap::new();
    scs.insert('C', class(&["p", "t", "F"]));
    scs.insert('F', class(&["f", "C"]));
    assert_eq!(
        validate_sound_class_cycles(&class_map(scs)).unwrap_err(),
        ValidationError::CircularSoundClassContainment("F".to_string())
    );
}

#[test]
fn test_validate_pattern_sound_classes() {
    let mut gens = BTreeMap::new();
    gens.insert("default".to_string(), vec!["CV"]);

    let defined = vec![key('C'), key('V')];

    // All defined
    assert!(validate_pattern_sound_classes(&generators(gens.clone()), &defined).is_ok());

    // Undefined referenced
    gens.insert("default".to_string(), vec!["CX"]);
    assert_eq!(
        validate_pattern_sound_classes(&generators(gens), &defined).unwrap_err(),
        ValidationError::UndefinedSoundClass("X".to_string())
    );
}

#[test]
fn test_validate_generator_cycles() {
    let mut gens = BTreeMap::new();
    gens.insert("default".to_string(), vec!["CVC"]);
    gens.insert("noun".to_string(), vec!["[verb]V"]);
    gens.insert("verb".to_string(), vec!["C[default]"]);
    // No cycles: noun -> verb -> default -> CVC (no ref)
    assert!(validate_generator_cycles(&generators(gens.clone())).is_ok());

    // Cycle: verb -> noun -> verb
    gens.insert("verb".to_string(), vec!["C[noun]"]);
    assert!(validate_generator_cycles(&generators(gens)).is_err());
}

#[test]
fn generator_cycle_names_a_generator_on_the_cycle() {
    let mut gens = BTreeMap::new();
    gens.insert("default".to_string(), vec!["CV"]);
    gens.insert("noun".to_string(), vec!["[verb]V"]);
    gens.insert("verb".to_string(), vec!["C[noun]"]);
    let err = validate_generator_cycles(&generators(gens)).unwrap_err();
    assert_eq!(err, ValidationError::CircularPatternReferences("verb".to_string()));
}

#[test]
fn generator_self_reference_is_a_cycle() {
    let mut gens = BTreeMap::new();
    gens.insert("default".to_string(), vec!["C[default]"]);
    assert_eq!(
        validate_generator_cycles(&generators(gens)).unwrap_err(),
        ValidationError::CircularPatternReferences("default".to_string())
    );
}

#[test]
fn unresolved_reference_is_reported_before_cycles() {
    let mut gens = BTreeMap::new();
    gens.insert("noun".to_string(), vec!["[verb]"]);
    assert_eq!(
        validate_generator_cycles(&generators(gens)).unwrap_err(),
        ValidationError::UnresolvedGrammarRef("verb".to_string())
    );
}

#[test]
fn reference_to_a_subtype_resolves_to_its_primary_type() {
    let mut gens = BTreeMap::new();
    gens.insert("default".to_string(), vec!["CV"]);
    gens.insert("noun".to_string(), vec!["[noun.feminine]"]);
    // noun.feminine resolves to noun itself: a cycle.
    assert_eq!(
        validate_generator_cycles(&generators(gens)).unwrap_err(),
        ValidationError::CircularPatternReferences("noun".to_string())
    );
}

#[test]
fn sound_class_containing_itself_is_a_cycle() {
    let mut scs = BTreeMap::new();
    scs.insert('A', class(&["a", "A"]));
    assert_eq!(
        validate_sound_class_cycles(&class_map(scs)).unwrap_err(),
        ValidationError::CircularSoundClassContainment("A".to_string())
    );
}

#[test]
fn sound_class_values_naming_no_class_are_not_edges() {
    let mut scs = BTreeMap::new();
    scs.insert('C', class(&["p", "X", "ab"]));
    assert!(validate_sound_class_cycles(&class_map(scs)).is_ok());
}

fn derivation(name: &str, from_type: Option<&str>) -> language::config::Derivation {
    language::config::Derivation {
        name: name.to_string(),
        era: None,
        transforms: vec![],
        from_type: from_type.map(|t| t.to_string()),
        to_type: None,
    }
}

#[test]
fn a_derivation_name_may_repeat_across_unrelated_types() {
    let ds = vec![derivation("PLURAL", Some("noun")), derivation("PLURAL", Some("verb"))];
    assert!(language::generator::validation::validate_derivations(&ds).is_ok());
    let ds = vec![derivation("PLURAL", Some("noun")), derivation("PLURAL", Some("noun.masculine"))];
    match language::generator::validation::validate_derivations(&ds) {
        Err(ValidationError::DuplicateDerivationName(n)) => assert_eq!(n, "PLURAL"),
        _ => panic!("expected a duplicate name"),
    }
    let ds = vec![derivation("PLURAL", None), derivation("PLURAL", None)];
    match language::generator::validation::validate_derivations(&ds) {
        Err(ValidationError::DuplicateDerivationName(n)) => assert_eq!(n, "PLURAL"),
        _ => panic!("expected a duplicate name"),
    }
}
