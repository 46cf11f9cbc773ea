use language::dictionary::{
    generate_base62_uuid, parse_base62_uuid, type_matches, Dictionary, NewEntry,
};
use language::ipa_string::IpaString;
use language::ipa_system::IpaSystem;
use language::lookup::{
    find_matching_entry, format_colored_lookup_line, get_derivation_color, make_lookup_error,
    parse_etymology, parse_lookup_string, parse_u32, trim,
};

fn test_system() -> IpaSystem {
    let json = r#"{
        "a": { "type": "vowel", "features": ["+syllabic"] },
        "b": { "type": "consonant", "features": ["+voice"] },
        "c": { "type": "consonant", "features": ["-voice"] },
        "d": { "type": "consonant", "features": ["+voice"] },
        "e": { "type": "vowel", "features": ["+syllabic"] },
        "f": { "type": "consonant", "features": ["-voice"] },
        "k": { "type": "consonant", "features": ["-voice"] },
        "m": { "type": "consonant", "features": ["+voice", "+nasal"] },
        "p": { "type": "consonant", "features": ["-voice"] },
        "r": { "type": "consonant", "features": ["+voice"] },
        "t": { "type": "consonant", "features": ["-voice"] },
        "ɛ": { "type": "vowel", "features": ["+syllabic"] },
        "ʊ": { "type": "vowel", "features": ["+syllabic"] }
    }"#;
    IpaSystem::new(json).ok().expect("valid ipa system")
}

fn ipa(s: &str, system: &IpaSystem) -> IpaString {
    IpaString::parse(s, system).ok().expect("valid ipa")
}

fn new_entry(system: &IpaSystem, meaning: &str, definition: &str, word_type: &str, era: Option<u32>) -> NewEntry {
    NewEntry {
        meaning: ipa(meaning, system),
        definition: ipa(definition, system),
        word_type: word_type.to_string(),
        era,
        etymology: None,
        usage_notes: String::new(),
    }
}

#[test]
fn test_base62_uuid_roundtrip() {
    let source = uuid::Uuid::now_v7();
    let encoded = base62::encode(source.as_u128());
    let decoded = parse_base62_uuid(&encoded).expect("parse base62 uuid");
    assert_eq!(source, uuid::Uuid::from_u128(decoded));
}

#[test]
fn test_generate_base62_uuid() {
    let encoded = generate_base62_uuid();
    assert!(!encoded.is_empty());
    let decoded = parse_base62_uuid(&encoded).expect("parse generated base62 uuid");
    assert_eq!(
        uuid::Uuid::from_u128(decoded).get_version(),
        Some(uuid::Version::SortRand)
    ); // UUIDv7
}

#[test]
fn test_dictionary_blank_and_add_remove() {
    let system = test_system();
    let lang_id = uuid::Uuid::now_v7().as_u128();
    let mut dict = Dictionary::new(lang_id);
    assert_eq!(dict.id, lang_id);
    assert!(dict.entries.is_empty());

    let meaning = ipa("rɛd", &system);
    let definition = ipa("pat", &system);
    let word_type = "noun.masculine".to_string();
    let era = Some(1);
    let etymology = vec![(0u32, vec!["pa".to_string(), "ta".to_string()])];
    let usage_notes = "Used primarily in formal contexts.".to_string();

    let entry_id = dict.add_entry(NewEntry {
        meaning: ipa("rɛd", &system),
        definition: ipa("pat", &system),
        word_type: word_type.clone(),
        era,
        etymology: Some(etymology.clone()),
        usage_notes: usage_notes.clone(),
    });

    assert_eq!(dict.entries.len(), 1);
    let entry = &dict.entries[0];
    assert_eq!(entry.id, entry_id);
    assert_eq!(entry.meaning.as_str(), meaning.as_str());
    assert_eq!(entry.definition.as_str(), definition.as_str());
    assert_eq!(entry.word_type, word_type);
    assert_eq!(entry.era, 1);
    assert_eq!(entry.etymology, Some(etymology));
    assert_eq!(entry.usage_notes, usage_notes);

    // Test removing entry
    let removed = dict.remove_entry(&entry_id);
    assert!(removed);
    assert!(dict.entries.is_empty());

    let removed_again = dict.remove_entry(&entry_id);
    assert!(!removed_again);
}

#[test]
fn test_dictionary_default_era() {
    let system = test_system();
    let mut dict = Dictionary::new(uuid::Uuid::now_v7().as_u128());

    // 1. Era defaults to 0 when dictionary is empty
    dict.add_entry(new_entry(&system, "a", "b", "noun", None));
    assert_eq!(dict.entries[0].era, 0);

    // 2. Add entry with explicit era 3
    dict.add_entry(new_entry(&system, "c", "d", "verb", Some(3)));
    assert_eq!(dict.entries[1].era, 3);

    // 3. Era defaults to 3 (most recent era present in the dictionary)
    dict.add_entry(new_entry(&system, "e", "f", "adjective", None));
    assert_eq!(dict.entries[2].era, 3);
}

#[test]
fn entries_record_their_eras_in_order() {
    let system = test_system();
    let mut dict = Dictionary::new(7);
    dict.add_entry(new_entry(&system, "a", "b", "noun", Some(5)));
    dict.add_entry(new_entry(&system, "c", "d", "noun", Some(2)));
    dict.add_entry(new_entry(&system, "e", "f", "noun", Some(5)));
    let numbers: Vec<u32> = dict.eras.iter().map(|(n, _)| *n).collect();
    assert_eq!(numbers, vec![2, 5]);
}

#[test]
fn add_era_numbers_follow_the_latest() {
    let system = test_system();
    let mut dict = Dictionary::new(1);
    let (first, id1) = dict.add_era(None, None, None).expect("first era");
    assert_eq!(first, 0);
    assert!(!id1.is_empty());
    let (second, _) = dict
        .add_era(None, Some(ipa("pat", &system)), Some("Old period".to_string()))
        .expect("second era");
    assert_eq!(second, 1);
    let (explicit, _) = dict.add_era(Some(10), None, None).expect("explicit era");
    assert_eq!(explicit, 10);
    let (next, _) = dict.add_era(None, None, None).expect("next era");
    assert_eq!(next, 11);
    assert_eq!(dict.eras[1].1.description, Some("Old period".to_string()));
}

#[test]
fn add_era_default_follows_entries_without_eras() {
    let system = test_system();
    let mut dict = Dictionary::new(1);
    dict.entries.push(language::dictionary::DictionaryEntry {
        id: "x".to_string(),
        meaning: ipa("a", &system),
        definition: ipa("b", &system),
        word_type: "noun".to_string(),
        era: 4,
        etymology: None,
        usage_notes: String::new(),
    });
    let (n, _) = dict.add_era(None, None, None).expect("era after entries");
    assert_eq!(n, 5);
}

#[test]
fn add_era_refuses_a_number_in_use() {
    let mut dict = Dictionary::new(1);
    dict.add_era(Some(2), None, None).expect("era 2");
    let err = dict.add_era(Some(2), None, None).unwrap_err();
    assert_eq!(err, "Era number 2 already exists in the dictionary");
    assert_eq!(dict.eras.len(), 1);
}

#[test]
fn remove_entry_removes_only_that_id() {
    let system = test_system();
    let mut dict = Dictionary::new(1);
    let a = dict.add_entry(new_entry(&system, "a", "b", "noun", Some(0)));
    let b = dict.add_entry(new_entry(&system, "c", "d", "verb", Some(0)));
    assert!(dict.remove_entry(&a));
    assert_eq!(dict.entries.len(), 1);
    assert_eq!(dict.entries[0].id, b);
    assert!(!dict.remove_entry("missing"));
    assert_eq!(dict.entries.len(), 1);
}

#[test]
fn base62_identifiers_decode_to_their_number() {
    assert_eq!(parse_base62_uuid("LZ").expect("valid"), 1337);
    assert_eq!(parse_base62_uuid("0").expect("valid"), 0);
    assert_eq!(parse_base62_uuid("rustlang").expect("valid"), 189876682536016);
    let err = parse_base62_uuid("a-b").unwrap_err();
    assert!(err.starts_with("Invalid Base62 UUID: "));
    assert!(parse_base62_uuid("").is_err());
}

#[test]
fn type_matching_by_base_and_subtype() {
    assert!(type_matches("noun.masculine", "noun"));
    assert!(type_matches("noun.masculine", "noun.masculine"));
    assert!(!type_matches("noun.masculine", "noun.feminine"));
    assert!(!type_matches("noun", "noun.feminine"));
    assert!(type_matches("noun", "noun"));
    assert!(!type_matches("verb", "noun"));
}

#[test]
fn lookup_string_splits_trailing_derivations() {
    let (base, derivs) = parse_lookup_string("red");
    assert_eq!(base, "red");
    assert!(derivs.is_empty());

    let (base, derivs) = parse_lookup_string("red-PLU-DIM");
    assert_eq!(base, "red");
    assert_eq!(derivs, vec!["PLU".to_string(), "DIM".to_string()]);

    // Only trailing valid names are derivations.
    let (base, derivs) = parse_lookup_string("well-known-PLU");
    assert_eq!(base, "well-known");
    assert_eq!(derivs, vec!["PLU".to_string()]);

    // A name too short to be a derivation stays in the meaning.
    let (base, derivs) = parse_lookup_string("red-PL-DIM");
    assert_eq!(base, "red-PL");
    assert_eq!(derivs, vec!["DIM".to_string()]);

    let (base, derivs) = parse_lookup_string("red-");
    assert_eq!(base, "red-");
    assert!(derivs.is_empty());
}

#[test]
fn lookup_finds_the_first_matching_entry() {
    let system = test_system();
    let mut dict = Dictionary::new(1);
    dict.add_entry(new_entry(&system, "rɛd", "pat", "noun.masculine", Some(0)));
    dict.add_entry(new_entry(&system, "rɛd", "kam", "verb", Some(0)));

    let e = find_matching_entry(&dict, "rɛd", None).expect("found");
    assert_eq!(e.definition.as_str(), "pat");
    let e = find_matching_entry(&dict, "rɛd", Some("verb")).expect("found");
    assert_eq!(e.definition.as_str(), "kam");
    let err = find_matching_entry(&dict, "rɛd", Some("adjective")).err().expect("not found");
    assert_eq!(err, "Word with meaning 'rɛd' and type 'adjective' not found in dictionary");
    let err = find_matching_entry(&dict, "fʊd", None).err().expect("not found");
    assert_eq!(err, make_lookup_error("fʊd", None));
    assert_eq!(err, "Word with meaning 'fʊd' not found in dictionary");
}

#[test]
fn colored_lookup_line_marks_each_derivation() {
    assert_eq!(get_derivation_color(0), "\x1b[32m");
    assert_eq!(get_derivation_color(1), "\x1b[31m");
    assert_eq!(get_derivation_color(2), "\x1b[36m");
    assert_eq!(get_derivation_color(3), "\x1b[32m");
    let line = format_colored_lookup_line(
        "red",
        &["PL".to_string(), "DIM".to_string()],
        &[Some("noun".to_string())],
    );
    assert_eq!(line, "red\x1b[31m-PL:noun\x1b[0m\x1b[36m-DIM\x1b[0m");
}

#[test]
fn etymology_items_are_grouped_by_era() {
    let raw = vec!["1: ka, ta".to_string(), "0:pa,,".to_string(), "1:ma".to_string()];
    let ety = parse_etymology(&raw).expect("valid etymology");
    assert_eq!(
        ety,
        vec![
            (0, vec!["pa".to_string()]),
            (1, vec!["ka".to_string(), "ta".to_string(), "ma".to_string()]),
        ]
    );
}

#[test]
fn etymology_faults_are_reported() {
    let err = parse_etymology(&["pa,ta".to_string()]).unwrap_err();
    assert_eq!(err, "Invalid etymology format: 'pa,ta'. Expected 'era:word1,word2,...'");
    let err = parse_etymology(&["x:pa".to_string()]).unwrap_err();
    assert_eq!(err, "Invalid era number 'x' in etymology");
    let err = parse_etymology(&["0:pa".to_string(), "-1:ta".to_string()]).unwrap_err();
    assert_eq!(err, "Invalid era number '-1' in etymology");
}

#[test]
fn numbers_and_trimming_follow_std() {
    assert_eq!(parse_u32("42"), Some(42));
    assert_eq!(parse_u32("+7"), Some(7));
    assert_eq!(parse_u32("4294967295"), Some(u32::MAX));
    assert_eq!(parse_u32("4294967296"), None);
    assert_eq!(parse_u32(""), None);
    assert_eq!(parse_u32("+"), None);
    assert_eq!(parse_u32("1a"), None);
    for s in ["42", "+7", "4294967296", "", "+", "-1", " 3"] {
        assert_eq!(parse_u32(s), s.parse::<u32>().ok());
    }
    assert_eq!(trim("  ka \u{3000}"), "ka");
    assert_eq!(trim("\t\n"), "");
    for s in [" a b ", "\u{2003}x\u{85}", "none", ""] {
        assert_eq!(trim(s), s.trim());
    }
}

#[test]
fn era_suffix_names_and_describes_an_era() {
    let system = test_system();
    let era = language::dictionary::Era {
        id: "e1".to_string(),
        name: Some(ipa("pat", &system)),
        description: Some("Old period".to_string()),
    };
    assert_eq!(language::listing::era_suffix(&era), " /pat/ - Old period");
    let bare = language::dictionary::Era { id: "e2".to_string(), name: None, description: None };
    assert_eq!(language::listing::era_suffix(&bare), "");
}

#[test]
fn entry_listing_shows_every_field() {
    let system = test_system();
    let mut dict = Dictionary::new(1);
    dict.add_era(Some(3), Some(ipa("pat", &system)), None).expect("era 3");
    let entry = language::dictionary::DictionaryEntry {
        id: "abc".to_string(),
        meaning: ipa("ka", &system),
        definition: ipa("tap", &system),
        word_type: "noun.masculine".to_string(),
        era: 3,
        etymology: Some(vec![(1, vec!["ab".to_string(), "cd".to_string()]), (2, vec!["ef".to_string()])]),
        usage_notes: "rare".to_string(),
    };
    let lines = language::listing::entry_lines(4, &entry, &dict.eras);
    let expected = vec![
        "4. [abc]",
        "   Definition : /tap/",
        "   Meaning    : /ka/",
        "   Type       : noun (masculine)",
        "   Era        : 3 /pat/",
        "   Etymology  :",
        "     Era 1: ab, cd",
        "     Era 2: ef",
        "   Usage Notes: rare",
        "--------------------------------------------------------------------------------",
    ];
    assert_eq!(lines, expected);
}

#[test]
fn entry_listing_omits_empty_parts() {
    let system = test_system();
    let entry = language::dictionary::DictionaryEntry {
        id: "x".to_string(),
        meaning: ipa("a", &system),
        definition: ipa("b", &system),
        word_type: "verb".to_string(),
        era: 9,
        etymology: Some(Vec::new()),
        usage_notes: String::new(),
    };
    let lines = language::listing::entry_lines(1, &entry, &Vec::new());
    assert_eq!(
        lines,
        vec![
            "1. [x]",
            "   Definition : /b/",
            "   Meaning    : /a/",
            "   Type       : verb",
            "   Era        : 9",
            "--------------------------------------------------------------------------------",
        ]
    );
}

#[test]
fn dictionary_listing_has_header_eras_and_entries() {
    let system = test_system();
    let mut dict = Dictionary::new(1);
    let (_, era_id) = dict.add_era(Some(2), Some(ipa("pat", &system)), Some("Old".to_string())).expect("era 2");
    dict.add_entry(new_entry(&system, "ka", "tap", "noun", Some(2)));
    let lines = language::listing::dictionary_lines(&dict, "ID-TEXT");
    let border = "================================================================================";
    assert_eq!(lines[0], border);
    assert_eq!(lines[1], "Dictionary ID: ID-TEXT");
    assert_eq!(lines[2], "Total Eras   : 1");
    assert_eq!(lines[3], "Total Entries: 1");
    assert_eq!(lines[4], border);
    assert_eq!(lines[5], "Eras:");
    assert_eq!(lines[6], format!("  * Era 2 (ID: {era_id}) /pat/ - Old"));
    assert_eq!(lines[7], border);
    assert!(lines[8].starts_with("1. ["));
    assert_eq!(lines[9], "   Definition : /tap/");
    assert_eq!(lines.len(), 14);
}

#[test]
fn listing_of_a_blank_dictionary_has_no_era_section() {
    let dict = Dictionary::new(1);
    let lines = language::listing::dictionary_lines(&dict, "x");
    let border = "================================================================================";
    assert_eq!(lines, vec![border.to_string(), "Dictionary ID: x".to_string(), "Total Entries: 0".to_string(), border.to_string()]);
}

#[test]
fn removing_an_added_word_restores_the_entries() {
    let system = test_system();
    let mut dict = Dictionary::new(3);
    dict.add_entry(new_entry(&system, "a", "b", "noun", Some(1)));
    dict.add_entry(new_entry(&system, "c", "d", "verb", Some(1)));
    let before: Vec<String> = dict.entries.iter().map(|e| e.id.clone()).collect();
    let id = dict.add_entry(new_entry(&system, "e", "f", "noun", Some(1)));
    assert!(dict.remove_entry(&id));
    let after: Vec<String> = dict.entries.iter().map(|e| e.id.clone()).collect();
    assert_eq!(after, before);
    assert!(!dict.remove_entry(&id));
}
