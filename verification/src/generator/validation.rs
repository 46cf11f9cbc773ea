//! Validation of word generator configurations.

pub mod cycles;

use crate::config::Derivation;
use crate::generator::pattern::{
    gen_element_view, gen_elements_view, lemma_gen_elements_view, GenElementView, WordPattern,
    WordPatternElement,
};
use crate::generator::WordGenerator;
use crate::sound_class::{is_class_letter, SoundClassKey};
use crate::text::str_eq;
use vstd::prelude::*;

verus! {

/// Validation errors that may occur when loading configuration.
#[derive(PartialEq, Eq, Debug)]
pub enum ValidationError {
    /// Referenced sound class does not exist.
    UndefinedSoundClass(String),
    /// Circular containment in sound classes.
    CircularSoundClassContainment(String),
    /// The default generator rule is missing.
    MissingDefaultGenerator,
    /// Key contains invalid grammatical type.
    InvalidGrammaticalType(String),
    /// Key contains invalid secondary type.
    InvalidSecondaryType(String),
    /// Grammar reference could not be resolved.
    UnresolvedGrammarRef(String),
    /// Directed cycle detected in word generator pattern references.
    CircularPatternReferences(String),
    /// Invalid prosody configuration.
    InvalidProsodyConfig(String),
    /// Invalid derivation name.
    InvalidDerivationName(String),
    /// Duplicate derivation name.
    DuplicateDerivationName(String),
}

/// The model of a validation error: its variant and its text.
pub enum ValidationErrorView {
    UndefinedSoundClass(Seq<char>),
    CircularSoundClassContainment(Seq<char>),
    MissingDefaultGenerator,
    InvalidGrammaticalType(Seq<char>),
    InvalidSecondaryType(Seq<char>),
    UnresolvedGrammarRef(Seq<char>),
    CircularPatternReferences(Seq<char>),
    InvalidProsodyConfig(Seq<char>),
    InvalidDerivationName(Seq<char>),
    DuplicateDerivationName(Seq<char>),
}

impl View for ValidationError {
    type V = ValidationErrorView;

    open spec fn view(&self) -> ValidationErrorView {
        match self {
            ValidationError::UndefinedSoundClass(s) => ValidationErrorView::UndefinedSoundClass(s@),
            ValidationError::CircularSoundClassContainment(s) => ValidationErrorView::CircularSoundClassContainment(s@),
            ValidationError::MissingDefaultGenerator => ValidationErrorView::MissingDefaultGenerator,
            ValidationError::InvalidGrammaticalType(s) => ValidationErrorView::InvalidGrammaticalType(s@),
            ValidationError::InvalidSecondaryType(s) => ValidationErrorView::InvalidSecondaryType(s@),
            ValidationError::UnresolvedGrammarRef(s) => ValidationErrorView::UnresolvedGrammarRef(s@),
            ValidationError::CircularPatternReferences(s) => ValidationErrorView::CircularPatternReferences(s@),
            ValidationError::InvalidProsodyConfig(s) => ValidationErrorView::InvalidProsodyConfig(s@),
            ValidationError::InvalidDerivationName(s) => ValidationErrorView::InvalidDerivationName(s@),
            ValidationError::DuplicateDerivationName(s) => ValidationErrorView::DuplicateDerivationName(s@),
        }
    }
}

// ----- generator keys -----

/// The keys of the generators, in order.
pub open spec fn gen_keys(gs: Seq<(String, WordGenerator)>) -> Seq<Seq<char>> {
    gs.map_values(|e: (String, WordGenerator)| e.0@)
}

/// The position of the first `.` in a text from `k` on.
pub open spec fn first_dot_from(s: Seq<char>, k: int) -> Option<int>
    decreases s.len() - k,
{
    if k < 0 || k >= s.len() {
        None
    } else if s[k] == '.' {
        Some(k)
    } else {
        first_dot_from(s, k + 1)
    }
}

/// A key split at its first `.` into its primary and secondary types.
pub open spec fn split_key(k: Seq<char>) -> (Seq<char>, Option<Seq<char>>) {
    match first_dot_from(k, 0) {
        Some(i) => (k.subrange(0, i), Some(k.subrange(i + 1, k.len() as int))),
        None => (k, None),
    }
}

/// Whether a text is one of the primary grammatical types.
pub open spec fn is_valid_primary(p: Seq<char>) -> bool {
    p == "default"@ || p == "noun"@ || p == "pronoun"@ || p == "verb"@ || p == "adjective"@ || p == "adverb"@
        || p == "preposition"@ || p == "conjunction"@ || p == "determiner"@ || p == "interjection"@ || p == "number"@
        || p == "particle"@ || p == "article"@
}

/// Whether a character may stand in a secondary type.
pub open spec fn is_secondary_char(c: char) -> bool {
    ('a' <= c <= 'z') || ('0' <= c <= '9') || c == '_'
}

/// Whether a secondary type is valid: 1 to 32 lowercase letters, digits or `_`.
pub open spec fn is_valid_secondary(s: Seq<char>) -> bool {
    1 <= s.len() <= 32 && forall|i: int| 0 <= i < s.len() ==> #[trigger] is_secondary_char(s[i])
}

/// What is wrong with a key, if anything: its primary type (`true`) or its
/// secondary type (`false`), with the offending text.
pub open spec fn key_fault(k: Seq<char>) -> Option<(bool, Seq<char>)> {
    let (p, s) = split_key(k);
    if !is_valid_primary(p) {
        Some((true, p))
    } else {
        match s {
            Some(sec) => if !is_valid_secondary(sec) {
                Some((false, sec))
            } else {
                None
            },
            None => None,
        }
    }
}

/// The fault of the first faulty key from the `k`-th on.
pub open spec fn first_key_fault(keys: Seq<Seq<char>>, k: int) -> Option<(bool, Seq<char>)>
    decreases keys.len() - k,
{
    if k < 0 || k >= keys.len() {
        None
    } else {
        match key_fault(keys[k]) {
            Some(f) => Some(f),
            None => first_key_fault(keys, k + 1),
        }
    }
}

/// Whether an error reports a key fault.
pub open spec fn key_error_for(e: ValidationError, f: (bool, Seq<char>)) -> bool {
    if f.0 {
        e matches ValidationError::InvalidGrammaticalType(t) && t@ == f.1
    } else {
        e matches ValidationError::InvalidSecondaryType(t) && t@ == f.1
    }
}

/// The position of the first `.` in a text.
pub(crate) fn find_dot(cs: &Vec<char>) -> (r: Option<usize>)
    ensures
        r is Some == first_dot_from(cs@, 0) is Some,
        r matches Some(i) ==> first_dot_from(cs@, 0) == Some(i as int) && i < cs.len(),
{
    let mut k: usize = 0;
    while k < cs.len()
        invariant
            k <= cs.len(),
            first_dot_from(cs@, 0) == first_dot_from(cs@, k as int),
        decreases cs.len() - k,
    {
        if cs[k] == '.' {
            return Some(k);
        }
        k = k + 1;
    }
    None
}

/// Whether a text is one of the primary grammatical types.
fn valid_primary(p: &str) -> (r: bool)
    ensures
        r == is_valid_primary(p@),
{
    str_eq(p, "default") || str_eq(p, "noun") || str_eq(p, "pronoun") || str_eq(p, "verb") || str_eq(p, "adjective")
        || str_eq(p, "adverb") || str_eq(p, "preposition") || str_eq(p, "conjunction") || str_eq(p, "determiner")
        || str_eq(p, "interjection") || str_eq(p, "number") || str_eq(p, "particle") || str_eq(p, "article")
}

/// Whether a secondary type is valid.
fn valid_secondary(s: &Vec<char>) -> (r: bool)
    ensures
        r == is_valid_secondary(s@),
{
    if s.len() < 1 || s.len() > 32 {
        return false;
    }
    let mut i: usize = 0;
    while i < s.len()
        invariant
            i <= s.len(),
            forall|k: int| 0 <= k < i ==> #[trigger] is_secondary_char(s@[k]),
        decreases s.len() - i,
    {
        let c = s[i];
        if !(('a' <= c && c <= 'z') || ('0' <= c && c <= '9') || c == '_') {
            assert(!is_secondary_char(s@[i as int]));
            return false;
        }
        i = i + 1;
    }
    true
}

/// Checks the format of a generator key: a valid primary type, and a valid
/// secondary type after the first `.`, if there is one.
pub fn validate_key_format(key: &str) -> (r: Result<(), ValidationError>)
    ensures
        r is Ok <==> key_fault(key@) is None,
        r matches Err(e) ==> key_error_for(e, key_fault(key@).unwrap()),
{
    let cs = crate::text::chars_of(key);
    let (primary, secondary) = match find_dot(&cs) {
        Some(i) => (crate::text::string_range(cs.as_slice(), 0, i), Some(crate::text::chars_range(cs.as_slice(), i + 1, cs.len()))),
        None => (String::from_str(key), None),
    };
    if !valid_primary(primary.as_str()) {
        return Err(ValidationError::InvalidGrammaticalType(primary));
    }
    match secondary {
        Some(sec) => {
            if !valid_secondary(&sec) {
                return Err(ValidationError::InvalidSecondaryType(crate::text::string_from_chars(sec.as_slice())));
            }
            Ok(())
        },
        None => Ok(()),
    }
}

/// Whether a generator is defined under a key.
fn has_generator(generators: &Vec<(String, WordGenerator)>, key: &str) -> (r: bool)
    ensures
        r == gen_keys(generators@).contains(key@),
{
    let ghost ks = gen_keys(generators@);
    let mut i: usize = 0;
    while i < generators.len()
        invariant
            i <= generators.len(),
            ks == gen_keys(generators@),
            forall|k: int| 0 <= k < i ==> ks[k] != key@,
        decreases generators.len() - i,
    {
        assert(ks[i as int] == generators@[i as int].0@);
        if crate::text::str_eq(generators[i].0.as_str(), key) {
            return true;
        }
        i = i + 1;
    }
    false
}

/// Validates that all generator keys conform to the expected syntax and
/// types, and that the `default` generator is present.
pub fn validate_generator_keys(generators: &Vec<(String, WordGenerator)>) -> (r: Result<(), ValidationError>)
    ensures
        r is Ok <==> gen_keys(generators@).contains("default"@) && first_key_fault(gen_keys(generators@), 0) is None,
        !gen_keys(generators@).contains("default"@) ==> (r matches Err(e) && e is MissingDefaultGenerator),
        gen_keys(generators@).contains("default"@) && r is Err ==> key_error_for(r->Err_0, first_key_fault(gen_keys(generators@), 0).unwrap()),
{
    if !has_generator(generators, "default") {
        return Err(ValidationError::MissingDefaultGenerator);
    }
    let ghost ks = gen_keys(generators@);
    let mut i: usize = 0;
    while i < generators.len()
        invariant
            i <= generators.len(),
            ks == gen_keys(generators@),
            ks.contains("default"@),
            first_key_fault(ks, 0) == first_key_fault(ks, i as int),
        decreases generators.len() - i,
    {
        assert(ks[i as int] == generators@[i as int].0@);
        validate_key_format(generators[i].0.as_str())?;
        i = i + 1;
    }
    Ok(())
}

/// The generator that a reference resolves to: the key itself, else its
/// primary type, else `default`.
pub open spec fn spec_resolve_key(ks: Seq<Seq<char>>, r: Seq<char>) -> Option<Seq<char>> {
    if ks.contains(r) {
        Some(r)
    } else if split_key(r).1 is Some && ks.contains(split_key(r).0) {
        Some(split_key(r).0)
    } else if ks.contains("default"@) {
        Some("default"@)
    } else {
        None
    }
}

/// Resolves a grammatical reference to the generator that serves it.
pub fn resolve_generator_key(ref_key: &str, generators: &Vec<(String, WordGenerator)>) -> (r: Result<String, ValidationError>)
    ensures
        r is Ok <==> spec_resolve_key(gen_keys(generators@), ref_key@) is Some,
        r matches Ok(k) ==> spec_resolve_key(gen_keys(generators@), ref_key@) == Some(k@),
        r matches Err(e) ==> (e matches ValidationError::UnresolvedGrammarRef(t) && t@ == ref_key@),
{
    if has_generator(generators, ref_key) {
        return Ok(String::from_str(ref_key));
    }
    let cs = crate::text::chars_of(ref_key);
    if let Some(i) = find_dot(&cs) {
        let base = crate::text::string_range(cs.as_slice(), 0, i);
        if has_generator(generators, base.as_str()) {
            return Ok(base);
        }
    }
    if has_generator(generators, "default") {
        return Ok(String::from_str("default"));
    }
    Err(ValidationError::UnresolvedGrammarRef(String::from_str(ref_key)))
}

// ----- references in patterns -----

/// The class letters among a set's choices: those that are one uppercase letter.
pub open spec fn choice_classes(chs: Seq<Seq<char>>) -> Seq<char>
    decreases chs.len(),
{
    if chs.len() == 0 {
        Seq::empty()
    } else {
        choice_classes(chs.drop_last()) + (if chs.last().len() == 1 && is_class_letter(chs.last()[0]) {
            seq![chs.last()[0]]
        } else {
            Seq::empty()
        })
    }
}

/// The sound classes that an element refers to, in order.
pub open spec fn element_classes(e: GenElementView) -> Seq<char>
    decreases e,
{
    match e {
        GenElementView::SoundClass(c) => seq![c],
        GenElementView::Optional(p, _) => pattern_classes(*p),
        GenElementView::SetOf(chs) => choice_classes(chs),
        _ => Seq::empty(),
    }
}

/// The sound classes that a pattern refers to, in order.
pub open spec fn pattern_classes(es: Seq<GenElementView>) -> Seq<char>
    decreases es,
{
    if es.len() == 0 {
        Seq::empty()
    } else {
        pattern_classes(es.drop_last()) + element_classes(es.last())
    }
}

/// The key of a grammar reference: its primary type, and `.` and its secondary type if any.
pub open spec fn ref_key(primary: Seq<char>, secondary: Option<Seq<char>>) -> Seq<char> {
    match secondary {
        Some(s) => primary + seq!['.'] + s,
        None => primary,
    }
}

/// The grammar references of an element, in order.
pub open spec fn element_refs(e: GenElementView) -> Seq<Seq<char>>
    decreases e,
{
    match e {
        GenElementView::Optional(p, _) => pattern_refs(*p),
        GenElementView::GrammarRef { primary, secondary } => seq![ref_key(primary, secondary)],
        _ => Seq::empty(),
    }
}

/// The grammar references of a pattern, in order.
pub open spec fn pattern_refs(es: Seq<GenElementView>) -> Seq<Seq<char>>
    decreases es,
{
    if es.len() == 0 {
        Seq::empty()
    } else {
        pattern_refs(es.drop_last()) + element_refs(es.last())
    }
}

/// The letters of class keys.
pub open spec fn letters(ks: Seq<SoundClassKey>) -> Seq<char> {
    ks.map_values(|k: SoundClassKey| k.letter)
}

fn push_key(out: &mut Vec<SoundClassKey>, k: SoundClassKey)
    ensures
        letters(final(out)@) == letters(old(out)@).push(k.letter),
{
    let ghost before = out@;
    out.push(k);
    assert(letters(out@) =~= letters(before).push(k.letter));
}

/// Appends the class letters among a set's choices.
fn collect_choice_classes(chs: &Vec<String>, sound_classes: &mut Vec<SoundClassKey>)
    ensures
        letters(final(sound_classes)@) == letters(old(sound_classes)@) + choice_classes(crate::data::strings_view(chs@)),
{
    let ghost cv = crate::data::strings_view(chs@);
    let ghost start = letters(sound_classes@);
    let mut i: usize = 0;
    while i < chs.len()
        invariant
            i <= chs.len(),
            cv == crate::data::strings_view(chs@),
            letters(sound_classes@) == start + choice_classes(cv.take(i as int)),
        decreases chs.len() - i,
    {
        assert(cv.take(i + 1).drop_last() =~= cv.take(i as int));
        assert(cv[i as int] == chs@[i as int]@);
        let ghost before = letters(sound_classes@);
        match SoundClassKey::parse(chs[i].as_str()) {
            Ok(k) => {
                push_key(sound_classes, k);
                assert(start + choice_classes(cv.take(i + 1)) =~= before.push(k.letter));
            },
            Err(_) => {
                assert(start + choice_classes(cv.take(i + 1)) =~= before);
            },
        }
        i = i + 1;
    }
    assert(cv.take(i as int) =~= cv);
}

/// Appends the sound classes and grammar references of an element.
fn collect_element_references(el: &WordPatternElement, sound_classes: &mut Vec<SoundClassKey>, grammar_refs: &mut Vec<String>)
    ensures
        letters(final(sound_classes)@) == letters(old(sound_classes)@) + element_classes(el@),
        crate::data::strings_view(final(grammar_refs)@) == crate::data::strings_view(old(grammar_refs)@) + element_refs(el@),
    decreases el@,
{
    let ghost rv = crate::data::strings_view(grammar_refs@);
    let ghost cl = letters(sound_classes@);
    match el {
        WordPatternElement::SoundClass(sc) => {
            push_key(sound_classes, *sc);
            assert(crate::data::strings_view(grammar_refs@) =~= rv + Seq::<Seq<char>>::empty());
        },
        WordPatternElement::Optional(inner, _) => {
            proof {
                assert(decreases_to!(el@ => (el@)->Optional_0));
            }
            collect_pattern_references(inner.elements.as_slice(), sound_classes, grammar_refs);
        },
        WordPatternElement::SetOf(choices) => {
            collect_choice_classes(choices, sound_classes);
            assert(crate::data::strings_view(grammar_refs@) =~= rv + Seq::<Seq<char>>::empty());
        },
        WordPatternElement::GrammarRef { primary, secondary } => {
            let mut key = primary.clone();
            match secondary {
                Some(sec) => {
                    key.append(".");
                    key.append(sec.as_str());
                    proof {
                        reveal_strlit(".");
                    }
                },
                None => {},
            }
            assert(key@ =~= ref_key(primary@, crate::generator::pattern::opt_text(*secondary)));
            let ghost before = grammar_refs@;
            grammar_refs.push(key);
            assert(crate::data::strings_view(grammar_refs@) =~= crate::data::strings_view(before) + seq![key@]);
            assert(letters(sound_classes@) =~= cl + Seq::<char>::empty());
        },
        _ => {
            assert(crate::data::strings_view(grammar_refs@) =~= rv + Seq::<Seq<char>>::empty());
            assert(letters(sound_classes@) =~= cl + Seq::<char>::empty());
        },
    }
}

/// Appends the sound classes and grammar references of a pattern's elements.
fn collect_pattern_references(es: &[WordPatternElement], sound_classes: &mut Vec<SoundClassKey>, grammar_refs: &mut Vec<String>)
    ensures
        letters(final(sound_classes)@) == letters(old(sound_classes)@) + pattern_classes(gen_elements_view(es@)),
        crate::data::strings_view(final(grammar_refs)@) == crate::data::strings_view(old(grammar_refs)@) + pattern_refs(gen_elements_view(es@)),
    decreases gen_elements_view(es@),
{
    proof {
        lemma_gen_elements_view(es@);
    }
    let ghost ev = gen_elements_view(es@);
    let ghost c0 = letters(sound_classes@);
    let ghost r0 = crate::data::strings_view(grammar_refs@);
    let mut i: usize = 0;
    assert(c0 + pattern_classes(ev.take(0)) =~= c0);
    assert(r0 + pattern_refs(ev.take(0)) =~= r0);
    while i < es.len()
        invariant
            i <= es.len(),
            ev == gen_elements_view(es@),
            ev.len() == es@.len(),
            forall|k: int| 0 <= k < es@.len() ==> #[trigger] ev[k] == gen_element_view(es@[k]),
            letters(sound_classes@) == c0 + pattern_classes(ev.take(i as int)),
            crate::data::strings_view(grammar_refs@) == r0 + pattern_refs(ev.take(i as int)),
        decreases es.len() - i,
    {
        assert(ev.take(i + 1).drop_last() =~= ev.take(i as int));
        proof {
            assert(decreases_to!(ev => ev[i as int]));
        }
        collect_element_references(&es[i], sound_classes, grammar_refs);
        assert(c0 + pattern_classes(ev.take(i + 1)) =~= c0 + pattern_classes(ev.take(i as int)) + element_classes(ev[i as int]));
        assert(r0 + pattern_refs(ev.take(i + 1)) =~= r0 + pattern_refs(ev.take(i as int)) + element_refs(ev[i as int]));
        i = i + 1;
    }
    assert(ev.take(i as int) =~= ev);
}

/// The sound classes referred to by a generator's patterns, in order.
pub open spec fn generator_classes(pats: Seq<WordPattern>) -> Seq<char>
    decreases pats.len(),
{
    if pats.len() == 0 {
        Seq::empty()
    } else {
        generator_classes(pats.drop_last()) + pattern_classes(pats.last()@)
    }
}

/// The sound classes referred to by all generators, in order.
pub open spec fn all_classes(gs: Seq<(String, WordGenerator)>) -> Seq<char>
    decreases gs.len(),
{
    if gs.len() == 0 {
        Seq::empty()
    } else {
        all_classes(gs.drop_last()) + generator_classes(gs.last().1.patterns@)
    }
}

/// The first letter of `cs` that is not among `defined`.
pub open spec fn first_undefined(cs: Seq<char>, defined: Seq<char>) -> Option<char>
    decreases cs.len(),
{
    if cs.len() == 0 {
        None
    } else if !defined.contains(cs[0]) {
        Some(cs[0])
    } else {
        first_undefined(cs.drop_first(), defined)
    }
}

proof fn lemma_first_undefined_append(a: Seq<char>, b: Seq<char>, defined: Seq<char>)
    ensures
        first_undefined(a + b, defined) == (match first_undefined(a, defined) {
            Some(c) => Some(c),
            None => first_undefined(b, defined),
        }),
    decreases a.len(),
{
    if a.len() == 0 {
        assert(a + b =~= b);
    } else {
        assert((a + b).drop_first() =~= a.drop_first() + b);
        lemma_first_undefined_append(a.drop_first(), b, defined);
    }
}

/// The first class among `cs` that is not defined.
fn find_undefined(cs: &Vec<SoundClassKey>, defined: &Vec<SoundClassKey>) -> (r: Option<char>)
    ensures
        r == first_undefined(letters(cs@), letters(defined@)),
{
    let ghost lv = letters(cs@);
    let ghost dv = letters(defined@);
    let mut i: usize = 0;
    assert(lv.skip(0) =~= lv);
    while i < cs.len()
        invariant
            i <= cs.len(),
            lv == letters(cs@),
            dv == letters(defined@),
            first_undefined(lv, dv) == first_undefined(lv.skip(i as int), dv),
        decreases cs.len() - i,
    {
        assert(lv.skip(i as int).drop_first() =~= lv.skip(i + 1));
        assert(lv.skip(i as int)[0] == cs@[i as int].letter);
        let mut found = false;
        let mut j: usize = 0;
        while j < defined.len()
            invariant
                j <= defined.len(),
                i < cs.len(),
                dv == letters(defined@),
                found ==> dv.contains(cs@[i as int].letter),
                !found ==> forall|q: int| 0 <= q < j ==> dv[q] != cs@[i as int].letter,
            decreases defined.len() - j,
        {
            assert(dv[j as int] == defined@[j as int].letter);
            if defined[j].letter == cs[i].letter {
                found = true;
            }
            j = j + 1;
        }
        if !found {
            return Some(cs[i].letter);
        }
        i = i + 1;
    }
    None
}

/// Validates that every sound class referred to by a generator pattern is
/// defined; the first undefined one, in order, is reported.
pub fn validate_pattern_sound_classes(
    generators: &Vec<(String, WordGenerator)>,
    defined_sound_classes: &Vec<SoundClassKey>,
) -> (r: Result<(), ValidationError>)
    ensures
        r is Ok <==> first_undefined(all_classes(generators@), letters(defined_sound_classes@)) is None,
        r matches Err(e) ==> (e matches ValidationError::UndefinedSoundClass(t)
            && t@ == seq![first_undefined(all_classes(generators@), letters(defined_sound_classes@)).unwrap()]),
{
    let ghost dv = letters(defined_sound_classes@);
    let mut i: usize = 0;
    while i < generators.len()
        invariant
            i <= generators.len(),
            dv == letters(defined_sound_classes@),
            first_undefined(all_classes(generators@.take(i as int)), dv) is None,
        decreases generators.len() - i,
    {
        let pats = &generators[i].1.patterns;
        let mut j: usize = 0;
        while j < pats.len()
            invariant
                j <= pats.len(),
                i < generators.len(),
                pats == &generators@[i as int].1.patterns,
                dv == letters(defined_sound_classes@),
                first_undefined(all_classes(generators@.take(i as int)), dv) is None,
                first_undefined(generator_classes(pats@.take(j as int)), dv) is None,
            decreases pats.len() - j,
        {
            let mut scs: Vec<SoundClassKey> = Vec::new();
            let mut refs: Vec<String> = Vec::new();
            assert(letters(scs@) =~= Seq::<char>::empty());
            collect_pattern_references(pats[j].elements.as_slice(), &mut scs, &mut refs);
            assert(letters(scs@) =~= pattern_classes(pats@[j as int]@));
            assert(pats@.take(j + 1).drop_last() =~= pats@.take(j as int));
            proof {
                lemma_first_undefined_append(generator_classes(pats@.take(j as int)), pattern_classes(pats@[j as int]@), dv);
                lemma_first_undefined_append(all_classes(generators@.take(i as int)),
                    generator_classes(pats@.take(j as int)) + pattern_classes(pats@[j as int]@), dv);
                assert(generators@.take(i + 1).drop_last() =~= generators@.take(i as int));
                lemma_all_classes_prefix(generators@, i as int, pats@, j as int);
            }
            match find_undefined(&scs, defined_sound_classes) {
                Some(c) => {
                    let t = crate::text::char_string(c);
                    return Err(ValidationError::UndefinedSoundClass(t));
                },
                None => {},
            }
            j = j + 1;
        }
        assert(pats@.take(j as int) =~= pats@);
        assert(generators@.take(i + 1).drop_last() =~= generators@.take(i as int));
        proof {
            lemma_first_undefined_append(all_classes(generators@.take(i as int)), generator_classes(pats@), dv);
        }
        i = i + 1;
    }
    assert(generators@.take(i as int) =~= generators@);
    Ok(())
}

/// When the classes of the first `i` generators and of the first `j + 1`
/// patterns of the next have an undefined one, so do all the classes.
proof fn lemma_all_classes_prefix(gs: Seq<(String, WordGenerator)>, i: int, pats: Seq<WordPattern>, j: int)
    requires
        0 <= i < gs.len(),
        pats == gs[i].1.patterns@,
        0 <= j < pats.len(),
    ensures
        forall|dv: Seq<char>| first_undefined(all_classes(gs.take(i)) + (generator_classes(pats.take(j)) + pattern_classes(pats[j]@)), dv) is Some
            ==> first_undefined(all_classes(gs), dv) == first_undefined(all_classes(gs.take(i)) + (generator_classes(pats.take(j)) + pattern_classes(pats[j]@)), dv),
{
    assert forall|dv: Seq<char>| first_undefined(all_classes(gs.take(i)) + (generator_classes(pats.take(j)) + pattern_classes(pats[j]@)), dv) is Some
        implies first_undefined(all_classes(gs), dv) == first_undefined(all_classes(gs.take(i)) + (generator_classes(pats.take(j)) + pattern_classes(pats[j]@)), dv) by {
        let pre = all_classes(gs.take(i)) + (generator_classes(pats.take(j)) + pattern_classes(pats[j]@));
        lemma_generator_classes_split(pats, j + 1);
        assert(pats.take(j + 1).drop_last() =~= pats.take(j));
        let rest_g = generator_classes(pats.skip(j + 1));
        assert(generator_classes(pats) == generator_classes(pats.take(j + 1)) + rest_g);
        lemma_all_classes_split(gs, i + 1);
        assert(gs.take(i + 1).drop_last() =~= gs.take(i));
        let rest_a = all_classes(gs.skip(i + 1));
        assert(all_classes(gs) == all_classes(gs.take(i + 1)) + rest_a);
        assert(all_classes(gs.take(i + 1)) == all_classes(gs.take(i)) + generator_classes(pats));
        assert(all_classes(gs) =~= pre + (rest_g + rest_a));
        lemma_first_undefined_append(pre, rest_g + rest_a, dv);
    }
}

proof fn lemma_generator_classes_split(pats: Seq<WordPattern>, k: int)
    requires
        0 <= k <= pats.len(),
    ensures
        generator_classes(pats) == generator_classes(pats.take(k)) + generator_classes(pats.skip(k)),
    decreases pats.len() - k,
{
    if k == pats.len() {
        assert(pats.take(k) =~= pats);
        assert(pats.skip(k) =~= Seq::<WordPattern>::empty());
        assert(generator_classes(pats) + Seq::<char>::empty() =~= generator_classes(pats));
    } else {
        lemma_generator_classes_split(pats, k + 1);
        assert(pats.take(k + 1).drop_last() =~= pats.take(k));
        lemma_generator_classes_skip(pats, k);
        assert(generator_classes(pats.take(k)) + pattern_classes(pats[k]@) + generator_classes(pats.skip(k + 1))
            =~= generator_classes(pats.take(k)) + (pattern_classes(pats[k]@) + generator_classes(pats.skip(k + 1))));
    }
}

proof fn lemma_generator_classes_skip(pats: Seq<WordPattern>, k: int)
    requires
        0 <= k < pats.len(),
    ensures
        generator_classes(pats.skip(k)) == pattern_classes(pats[k]@) + generator_classes(pats.skip(k + 1)),
    decreases pats.len() - k,
{
    let s = pats.skip(k);
    if k == pats.len() - 1 {
        assert(s.drop_last() =~= Seq::<WordPattern>::empty());
        assert(pats.skip(k + 1) =~= Seq::<WordPattern>::empty());
        assert(generator_classes(s.drop_last()) =~= Seq::<char>::empty());
        assert(pattern_classes(pats[k]@) + Seq::<char>::empty() =~= pattern_classes(pats[k]@));
    } else {
        let t = pats.drop_last();
        lemma_generator_classes_skip(t, k);
        assert(t.skip(k) =~= s.drop_last());
        assert(t.skip(k + 1) =~= pats.skip(k + 1).drop_last());
        assert(pattern_classes(pats[k]@) + generator_classes(t.skip(k + 1)) + pattern_classes(pats.last()@)
            =~= pattern_classes(pats[k]@) + (generator_classes(t.skip(k + 1)) + pattern_classes(pats.last()@)));
    }
}

proof fn lemma_all_classes_split(gs: Seq<(String, WordGenerator)>, k: int)
    requires
        0 <= k <= gs.len(),
    ensures
        all_classes(gs) == all_classes(gs.take(k)) + all_classes(gs.skip(k)),
    decreases gs.len() - k,
{
    if k == gs.len() {
        assert(gs.take(k) =~= gs);
        assert(gs.skip(k) =~= Seq::<(String, WordGenerator)>::empty());
        assert(all_classes(gs) + Seq::<char>::empty() =~= all_classes(gs));
    } else {
        lemma_all_classes_split(gs, k + 1);
        assert(gs.take(k + 1).drop_last() =~= gs.take(k));
        lemma_all_classes_skip(gs, k);
        assert(all_classes(gs.take(k)) + generator_classes(gs[k].1.patterns@) + all_classes(gs.skip(k + 1))
            =~= all_classes(gs.take(k)) + (generator_classes(gs[k].1.patterns@) + all_classes(gs.skip(k + 1))));
    }
}

proof fn lemma_all_classes_skip(gs: Seq<(String, WordGenerator)>, k: int)
    requires
        0 <= k < gs.len(),
    ensures
        all_classes(gs.skip(k)) == generator_classes(gs[k].1.patterns@) + all_classes(gs.skip(k + 1)),
    decreases gs.len() - k,
{
    let s = gs.skip(k);
    if k == gs.len() - 1 {
        assert(s.drop_last() =~= Seq::<(String, WordGenerator)>::empty());
        assert(gs.skip(k + 1) =~= Seq::<(String, WordGenerator)>::empty());
        assert(all_classes(s.drop_last()) =~= Seq::<char>::empty());
        assert(generator_classes(gs[k].1.patterns@) + Seq::<char>::empty() =~= generator_classes(gs[k].1.patterns@));
    } else {
        let t = gs.drop_last();
        lemma_all_classes_skip(t, k);
        assert(t.skip(k) =~= s.drop_last());
        assert(t.skip(k + 1) =~= gs.skip(k + 1).drop_last());
        assert(generator_classes(gs[k].1.patterns@) + all_classes(t.skip(k + 1)) + generator_classes(gs.last().1.patterns@)
            =~= generator_classes(gs[k].1.patterns@) + (all_classes(t.skip(k + 1)) + generator_classes(gs.last().1.patterns@)));
    }
}

// ----- derivations -----

/// Whether a character may stand in a derivation name: an uppercase ASCII
/// letter, an ASCII digit, `.` or `_`.
pub open spec fn is_derivation_char(c: char) -> bool {
    ('A' <= c <= 'Z') || ('0' <= c <= '9') || c == '.' || c == '_'
}

/// Whether a derivation name is valid: 3 to 31 characters, each an
/// uppercase ASCII letter, an ASCII digit, `.` or `_`.
pub open spec fn spec_valid_derivation_name(n: Seq<char>) -> bool {
    3 <= n.len() <= 31 && forall|i: int| 0 <= i < n.len() ==> #[trigger] is_derivation_char(n[i])
}

/// Helper to validate if derivation name fits the required character set and length constraints.
pub fn is_valid_derivation_name(name: &str) -> (r: bool)
    ensures
        r == spec_valid_derivation_name(name@),
{
    let cs = crate::text::chars_of(name);
    if cs.len() < 3 || cs.len() > 31 {
        return false;
    }
    let mut i: usize = 0;
    while i < cs.len()
        invariant
            i <= cs.len(),
            cs@ == name@,
            forall|k: int| 0 <= k < i ==> #[trigger] is_derivation_char(cs@[k]),
        decreases cs.len() - i,
    {
        let c = cs[i];
        if !(('A' <= c && c <= 'Z') || ('0' <= c && c <= '9') || c == '.' || c == '_') {
            assert(!is_derivation_char(cs@[i as int]));
            return false;
        }
        i = i + 1;
    }
    true
}

/// The names of derivations, in order.
pub open spec fn deriv_names(ds: Seq<Derivation>) -> Seq<Seq<char>> {
    ds.map_values(|d: Derivation| d.name@)
}

/// The first invalid name from the `k`-th on.
pub open spec fn first_invalid_name(names: Seq<Seq<char>>, k: int) -> Option<Seq<char>>
    decreases names.len() - k,
{
    if k < 0 || k >= names.len() {
        None
    } else if !spec_valid_derivation_name(names[k]) {
        Some(names[k])
    } else {
        first_invalid_name(names, k + 1)
    }
}

/// The first name, from the `k`-th on, that occurs earlier in the list.
pub open spec fn first_dup_from(names: Seq<Seq<char>>, k: int) -> Option<Seq<char>>
    decreases names.len() - k,
{
    if k < 0 || k >= names.len() {
        None
    } else if names.take(k).contains(names[k]) {
        Some(names[k])
    } else {
        first_dup_from(names, k + 1)
    }
}

/// The grammatical types that derivations start from: each `from_type`, and
/// its primary type when it has a secondary one, in order.
pub open spec fn deriv_types(ds: Seq<Derivation>) -> Seq<Seq<char>>
    decreases ds.len(),
{
    if ds.len() == 0 {
        Seq::empty()
    } else {
        deriv_types(ds.drop_last()) + match ds.last().from_type {
            Some(f) => match split_key(f@).1 {
                Some(_) => seq![f@, split_key(f@).0],
                None => seq![f@],
            },
            None => Seq::empty(),
        }
    }
}

/// Whether a derivation from `from` applies to words of type `target`.
pub open spec fn spec_applies(from: Option<Seq<char>>, target: Seq<char>) -> bool {
    match from {
        None => true,
        Some(f) => f == target || (split_key(target).1 is Some && f == split_key(target).0),
    }
}

/// The names of the derivations that apply to a type, in order.
pub open spec fn applying_names(ds: Seq<Derivation>, t: Seq<char>) -> Seq<Seq<char>>
    decreases ds.len(),
{
    if ds.len() == 0 {
        Seq::empty()
    } else {
        applying_names(ds.drop_last(), t) + (if spec_applies(crate::generator::pattern::opt_text(ds.last().from_type), t) {
            seq![ds.last().name@]
        } else {
            Seq::empty()
        })
    }
}

/// The duplicate name of the first type, from the `k`-th on, among whose
/// derivations a name repeats.
pub open spec fn first_type_dup(ds: Seq<Derivation>, types: Seq<Seq<char>>, k: int) -> Option<Seq<char>>
    decreases types.len() - k,
{
    if k < 0 || k >= types.len() {
        None
    } else {
        match first_dup_from(applying_names(ds, types[k]), 0) {
            Some(n) => Some(n),
            None => first_type_dup(ds, types, k + 1),
        }
    }
}

/// The fault of a list of derivations: an invalid name (`true`), else a
/// duplicate name (`false`): among all derivations when none names a type,
/// else among those that apply to one type.
pub open spec fn derivation_fault(ds: Seq<Derivation>) -> Option<(bool, Seq<char>)> {
    match first_invalid_name(deriv_names(ds), 0) {
        Some(n) => Some((true, n)),
        None => {
            let types = deriv_types(ds);
            let dup = if types.len() == 0 {
                first_dup_from(deriv_names(ds), 0)
            } else {
                first_type_dup(ds, types, 0)
            };
            match dup {
                Some(n) => Some((false, n)),
                None => None,
            }
        },
    }
}

fn validate_derivation_names_op(derivations: &Vec<Derivation>) -> (r: Result<(), ValidationError>)
    ensures
        r is Ok <==> first_invalid_name(deriv_names(derivations@), 0) is None,
        r matches Err(e) ==> (e matches ValidationError::InvalidDerivationName(t) && first_invalid_name(deriv_names(derivations@), 0) == Some(t@)),
{
    let ghost nv = deriv_names(derivations@);
    let mut i: usize = 0;
    while i < derivations.len()
        invariant
            i <= derivations.len(),
            nv == deriv_names(derivations@),
            first_invalid_name(nv, 0) == first_invalid_name(nv, i as int),
        decreases derivations.len() - i,
    {
        assert(nv[i as int] == derivations@[i as int].name@);
        if !is_valid_derivation_name(derivations[i].name.as_str()) {
            return Err(ValidationError::InvalidDerivationName(derivations[i].name.clone()));
        }
        i = i + 1;
    }
    Ok(())
}

/// Whether a list of names holds a name.
fn names_contain(names: &Vec<String>, n: &str) -> (r: bool)
    ensures
        r == crate::data::strings_view(names@).contains(n@),
{
    let ghost sv = crate::data::strings_view(names@);
    let mut i: usize = 0;
    while i < names.len()
        invariant
            i <= names.len(),
            sv == crate::data::strings_view(names@),
            forall|k: int| 0 <= k < i ==> sv[k] != n@,
        decreases names.len() - i,
    {
        assert(sv[i as int] == names@[i as int]@);
        if crate::text::str_eq(names[i].as_str(), n) {
            return true;
        }
        i = i + 1;
    }
    false
}

/// The first name that occurs earlier in the list.
fn find_dup(names: &Vec<String>) -> (r: Option<usize>)
    ensures
        r is Some == first_dup_from(crate::data::strings_view(names@), 0) is Some,
        r matches Some(k) ==> k < names.len() && first_dup_from(crate::data::strings_view(names@), 0) == Some(names@[k as int]@),
{
    let ghost sv = crate::data::strings_view(names@);
    let mut seen: Vec<String> = Vec::new();
    let mut i: usize = 0;
    while i < names.len()
        invariant
            i <= names.len(),
            sv == crate::data::strings_view(names@),
            crate::data::strings_view(seen@) == sv.take(i as int),
            first_dup_from(sv, 0) == first_dup_from(sv, i as int),
        decreases names.len() - i,
    {
        assert(sv[i as int] == names@[i as int]@);
        if names_contain(&seen, names[i].as_str()) {
            return Some(i);
        }
        let ghost before = seen@;
        let c = names[i].clone();
        assert(c@ == names@[i as int]@);
        seen.push(c);
        assert(crate::data::strings_view(seen@) =~= crate::data::strings_view(before).push(c@));
        assert(sv.take(i + 1) =~= sv.take(i as int).push(sv[i as int]));
        i = i + 1;
    }
    None
}

/// The types that derivations start from.
fn collect_all_types_op(derivations: &Vec<Derivation>) -> (r: Vec<String>)
    ensures
        crate::data::strings_view(r@) == deriv_types(derivations@),
{
    let mut out: Vec<String> = Vec::new();
    let mut i: usize = 0;
    while i < derivations.len()
        invariant
            i <= derivations.len(),
            crate::data::strings_view(out@) == deriv_types(derivations@.take(i as int)),
        decreases derivations.len() - i,
    {
        assert(derivations@.take(i + 1).drop_last() =~= derivations@.take(i as int));
        let ghost before = crate::data::strings_view(out@);
        match &derivations[i].from_type {
            Some(f) => {
                out.push(f.clone());
                let cs = crate::text::chars_of(f.as_str());
                match find_dot(&cs) {
                    Some(k) => {
                        out.push(crate::text::string_range(cs.as_slice(), 0, k));
                    },
                    None => {},
                }
            },
            None => {},
        }
        assert(crate::data::strings_view(out@) =~= deriv_types(derivations@.take(i + 1)));
        i = i + 1;
    }
    assert(derivations@.take(i as int) =~= derivations@);
    out
}

/// Whether a derivation from `from_type` applies to words of `target_type`.
fn derivation_applies_to_type_op(from_type: Option<&String>, target_type: &str) -> (r: bool)
    ensures
        r == spec_applies(match from_type {
            Some(f) => Some(f@),
            None => None,
        }, target_type@),
{
    match from_type {
        None => true,
        Some(f) => {
            if crate::text::str_eq(f.as_str(), target_type) {
                return true;
            }
            let cs = crate::text::chars_of(target_type);
            match find_dot(&cs) {
                Some(k) => {
                    let base = crate::text::string_range(cs.as_slice(), 0, k);
                    crate::text::str_eq(f.as_str(), base.as_str())
                },
                None => false,
            }
        },
    }
}

/// The names of the derivations that apply to a type.
fn applying(derivations: &Vec<Derivation>, t: &str) -> (r: Vec<String>)
    ensures
        crate::data::strings_view(r@) == applying_names(derivations@, t@),
{
    let mut out: Vec<String> = Vec::new();
    let mut i: usize = 0;
    while i < derivations.len()
        invariant
            i <= derivations.len(),
            crate::data::strings_view(out@) == applying_names(derivations@.take(i as int), t@),
        decreases derivations.len() - i,
    {
        assert(derivations@.take(i + 1).drop_last() =~= derivations@.take(i as int));
        let ghost before = crate::data::strings_view(out@);
        let applies = derivation_applies_to_type_op(derivations[i].from_type.as_ref(), t);
        assert(match derivations@[i as int].from_type { Some(f) => Some(f@), None => None::<Seq<char>> }
            == crate::generator::pattern::opt_text(derivations@[i as int].from_type));
        if applies {
            out.push(derivations[i].name.clone());
        }
        assert(crate::data::strings_view(out@) =~= applying_names(derivations@.take(i + 1), t@));
        i = i + 1;
    }
    assert(derivations@.take(i as int) =~= derivations@);
    out
}

/// Validates the derivations: every name is valid, and no name repeats
/// among the derivations that apply to one type (among all derivations
/// when none is limited to a type).
pub fn validate_derivations(derivations: &Vec<Derivation>) -> (r: Result<(), ValidationError>)
    ensures
        r is Ok <==> derivation_fault(derivations@) is None,
        r matches Err(e) ==> (match derivation_fault(derivations@).unwrap() {
            (true, n) => e matches ValidationError::InvalidDerivationName(t) && t@ == n,
            (false, n) => e matches ValidationError::DuplicateDerivationName(t) && t@ == n,
        }),
{
    validate_derivation_names_op(derivations)?;
    let all_types = collect_all_types_op(derivations);
    let ghost tv = crate::data::strings_view(all_types@);
    if all_types.len() == 0 {
        let mut names: Vec<String> = Vec::new();
        let mut i: usize = 0;
        while i < derivations.len()
            invariant
                i <= derivations.len(),
                crate::data::strings_view(names@) =~= deriv_names(derivations@).take(i as int),
            decreases derivations.len() - i,
        {
            let ghost before = names@;
            let c = derivations[i].name.clone();
            names.push(c);
            assert(crate::data::strings_view(names@) =~= crate::data::strings_view(before).push(c@));
            i = i + 1;
        }
        assert(deriv_names(derivations@).take(i as int) =~= deriv_names(derivations@));
        match find_dup(&names) {
            Some(k) => {
                return Err(ValidationError::DuplicateDerivationName(names[k].clone()));
            },
            None => {
                return Ok(());
            },
        }
    }
    let mut k: usize = 0;
    while k < all_types.len()
        invariant
            k <= all_types.len(),
            tv == crate::data::strings_view(all_types@),
            tv == deriv_types(derivations@),
            tv.len() > 0,
            first_invalid_name(deriv_names(derivations@), 0) is None,
            first_type_dup(derivations@, tv, 0) == first_type_dup(derivations@, tv, k as int),
        decreases all_types.len() - k,
    {
        assert(tv[k as int] == all_types@[k as int]@);
        let names = applying(derivations, all_types[k].as_str());
        match find_dup(&names) {
            Some(j) => {
                let n = names[j].clone();
                assert(first_type_dup(derivations@, tv, k as int) == Some(n@));
                assert(tv.len() > 0);
                return Err(ValidationError::DuplicateDerivationName(n));
            },
            None => {},
        }
        k = k + 1;
    }
    Ok(())
}

} // verus!

verus! {

proof fn lemma_no_dup_from(names: Seq<Seq<char>>, k: int)
    requires
        0 <= k,
        first_dup_from(names, k) is None,
    ensures
        forall|i: int, j: int| 0 <= i < j < names.len() && k <= j ==> names[i] != names[j],
    decreases names.len() - k,
{
    if k < names.len() {
        lemma_no_dup_from(names, k + 1);
        assert forall|i: int| 0 <= i < k implies names[i] != names[k] by {
            if names[i] == names[k] {
                assert(names.take(k)[i] == names[i]);
                assert(names.take(k).contains(names[k]));
            }
        }
    }
}

proof fn lemma_no_type_dup(ds: Seq<Derivation>, types: Seq<Seq<char>>, k: int)
    requires
        0 <= k,
        first_type_dup(ds, types, k) is None,
    ensures
        forall|m: int| k <= m < types.len() ==> first_dup_from(applying_names(ds, #[trigger] types[m]), 0) is None,
    decreases types.len() - k,
{
    if k < types.len() {
        lemma_no_type_dup(ds, types, k + 1);
    }
}

proof fn lemma_dup_found(names: Seq<Seq<char>>, k: int)
    requires
        0 <= k,
        first_dup_from(names, k) is Some,
    ensures
        !names.no_duplicates(),
    decreases names.len() - k,
{
    if names.take(k).contains(names[k]) {
        let i = choose|i: int| 0 <= i < names.take(k).len() && names.take(k)[i] == names[k];
        assert(names[i] == names.take(k)[i]);
    } else {
        lemma_dup_found(names, k + 1);
    }
}

proof fn lemma_invalid_found(names: Seq<Seq<char>>, k: int)
    requires
        0 <= k,
    ensures
        first_invalid_name(names, k) is None <==> forall|i: int| k <= i < names.len() ==> spec_valid_derivation_name(#[trigger] names[i]),
    decreases names.len() - k,
{
    if k < names.len() {
        lemma_invalid_found(names, k + 1);
    }
}

proof fn lemma_type_dup_found(ds: Seq<Derivation>, types: Seq<Seq<char>>, k: int)
    requires
        0 <= k,
        first_type_dup(ds, types, k) is Some,
    ensures
        exists|m: int| k <= m < types.len() && first_dup_from(applying_names(ds, #[trigger] types[m]), 0) is Some,
    decreases types.len() - k,
{
    if first_dup_from(applying_names(ds, types[k]), 0) is None {
        lemma_type_dup_found(ds, types, k + 1);
    }
}

/// A list of derivations passes validation exactly when every name is
/// valid and the names are distinct: all of them when no derivation names
/// a type, else, for each type that a derivation names (or the primary
/// type of one it names), those of the derivations that apply to it.
pub proof fn lemma_derivations_valid_iff(ds: Seq<Derivation>)
    ensures
        derivation_fault(ds) is None <==> ({
            &&& forall|i: int| 0 <= i < ds.len() ==> spec_valid_derivation_name(#[trigger] deriv_names(ds)[i])
            &&& deriv_types(ds).len() == 0 ==> deriv_names(ds).no_duplicates()
            &&& forall|m: int| 0 <= m < deriv_types(ds).len() ==> applying_names(ds, #[trigger] deriv_types(ds)[m]).no_duplicates()
        }),
{
    let names = deriv_names(ds);
    let types = deriv_types(ds);
    lemma_invalid_found(names, 0);
    if derivation_fault(ds) is None {
        lemma_valid_derivations_distinct(ds);
    } else if first_invalid_name(names, 0) is None {
        if types.len() == 0 {
            lemma_dup_found(names, 0);
        } else {
            lemma_type_dup_found(ds, types, 0);
            let m = choose|m: int| 0 <= m < types.len() && first_dup_from(applying_names(ds, #[trigger] types[m]), 0) is Some;
            lemma_dup_found(applying_names(ds, types[m]), 0);
        }
    }
}

/// Derivations that pass validation have distinct names: all of them when
/// none names a type, else those that apply to each type.
pub proof fn lemma_valid_derivations_distinct(ds: Seq<Derivation>)
    requires
        derivation_fault(ds) is None,
    ensures
        deriv_types(ds).len() == 0 ==> deriv_names(ds).no_duplicates(),
        forall|m: int| 0 <= m < deriv_types(ds).len() ==> applying_names(ds, #[trigger] deriv_types(ds)[m]).no_duplicates(),
{
    let types = deriv_types(ds);
    if types.len() == 0 {
        lemma_no_dup_from(deriv_names(ds), 0);
    } else {
        lemma_no_type_dup(ds, types, 0);
        assert forall|m: int| 0 <= m < types.len() implies applying_names(ds, #[trigger] types[m]).no_duplicates() by {
            lemma_no_dup_from(applying_names(ds, types[m]), 0);
        }
    }
}

} // verus!
