//! The parts of a language configuration that the library's logic reads.

use crate::generator::validation::cycles::{class_graph, first_unresolved_from, generator_graph, has_cycle, on_cycle};
use crate::generator::validation::{
    all_classes, derivation_fault, first_key_fault, first_undefined, gen_keys, key_error_for, letters, ValidationError,
};
use crate::ipa_string::IpaString;
use crate::prosody::{foot_len, location_rank, ProsodicConfig};
use crate::sound_class::SoundClassKey;
use vstd::prelude::*;

verus! {

/// A sound class: the phoneme texts that belong to it.
pub struct SoundClass {
    pub values: Vec<String>,
}

/// The sound classes of a language, keyed by their letter.
pub struct SoundClassMap {
    pub entries: Vec<(SoundClassKey, SoundClass)>,
}

/// The model of a class map: each key's letter with the class's values.
pub open spec fn classes_view(es: Seq<(SoundClassKey, SoundClass)>) -> Seq<(char, Seq<Seq<char>>)> {
    es.map_values(|e: (SoundClassKey, SoundClass)| (e.0.letter, crate::data::strings_view(e.1.values@)))
}

impl View for SoundClassMap {
    type V = Seq<(char, Seq<Seq<char>>)>;

    open spec fn view(&self) -> Seq<(char, Seq<Seq<char>>)> {
        classes_view(self.entries@)
    }
}

/// The values of the first class recorded under a letter.
pub open spec fn class_values(cs: Seq<(char, Seq<Seq<char>>)>, letter: char) -> Option<Seq<Seq<char>>>
    decreases cs.len(),
{
    if cs.len() == 0 {
        None
    } else if cs[0].0 == letter {
        Some(cs[0].1)
    } else {
        class_values(cs.drop_first(), letter)
    }
}

impl SoundClassMap {
    /// The class recorded first under a key.
    pub fn get(&self, key: &SoundClassKey) -> (r: Option<&SoundClass>)
        ensures
            r is Some == class_values(self@, key.letter) is Some,
            r matches Some(c) ==> class_values(self@, key.letter) == Some(crate::data::strings_view(c.values@)),
    {
        let ghost v = self@;
        let mut i: usize = 0;
        assert(v.skip(0) =~= v);
        while i < self.entries.len()
            invariant
                i <= self.entries.len(),
                v == self@,
                v.len() == self.entries@.len(),
                class_values(v, key.letter) == class_values(v.skip(i as int), key.letter),
            decreases self.entries.len() - i,
        {
            assert(v.skip(i as int).drop_first() =~= v.skip(i + 1));
            assert(v[i as int].0 == self.entries@[i as int].0.letter);
            if self.entries[i].0.letter == key.letter {
                return Some(&self.entries[i].1);
            }
            i = i + 1;
        }
        None
    }
}

/// The word generators of a language, keyed by grammatical type
/// (`default`, `noun`, `noun.masculine`, ...), in key order.
pub struct PhonotacticsConfig {
    pub generators: Vec<(String, crate::generator::WordGenerator)>,
}

/// The phonology of a language: its sound classes and the patterns that
/// no syllable onset may match.
pub struct PhonologyConfig {
    pub sound_classes: SoundClassMap,
    pub phonotactics: PhonotacticsConfig,
    pub illegal_patterns: Vec<crate::matcher::ast::SoundMatcherPattern>,
    pub prosody: Option<crate::prosody::ProsodicConfig>,
}

/// A language configuration: the language's UUID (as its 128 bits), its
/// names, phonology, sound changes, orthography and derivations. (When it
/// was created and updated is kept outside the library.)
pub struct LanguageConfig {
    pub id: u128,
    pub name: NameConfig,
    pub phonology: PhonologyConfig,
    pub sound_changes: Option<SoundChanges>,
    pub orthography: Option<Vec<String>>,
    pub derivations: Option<Vec<Derivation>>,
}

/// The names of a language.
pub struct NameConfig {
    pub endonym: IpaString,
    pub exonym: Option<IpaString>,
}

/// The sound changes of a language: named definitions, then rules by era.
pub struct SoundChanges {
    pub preamble: Vec<PreambleItem>,
    pub eras: Vec<EraRules>,
}

/// A named definition used by sound change rules.
pub struct PreambleItem {
    pub name: String,
    pub item_type: PreambleType,
    pub changes: Vec<String>,
    pub value: Option<String>,
}

/// What a preamble item defines.
#[derive(PartialEq, Eq, Structural, Clone, Copy, Debug)]
pub enum PreambleType {
    Full,
    Match,
    Transform,
    Condition,
}

/// The sound change rules of an era.
pub struct EraRules {
    pub era: u32,
    pub rules: Vec<SoundChangeRule>,
}

/// A sound change rule: an optional name and its changes.
pub struct SoundChangeRule {
    pub name: Option<String>,
    pub changes: Vec<String>,
}

impl LanguageConfig {
    /// Syllabifies an IPA string with this configuration: the string is
    /// parsed with the system, then syllabified and stressed; `draw(n)`
    /// picks the stressed syllable of an unmarked word of `n` syllables.
    pub fn syllabify<F: Fn(usize) -> usize>(
        &self,
        ipa_str: &crate::ipa_string::IpaString,
        system: &crate::ipa_system::IpaSystem,
        draw: F,
    ) -> (r: Result<crate::syllable::IpaWord, crate::syllable::SyllabificationError>)
        requires
            forall|n: usize| n > 0 ==> call_requires(draw, (n,)),
            forall|n: usize, s: usize| n > 0 && call_ensures(draw, (n,), s) ==> s < n,
        ensures
            (r matches Err(e) && e is IpaError) <==> crate::sequence_parser::spec_parse_text(system@, ipa_str@.raw) is None,
            crate::sequence_parser::spec_parse_text(system@, ipa_str@.raw) matches Some(es) ==> {
                &&& crate::syllabifier::spec_sequence_fault(es) is Some ==> (r matches Err(e)
                    && crate::syllabifier::error_for(e, crate::syllabifier::spec_sequence_fault(es).unwrap()))
                &&& crate::syllabifier::spec_sequence_fault(es) is None ==> exists|s: int|
                    crate::syllable::drawn(draw, crate::syllabifier::spec_syllabify(system@, *self, es).len() as int, s)
                    && #[trigger] crate::syllable::try_outcome(system@, *self, es, s, r)
            },
    {
        let seq = match crate::sequence::PhonemeSequence::parse_with_system(ipa_str.as_str(), system) {
            Ok(s) => s,
            Err(e) => {
                return Err(crate::syllable::SyllabificationError::IpaError(e));
            },
        };
        assert(crate::sequence_parser::spec_parse_text(system@, ipa_str@.raw) == Some(seq@));
        crate::syllable::IpaWord::try_from_sequence(&seq, self, system, draw)
    }
}

/// A derivation: a named set of transforms, optionally limited to words of
/// one grammatical type.
pub struct Derivation {
    pub name: String,
    pub era: Option<u32>,
    pub transforms: Vec<String>,
    pub from_type: Option<String>,
    pub to_type: Option<String>,
}

// ----- validation -----

/// The letters of the classes of a map.
pub open spec fn class_letters(cs: Seq<(char, Seq<Seq<char>>)>) -> Seq<char> {
    cs.map_values(|c: (char, Seq<Seq<char>>)| c.0)
}

/// Whether the generator keys are valid and `default` is among them.
pub open spec fn keys_valid(gs: Seq<(String, crate::generator::WordGenerator)>) -> bool {
    gen_keys(gs).contains("default"@) && first_key_fault(gen_keys(gs), 0) is None
}

/// Whether a prosodic configuration, if any, is valid.
pub open spec fn prosody_valid(p: Option<ProsodicConfig>) -> bool {
    match p {
        Some(ProsodicConfig::Patterned(q)) => location_rank(q.stress_location) <= foot_len(q.foot),
        _ => true,
    }
}

/// Whether the derivations, if any, are valid.
pub open spec fn derivations_valid(d: Option<Vec<Derivation>>) -> bool {
    match d {
        Some(ds) => derivation_fault(ds@) is None,
        None => true,
    }
}

impl LanguageConfig {
    /// Validates the configuration, stopping at the first failing check: the
    /// generator keys, containment among sound classes, the classes that
    /// patterns use, references among generators, the prosody, and the
    /// derivations.
    pub fn validate(&self) -> (r: Result<(), ValidationError>)
        ensures
            ({
                let gs = self.phonology.phonotactics.generators@;
                let cs = self.phonology.sound_classes@;
                let undefined = first_undefined(all_classes(gs), class_letters(cs));
                &&& (r is Ok <==> keys_valid(gs) && !has_cycle(class_graph(cs)) && undefined is None
                    && first_unresolved_from(gs, 0) is None && !has_cycle(generator_graph(gs))
                    && prosody_valid(self.phonology.prosody) && derivations_valid(self.derivations))
                &&& (!gen_keys(gs).contains("default"@) ==> (r matches Err(e) && e is MissingDefaultGenerator))
                &&& (gen_keys(gs).contains("default"@) && !keys_valid(gs) ==> (r matches Err(e)
                    && key_error_for(e, first_key_fault(gen_keys(gs), 0).unwrap())))
                &&& (keys_valid(gs) && has_cycle(class_graph(cs)) ==> (r matches Err(e)
                    && e matches ValidationError::CircularSoundClassContainment(k) && exists|n: usize|
                        n < cs.len() && on_cycle(class_graph(cs), n) && k@ == seq![cs[n as int].0]))
                &&& (keys_valid(gs) && !has_cycle(class_graph(cs)) && undefined is Some ==> (r matches Err(e)
                    && e matches ValidationError::UndefinedSoundClass(t) && t@ == seq![undefined.unwrap()]))
                &&& (keys_valid(gs) && !has_cycle(class_graph(cs)) && undefined is None
                    && first_unresolved_from(gs, 0) is Some ==> (r matches Err(e)
                    && e matches ValidationError::UnresolvedGrammarRef(t) && Some(t@) == first_unresolved_from(gs, 0)))
                &&& (keys_valid(gs) && !has_cycle(class_graph(cs)) && undefined is None
                    && first_unresolved_from(gs, 0) is None && has_cycle(generator_graph(gs)) ==> (r matches Err(e)
                    && e matches ValidationError::CircularPatternReferences(k) && exists|n: usize|
                        n < gs.len() && on_cycle(generator_graph(gs), n) && k@ == gen_keys(gs)[n as int]))
                &&& (keys_valid(gs) && !has_cycle(class_graph(cs)) && undefined is None
                    && first_unresolved_from(gs, 0) is None && !has_cycle(generator_graph(gs))
                    && !prosody_valid(self.phonology.prosody) ==> (r matches Err(e) && e is InvalidProsodyConfig))
                &&& (keys_valid(gs) && !has_cycle(class_graph(cs)) && undefined is None
                    && first_unresolved_from(gs, 0) is None && !has_cycle(generator_graph(gs))
                    && prosody_valid(self.phonology.prosody) && !derivations_valid(self.derivations) ==> (r matches Err(e)
                    && match derivation_fault(self.derivations.unwrap()@).unwrap() {
                        (true, n) => e matches ValidationError::InvalidDerivationName(t) && t@ == n,
                        (false, n) => e matches ValidationError::DuplicateDerivationName(t) && t@ == n,
                    }))
            }),
    {
        let gens = &self.phonology.phonotactics.generators;
        let classes = &self.phonology.sound_classes;
        crate::generator::validation::validate_generator_keys(gens)?;
        crate::generator::validation::cycles::validate_sound_class_cycles(classes)?;
        let mut defined: Vec<SoundClassKey> = Vec::new();
        let mut i: usize = 0;
        while i < classes.entries.len()
            invariant
                i <= classes.entries.len(),
                letters(defined@) == class_letters(classes@).take(i as int),
            decreases classes.entries.len() - i,
        {
            let ghost before = defined@;
            defined.push(classes.entries[i].0);
            assert(letters(defined@) =~= letters(before).push(classes.entries@[i as int].0.letter));
            assert(class_letters(classes@).take(i + 1) =~= class_letters(classes@).take(i as int).push(classes@[i as int].0));
            i = i + 1;
        }
        assert(class_letters(classes@).take(i as int) =~= class_letters(classes@));
        crate::generator::validation::validate_pattern_sound_classes(gens, &defined)?;
        crate::generator::validation::cycles::validate_generator_cycles(gens)?;
        match &self.phonology.prosody {
            Some(p) => {
                p.validate()?;
            },
            None => {},
        }
        match &self.derivations {
            Some(ds) => {
                crate::generator::validation::validate_derivations(ds)?;
            },
            None => {},
        }
        Ok(())
    }
}

// ----- default sound classes -----

/// Classes with an empty class under `c` put before the first class with a
/// greater letter.
pub open spec fn insert_class(cs: Seq<(char, Seq<Seq<char>>)>, c: char) -> Seq<(char, Seq<Seq<char>>)>
    decreases cs.len(),
{
    if cs.len() == 0 {
        seq![(c, Seq::empty())]
    } else if c < cs[0].0 {
        seq![(c, Seq::empty())] + cs
    } else {
        seq![cs[0]] + insert_class(cs.drop_first(), c)
    }
}

/// Classes with an empty class under `c` in its place by letter, unless a
/// class is recorded under `c`.
pub open spec fn with_class(cs: Seq<(char, Seq<Seq<char>>)>, c: char) -> Seq<(char, Seq<Seq<char>>)> {
    if class_values(cs, c) is Some {
        cs
    } else {
        insert_class(cs, c)
    }
}

/// The classes with the default classes added where missing.
pub open spec fn with_default_classes(cs: Seq<(char, Seq<Seq<char>>)>) -> Seq<(char, Seq<Seq<char>>)> {
    with_class(with_class(with_class(with_class(cs, 'C'), 'D'), 'L'), 'V')
}

proof fn lemma_insert_class(cs: Seq<(char, Seq<Seq<char>>)>, c: char, x: char)
    requires
        class_values(cs, c) is None,
    ensures
        class_values(insert_class(cs, c), c) is Some,
        x != c ==> class_values(insert_class(cs, c), x) == class_values(cs, x),
    decreases cs.len(),
{
    let r = insert_class(cs, c);
    if cs.len() == 0 {
        assert(r.drop_first() =~= Seq::<(char, Seq<Seq<char>>)>::empty());
        assert(class_values(r.drop_first(), x) is None);
    } else if c < cs[0].0 {
        assert(r.drop_first() =~= cs);
    } else {
        lemma_insert_class(cs.drop_first(), c, x);
        assert(r.drop_first() =~= insert_class(cs.drop_first(), c));
        assert(r[0] == cs[0]);
        if cs[0].0 != x {
            assert(class_values(r, x) == class_values(r.drop_first(), x));
            assert(class_values(cs, x) == class_values(cs.drop_first(), x));
        }
    }
}

proof fn lemma_with_class(cs: Seq<(char, Seq<Seq<char>>)>, c: char, x: char)
    ensures
        class_values(with_class(cs, c), c) is Some,
        class_values(cs, x) is Some ==> class_values(with_class(cs, c), x) == class_values(cs, x),
{
    if class_values(cs, c) is None {
        lemma_insert_class(cs, c, x);
    }
}

/// After the defaults are added, each of `C`, `D`, `L` and `V` names a
/// class, and every letter that named a class names the same values.
pub proof fn lemma_default_classes(cs: Seq<(char, Seq<Seq<char>>)>, x: char)
    ensures
        class_values(with_default_classes(cs), 'C') is Some,
        class_values(with_default_classes(cs), 'D') is Some,
        class_values(with_default_classes(cs), 'L') is Some,
        class_values(with_default_classes(cs), 'V') is Some,
        class_values(cs, x) is Some ==> class_values(with_default_classes(cs), x) == class_values(cs, x),
{
    let c1 = with_class(cs, 'C');
    let c2 = with_class(c1, 'D');
    let c3 = with_class(c2, 'L');
    lemma_with_class(cs, 'C', x);
    lemma_with_class(c1, 'D', x);
    lemma_with_class(c2, 'L', x);
    lemma_with_class(c3, 'V', x);
    lemma_with_class(c1, 'D', 'C');
    lemma_with_class(c2, 'L', 'C');
    lemma_with_class(c3, 'V', 'C');
    lemma_with_class(c2, 'L', 'D');
    lemma_with_class(c3, 'V', 'D');
    lemma_with_class(c3, 'V', 'L');
}

impl SoundClassMap {
    /// Puts an empty class under a letter in its place, unless a class is
    /// recorded under it.
    fn add_empty_class(&mut self, c: char)
        requires
            crate::sound_class::is_class_letter(c),
        ensures
            final(self)@ == with_class(old(self)@, c),
    {
        if self.get(&SoundClassKey { letter: c }).is_some() {
            return;
        }
        let ghost s0 = self@;
        let mut i: usize = 0;
        assert(s0.take(0) + insert_class(s0.skip(0), c) =~= insert_class(s0, c)) by {
            assert(s0.skip(0) =~= s0);
        }
        while i < self.entries.len() && self.entries[i].0.letter <= c
            invariant
                self@ == s0,
                s0.len() == self.entries@.len(),
                i <= self.entries.len(),
                insert_class(s0, c) == s0.take(i as int) + insert_class(s0.skip(i as int), c),
            decreases self.entries.len() - i,
        {
            let ghost rest = s0.skip(i as int);
            assert(rest[0].0 == self.entries@[i as int].0.letter);
            assert(rest.drop_first() =~= s0.skip(i + 1));
            assert(s0.take(i as int) + (seq![rest[0]] + insert_class(rest.drop_first(), c)) =~= s0.take(i + 1) + insert_class(s0.skip(i + 1), c));
            i = i + 1;
        }
        let ghost e0 = self.entries@;
        self.entries.insert(i, (SoundClassKey { letter: c }, SoundClass { values: Vec::new() }));
        proof {
            assert(crate::data::strings_view(Seq::<String>::empty()) =~= Seq::<Seq<char>>::empty());
            if i < s0.len() {
                assert(s0.skip(i as int)[0].0 == e0[i as int].0.letter);
                assert(self@ =~= s0.take(i as int) + (seq![(c, Seq::<Seq<char>>::empty())] + s0.skip(i as int)));
            } else {
                assert(s0.skip(i as int) =~= Seq::<(char, Seq<Seq<char>>)>::empty());
                assert(self@ =~= s0.take(i as int) + seq![(c, Seq::<Seq<char>>::empty())]);
            }
        }
    }
}

/// The sound classes with the default classes `C`, `D`, `L` and `V` added,
/// empty, where they are missing.
pub fn ensure_default_sound_classes(classes: SoundClassMap) -> (r: SoundClassMap)
    ensures
        r@ == with_default_classes(classes@),
{
    let mut m = classes;
    m.add_empty_class('C');
    m.add_empty_class('D');
    m.add_empty_class('L');
    m.add_empty_class('V');
    m
}

} // verus!

verus! {

/// Whether the classes are in strictly ascending order of their letters,
/// so that no letter names two classes (the order of a map keyed by letter).
pub open spec fn classes_sorted(cs: Seq<(char, Seq<Seq<char>>)>) -> bool {
    forall|i: int, j: int| 0 <= i < j < cs.len() ==> (#[trigger] cs[i]).0 < (#[trigger] cs[j]).0
}

proof fn lemma_absent_letter(cs: Seq<(char, Seq<Seq<char>>)>, c: char)
    requires
        class_values(cs, c) is None,
    ensures
        forall|i: int| 0 <= i < cs.len() ==> (#[trigger] cs[i]).0 != c,
    decreases cs.len(),
{
    if cs.len() > 0 {
        lemma_absent_letter(cs.drop_first(), c);
        assert forall|i: int| 0 <= i < cs.len() implies (#[trigger] cs[i]).0 != c by {
            if i > 0 {
                assert(cs[i] == cs.drop_first()[i - 1]);
            }
        }
    }
}

proof fn lemma_insert_sorted(cs: Seq<(char, Seq<Seq<char>>)>, c: char)
    requires
        classes_sorted(cs),
        forall|i: int| 0 <= i < cs.len() ==> (#[trigger] cs[i]).0 != c,
    ensures
        classes_sorted(insert_class(cs, c)),
        forall|k: int| 0 <= k < insert_class(cs, c).len() ==> (#[trigger] insert_class(cs, c)[k]).0 == c
            || exists|j: int| 0 <= j < cs.len() && insert_class(cs, c)[k].0 == cs[j].0,
    decreases cs.len(),
{
    let r = insert_class(cs, c);
    if cs.len() == 0 {
    } else if c < cs[0].0 {
        assert forall|i: int, j: int| 0 <= i < j < r.len() implies (#[trigger] r[i]).0 < (#[trigger] r[j]).0 by {
            if i > 0 {
                assert(r[i] == cs[i - 1] && r[j] == cs[j - 1]);
            } else {
                assert(r[j] == cs[j - 1]);
                if j - 1 > 0 {
                    assert(cs[0].0 < cs[j - 1].0);
                }
            }
        }
        assert forall|k: int| 0 <= k < r.len() implies (#[trigger] r[k]).0 == c
            || exists|j: int| 0 <= j < cs.len() && r[k].0 == cs[j].0 by {
            if k > 0 {
                assert(r[k] == cs[k - 1]);
            }
        }
    } else {
        let t = cs.drop_first();
        assert forall|i: int, j: int| 0 <= i < j < t.len() implies (#[trigger] t[i]).0 < (#[trigger] t[j]).0 by {
            assert(t[i] == cs[i + 1] && t[j] == cs[j + 1]);
        }
        assert forall|i: int| 0 <= i < t.len() implies (#[trigger] t[i]).0 != c by {
            assert(t[i] == cs[i + 1]);
        }
        lemma_insert_sorted(t, c);
        let r2 = insert_class(t, c);
        assert(r =~= seq![cs[0]] + r2);
        assert forall|k: int| 0 <= k < r2.len() implies cs[0].0 < (#[trigger] r2[k]).0 by {
            if r2[k].0 != c {
                let j = choose|j: int| 0 <= j < t.len() && r2[k].0 == t[j].0;
                assert(t[j] == cs[j + 1]);
            }
        }
        assert forall|i: int, j: int| 0 <= i < j < r.len() implies (#[trigger] r[i]).0 < (#[trigger] r[j]).0 by {
            assert(r[j] == r2[j - 1]);
            if i > 0 {
                assert(r[i] == r2[i - 1]);
            }
        }
        assert forall|k: int| 0 <= k < r.len() implies (#[trigger] r[k]).0 == c
            || exists|j: int| 0 <= j < cs.len() && r[k].0 == cs[j].0 by {
            if k == 0 {
                assert(r[0].0 == cs[0].0);
            } else {
                assert(r[k] == r2[k - 1]);
                if r2[k - 1].0 != c {
                    let j = choose|j: int| 0 <= j < t.len() && r2[k - 1].0 == t[j].0;
                    assert(t[j] == cs[j + 1]);
                }
            }
        }
    }
}

proof fn lemma_with_class_sorted(cs: Seq<(char, Seq<Seq<char>>)>, c: char)
    requires
        classes_sorted(cs),
    ensures
        classes_sorted(with_class(cs, c)),
{
    if class_values(cs, c) is None {
        lemma_absent_letter(cs, c);
        lemma_insert_sorted(cs, c);
    }
}

/// Adding the default classes keeps the classes in ascending order of
/// their letters, each letter naming one class.
pub proof fn lemma_default_classes_sorted(cs: Seq<(char, Seq<Seq<char>>)>)
    requires
        classes_sorted(cs),
    ensures
        classes_sorted(with_default_classes(cs)),
{
    lemma_with_class_sorted(cs, 'C');
    lemma_with_class_sorted(with_class(cs, 'C'), 'D');
    lemma_with_class_sorted(with_class(with_class(cs, 'C'), 'D'), 'L');
    lemma_with_class_sorted(with_class(with_class(with_class(cs, 'C'), 'D'), 'L'), 'V');
}

} // verus!
