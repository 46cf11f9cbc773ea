//! Word generation: patterns, the validation of generator configurations,
//! and the engine that turns patterns into words.

pub mod pattern;
pub mod pattern_round_trip;
pub mod validation;

use crate::config::{LanguageConfig, SoundClassMap};
use crate::generator::pattern::{gen_elements_view, GenElementView, WordPattern, WordPatternElement};
use crate::generator::validation::cycles::{
    class_index, class_index_from, key_index, key_index_from, lemma_class_index_from, lemma_key_index_from, named_class,
};
use crate::generator::validation::{gen_keys, ref_key, spec_resolve_key, ValidationError, ValidationErrorView};
use crate::ipa_system::{IpaSystem, IpaSystemView};
use crate::matcher::engine::spec_matches;
use crate::sequence::{elements_text, ElementView, PhonemeSequence};
use crate::sequence_parser::spec_parse_text;
use crate::sound_class::SoundClassKey;
use crate::syllable::{spec_try_from, word_elements, IpaWord};
use crate::syllabifier::{spec_sequence_fault, spec_syllabify};
use crate::text::decimal_text;
use vstd::prelude::*;

verus! {

/// The patterns of a word generator (its probability distribution is drawn
/// outside the library).
pub struct WordGenerator {
    /// List of word patterns to choose from.
    pub patterns: Vec<pattern::WordPattern>,
}

/// Generation runtime errors.
pub enum GenerationError {
    /// Referenced generator is not defined.
    UndefinedGenerator(String),
    /// Cycle detected at runtime or generator depth limit reached.
    CircularGeneration(String),
    /// Referenced sound class is not defined.
    UndefinedSoundClass(String),
    /// Sound class has no values to choose from.
    EmptySoundClass(String),
    /// Containment cycle in sound class triggered at runtime.
    CircularSoundClass(String),
    /// Configuration failed validation.
    Validation(ValidationError),
}

/// The model of a generation error.
pub enum GenErrorView {
    /// A draw left unanswered: the draws given do not answer the request
    /// that generation makes (never an error of the engine).
    Unanswered,
    UndefinedGenerator(Seq<char>),
    CircularGeneration(Seq<char>),
    UndefinedSoundClass(Seq<char>),
    EmptySoundClass(Seq<char>),
    CircularSoundClass(Seq<char>),
    Validation(ValidationErrorView),
}

impl View for GenerationError {
    type V = GenErrorView;

    open spec fn view(&self) -> GenErrorView {
        match self {
            GenerationError::UndefinedGenerator(s) => GenErrorView::UndefinedGenerator(s@),
            GenerationError::CircularGeneration(s) => GenErrorView::CircularGeneration(s@),
            GenerationError::UndefinedSoundClass(s) => GenErrorView::UndefinedSoundClass(s@),
            GenerationError::EmptySoundClass(s) => GenErrorView::EmptySoundClass(s@),
            GenerationError::CircularSoundClass(s) => GenErrorView::CircularSoundClass(s@),
            GenerationError::Validation(v) => GenErrorView::Validation(v@),
        }
    }
}

/// What a random draw is for; the caller answers each with a number.
pub enum Draw {
    /// A pattern of the generator at a position of the configuration.
    Pattern { generator: usize, count: usize },
    /// A value of the sound class at a position of the class map.
    ClassValue { class: usize, count: usize },
    /// A choice of a set of `count` choices.
    SetChoice { count: usize },
    /// Whether an optional group is kept: a percentile, kept when below the
    /// group's probability.
    Optional,
    /// The stressed syllable of a word of `count` syllables.
    Stress { count: usize },
}

/// The depth of generator references beyond which generation stops.
pub const MAX_GENERATION_DEPTH: usize = 50;

/// The depth of nested sound classes beyond which selection stops.
pub const MAX_SOUND_CLASS_DEPTH: usize = 100;

/// The outcome of a generation step: the text or error, and the draws left.
pub type GenOutcome = (Result<Seq<char>, GenErrorView>, Seq<(Draw, usize)>);

/// The answer to a draw request: the first answer left, when it answers
/// that request.
pub open spec fn answer(ds: Seq<(Draw, usize)>, req: Draw) -> Option<usize> {
    if ds.len() > 0 && ds[0].0 == req {
        Some(ds[0].1)
    } else {
        None
    }
}

/// Whether each request and value is an answer that `draw` can give.
pub open spec fn answered<F: Fn(Draw) -> usize>(draw: F, ds: Seq<(Draw, usize)>) -> bool {
    forall|k: int| 0 <= k < ds.len() ==> #[trigger] call_ensures(draw, (ds[k].0,), ds[k].1)
}

proof fn lemma_answered_concat<F: Fn(Draw) -> usize>(draw: F, a: Seq<(Draw, usize)>, b: Seq<(Draw, usize)>)
    requires
        answered(draw, a),
        answered(draw, b),
    ensures
        answered(draw, a + b),
{
    assert forall|k: int| 0 <= k < (a + b).len() implies #[trigger] call_ensures(draw, ((a + b)[k].0,), (a + b)[k].1) by {
        if k < a.len() {
            assert((a + b)[k] == a[k]);
        } else {
            assert((a + b)[k] == b[k - a.len()]);
        }
    }
}

/// The message for a drawn value beyond a class's values.
pub open spec fn out_of_bounds_text(d: usize, c: char) -> Seq<char> {
    "Value index "@ + decimal_text(d as nat) + " out of bounds for class "@ + seq![c]
}

/// A value drawn from a sound class, following values that name a class
/// into that class.
pub open spec fn class_pick(cs: Seq<(char, Seq<Seq<char>>)>, c: char, depth: int, ds: Seq<(Draw, usize)>) -> GenOutcome
    decreases 101 - depth,
{
    if depth > 100 {
        (Err(GenErrorView::CircularSoundClass(seq![c])), ds)
    } else {
        match class_index_from(cs, c, 0) {
            None => (Err(GenErrorView::UndefinedSoundClass(seq![c])), ds),
            Some(i) => {
                let vs = cs[i].1;
                if vs.len() == 0 {
                    (Err(GenErrorView::EmptySoundClass(seq![c])), ds)
                } else {
                    match answer(ds, Draw::ClassValue { class: i as usize, count: vs.len() as usize }) {
                        None => (Err(GenErrorView::Unanswered), ds),
                        Some(d) => {
                            let rest = ds.drop_first();
                            if d >= vs.len() {
                                (Err(GenErrorView::UndefinedSoundClass(out_of_bounds_text(d, c))), rest)
                            } else {
                                let v = vs[d as int];
                                match named_class(cs, v) {
                                    Some(_) => class_pick(cs, v[0], depth + 1, rest),
                                    None => (Ok(v), rest),
                                }
                            }
                        },
                    }
                }
            }
        }
    }
}

/// The size of pattern elements, for measuring recursion.
pub open spec fn elems_size(es: Seq<GenElementView>) -> nat
    decreases es,
{
    if es.len() == 0 {
        0
    } else {
        elems_size(es.drop_last()) + elem_size(es.last()) + 1
    }
}

/// The size of a pattern element: one more than that of what it holds.
pub open spec fn elem_size(e: GenElementView) -> nat
    decreases e,
{
    match e {
        GenElementView::Optional(p, _) => 1 + elems_size(*p),
        _ => 1,
    }
}

/// The word a generator produces at a reference depth.
pub open spec fn gen_word(cfg: LanguageConfig, key: Seq<char>, depth: int, ds: Seq<(Draw, usize)>) -> GenOutcome
    decreases 51 - depth, 1int, 0nat,
{
    let gs = cfg.phonology.phonotactics.generators@;
    if depth > 50 {
        (Err(GenErrorView::CircularGeneration(key)), ds)
    } else {
        match spec_resolve_key(gen_keys(gs), key) {
            None => (Err(GenErrorView::Validation(ValidationErrorView::UnresolvedGrammarRef(key))), ds),
            Some(k) => match key_index_from(gen_keys(gs), k, 0) {
                None => (Err(GenErrorView::UndefinedGenerator(k)), ds),
                Some(gi) => {
                    let pats = gs[gi].1.patterns@;
                    if pats.len() == 0 {
                        (Ok(Seq::empty()), ds)
                    } else {
                        match answer(ds, Draw::Pattern { generator: gi as usize, count: pats.len() as usize }) {
                            None => (Err(GenErrorView::Unanswered), ds),
                            Some(d) => {
                                let rest = ds.drop_first();
                                if d >= pats.len() {
                                    (Err(GenErrorView::UndefinedGenerator(key)), rest)
                                } else {
                                    gen_elems(cfg, pats[d as int]@, depth, rest)
                                }
                            },
                        }
                    }
                },
            },
        }
    }
}

/// The text that elements produce, in order.
pub open spec fn gen_elems(cfg: LanguageConfig, es: Seq<GenElementView>, depth: int, ds: Seq<(Draw, usize)>) -> GenOutcome
    decreases 51 - depth, 0int, elems_size(es),
{
    if es.len() == 0 {
        (Ok(Seq::empty()), ds)
    } else {
        let (r1, ds1) = gen_elems(cfg, es.drop_last(), depth, ds);
        match r1 {
            Err(e) => (Err(e), ds1),
            Ok(s1) => {
                let (r2, ds2) = gen_elem(cfg, es.last(), depth, ds1);
                match r2 {
                    Ok(s2) => (Ok(s1 + s2), ds2),
                    Err(e) => (Err(e), ds2),
                }
            },
        }
    }
}

/// The text that an element produces.
pub open spec fn gen_elem(cfg: LanguageConfig, e: GenElementView, depth: int, ds: Seq<(Draw, usize)>) -> GenOutcome
    decreases 51 - depth, 0int, elem_size(e),
{
    let cs = cfg.phonology.sound_classes@;
    match e {
        GenElementView::SoundClass(c) => class_pick(cs, c, 0, ds),
        GenElementView::Literal(s) => (Ok(s), ds),
        GenElementView::SyllableBreak => (Ok(seq!['.']), ds),
        GenElementView::StressMarker => (Ok(seq!['ˈ']), ds),
        GenElementView::Optional(p, prob) => {
            match answer(ds, Draw::Optional) {
                None => (Err(GenErrorView::Unanswered), ds),
                Some(d) => if d < prob {
                    gen_elems(cfg, *p, depth, ds.drop_first())
                } else {
                    (Ok(Seq::empty()), ds.drop_first())
                },
            }
        },
        GenElementView::SetOf(chs) => {
            if chs.len() == 0 {
                (Ok(Seq::empty()), ds)
            } else {
                match answer(ds, Draw::SetChoice { count: chs.len() as usize }) {
                    None => (Err(GenErrorView::Unanswered), ds),
                    Some(d) => {
                        let rest = ds.drop_first();
                        if d >= chs.len() {
                            (Ok(Seq::empty()), rest)
                        } else {
                            let v = chs[d as int];
                            match named_class(cs, v) {
                                Some(_) => class_pick(cs, v[0], 0, rest),
                                None => (Ok(v), rest),
                            }
                        }
                    },
                }
            }
        },
        GenElementView::GrammarRef { primary, secondary } => {
            let rk = ref_key(primary, secondary);
            if depth + 1 > 50 {
                (Err(GenErrorView::CircularGeneration(rk)), ds)
            } else {
                gen_word(cfg, rk, depth + 1, ds)
            }
        },
    }
}

proof fn lemma_class_pick_value(cs: Seq<(char, Seq<Seq<char>>)>, c: char, depth: int, ds: Seq<(Draw, usize)>)
    ensures
        class_pick(cs, c, depth, ds).0 matches Ok(v) ==> named_class(cs, v) is None
            && exists|i: int| 0 <= i < cs.len() && (#[trigger] cs[i]).1.contains(v),
    decreases 101 - depth,
{
    if depth <= 100 {
        lemma_class_index_from(cs, c, 0);
        if let Some(i) = class_index_from(cs, c, 0) {
            let vs = cs[i].1;
            if vs.len() > 0 {
                if let Some(d) = answer(ds, Draw::ClassValue { class: i as usize, count: vs.len() as usize }) {
                    if d < vs.len() {
                        let v = vs[d as int];
                        if named_class(cs, v) is Some {
                            lemma_class_pick_value(cs, v[0], depth + 1, ds.drop_first());
                        } else {
                            assert(cs[i].1.contains(v));
                        }
                    }
                }
            }
        }
    }
}

/// A sound class or a set never yields a class letter. What a sound class
/// gives is a value of one of the classes that names no class; a set
/// member that names a defined class gives such a value, drawn from the
/// classes; any other member is given as it is.
pub proof fn lemma_choices_yield_values(cfg: LanguageConfig, e: GenElementView, depth: int, ds: Seq<(Draw, usize)>)
    requires
        e is SoundClass || e is SetOf,
    ensures
        gen_elem(cfg, e, depth, ds).0 matches Ok(s) ==> ({
            let cs = cfg.phonology.sound_classes@;
            &&& named_class(cs, s) is None
            &&& (exists|i: int| 0 <= i < cs.len() && (#[trigger] cs[i]).1.contains(s))
                || (e matches GenElementView::SetOf(chs) && (chs.contains(s) || s.len() == 0))
        }),
        e matches GenElementView::SetOf(chs) ==> (answer(ds, Draw::SetChoice { count: chs.len() as usize }) matches Some(d)
            && d < chs.len() && named_class(cfg.phonology.sound_classes@, chs[d as int]) is Some
            ==> (gen_elem(cfg, e, depth, ds).0 matches Ok(s) ==> exists|i: int|
                0 <= i < cfg.phonology.sound_classes@.len() && (#[trigger] cfg.phonology.sound_classes@[i]).1.contains(s))),
{
    let cs = cfg.phonology.sound_classes@;
    match e {
        GenElementView::SoundClass(c) => {
            lemma_class_pick_value(cs, c, 0, ds);
        },
        GenElementView::SetOf(chs) => {
            if chs.len() > 0 {
                if let Some(d) = answer(ds, Draw::SetChoice { count: chs.len() as usize }) {
                    if d < chs.len() {
                        let v = chs[d as int];
                        if named_class(cs, v) is Some {
                            lemma_class_pick_value(cs, v[0], 0, ds.drop_first());
                        } else {
                            assert(chs.contains(v));
                        }
                    }
                }
            }
        },
        _ => {},
    }
}

// ----- the engine -----

/// The model of a generation result.
pub open spec fn gen_result(r: Result<String, GenerationError>) -> Result<Seq<char>, GenErrorView> {
    match r {
        Ok(s) => Ok(s@),
        Err(e) => Err(e@),
    }
}

proof fn lemma_elem_size_below(es: Seq<GenElementView>, i: int)
    requires
        0 <= i < es.len(),
    ensures
        elem_size(es[i]) < elems_size(es),
    decreases es.len(),
{
    if i < es.len() - 1 {
        lemma_elem_size_below(es.drop_last(), i);
        assert(es.drop_last()[i] == es[i]);
    }
}

/// The message for a drawn value beyond a class's values.
fn out_of_bounds_message(d: usize, c: char) -> (r: String)
    ensures
        r@ == out_of_bounds_text(d, c),
{
    proof {
        reveal_strlit("Value index ");
        reveal_strlit(" out of bounds for class ");
    }
    let a = crate::text::concat2("Value index ", crate::text::decimal(d).as_str());
    let b = crate::text::concat2(a.as_str(), " out of bounds for class ");
    crate::text::concat2(b.as_str(), crate::text::char_string(c).as_str())
}

/// Draws a value from a sound class, following values that name a class.
fn select_from_sound_class<F: Fn(Draw) -> usize>(classes: &SoundClassMap, c: char, depth: usize, draw: &F) -> (r: (
    Result<String, GenerationError>,
    Ghost<Seq<(Draw, usize)>>,
))
    requires
        forall|d: Draw| call_requires(*draw, (d,)),
        depth <= 101,
    ensures
        forall|tail: Seq<(Draw, usize)>| #[trigger] class_pick(classes@, c, depth as int, r.1@ + tail) == (gen_result(r.0), tail),
        answered(*draw, r.1@),
    decreases 101 - depth,
{
    let ghost cs = classes@;
    if depth > MAX_SOUND_CLASS_DEPTH {
        let r = Err(GenerationError::CircularSoundClass(crate::text::char_string(c)));
        assert forall|tail: Seq<(Draw, usize)>| #[trigger] class_pick(cs, c, depth as int, Seq::<(Draw, usize)>::empty() + tail) == (gen_result(r), tail) by {
            assert(Seq::<(Draw, usize)>::empty() + tail =~= tail);
        }
        return (r, Ghost(Seq::empty()));
    }
    let i = match class_index(classes, c) {
        Some(i) => i,
        None => {
            let r = Err(GenerationError::UndefinedSoundClass(crate::text::char_string(c)));
            assert forall|tail: Seq<(Draw, usize)>| #[trigger] class_pick(cs, c, depth as int, Seq::<(Draw, usize)>::empty() + tail) == (gen_result(r), tail) by {
                assert(Seq::<(Draw, usize)>::empty() + tail =~= tail);
            }
            return (r, Ghost(Seq::empty()));
        },
    };
    proof {
        lemma_class_index_from(cs, c, 0);
    }
    let values = &classes.entries[i].1.values;
    assert(cs[i as int].1 == crate::data::strings_view(values@));
    if values.len() == 0 {
        let r = Err(GenerationError::EmptySoundClass(crate::text::char_string(c)));
        assert forall|tail: Seq<(Draw, usize)>| #[trigger] class_pick(cs, c, depth as int, Seq::<(Draw, usize)>::empty() + tail) == (gen_result(r), tail) by {
            assert(Seq::<(Draw, usize)>::empty() + tail =~= tail);
        }
        return (r, Ghost(Seq::empty()));
    }
    let ghost req = Draw::ClassValue { class: i, count: values.len() };
    let d = draw(Draw::ClassValue { class: i, count: values.len() });
    assert(answered(*draw, seq![(req, d)]));
    if d >= values.len() {
        let r = Err(GenerationError::UndefinedSoundClass(out_of_bounds_message(d, c)));
        assert forall|tail: Seq<(Draw, usize)>| #[trigger] class_pick(cs, c, depth as int, seq![(req, d)] + tail) == (gen_result(r), tail) by {
            assert((seq![(req, d)] + tail).drop_first() =~= tail);
        }
        let ghost one = seq![(req, d)];
        return (r, Ghost(one));
    }
    let v = &values[d];
    assert(crate::data::strings_view(values@)[d as int] == v@);
    match SoundClassKey::parse(v.as_str()) {
        Ok(k) => {
            if class_index(classes, k.letter).is_some() {
                let (r, Ghost(c2)) = select_from_sound_class(classes, k.letter, depth + 1, draw);
                assert forall|tail: Seq<(Draw, usize)>| #[trigger] class_pick(cs, c, depth as int, (seq![(req, d)] + c2) + tail) == (gen_result(r), tail) by {
                    assert((seq![(req, d)] + c2 + tail).drop_first() =~= c2 + tail);
                    assert(class_pick(cs, k.letter, depth + 1, c2 + tail) == (gen_result(r), tail));
                }
                proof { lemma_answered_concat(*draw, seq![(req, d)], c2); }
        let ghost both = seq![(req, d)] + c2;
        return (r, Ghost(both));
            }
        },
        Err(_) => {},
    }
    let r = Ok(v.clone());
    assert forall|tail: Seq<(Draw, usize)>| #[trigger] class_pick(cs, c, depth as int, seq![(req, d)] + tail) == (gen_result(r), tail) by {
        assert((seq![(req, d)] + tail).drop_first() =~= tail);
    }
    {
        let ghost one = seq![(req, d)];
        (r, Ghost(one))
        }
}

/// The word a generator produces at a reference depth.
fn generate_word_internal<F: Fn(Draw) -> usize>(config: &LanguageConfig, key: &str, depth: usize, draw: &F) -> (r: (
    Result<String, GenerationError>,
    Ghost<Seq<(Draw, usize)>>,
))
    requires
        forall|d: Draw| call_requires(*draw, (d,)),
        depth <= 51,
    ensures
        forall|tail: Seq<(Draw, usize)>| #[trigger] gen_word(*config, key@, depth as int, r.1@ + tail) == (gen_result(r.0), tail),
        answered(*draw, r.1@),
    decreases 51 - depth, 1int, 0nat,
{
    let gens = &config.phonology.phonotactics.generators;
    if depth > MAX_GENERATION_DEPTH {
        let r = Err(GenerationError::CircularGeneration(String::from_str(key)));
        assert forall|tail: Seq<(Draw, usize)>| #[trigger] gen_word(*config, key@, depth as int, Seq::<(Draw, usize)>::empty() + tail) == (gen_result(r), tail) by {
            assert(Seq::<(Draw, usize)>::empty() + tail =~= tail);
        }
        return (r, Ghost(Seq::empty()));
    }
    let resolved = match crate::generator::validation::resolve_generator_key(key, gens) {
        Ok(k) => k,
        Err(e) => {
            let r = Err(GenerationError::Validation(e));
            assert forall|tail: Seq<(Draw, usize)>| #[trigger] gen_word(*config, key@, depth as int, Seq::<(Draw, usize)>::empty() + tail) == (gen_result(r), tail) by {
                assert(Seq::<(Draw, usize)>::empty() + tail =~= tail);
            }
            return (r, Ghost(Seq::empty()));
        },
    };
    let gi = match key_index(gens, resolved.as_str()) {
        Some(gi) => gi,
        None => {
            let r = Err(GenerationError::UndefinedGenerator(resolved));
            assert forall|tail: Seq<(Draw, usize)>| #[trigger] gen_word(*config, key@, depth as int, Seq::<(Draw, usize)>::empty() + tail) == (gen_result(r), tail) by {
                assert(Seq::<(Draw, usize)>::empty() + tail =~= tail);
            }
            return (r, Ghost(Seq::empty()));
        },
    };
    proof {
        lemma_key_index_from(gen_keys(gens@), resolved@, 0);
    }
    let pats = &gens[gi].1.patterns;
    if pats.len() == 0 {
        let r = Ok(String::new());
        assert forall|tail: Seq<(Draw, usize)>| #[trigger] gen_word(*config, key@, depth as int, Seq::<(Draw, usize)>::empty() + tail) == (gen_result(r), tail) by {
            assert(Seq::<(Draw, usize)>::empty() + tail =~= tail);
        }
        return (r, Ghost(Seq::empty()));
    }
    let ghost req = Draw::Pattern { generator: gi, count: pats.len() };
    let d = draw(Draw::Pattern { generator: gi, count: pats.len() });
    assert(answered(*draw, seq![(req, d)]));
    if d >= pats.len() {
        let r = Err(GenerationError::UndefinedGenerator(String::from_str(key)));
        assert forall|tail: Seq<(Draw, usize)>| #[trigger] gen_word(*config, key@, depth as int, seq![(req, d)] + tail) == (gen_result(r), tail) by {
            assert((seq![(req, d)] + tail).drop_first() =~= tail);
        }
        let ghost one = seq![(req, d)];
        return (r, Ghost(one));
    }
    let (r, Ghost(c2)) = evaluate_elements(config, pats[d].elements.as_slice(), depth, draw);
    assert forall|tail: Seq<(Draw, usize)>| #[trigger] gen_word(*config, key@, depth as int, (seq![(req, d)] + c2) + tail) == (gen_result(r), tail) by {
        assert((seq![(req, d)] + c2 + tail).drop_first() =~= c2 + tail);
        assert(gen_elems(*config, gen_elements_view(pats@[d as int].elements@), depth as int, c2 + tail) == (gen_result(r), tail));
    }
    {
        proof { lemma_answered_concat(*draw, seq![(req, d)], c2); }
        let ghost both = seq![(req, d)] + c2;
        (r, Ghost(both))
        }
}

/// The text that elements produce, in order.
fn evaluate_elements<F: Fn(Draw) -> usize>(config: &LanguageConfig, es: &[WordPatternElement], depth: usize, draw: &F) -> (r: (
    Result<String, GenerationError>,
    Ghost<Seq<(Draw, usize)>>,
))
    requires
        forall|d: Draw| call_requires(*draw, (d,)),
        depth <= 51,
    ensures
        forall|tail: Seq<(Draw, usize)>| #[trigger] gen_elems(*config, gen_elements_view(es@), depth as int, r.1@ + tail) == (gen_result(r.0), tail),
        answered(*draw, r.1@),
    decreases 51 - depth, 0int, elems_size(gen_elements_view(es@)),
{
    proof {
        crate::generator::pattern::lemma_gen_elements_view(es@);
    }
    let ghost ev = gen_elements_view(es@);
    let mut acc = String::new();
    let ghost mut consumed: Seq<(Draw, usize)> = Seq::empty();
    let mut i: usize = 0;
    assert forall|tail: Seq<(Draw, usize)>| #[trigger] gen_elems(*config, ev.take(0), depth as int, consumed + tail) == (Ok::<Seq<char>, GenErrorView>(acc@), tail) by {
        assert(ev.take(0) =~= Seq::<GenElementView>::empty());
        assert(consumed + tail =~= tail);
        assert(acc@ =~= Seq::<char>::empty());
    }
    while i < es.len()
        invariant
            forall|d: Draw| call_requires(*draw, (d,)),
            depth <= 51,
            ev == gen_elements_view(es@),
            ev.len() == es@.len(),
            forall|k: int| 0 <= k < es@.len() ==> #[trigger] ev[k] == es@[k]@,
            i <= es.len(),
            forall|tail: Seq<(Draw, usize)>| #[trigger] gen_elems(*config, ev.take(i as int), depth as int, consumed + tail) == (Ok::<Seq<char>, GenErrorView>(acc@), tail),
            answered(*draw, consumed),
        decreases es.len() - i,
    {
        proof {
            lemma_elem_size_below(ev, i as int);
        }
        let (r, Ghost(c2)) = evaluate_element(config, &es[i], depth, draw);
        let ghost prev = consumed;
        let ghost acc0 = acc@;
        assert(ev.take(i + 1).drop_last() =~= ev.take(i as int));
        match r {
            Ok(s) => {
                acc.append(s.as_str());
                proof {
                    lemma_answered_concat(*draw, prev, c2);
                    consumed = prev + c2;
                    assert forall|tail: Seq<(Draw, usize)>| #[trigger] gen_elems(*config, ev.take(i + 1), depth as int, consumed + tail) == (Ok::<Seq<char>, GenErrorView>(acc@), tail) by {
                        assert(prev + c2 + tail =~= prev + (c2 + tail));
                        assert(gen_elems(*config, ev.take(i as int), depth as int, prev + (c2 + tail)) == (Ok::<Seq<char>, GenErrorView>(acc0), c2 + tail));
                        assert(gen_elem(*config, ev[i as int], depth as int, c2 + tail) == (gen_result(Ok::<String, GenerationError>(s)), tail));
                    }
                }
            },
            Err(e) => {
                let r = Err(e);
                assert forall|tail: Seq<(Draw, usize)>| #[trigger] gen_elems(*config, ev, depth as int, (prev + c2) + tail) == (gen_result(r), tail) by {
                    assert(prev + c2 + tail =~= prev + (c2 + tail));
                    assert(gen_elems(*config, ev.take(i as int), depth as int, prev + (c2 + tail)) == (Ok::<Seq<char>, GenErrorView>(acc0), c2 + tail));
                    assert(gen_elem(*config, ev[i as int], depth as int, c2 + tail) == (gen_result(r), tail));
                    lemma_gen_elems_stops(*config, ev, i as int, depth as int, prev + c2 + tail);
                }
                proof {
                    lemma_answered_concat(*draw, prev, c2);
                }
                return (r, Ghost(prev + c2));
            },
        }
        i = i + 1;
    }
    assert(ev.take(i as int) =~= ev);
    (Ok(acc), Ghost(consumed))
}

/// Once an element fails, the elements fail with its error, and the later
/// elements draw nothing.
proof fn lemma_gen_elems_stops(cfg: LanguageConfig, es: Seq<GenElementView>, i: int, depth: int, ds: Seq<(Draw, usize)>)
    requires
        0 <= i < es.len(),
        gen_elems(cfg, es.take(i + 1), depth, ds).0 is Err,
    ensures
        gen_elems(cfg, es, depth, ds) == gen_elems(cfg, es.take(i + 1), depth, ds),
    decreases es.len() - i,
{
    if i + 1 < es.len() {
        assert(es.drop_last().take(i + 1) =~= es.take(i + 1));
        lemma_gen_elems_stops(cfg, es.drop_last(), i, depth, ds);
    } else {
        assert(es.take(i + 1) =~= es);
    }
}

/// The text that an element produces.
fn evaluate_element<F: Fn(Draw) -> usize>(config: &LanguageConfig, e: &WordPatternElement, depth: usize, draw: &F) -> (r: (
    Result<String, GenerationError>,
    Ghost<Seq<(Draw, usize)>>,
))
    requires
        forall|d: Draw| call_requires(*draw, (d,)),
        depth <= 51,
    ensures
        forall|tail: Seq<(Draw, usize)>| #[trigger] gen_elem(*config, e@, depth as int, r.1@ + tail) == (gen_result(r.0), tail),
        answered(*draw, r.1@),
    decreases 51 - depth, 0int, elem_size(e@),
{
    let classes = &config.phonology.sound_classes;
    let ghost cs = classes@;
    let ghost ev = e@;
    match e {
        WordPatternElement::SoundClass(k) => {
            let (r, Ghost(c2)) = select_from_sound_class(classes, k.letter, 0, draw);
            assert forall|tail: Seq<(Draw, usize)>| #[trigger] gen_elem(*config, ev, depth as int, c2 + tail) == (gen_result(r), tail) by {
                assert(class_pick(cs, k.letter, 0, c2 + tail) == (gen_result(r), tail));
            }
            (r, Ghost(c2))
        },
        WordPatternElement::Literal(s) => {
            let r = Ok(s.clone());
            assert forall|tail: Seq<(Draw, usize)>| #[trigger] gen_elem(*config, ev, depth as int, Seq::<(Draw, usize)>::empty() + tail) == (gen_result(r), tail) by {
                assert(Seq::<(Draw, usize)>::empty() + tail =~= tail);
            }
            (r, Ghost(Seq::empty()))
        },
        WordPatternElement::SyllableBreak => {
            let r = Ok(crate::text::char_string('.'));
            assert forall|tail: Seq<(Draw, usize)>| #[trigger] gen_elem(*config, ev, depth as int, Seq::<(Draw, usize)>::empty() + tail) == (gen_result(r), tail) by {
                assert(Seq::<(Draw, usize)>::empty() + tail =~= tail);
            }
            (r, Ghost(Seq::empty()))
        },
        WordPatternElement::StressMarker => {
            let r = Ok(crate::text::char_string('ˈ'));
            assert forall|tail: Seq<(Draw, usize)>| #[trigger] gen_elem(*config, ev, depth as int, Seq::<(Draw, usize)>::empty() + tail) == (gen_result(r), tail) by {
                assert(Seq::<(Draw, usize)>::empty() + tail =~= tail);
            }
            (r, Ghost(Seq::empty()))
        },
        WordPatternElement::Optional(inner, prob) => {
            let ghost req = Draw::Optional;
            let d = draw(Draw::Optional);
            assert(answered(*draw, seq![(req, d)]));
            if d < *prob as usize {
                proof {
                    assert(decreases_to!(ev => (ev)->Optional_0));
                }
                let (r, Ghost(c2)) = evaluate_elements(config, inner.elements.as_slice(), depth, draw);
                assert forall|tail: Seq<(Draw, usize)>| #[trigger] gen_elem(*config, ev, depth as int, (seq![(req, d)] + c2) + tail) == (gen_result(r), tail) by {
                    assert((seq![(req, d)] + c2 + tail).drop_first() =~= c2 + tail);
                    assert(gen_elems(*config, gen_elements_view(inner.elements@), depth as int, c2 + tail) == (gen_result(r), tail));
                }
                {
        proof { lemma_answered_concat(*draw, seq![(req, d)], c2); }
        let ghost both = seq![(req, d)] + c2;
        (r, Ghost(both))
        }
            } else {
                let r = Ok(String::new());
                assert forall|tail: Seq<(Draw, usize)>| #[trigger] gen_elem(*config, ev, depth as int, seq![(req, d)] + tail) == (gen_result(r), tail) by {
                    assert((seq![(req, d)] + tail).drop_first() =~= tail);
                }
                {
        let ghost one = seq![(req, d)];
        (r, Ghost(one))
        }
            }
        },
        WordPatternElement::SetOf(choices) => {
            if choices.len() == 0 {
                let r = Ok(String::new());
                assert forall|tail: Seq<(Draw, usize)>| #[trigger] gen_elem(*config, ev, depth as int, Seq::<(Draw, usize)>::empty() + tail) == (gen_result(r), tail) by {
                    assert(Seq::<(Draw, usize)>::empty() + tail =~= tail);
                }
                return (r, Ghost(Seq::empty()));
            }
            let ghost req = Draw::SetChoice { count: choices.len() };
            let d = draw(Draw::SetChoice { count: choices.len() });
            assert(answered(*draw, seq![(req, d)]));
            if d >= choices.len() {
                let r = Ok(String::new());
                assert forall|tail: Seq<(Draw, usize)>| #[trigger] gen_elem(*config, ev, depth as int, seq![(req, d)] + tail) == (gen_result(r), tail) by {
                    assert((seq![(req, d)] + tail).drop_first() =~= tail);
                }
                let ghost one = seq![(req, d)];
        return (r, Ghost(one));
            }
            let v = &choices[d];
            assert(crate::data::strings_view(choices@)[d as int] == v@);
            match SoundClassKey::parse(v.as_str()) {
                Ok(k) => {
                    if class_index(classes, k.letter).is_some() {
                        let (r, Ghost(c2)) = select_from_sound_class(classes, k.letter, 0, draw);
                        assert forall|tail: Seq<(Draw, usize)>| #[trigger] gen_elem(*config, ev, depth as int, (seq![(req, d)] + c2) + tail) == (gen_result(r), tail) by {
                            assert((seq![(req, d)] + c2 + tail).drop_first() =~= c2 + tail);
                            assert(class_pick(cs, k.letter, 0, c2 + tail) == (gen_result(r), tail));
                        }
                        proof { lemma_answered_concat(*draw, seq![(req, d)], c2); }
        let ghost both = seq![(req, d)] + c2;
        return (r, Ghost(both));
                    }
                },
                Err(_) => {},
            }
            let r = Ok(v.clone());
            assert forall|tail: Seq<(Draw, usize)>| #[trigger] gen_elem(*config, ev, depth as int, seq![(req, d)] + tail) == (gen_result(r), tail) by {
                assert((seq![(req, d)] + tail).drop_first() =~= tail);
            }
            {
        let ghost one = seq![(req, d)];
        (r, Ghost(one))
        }
        },
        WordPatternElement::GrammarRef { primary, secondary } => {
            let mut rk = primary.clone();
            match secondary {
                Some(sec) => {
                    rk.append(".");
                    rk.append(sec.as_str());
                    proof {
                        reveal_strlit(".");
                    }
                },
                None => {},
            }
            assert(rk@ =~= ref_key(primary@, crate::generator::pattern::opt_text(*secondary)));
            if depth + 1 > MAX_GENERATION_DEPTH {
                let r = Err(GenerationError::CircularGeneration(rk));
                assert forall|tail: Seq<(Draw, usize)>| #[trigger] gen_elem(*config, ev, depth as int, Seq::<(Draw, usize)>::empty() + tail) == (gen_result(r), tail) by {
                    assert(Seq::<(Draw, usize)>::empty() + tail =~= tail);
                }
                return (r, Ghost(Seq::empty()));
            }
            let (r, Ghost(c2)) = generate_word_internal(config, rk.as_str(), depth + 1, draw);
            assert forall|tail: Seq<(Draw, usize)>| #[trigger] gen_elem(*config, ev, depth as int, c2 + tail) == (gen_result(r), tail) by {
                assert(gen_word(*config, rk@, depth + 1, c2 + tail) == (gen_result(r), tail));
            }
            (r, Ghost(c2))
        },
    }
}

// ----- words -----

/// Whether a word matches one of the configuration's illegal patterns.
pub open spec fn spec_is_illegal(sys: IpaSystemView, cfg: LanguageConfig, w: Seq<char>) -> bool {
    exists|i: int|
        0 <= i < cfg.phonology.illegal_patterns@.len() && #[trigger] spec_matches(
            sys,
            cfg.phonology.sound_classes@,
            cfg.phonology.illegal_patterns@[i]@,
            w,
        )
}

/// Returns whether the word contains any patterns listed as illegal in the config.
pub fn matches_illegal_patterns(word: &str, config: &LanguageConfig, system: &IpaSystem) -> (r: bool)
    ensures
        r == spec_is_illegal(system@, *config, word@),
{
    let pats = &config.phonology.illegal_patterns;
    let mut i: usize = 0;
    while i < pats.len()
        invariant
            i <= pats.len(),
            pats == &config.phonology.illegal_patterns,
            forall|j: int| 0 <= j < i ==> !#[trigger] spec_matches(
                system@,
                config.phonology.sound_classes@,
                pats@[j]@,
                word@,
            ),
        decreases pats.len() - i,
    {
        if pats[i].matches(word, system, &config.phonology.sound_classes) {
            return true;
        }
        i = i + 1;
    }
    false
}

/// Whether `s` is a stressed syllable that `draw` can give for a word of
/// `n` syllables (0 when the word has none, and `draw` is not asked).
pub open spec fn stress_drawn<F: Fn(Draw) -> usize>(draw: F, n: int, s: int) -> bool {
    if n == 0 {
        s == 0
    } else {
        0 <= s && call_ensures(draw, (Draw::Stress { count: n as usize },), s as usize)
    }
}

/// What an attempt makes of the valid elements `es` of the generated text
/// `g`, with `s` as the drawn syllable: the syllabified and stressed text,
/// accepted (`ok`) when it matches no illegal pattern; `g` itself, not
/// accepted, when the second syllabification fails.
pub open spec fn attempt_at(sys: IpaSystemView, cfg: LanguageConfig, es: Seq<ElementView>, s: int, g: Seq<char>, w: Seq<char>, ok: bool) -> bool {
    match spec_try_from(sys, cfg, es, s) {
        None => w == g && !ok,
        Some(ws) => w == elements_text(word_elements(ws)) && ok == !spec_is_illegal(sys, cfg, w),
    }
}

/// What an attempt makes of the generated text `g`: it is parsed,
/// syllabified and stressed with a syllable that `draw` gives, and
/// accepted when the result matches no illegal pattern; where parsing or
/// syllabification fails, `g` is kept and not accepted.
pub open spec fn attempt_gives<F: Fn(Draw) -> usize>(draw: F, sys: IpaSystemView, cfg: LanguageConfig, g: Seq<char>, w: Seq<char>, ok: bool) -> bool {
    match spec_parse_text(sys, g) {
        None => w == g && !ok,
        Some(es) => if spec_sequence_fault(es) is Some {
            w == g && !ok
        } else {
            exists|s: int|
                stress_drawn(draw, spec_syllabify(sys, cfg, es).len() as int, s) && #[trigger] attempt_at(sys, cfg, es, s, g, w, ok)
        },
    }
}

/// Whether a run of attempts can be made, each entry being the generated
/// text, the draws that generated it, the text the attempt gives, and
/// whether it was accepted: every draw is an answer `draw` can give, and
/// every attempt but the last was rejected.
pub open spec fn attempts_run<F: Fn(Draw) -> usize>(
    draw: F,
    sys: IpaSystemView,
    cfg: LanguageConfig,
    key: Seq<char>,
    tries: Seq<(Seq<char>, Seq<(Draw, usize)>, Seq<char>, bool)>,
) -> bool {
    &&& forall|k: int|
        #![trigger tries[k]]
        0 <= k < tries.len() ==> answered(draw, tries[k].1) && gen_word(cfg, key, 0, tries[k].1).0 == Ok::<Seq<char>, GenErrorView>(tries[k].0)
            && attempt_gives(draw, sys, cfg, tries[k].0, tries[k].2, tries[k].3)
    &&& forall|k: int| #![trigger tries[k]] 0 <= k < tries.len() - 1 ==> !tries[k].3
}

proof fn lemma_run_push<F: Fn(Draw) -> usize>(
    draw: F,
    sys: IpaSystemView,
    cfg: LanguageConfig,
    key: Seq<char>,
    tries: Seq<(Seq<char>, Seq<(Draw, usize)>, Seq<char>, bool)>,
    x: (Seq<char>, Seq<(Draw, usize)>, Seq<char>, bool),
)
    requires
        attempts_run(draw, sys, cfg, key, tries),
        tries.len() > 0 ==> !tries.last().3,
        answered(draw, x.1),
        gen_word(cfg, key, 0, x.1).0 == Ok::<Seq<char>, GenErrorView>(x.0),
        attempt_gives(draw, sys, cfg, x.0, x.2, x.3),
    ensures
        attempts_run(draw, sys, cfg, key, tries.push(x)),
{
    let t2 = tries.push(x);
    assert forall|k: int| #![trigger t2[k]] 0 <= k < t2.len() ==> answered(draw, t2[k].1) && gen_word(cfg, key, 0, t2[k].1).0 == Ok::<Seq<char>, GenErrorView>(t2[k].0)
        && attempt_gives(draw, sys, cfg, t2[k].0, t2[k].2, t2[k].3) by {
        if 0 <= k < tries.len() {
            assert(t2[k] == tries[k]);
        }
    }
    assert forall|k: int| #![trigger t2[k]] 0 <= k < t2.len() - 1 ==> !t2[k].3 by {
        if 0 <= k < tries.len() {
            assert(t2[k] == tries[k]);
            if k < tries.len() - 1 {
                assert(!tries[k].3);
            }
        }
    }
}

/// Generates a word for a type: up to `max_attempts` words are generated,
/// each syllabified and stressed, and the first that matches no illegal
/// pattern is returned; when none does, the last is returned and
/// `warning_logged` is set. `draw` answers each request for a random
/// number; a stress draw falls below the number of syllables.
pub fn generate_word<F: Fn(Draw) -> usize>(
    gen_key: &str,
    config: &LanguageConfig,
    system: &IpaSystem,
    draw: &F,
    max_attempts: usize,
    warning_logged: &mut bool,
) -> (r: Result<String, GenerationError>)
    requires
        forall|d: Draw| call_requires(*draw, (d,)),
        forall|n: usize, s: usize| n > 0 && call_ensures(*draw, (Draw::Stress { count: n },), s) ==> s < n,
    ensures
        r matches Err(e) ==> exists|ds: Seq<(Draw, usize)>|
            answered(*draw, ds) && (#[trigger] gen_word(*config, gen_key@, 0, ds)).0 == Err::<Seq<char>, GenErrorView>(e@),
        r is Err ==> *final(warning_logged) == *old(warning_logged),
        r matches Ok(w) ==> exists|tries: Seq<(Seq<char>, Seq<(Draw, usize)>, Seq<char>, bool)>| {
            &&& #[trigger] attempts_run(*draw, system@, *config, gen_key@, tries)
            &&& tries.len() <= max_attempts
            &&& (tries.len() == 0 || !tries.last().3) ==> tries.len() == max_attempts
            &&& tries.len() == 0 ==> w@ == Seq::<char>::empty()
            &&& tries.len() > 0 ==> tries.last().2 == w@
            &&& *final(warning_logged) == (*old(warning_logged) || tries.len() == 0 || !tries.last().3)
        },
{
    let stress = |n: usize| -> (s: usize)
        requires
            n > 0,
            forall|d: Draw| call_requires(*draw, (d,)),
            forall|m: usize, t: usize| m > 0 && call_ensures(*draw, (Draw::Stress { count: m },), t) ==> t < m,
        ensures
            s < n,
            call_ensures(*draw, (Draw::Stress { count: n },), s),
        { draw(Draw::Stress { count: n }) };
    let mut last = String::new();
    let mut attempt: usize = 0;
    let ghost mut tries: Seq<(Seq<char>, Seq<(Draw, usize)>, Seq<char>, bool)> = Seq::empty();
    while attempt < max_attempts
        invariant
            forall|d: Draw| call_requires(*draw, (d,)),
            forall|n: usize, s: usize| n > 0 && call_ensures(*draw, (Draw::Stress { count: n },), s) ==> s < n,
            forall|n: usize| n > 0 ==> call_requires(stress, (n,)),
            forall|n: usize, s: usize| n > 0 && call_ensures(stress, (n,), s) ==> s < n && call_ensures(*draw, (Draw::Stress { count: n },), s),
            attempt <= max_attempts,
            *warning_logged == *old(warning_logged),
            tries.len() == attempt,
            attempts_run(*draw, system@, *config, gen_key@, tries),
            attempt == 0 ==> last@ == Seq::<char>::empty(),
            attempt > 0 ==> tries.last().2 == last@ && !tries.last().3,
        decreases max_attempts - attempt,
    {
        let (r, Ghost(ds)) = generate_word_internal(config, gen_key, 0, draw);
        assert(ds + Seq::<(Draw, usize)>::empty() =~= ds);
        assert(gen_word(*config, gen_key@, 0, ds + Seq::<(Draw, usize)>::empty()) == (gen_result(r), Seq::<(Draw, usize)>::empty()));
        let word = match r {
            Ok(w) => w,
            Err(e) => {
                assert(gen_word(*config, gen_key@, 0, ds).0 == Err::<Seq<char>, GenErrorView>(e@));
                return Err(e);
            },
        };
        let ghost g = word@;
        assert(gen_word(*config, gen_key@, 0, ds).0 == Ok::<Seq<char>, GenErrorView>(g));
        last = word;
        match PhonemeSequence::parse_with_system(last.as_str(), system) {
            Ok(seq) => {
                let ghost es = seq@;
                let ghost n = spec_syllabify(system@, *config, es).len() as int;
                match IpaWord::try_from_sequence(&seq, config, system, stress) {
                    Ok(w) => {
                        let ghost s = choose|s: int|
                            crate::syllable::drawn(stress, n, s) && #[trigger] crate::syllable::try_outcome(system@, *config, es, s, Ok::<IpaWord, crate::syllable::SyllabificationError>(w));
                        last = w.to_text();
                        let legal = !matches_illegal_patterns(last.as_str(), config, system);
                        proof {
                            assert(crate::syllable::drawn(stress, n, s));
                            if n > 0 {
                                assert(call_ensures(stress, (n as usize,), s as usize));
                                assert(call_ensures(*draw, (Draw::Stress { count: n as usize },), s as usize));
                            }
                            assert(stress_drawn(*draw, n, s));
                            assert(attempt_at(system@, *config, es, s, g, last@, legal));
                            assert(attempt_gives(*draw, system@, *config, g, last@, legal));
                            lemma_run_push(*draw, system@, *config, gen_key@, tries, (g, ds, last@, legal));
                            tries = tries.push((g, ds, last@, legal));
                        }
                        if legal {
                            return Ok(last);
                        }
                    },
                    Err(e) => {
                        proof {
                            if spec_sequence_fault(es) is None {
                                let s = choose|s: int|
                                    crate::syllable::drawn(stress, n, s) && #[trigger] crate::syllable::try_outcome(system@, *config, es, s, Err::<IpaWord, crate::syllable::SyllabificationError>(e));
                                assert(crate::syllable::drawn(stress, n, s));
                                if n > 0 {
                                    assert(call_ensures(stress, (n as usize,), s as usize));
                                    assert(call_ensures(*draw, (Draw::Stress { count: n as usize },), s as usize));
                                }
                                assert(stress_drawn(*draw, n, s));
                                assert(attempt_at(system@, *config, es, s, g, g, false));
                            }
                            assert(attempt_gives(*draw, system@, *config, g, last@, false));
                            lemma_run_push(*draw, system@, *config, gen_key@, tries, (g, ds, last@, false));
                            tries = tries.push((g, ds, last@, false));
                        }
                    },
                }
            },
            Err(_) => {
                proof {
                    assert(attempt_gives(*draw, system@, *config, g, last@, false));
                    lemma_run_push(*draw, system@, *config, gen_key@, tries, (g, ds, last@, false));
                    tries = tries.push((g, ds, last@, false));
                }
            },
        }
        attempt = attempt + 1;
    }
    if !*warning_logged {
        *warning_logged = true;
    }
    Ok(last)
}

} // verus!
