//! Phonological properties of phonemes, looked up in an IPA system: vowels,
//! ties, diphthongs, features and sonority.

use crate::data::{features_view, IpaEntry, IpaEntryView, SpeFeature, SpeFeatureView};
use crate::feature::{spec_feature_name, Feature};
use crate::ipa_system::{
    add_missing_features, contains_feature, entry_phoneme_data, keep_features_not_in, spec_combine,
    spec_get_entry, IpaSystem, IpaSystemView,
};
use crate::sequence::{phoneme_text, Phoneme, PhonemeView};
use crate::config::LanguageConfig;
use crate::matcher::ast::{BaseView, ElementView, SoundMatcherPattern, BaseElement};
use crate::matcher::engine::spec_matches;
use vstd::prelude::*;

verus! {

/// Whether a phoneme's base is a vowel entry of the system.
pub open spec fn spec_is_vowel(sys: IpaSystemView, p: PhonemeView) -> bool {
    spec_get_entry(sys, p.base) matches Some(IpaEntryView::Vowel(_))
}

/// Whether a text holds a tie bar (above or below) or an inverted breve (below or above).
pub open spec fn spec_has_tie(s: Seq<char>) -> bool {
    s.contains('\u{0361}') || s.contains('\u{035C}') || s.contains('\u{032F}') || s.contains('\u{0311}')
}

/// Whether a phoneme's base or one of its modifiers holds a tie or breve.
pub open spec fn spec_is_tied(p: PhonemeView) -> bool {
    spec_has_tie(p.base) || exists|k: int| 0 <= k < p.modifiers.len() && spec_has_tie(#[trigger] p.modifiers[k])
}

/// Whether two phonemes form a diphthong: both vowels, one of them tied.
pub open spec fn spec_are_diphthong(sys: IpaSystemView, p1: PhonemeView, p2: PhonemeView) -> bool {
    spec_is_vowel(sys, p1) && spec_is_vowel(sys, p2) && (spec_is_tied(p1) || spec_is_tied(p2))
}

/// `fs` once each modifier entry among `mods` has been applied in order;
/// symbols that are no modifier entries change nothing.
pub open spec fn apply_modifiers(sys: IpaSystemView, fs: Seq<SpeFeatureView>, mods: Seq<Seq<char>>) -> Seq<SpeFeatureView>
    decreases mods.len(),
{
    if mods.len() == 0 {
        fs
    } else {
        let acc = apply_modifiers(sys, fs, mods.drop_last());
        match spec_get_entry(sys, mods.last()) {
            Some(IpaEntryView::Modifier(m)) => spec_combine(acc, m.removed_features, m.added_features),
            _ => acc,
        }
    }
}

/// The features of a phoneme: those of its base entry (none for a modifier
/// or an unknown base), with its modifiers applied.
pub open spec fn spec_phoneme_features(sys: IpaSystemView, p: PhonemeView) -> Seq<SpeFeatureView> {
    let base = match entry_phoneme_data(spec_get_entry(sys, p.base)) {
        Some(d) => d.features,
        None => Seq::empty(),
    };
    apply_modifiers(sys, base, p.modifiers)
}

/// Whether a phoneme has the feature with a plus sign.
pub open spec fn spec_has_feature(sys: IpaSystemView, p: PhonemeView, target: Feature) -> bool {
    spec_phoneme_features(sys, p).contains(SpeFeatureView::Plus(spec_feature_name(target)))
}

/// The sonority of a phoneme's base entry, or 0.
pub open spec fn spec_sonority(sys: IpaSystemView, p: PhonemeView) -> int {
    match entry_phoneme_data(spec_get_entry(sys, p.base)) {
        Some(d) => d.sonority,
        None => 0,
    }
}

/// Whether a vowel may capture a following consonant: neither long nor rhotic.
pub open spec fn spec_can_vowel_capture(sys: IpaSystemView, v: PhonemeView) -> bool {
    spec_is_vowel(sys, v) && !spec_has_feature(sys, v, Feature::Long) && !spec_has_feature(
        sys,
        v,
        Feature::Rhotic,
    )
}

/// Check if a phoneme is a vowel.
pub fn is_vowel(p: &Phoneme, system: &IpaSystem) -> (r: bool)
    ensures
        r == spec_is_vowel(system@, p@),
{
    matches!(system.get_entry(p.base.as_str()), Some(IpaEntry::Vowel(_)))
}

/// Whether a text holds a tie bar or an inverted breve.
pub fn is_breve_or_tie(s: &str) -> (r: bool)
    ensures
        r == spec_has_tie(s@),
{
    let cs = crate::text::chars_of(s);
    let mut i: usize = 0;
    while i < cs.len()
        invariant
            i <= cs.len(),
            cs@ == s@,
            forall|k: int| 0 <= k < i ==> cs@[k] != '\u{0361}' && cs@[k] != '\u{035C}' && cs@[k] != '\u{032F}' && cs@[k] != '\u{0311}',
        decreases cs.len() - i,
    {
        let c = cs[i];
        if c == '\u{0361}' || c == '\u{035C}' || c == '\u{032F}' || c == '\u{0311}' {
            assert(s@[i as int] == c);
            return true;
        }
        i = i + 1;
    }
    false
}

/// Check if a phoneme has a tie bar or breve modifier.
pub fn is_tied(p: &Phoneme) -> (r: bool)
    ensures
        r == spec_is_tied(p@),
{
    if is_breve_or_tie(p.base.as_str()) {
        return true;
    }
    let ghost mv = p@.modifiers;
    let mut i: usize = 0;
    while i < p.modifiers.len()
        invariant
            i <= p.modifiers.len(),
            mv == p@.modifiers,
            mv.len() == p.modifiers.len(),
            !spec_has_tie(p@.base),
            forall|k: int| 0 <= k < i ==> !spec_has_tie(#[trigger] mv[k]),
        decreases p.modifiers.len() - i,
    {
        assert(mv[i as int] == p.modifiers@[i as int]@);
        if is_breve_or_tie(p.modifiers[i].as_str()) {
            return true;
        }
        i = i + 1;
    }
    false
}

/// Check if two phonemes form a diphthong.
pub fn are_diphthong(p1: &Phoneme, p2: &Phoneme, system: &IpaSystem) -> (r: bool)
    ensures
        r == spec_are_diphthong(system@, p1@, p2@),
{
    is_vowel(p1, system) && is_vowel(p2, system) && (is_tied(p1) || is_tied(p2))
}

/// A copy of a list of features.
fn copy_features(fs: &Vec<SpeFeature>) -> (r: Vec<SpeFeature>)
    ensures
        features_view(r@) == features_view(fs@),
{
    let mut out: Vec<SpeFeature> = Vec::new();
    let mut i: usize = 0;
    while i < fs.len()
        invariant
            i <= fs.len(),
            features_view(out@) =~= features_view(fs@).take(i as int),
        decreases fs.len() - i,
    {
        let ghost before = out@;
        out.push(fs[i].copy());
        assert(features_view(out@) =~= features_view(before).push(fs@[i as int]@));
        i = i + 1;
    }
    assert(features_view(fs@).take(i as int) =~= features_view(fs@));
    out
}

/// The features of a phoneme: its base entry's, with its modifiers applied.
pub fn phoneme_features(p: &Phoneme, system: &IpaSystem) -> (r: Vec<SpeFeature>)
    ensures
        features_view(r@) == spec_phoneme_features(system@, p@),
{
    let mut features = match system.get_entry(p.base.as_str()) {
        Some(IpaEntry::Vowel(d)) => copy_features(&d.features),
        Some(IpaEntry::Consonant(d)) => copy_features(&d.features),
        Some(IpaEntry::Phoneme(d)) => copy_features(&d.features),
        _ => {
            let v: Vec<SpeFeature> = Vec::new();
            assert(features_view(v@) =~= Seq::<SpeFeatureView>::empty());
            v
        },
    };
    let ghost start = features_view(features@);
    assert(start == match entry_phoneme_data(spec_get_entry(system@, p@.base)) {
        Some(d) => d.features,
        None => Seq::<SpeFeatureView>::empty(),
    });
    let ghost mv = p@.modifiers;
    assert(features_view(features@) == apply_modifiers(system@, start, mv.take(0)));
    let mut i: usize = 0;
    while i < p.modifiers.len()
        invariant
            i <= p.modifiers.len(),
            mv == p@.modifiers,
            mv.len() == p.modifiers.len(),
            features_view(features@) == apply_modifiers(system@, start, mv.take(i as int)),
        decreases p.modifiers.len() - i,
    {
        assert(mv.take(i + 1).drop_last() =~= mv.take(i as int));
        assert(mv[i as int] == p.modifiers@[i as int]@);
        match system.get_entry(p.modifiers[i].as_str()) {
            Some(IpaEntry::Modifier(m)) => {
                let kept = keep_features_not_in(&features, &m.removed_features);
                features = add_missing_features(kept, &m.added_features);
            },
            _ => {},
        }
        i = i + 1;
    }
    assert(mv.take(i as int) =~= mv);
    features
}

/// Check if a phoneme has a specific SPE feature with a plus sign.
pub fn has_feature(p: &Phoneme, target: Feature, system: &IpaSystem) -> (r: bool)
    ensures
        r == spec_has_feature(system@, p@, target),
{
    let features = phoneme_features(p, system);
    let wanted = SpeFeature::Plus(String::from_str(target.name()));
    contains_feature(&features, &wanted)
}

/// Get the sonority score of a phoneme.
pub fn get_sonority(p: &Phoneme, system: &IpaSystem) -> (r: i32)
    ensures
        r as int == spec_sonority(system@, p@),
{
    match system.get_entry(p.base.as_str()) {
        Some(IpaEntry::Vowel(d)) => d.sonority,
        Some(IpaEntry::Consonant(d)) => d.sonority,
        Some(IpaEntry::Phoneme(d)) => d.sonority,
        _ => 0,
    }
}

/// Check if a vowel is a candidate for capture (not long, not rhotic).
pub fn can_vowel_capture(v: &Phoneme, system: &IpaSystem) -> (r: bool)
    ensures
        r == spec_can_vowel_capture(system@, v@),
{
    is_vowel(v, system) && !has_feature(v, Feature::Long, system) && !has_feature(v, Feature::Rhotic, system)
}

/// The concatenated texts of phonemes.
pub open spec fn phonemes_text(ps: Seq<PhonemeView>) -> Seq<char>
    decreases ps.len(),
{
    if ps.len() == 0 {
        Seq::empty()
    } else {
        phonemes_text(ps.drop_last()) + phoneme_text(ps.last())
    }
}

/// Whether a pattern has a word or syllable boundary among its top-level elements.
pub open spec fn has_boundary(es: Seq<ElementView>) -> bool {
    exists|k: int| 0 <= k < es.len() && (#[trigger] es[k].base is WordBoundary || es[k].base is SyllableBoundary)
}

/// The text against which an onset is checked: the onset alone at the start
/// of a word, else after `a.`.
pub open spec fn onset_test_text(onset: Seq<PhonemeView>, is_word_initial: bool) -> Seq<char> {
    if is_word_initial {
        phonemes_text(onset)
    } else {
        seq!['a', '.'] + phonemes_text(onset)
    }
}

/// Whether an onset is illegal: it is not empty, and one of the illegal
/// patterns with a boundary matches its test text.
pub open spec fn spec_illegal_onset(
    sys: IpaSystemView,
    classes: Seq<(char, Seq<Seq<char>>)>,
    patterns: Seq<Seq<ElementView>>,
    onset: Seq<PhonemeView>,
    is_word_initial: bool,
) -> bool {
    onset.len() > 0 && exists|k: int| 0 <= k < patterns.len() && has_boundary(#[trigger] patterns[k])
        && spec_matches(sys, classes, patterns[k], onset_test_text(onset, is_word_initial))
}

/// The models of the illegal patterns of a configuration.
pub open spec fn patterns_view(ps: Seq<SoundMatcherPattern>) -> Seq<Seq<ElementView>> {
    ps.map_values(|p: SoundMatcherPattern| p@)
}

fn pattern_has_boundary(p: &SoundMatcherPattern) -> (r: bool)
    ensures
        r == has_boundary(p@),
{
    proof {
        crate::matcher::ast::lemma_elements_view(p.elements@);
    }
    let mut i: usize = 0;
    while i < p.elements.len()
        invariant
            i <= p.elements.len(),
            p@.len() == p.elements@.len(),
            forall|k: int| 0 <= k < p.elements@.len() ==> #[trigger] p@[k] == crate::matcher::ast::element_view(p.elements@[k]),
            forall|k: int| 0 <= k < i ==> !(#[trigger] p@[k].base is WordBoundary || p@[k].base is SyllableBoundary),
        decreases p.elements.len() - i,
    {
        let b = matches!(p.elements[i].base, BaseElement::WordBoundary) || matches!(p.elements[i].base, BaseElement::SyllableBoundary);
        assert(b == (p@[i as int].base is WordBoundary || p@[i as int].base is SyllableBoundary));
        if b {
            return true;
        }
        i = i + 1;
    }
    false
}

/// The concatenated texts of phonemes.
pub fn phonemes_to_text(ps: &[Phoneme]) -> (r: String)
    ensures
        r@ == phonemes_text(crate::sequence::phonemes_view(ps@)),
{
    let ghost pv = crate::sequence::phonemes_view(ps@);
    let mut out = String::new();
    let mut i: usize = 0;
    while i < ps.len()
        invariant
            i <= ps.len(),
            pv == crate::sequence::phonemes_view(ps@),
            out@ == phonemes_text(pv.take(i as int)),
        decreases ps.len() - i,
    {
        assert(pv.take(i + 1).drop_last() =~= pv.take(i as int));
        let t = ps[i].to_text();
        out.append(t.as_str());
        i = i + 1;
    }
    assert(pv.take(i as int) =~= pv);
    out
}

/// Check if the proposed onset is illegal under the language configuration.
pub fn is_illegal_onset(onset: &[Phoneme], is_word_initial: bool, config: &LanguageConfig, system: &IpaSystem) -> (r: bool)
    ensures
        r == spec_illegal_onset(system@, config.phonology.sound_classes@, patterns_view(config.phonology.illegal_patterns@),
            crate::sequence::phonemes_view(onset@), is_word_initial),
{
    if onset.len() == 0 {
        return false;
    }
    assert(crate::sequence::phonemes_view(onset@).len() > 0);
    let onset_str = phonemes_to_text(onset);
    let test_str = if is_word_initial {
        onset_str
    } else {
        let mut t = String::from_str("a.");
        t.append(onset_str.as_str());
        proof {
            reveal_strlit("a.");
        }
        t
    };
    let ghost pv = patterns_view(config.phonology.illegal_patterns@);
    let ghost ov = crate::sequence::phonemes_view(onset@);
    assert(test_str@ =~= onset_test_text(ov, is_word_initial));
    let pats = &config.phonology.illegal_patterns;
    let mut i: usize = 0;
    while i < pats.len()
        invariant
            i <= pats.len(),
            pv == patterns_view(pats@),
            pats == &config.phonology.illegal_patterns,
            test_str@ == onset_test_text(ov, is_word_initial),
            ov == crate::sequence::phonemes_view(onset@),
            ov.len() > 0,
            forall|k: int| 0 <= k < i ==> !(has_boundary(#[trigger] pv[k])
                && spec_matches(system@, config.phonology.sound_classes@, pv[k], onset_test_text(ov, is_word_initial))),
        decreases pats.len() - i,
    {
        assert(pv[i as int] == pats@[i as int]@);
        if pattern_has_boundary(&pats[i]) && pats[i].matches(test_str.as_str(), system, &config.phonology.sound_classes) {
            assert(has_boundary(pv[i as int]));
            return true;
        }
        i = i + 1;
    }
    false
}

} // verus!

verus! {

/// A phoneme whose last modifier adds `+f` has the feature `f`.
pub proof fn lemma_last_modifier_adds_feature(sys: IpaSystemView, p: PhonemeView, target: Feature)
    requires
        p.modifiers.len() > 0,
        spec_get_entry(sys, p.modifiers.last()) matches Some(IpaEntryView::Modifier(m))
            && m.added_features.contains(SpeFeatureView::Plus(spec_feature_name(target))),
    ensures
        spec_has_feature(sys, p, target),
{
    let base = match entry_phoneme_data(spec_get_entry(sys, p.base)) {
        Some(d) => d.features,
        None => Seq::empty(),
    };
    let acc = apply_modifiers(sys, base, p.modifiers.drop_last());
    if let Some(IpaEntryView::Modifier(m)) = spec_get_entry(sys, p.modifiers.last()) {
        crate::ipa_system::lemma_combine_laws(acc, m.removed_features, m.added_features);
    }
}

} // verus!
