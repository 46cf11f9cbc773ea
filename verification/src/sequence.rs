//! Phoneme sequences: phonemes with their modifiers, stress marks and
//! syllable breaks, and how a text is split into them.

use crate::data::strings_view;
use crate::ipa_system::{spec_phoneme_data, IpaSystem, IpaSystemView};
use crate::text::{chars_of, string_from_chars};
use vstd::prelude::*;

verus! {

/// Whether a character lies in one of the Unicode ranges of IPA modifiers,
/// diacritics and superscripts.
pub open spec fn spec_is_modifier(c: char) -> bool {
    let u = c as u32;
    (0x02B0 <= u <= 0x02FF) || (0xA700 <= u <= 0xA71F) || (0x1AB0 <= u <= 0x1AFF) || (0x0300
        <= u <= 0x036F) || (0x1DC0 <= u <= 0x1DFF) || (0x2070 <= u <= 0x209F) || (0x1D98 <= u
        <= 0x1DBF)
}

/// Checks if a character is a modifier according to the allowed Unicode ranges.
pub fn is_modifier(c: char) -> (r: bool)
    ensures
        r == spec_is_modifier(c),
{
    let u = c as u32;
    (0x02B0 <= u && u <= 0x02FF) || (0xA700 <= u && u <= 0xA71F) || (0x1AB0 <= u && u <= 0x1AFF)
        || (0x0300 <= u && u <= 0x036F) || (0x1DC0 <= u && u <= 0x1DFF) || (0x2070 <= u && u
        <= 0x209F) || (0x1D98 <= u && u <= 0x1DBF)
}

/// Stress marks and the syllable break, which never count as modifiers of a phoneme.
pub open spec fn is_mark_char(c: char) -> bool {
    c == '\'' || c == '\u{02C8}' || c == '\u{02CC}' || c == '.'
}

/// A marker for prosodic stress.
#[derive(PartialEq, Eq, Structural, Clone, Copy)]
pub enum ProsodyMarker {
    /// Primary stress (ˈ or ')
    PrimaryStress,
    /// Secondary stress (ˌ)
    SecondaryStress,
}

/// A phoneme: a base symbol and zero or more modifiers.
pub struct Phoneme {
    pub base: String,
    pub modifiers: Vec<String>,
}

/// The model of a `Phoneme`.
pub struct PhonemeView {
    pub base: Seq<char>,
    pub modifiers: Seq<Seq<char>>,
}

impl View for Phoneme {
    type V = PhonemeView;

    open spec fn view(&self) -> PhonemeView {
        PhonemeView { base: self.base@, modifiers: strings_view(self.modifiers@) }
    }
}

/// An element of an IPA sequence.
pub enum SequenceElement {
    Phoneme(Phoneme),
    Prosody(ProsodyMarker),
    SyllableBreak,
}

/// The model of a `SequenceElement`.
pub enum ElementView {
    Phoneme(PhonemeView),
    Prosody(ProsodyMarker),
    SyllableBreak,
}

impl View for SequenceElement {
    type V = ElementView;

    open spec fn view(&self) -> ElementView {
        match self {
            SequenceElement::Phoneme(p) => ElementView::Phoneme(p@),
            SequenceElement::Prosody(m) => ElementView::Prosody(*m),
            SequenceElement::SyllableBreak => ElementView::SyllableBreak,
        }
    }
}

/// The models of a list of elements.
pub open spec fn elements_view(es: Seq<SequenceElement>) -> Seq<ElementView> {
    es.map_values(|e: SequenceElement| e@)
}

/// A parsed sequence of phonemes, prosodic markers and syllable breaks.
pub struct PhonemeSequence {
    pub elements: Vec<SequenceElement>,
}

impl View for PhonemeSequence {
    type V = Seq<ElementView>;

    open spec fn view(&self) -> Seq<ElementView> {
        elements_view(self.elements@)
    }
}

impl Phoneme {
    /// A copy of the phoneme.
    pub fn copy(&self) -> (r: Phoneme)
        ensures
            r@ == self@,
    {
        let mut mods: Vec<String> = Vec::new();
        let mut i: usize = 0;
        while i < self.modifiers.len()
            invariant
                i <= self.modifiers.len(),
                strings_view(mods@) =~= strings_view(self.modifiers@).take(i as int),
            decreases self.modifiers.len() - i,
        {
            let ghost before = mods@;
            mods.push(self.modifiers[i].clone());
            assert(strings_view(mods@) =~= strings_view(before).push(self.modifiers@[i as int]@));
            i = i + 1;
        }
        assert(strings_view(self.modifiers@).take(i as int) =~= strings_view(self.modifiers@));
        Phoneme { base: self.base.clone(), modifiers: mods }
    }
}

impl SequenceElement {
    /// A copy of the element.
    pub fn copy(&self) -> (r: SequenceElement)
        ensures
            r@ == self@,
    {
        match self {
            SequenceElement::Phoneme(p) => SequenceElement::Phoneme(p.copy()),
            SequenceElement::Prosody(m) => SequenceElement::Prosody(*m),
            SequenceElement::SyllableBreak => SequenceElement::SyllableBreak,
        }
    }
}

/// A copy of a list of elements.
pub fn copy_elements(es: &Vec<SequenceElement>) -> (r: Vec<SequenceElement>)
    ensures
        elements_view(r@) == elements_view(es@),
{
    let mut out: Vec<SequenceElement> = Vec::new();
    let mut i: usize = 0;
    while i < es.len()
        invariant
            i <= es.len(),
            elements_view(out@) =~= elements_view(es@).take(i as int),
        decreases es.len() - i,
    {
        let ghost before = out@;
        out.push(es[i].copy());
        assert(elements_view(out@) =~= elements_view(before).push(es@[i as int]@));
        i = i + 1;
    }
    assert(elements_view(es@).take(i as int) =~= elements_view(es@));
    out
}

impl PhonemeSequence {
    /// A copy of the sequence.
    pub fn copy(&self) -> (r: PhonemeSequence)
        ensures
            r@ == self@,
    {
        PhonemeSequence { elements: copy_elements(&self.elements) }
    }
}

} // verus!

verus! {

/// The concatenation of a list of texts.
pub open spec fn concat_texts(ss: Seq<Seq<char>>) -> Seq<char>
    decreases ss.len(),
{
    if ss.len() == 0 {
        Seq::empty()
    } else {
        concat_texts(ss.drop_last()) + ss.last()
    }
}

/// The text of a phoneme: its base, then its modifiers.
pub open spec fn phoneme_text(p: PhonemeView) -> Seq<char> {
    p.base + concat_texts(p.modifiers)
}

/// The text of an element.
pub open spec fn element_text(e: ElementView) -> Seq<char> {
    match e {
        ElementView::Phoneme(p) => phoneme_text(p),
        ElementView::Prosody(ProsodyMarker::PrimaryStress) => seq!['\u{02C8}'],
        ElementView::Prosody(ProsodyMarker::SecondaryStress) => seq!['\u{02CC}'],
        ElementView::SyllableBreak => seq!['.'],
    }
}

/// The concatenated texts of a list of elements.
pub open spec fn elements_text(es: Seq<ElementView>) -> Seq<char>
    decreases es.len(),
{
    if es.len() == 0 {
        Seq::empty()
    } else {
        elements_text(es.drop_last()) + element_text(es.last())
    }
}

impl ProsodyMarker {
    /// The mark's text: `ˈ` or `ˌ`.
    pub fn to_text(&self) -> (r: String)
        ensures
            r@ == element_text(ElementView::Prosody(*self)),
    {
        match self {
            ProsodyMarker::PrimaryStress => crate::text::char_string('\u{02C8}'),
            ProsodyMarker::SecondaryStress => crate::text::char_string('\u{02CC}'),
        }
    }
}

impl Phoneme {
    /// The phoneme's text: its base, then its modifiers.
    pub fn to_text(&self) -> (r: String)
        ensures
            r@ == phoneme_text(self@),
    {
        let mut out = self.base.clone();
        let ghost mv = strings_view(self.modifiers@);
        let mut i: usize = 0;
        while i < self.modifiers.len()
            invariant
                i <= self.modifiers.len(),
                mv == strings_view(self.modifiers@),
                out@ == self.base@ + concat_texts(mv.take(i as int)),
            decreases self.modifiers.len() - i,
        {
            assert(mv.take(i + 1).drop_last() =~= mv.take(i as int));
            out.append(self.modifiers[i].as_str());
            i = i + 1;
        }
        assert(mv.take(i as int) =~= mv);
        out
    }
}

impl SequenceElement {
    /// The element's text.
    pub fn to_text(&self) -> (r: String)
        ensures
            r@ == element_text(self@),
    {
        match self {
            SequenceElement::Phoneme(p) => p.to_text(),
            SequenceElement::Prosody(m) => m.to_text(),
            SequenceElement::SyllableBreak => crate::text::char_string('.'),
        }
    }
}

/// The concatenated texts of a list of elements, without normalization.
pub fn elements_to_text(es: &Vec<SequenceElement>) -> (r: String)
    ensures
        r@ == elements_text(elements_view(es@)),
{
    let ghost ev = elements_view(es@);
    let mut out = String::new();
    let mut i: usize = 0;
    while i < es.len()
        invariant
            i <= es.len(),
            ev == elements_view(es@),
            out@ == elements_text(ev.take(i as int)),
        decreases es.len() - i,
    {
        assert(ev.take(i + 1).drop_last() =~= ev.take(i as int));
        let t = es[i].to_text();
        out.append(t.as_str());
        i = i + 1;
    }
    assert(ev.take(i as int) =~= ev);
    out
}

impl PhonemeSequence {
    /// The sequence's text: the elements' texts, composed (NFC).
    pub fn to_text(&self) -> (r: String)
        ensures
            r@ == crate::text::nfc_text(elements_text(self@)),
    {
        let raw = elements_to_text(&self.elements);
        crate::text::nfc(raw.as_str())
    }

    /// Parses an IPA text with the given system: the text is decomposed,
    /// then split into the longest known base symbols with their modifiers,
    /// stress marks and syllable breaks.
    pub fn parse_with_system(s: &str, system: &IpaSystem) -> (r: Result<PhonemeSequence, crate::ipa_string::IpaStringError>)
        ensures
            r is Ok <==> crate::sequence_parser::spec_parse_text(system@, s@) is Some,
            r matches Ok(seq) ==> crate::sequence_parser::spec_parse_text(system@, s@) == Some(seq@),
            r matches Err(crate::ipa_string::IpaStringError::InvalidSequence(m)) ==> m@
                == crate::sequence_parser::spec_parse_fault(system@, crate::text::nfd_text(s@), 0, s@),
    {
        match crate::sequence_parser::parse_elements_op(s, system) {
            Ok(elements) => Ok(PhonemeSequence { elements }),
            Err(e) => Err(e),
        }
    }
}

/// The phonemes among a list of elements, in order.
pub open spec fn phonemes_of(es: Seq<ElementView>) -> Seq<PhonemeView>
    decreases es.len(),
{
    if es.len() == 0 {
        Seq::empty()
    } else {
        match es.last() {
            ElementView::Phoneme(p) => phonemes_of(es.drop_last()).push(p),
            _ => phonemes_of(es.drop_last()),
        }
    }
}

/// The models of a list of phonemes.
pub open spec fn phonemes_view(ps: Seq<Phoneme>) -> Seq<PhonemeView> {
    ps.map_values(|p: Phoneme| p@)
}

/// The phonemes among a list of elements, in order.
pub fn phonemes_in(es: &Vec<SequenceElement>) -> (r: Vec<Phoneme>)
    ensures
        phonemes_view(r@) == phonemes_of(elements_view(es@)),
{
    let ghost ev = elements_view(es@);
    let mut out: Vec<Phoneme> = Vec::new();
    let mut i: usize = 0;
    while i < es.len()
        invariant
            i <= es.len(),
            ev == elements_view(es@),
            phonemes_view(out@) =~= phonemes_of(ev.take(i as int)),
        decreases es.len() - i,
    {
        assert(ev.take(i + 1).drop_last() =~= ev.take(i as int));
        match &es[i] {
            SequenceElement::Phoneme(p) => {
                let ghost before = out@;
                out.push(p.copy());
                assert(phonemes_view(out@) =~= phonemes_view(before).push(p@));
            },
            _ => {},
        }
        i = i + 1;
    }
    assert(ev.take(i as int) =~= ev);
    out
}

/// A common interface for sequences of IPA symbols.
pub trait IpaSequence {
    /// The model of the sequence's elements.
    spec fn sequence_view(&self) -> Seq<ElementView>;

    /// The sequence of elements (phonemes, prosodic markers, syllable breaks).
    fn elements(&self) -> (r: Vec<SequenceElement>)
        ensures
            elements_view(r@) == self.sequence_view(),
    ;

    /// Only the phonemes in the sequence, without prosody and syllable breaks.
    fn phonemes(&self) -> (r: Vec<Phoneme>)
        ensures
            phonemes_view(r@) == phonemes_of(self.sequence_view()),
    {
        let es = self.elements();
        phonemes_in(&es)
    }
}

impl IpaSequence for PhonemeSequence {
    open spec fn sequence_view(&self) -> Seq<ElementView> {
        self@
    }

    fn elements(&self) -> (r: Vec<SequenceElement>) {
        copy_elements(&self.elements)
    }
}

} // verus!
