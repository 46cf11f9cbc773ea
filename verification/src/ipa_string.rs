//! Validated IPA strings.

use crate::sequence::{elements_view, ElementView, Phoneme, PhonemeSequence, SequenceElement};
use vstd::prelude::*;

verus! {

/// Errors in parsing an IPA string.
pub enum IpaStringError {
    InvalidSequence(String),
}

impl IpaStringError {
    /// The error's message: `Invalid IPA symbol or sequence: ` and the detail.
    pub fn message(&self) -> (r: String)
        ensures
            r@ == (match self {
                IpaStringError::InvalidSequence(m) => "Invalid IPA symbol or sequence: "@ + m@,
            }),
    {
        match self {
            IpaStringError::InvalidSequence(m) => crate::text::concat2("Invalid IPA symbol or sequence: ", m.as_str()),
        }
    }
}

} // verus!

verus! {

/// A validated string of IPA symbols and modifiers: its composed (NFC)
/// text together with the elements parsed out of it.
pub struct IpaString {
    raw: String,
    elements: Vec<SequenceElement>,
}

/// The model of an `IpaString`.
pub struct IpaStringView {
    pub raw: Seq<char>,
    pub elements: Seq<ElementView>,
}

impl View for IpaString {
    type V = IpaStringView;

    closed spec fn view(&self) -> IpaStringView {
        IpaStringView { raw: self.raw@, elements: elements_view(self.elements@) }
    }
}

impl IpaString {
    /// The text of the string.
    pub fn as_str(&self) -> (r: &str)
        ensures
            r@ == self@.raw,
    {
        self.raw.as_str()
    }

    /// Parses a text with the given system: the text is composed (NFC) and
    /// its composed form is split into elements.
    pub fn parse(s: &str, system: &crate::ipa_system::IpaSystem) -> (r: Result<IpaString, IpaStringError>)
        ensures
            r is Ok <==> crate::sequence_parser::spec_parse_text(system@, crate::text::nfc_text(s@)) is Some,
            r matches Ok(ipa) ==> ipa@.raw == crate::text::nfc_text(s@)
                && Some(ipa@.elements) == crate::sequence_parser::spec_parse_text(system@, crate::text::nfc_text(s@)),
    {
        let nfc_str = crate::text::nfc(s);
        let seq = PhonemeSequence::parse_with_system(nfc_str.as_str(), system)?;
        Ok(IpaString { raw: nfc_str, elements: seq.elements })
    }

    /// The string made of one phoneme; its text is the phoneme's text.
    pub fn from_phoneme(p: &Phoneme) -> (r: IpaString)
        ensures
            r@.raw == crate::sequence::phoneme_text(p@),
            r@.elements == seq![ElementView::Phoneme(p@)],
    {
        let raw = p.to_text();
        let mut elements: Vec<SequenceElement> = Vec::new();
        elements.push(SequenceElement::Phoneme(p.copy()));
        assert(elements_view(elements@) =~= seq![ElementView::Phoneme(p@)]);
        IpaString { raw, elements }
    }

    /// The string of a sequence; its text is the sequence's composed text.
    pub fn from_sequence(seq: PhonemeSequence) -> (r: IpaString)
        ensures
            r@.raw == crate::text::nfc_text(crate::sequence::elements_text(seq@)),
            r@.elements == seq@,
    {
        let raw = seq.to_text();
        IpaString { raw, elements: seq.elements }
    }

    /// A copy of the string.
    pub fn copy(&self) -> (r: IpaString)
        ensures
            r@ == self@,
    {
        IpaString { raw: self.raw.clone(), elements: crate::sequence::copy_elements(&self.elements) }
    }
}

impl crate::sequence::IpaSequence for IpaString {
    open spec fn sequence_view(&self) -> Seq<ElementView> {
        self@.elements
    }

    fn elements(&self) -> (r: Vec<SequenceElement>) {
        crate::sequence::copy_elements(&self.elements)
    }
}

} // verus!
