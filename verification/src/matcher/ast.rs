//! The syntax tree of sound patterns, and how a pattern is written out.

use crate::feature::{spec_feature_name, Feature};
use crate::ipa_string::{IpaString, IpaStringView};
use crate::sound_class::SoundClassKey;
use crate::text::decimal_text;
use vstd::prelude::*;

verus! {

/// Errors in parsing a sound pattern.
pub enum SoundMatcherError {
    ParseError(String),
}

impl SoundMatcherError {
    /// The error's message: `Failed to parse pattern: ` and the detail.
    pub fn message(&self) -> (r: String)
        ensures
            r@ == (match self {
                SoundMatcherError::ParseError(m) => "Failed to parse pattern: "@ + m@,
            }),
    {
        match self {
            SoundMatcherError::ParseError(m) => crate::text::concat2("Failed to parse pattern: ", m.as_str()),
        }
    }
}

/// How often an element may repeat.
#[derive(PartialEq, Eq, Structural, Clone, Copy, Debug)]
pub enum Quantifier {
    ZeroOrMore,
    OneOrMore,
    Once,
}

/// A feature required with a sign: `+voice` (true) or `-voice` (false).
#[derive(PartialEq, Eq, Structural, Clone, Copy, Debug)]
pub struct FeatureDescriptor {
    pub sign: bool,
    pub feature: Feature,
}

/// The base of a pattern element.
pub enum BaseElement {
    WordBoundary,
    SyllableBoundary,
    SoundClass(SoundClassKey),
    IpaSequence(IpaString),
    FeatureClass(Option<SoundClassKey>, Vec<FeatureDescriptor>),
    /// Alternatives: sound classes or IPA sequences.
    SetOf(Vec<BaseElement>),
    OptionalGroup(Box<SoundMatcherPattern>),
}

/// A base with its quantifier and its back-reference marker.
pub struct PatternElement {
    pub base: BaseElement,
    pub quantifier: Quantifier,
    pub marker: Option<u8>,
}

/// A sound pattern: a list of elements.
pub struct SoundMatcherPattern {
    pub elements: Vec<PatternElement>,
}

/// A token of a word: a boundary (`#` for the word, `$` for a syllable) or a phoneme.
pub enum Token {
    Boundary(String),
    Phoneme(String),
}

/// The model of a `BaseElement`.
pub enum BaseView {
    WordBoundary,
    SyllableBoundary,
    SoundClass(char),
    IpaSequence(IpaStringView),
    FeatureClass(Option<char>, Seq<FeatureDescriptor>),
    SetOf(Seq<BaseView>),
    OptionalGroup(Box<Seq<ElementView>>),
}

/// The model of a `PatternElement`.
pub struct ElementView {
    pub base: BaseView,
    pub quantifier: Quantifier,
    pub marker: Option<u8>,
}

/// The model of a `Token`.
pub enum TokenView {
    Boundary(Seq<char>),
    Phoneme(Seq<char>),
}

/// The letter of an optional class key.
pub open spec fn key_letter(k: Option<SoundClassKey>) -> Option<char> {
    match k {
        Some(k) => Some(k.letter),
        None => None,
    }
}

/// The model of a base.
pub open spec fn base_view(b: BaseElement) -> BaseView
    decreases b,
{
    match b {
        BaseElement::WordBoundary => BaseView::WordBoundary,
        BaseElement::SyllableBoundary => BaseView::SyllableBoundary,
        BaseElement::SoundClass(k) => BaseView::SoundClass(k.letter),
        BaseElement::IpaSequence(ipa) => BaseView::IpaSequence(ipa@),
        BaseElement::FeatureClass(k, fs) => BaseView::FeatureClass(key_letter(k), fs@),
        BaseElement::SetOf(els) => BaseView::SetOf(bases_view(els@)),
        BaseElement::OptionalGroup(p) => BaseView::OptionalGroup(Box::new(pattern_elements_view((*p).elements@))),
    }
}

/// The models of a list of bases.
pub open spec fn bases_view(bs: Seq<BaseElement>) -> Seq<BaseView>
    decreases bs,
{
    if bs.len() == 0 {
        Seq::empty()
    } else {
        bases_view(bs.drop_last()).push(base_view(bs.last()))
    }
}

/// The model of an element.
pub open spec fn element_view(e: PatternElement) -> ElementView
    decreases e,
{
    ElementView { base: base_view(e.base), quantifier: e.quantifier, marker: e.marker }
}

/// The models of a list of elements.
pub open spec fn pattern_elements_view(es: Seq<PatternElement>) -> Seq<ElementView>
    decreases es,
{
    if es.len() == 0 {
        Seq::empty()
    } else {
        pattern_elements_view(es.drop_last()).push(element_view(es.last()))
    }
}

impl View for BaseElement {
    type V = BaseView;

    open spec fn view(&self) -> BaseView {
        base_view(*self)
    }
}

impl View for PatternElement {
    type V = ElementView;

    open spec fn view(&self) -> ElementView {
        element_view(*self)
    }
}

impl View for SoundMatcherPattern {
    type V = Seq<ElementView>;

    open spec fn view(&self) -> Seq<ElementView> {
        pattern_elements_view(self.elements@)
    }
}

impl View for Token {
    type V = TokenView;

    open spec fn view(&self) -> TokenView {
        match self {
            Token::Boundary(s) => TokenView::Boundary(s@),
            Token::Phoneme(s) => TokenView::Phoneme(s@),
        }
    }
}

/// The models of a list of tokens.
pub open spec fn tokens_view(ts: Seq<Token>) -> Seq<TokenView> {
    ts.map_values(|t: Token| t@)
}

pub proof fn lemma_bases_view(bs: Seq<BaseElement>)
    ensures
        bases_view(bs).len() == bs.len(),
        forall|k: int| 0 <= k < bs.len() ==> #[trigger] bases_view(bs)[k] == base_view(bs[k]),
    decreases bs.len(),
{
    if bs.len() > 0 {
        lemma_bases_view(bs.drop_last());
    }
}

pub proof fn lemma_elements_view(es: Seq<PatternElement>)
    ensures
        pattern_elements_view(es).len() == es.len(),
        forall|k: int| 0 <= k < es.len() ==> #[trigger] pattern_elements_view(es)[k] == element_view(es[k]),
    decreases es.len(),
{
    if es.len() > 0 {
        lemma_elements_view(es.drop_last());
    }
}

// ----- writing a pattern out -----

/// The text of a feature descriptor: its sign and its name.
pub open spec fn descriptor_text(d: FeatureDescriptor) -> Seq<char> {
    (if d.sign {
        seq!['+']
    } else {
        seq!['-']
    }) + spec_feature_name(d.feature)
}

/// The descriptors' texts, separated by single spaces.
pub open spec fn descriptors_text(ds: Seq<FeatureDescriptor>) -> Seq<char>
    decreases ds.len(),
{
    if ds.len() == 0 {
        Seq::empty()
    } else if ds.len() == 1 {
        descriptor_text(ds[0])
    } else {
        descriptors_text(ds.drop_last()) + seq![' '] + descriptor_text(ds.last())
    }
}

/// The text of a marker, if any.
pub open spec fn marker_text(m: Option<u8>) -> Seq<char> {
    match m {
        Some(m) => decimal_text(m as nat),
        None => Seq::empty(),
    }
}

/// The text of a set member: a class letter or an IPA text (others write nothing).
pub open spec fn set_member_text(b: BaseView) -> Seq<char> {
    match b {
        BaseView::SoundClass(c) => seq![c],
        BaseView::IpaSequence(ipa) => ipa.raw,
        _ => Seq::empty(),
    }
}

/// The members' texts, separated by `, `.
pub open spec fn set_members_text(bs: Seq<BaseView>) -> Seq<char>
    decreases bs.len(),
{
    if bs.len() == 0 {
        Seq::empty()
    } else if bs.len() == 1 {
        set_member_text(bs[0])
    } else {
        set_members_text(bs.drop_last()) + seq![',', ' '] + set_member_text(bs.last())
    }
}

/// The text of a base; a feature class carries the element's marker inside its brackets.
pub open spec fn base_text(b: BaseView, marker: Option<u8>) -> Seq<char>
    decreases b,
{
    match b {
        BaseView::WordBoundary => seq!['#'],
        BaseView::SyllableBoundary => seq!['$'],
        BaseView::SoundClass(c) => seq![c],
        BaseView::IpaSequence(ipa) => ipa.raw,
        BaseView::FeatureClass(k, ds) => seq!['['] + (match k {
            Some(c) => seq![c] + marker_text(marker) + (if ds.len() > 0 {
                seq![' ']
            } else {
                Seq::empty()
            }),
            None => Seq::empty(),
        }) + descriptors_text(ds) + seq![']'],
        BaseView::SetOf(bs) => seq!['{'] + set_members_text(bs) + seq!['}'],
        BaseView::OptionalGroup(p) => seq!['('] + elements_text(*p) + seq![')'],
    }
}

/// The text of a quantifier.
pub open spec fn quantifier_text(q: Quantifier) -> Seq<char> {
    match q {
        Quantifier::ZeroOrMore => seq!['*'],
        Quantifier::OneOrMore => seq!['+'],
        Quantifier::Once => Seq::empty(),
    }
}

/// The text of an element: its base, its marker (unless it is a feature
/// class, which writes it inside), then its quantifier.
pub open spec fn element_text(e: ElementView) -> Seq<char>
    decreases e,
{
    base_text(e.base, e.marker) + (if e.base is FeatureClass {
        Seq::empty()
    } else {
        marker_text(e.marker)
    }) + quantifier_text(e.quantifier)
}

/// The concatenated texts of elements.
pub open spec fn elements_text(es: Seq<ElementView>) -> Seq<char>
    decreases es,
{
    if es.len() == 0 {
        Seq::empty()
    } else {
        elements_text(es.drop_last()) + element_text(es.last())
    }
}

fn descriptors_to_text(ds: &Vec<FeatureDescriptor>) -> (r: String)
    ensures
        r@ == descriptors_text(ds@),
{
    let mut out = String::new();
    let mut i: usize = 0;
    while i < ds.len()
        invariant
            i <= ds.len(),
            out@ == descriptors_text(ds@.take(i as int)),
        decreases ds.len() - i,
    {
        assert(ds@.take(i + 1).drop_last() =~= ds@.take(i as int));
        if i > 0 {
            out.append(" ");
        }
        if ds[i].sign {
            out.append("+");
        } else {
            out.append("-");
        }
        out.append(ds[i].feature.name());
        proof {
            reveal_strlit(" ");
            reveal_strlit("+");
            reveal_strlit("-");
            if i == 0 {
                assert(out@ =~= descriptor_text(ds@[0]));
            } else {
                assert(out@ =~= descriptors_text(ds@.take(i as int)) + seq![' '] + descriptor_text(ds@[i as int]));
            }
        }
        i = i + 1;
    }
    assert(ds@.take(i as int) =~= ds@);
    out
}

fn marker_to_text(m: Option<u8>) -> (r: String)
    ensures
        r@ == marker_text(m),
{
    match m {
        Some(v) => crate::text::decimal(v as usize),
        None => String::new(),
    }
}

fn set_members_to_text(els: &[BaseElement]) -> (r: String)
    ensures
        r@ == set_members_text(bases_view(els@)),
{
    proof {
        lemma_bases_view(els@);
    }
    let ghost bv = bases_view(els@);
    let mut out = String::new();
    let mut i: usize = 0;
    while i < els.len()
        invariant
            i <= els.len(),
            bv == bases_view(els@),
            bv.len() == els@.len(),
            forall|k: int| 0 <= k < els@.len() ==> #[trigger] bv[k] == base_view(els@[k]),
            out@ == set_members_text(bv.take(i as int)),
        decreases els.len() - i,
    {
        assert(bv.take(i + 1).drop_last() =~= bv.take(i as int));
        let ghost before = out@;
        if i > 0 {
            out.append(", ");
        }
        let ghost sep = out@;
        match &els[i] {
            BaseElement::SoundClass(k) => {
                let t = k.to_text();
                out.append(t.as_str());
            },
            BaseElement::IpaSequence(ipa) => {
                out.append(ipa.as_str());
            },
            _ => {},
        }
        assert(out@ =~= sep + set_member_text(bv[i as int]));
        proof {
            reveal_strlit(", ");
            if i == 0 {
                assert(out@ =~= set_member_text(bv.take(1)[0]));
            } else {
                assert(sep =~= before + seq![',', ' ']);
            }
        }
        i = i + 1;
    }
    assert(bv.take(i as int) =~= bv);
    out
}

impl BaseElement {
    /// The text of the base; a feature class writes the marker inside its brackets.
    pub fn to_text(&self, marker: Option<u8>) -> (r: String)
        ensures
            r@ == base_text(self@, marker),
        decreases self@,
    {
        match self {
            BaseElement::WordBoundary => crate::text::char_string('#'),
            BaseElement::SyllableBoundary => crate::text::char_string('$'),
            BaseElement::SoundClass(k) => k.to_text(),
            BaseElement::IpaSequence(ipa) => String::from_str(ipa.as_str()),
            BaseElement::FeatureClass(k, ds) => {
                let mut out = crate::text::char_string('[');
                let ghost open = out@;
                match k {
                    Some(key) => {
                        let t = key.to_text();
                        out.append(t.as_str());
                        let m = marker_to_text(marker);
                        out.append(m.as_str());
                        if ds.len() > 0 {
                            out.append(" ");
                        }
                    },
                    None => {},
                }
                let d = descriptors_to_text(ds);
                out.append(d.as_str());
                out.append("]");
                proof {
                    reveal_strlit(" ");
                    reveal_strlit("]");
                }
                assert(out@ =~= base_text(self@, marker));
                out
            },
            BaseElement::SetOf(els) => {
                let mut out = crate::text::char_string('{');
                let t = set_members_to_text(els.as_slice());
                out.append(t.as_str());
                out.append("}");
                proof {
                    reveal_strlit("}");
                }
                assert(out@ =~= base_text(self@, marker));
                out
            },
            BaseElement::OptionalGroup(p) => {
                proof {
                    assert(decreases_to!(self@ => (self@)->OptionalGroup_0));
                }
                let mut out = crate::text::char_string('(');
                let t = elements_to_text(p.elements.as_slice());
                out.append(t.as_str());
                out.append(")");
                proof {
                    reveal_strlit(")");
                }
                assert(out@ =~= base_text(self@, marker));
                out
            },
        }
    }
}

impl PatternElement {
    /// The text of the element: base, marker, quantifier.
    pub fn to_text(&self) -> (r: String)
        ensures
            r@ == element_text(self@),
        decreases self@,
    {
        proof {
            assert(decreases_to!(self@ => self@.base));
        }
        let mut out = self.base.to_text(self.marker);
        let is_fc = matches!(self.base, BaseElement::FeatureClass(_, _));
        if !is_fc {
            let m = marker_to_text(self.marker);
            out.append(m.as_str());
        }
        match self.quantifier {
            Quantifier::ZeroOrMore => {
                out.append("*");
            },
            Quantifier::OneOrMore => {
                out.append("+");
            },
            Quantifier::Once => {},
        }
        proof {
            reveal_strlit("*");
            reveal_strlit("+");
        }
        assert(out@ =~= element_text(self@));
        out
    }
}

/// The concatenated texts of elements.
pub fn elements_to_text(es: &[PatternElement]) -> (r: String)
    ensures
        r@ == elements_text(pattern_elements_view(es@)),
    decreases pattern_elements_view(es@),
{
    proof {
        lemma_elements_view(es@);
    }
    let ghost ev = pattern_elements_view(es@);
    let mut out = String::new();
    let mut i: usize = 0;
    while i < es.len()
        invariant
            i <= es.len(),
            ev == pattern_elements_view(es@),
            ev.len() == es@.len(),
            forall|k: int| 0 <= k < es@.len() ==> #[trigger] ev[k] == element_view(es@[k]),
            out@ == elements_text(ev.take(i as int)),
        decreases es.len() - i,
    {
        assert(ev.take(i + 1).drop_last() =~= ev.take(i as int));
        proof {
            assert(decreases_to!(ev => ev[i as int]));
        }
        let t = es[i].to_text();
        out.append(t.as_str());
        i = i + 1;
    }
    assert(ev.take(i as int) =~= ev);
    out
}

impl SoundMatcherPattern {
    /// The pattern's text: its elements' texts.
    pub fn to_text(&self) -> (r: String)
        ensures
            r@ == elements_text(self@),
    {
        elements_to_text(self.elements.as_slice())
    }
}

} // verus!
