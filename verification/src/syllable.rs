//! Syllables and words made of syllables.

use crate::ipa_string::{IpaString, IpaStringError};
use crate::sequence::{
    elements_text, elements_view, phonemes_of, ElementView, Phoneme, PhonemeSequence, PhonemeView,
    ProsodyMarker, SequenceElement,
};
use crate::config::LanguageConfig;
use crate::ipa_system::{IpaSystem, IpaSystemView};
use crate::prosody::{restressed, spec_prosody_stresses, stresses, ProsodicConfig};
use crate::syllabifier::{error_for, spec_sequence_fault, spec_syllabify, syllabify_sequence};
use vstd::prelude::*;

verus! {

/// Stress variants for a syllable.
#[derive(PartialEq, Eq, Structural, Clone, Copy, Debug)]
pub enum SyllableStress {
    PrimaryStress,
    SecondaryStress,
    Unstressed,
    UnknownStress,
}

/// The internal structure of a syllable.
pub enum SyllableStructure {
    Standard { onset: Option<PhonemeSequence>, nucleus: PhonemeSequence, coda: Option<PhonemeSequence> },
    Root(Phoneme),
    Arbitrary(PhonemeSequence),
}

/// The model of a `SyllableStructure`.
pub enum StructureView {
    Standard { onset: Option<Seq<ElementView>>, nucleus: Seq<ElementView>, coda: Option<Seq<ElementView>> },
    Root(PhonemeView),
    Arbitrary(Seq<ElementView>),
}

/// The model of an optional sequence.
pub open spec fn opt_view(o: Option<PhonemeSequence>) -> Option<Seq<ElementView>> {
    match o {
        Some(s) => Some(s@),
        None => None,
    }
}

impl View for SyllableStructure {
    type V = StructureView;

    open spec fn view(&self) -> StructureView {
        match self {
            SyllableStructure::Standard { onset, nucleus, coda } => StructureView::Standard {
                onset: opt_view(*onset),
                nucleus: nucleus@,
                coda: opt_view(*coda),
            },
            SyllableStructure::Root(p) => StructureView::Root(p@),
            SyllableStructure::Arbitrary(s) => StructureView::Arbitrary(s@),
        }
    }
}

/// The phonemes of an optional sequence.
pub open spec fn opt_phonemes(o: Option<Seq<ElementView>>) -> Seq<PhonemeView> {
    match o {
        Some(s) => phonemes_of(s),
        None => Seq::empty(),
    }
}

/// The phonemes of a syllable structure, in order.
pub open spec fn structure_phonemes(s: StructureView) -> Seq<PhonemeView> {
    match s {
        StructureView::Standard { onset, nucleus, coda } => opt_phonemes(onset) + phonemes_of(nucleus)
            + opt_phonemes(coda),
        StructureView::Root(p) => seq![p],
        StructureView::Arbitrary(es) => phonemes_of(es),
    }
}

/// Phonemes as sequence elements.
pub open spec fn as_elements(ps: Seq<PhonemeView>) -> Seq<ElementView> {
    ps.map_values(|p: PhonemeView| ElementView::Phoneme(p))
}

/// Appends the phonemes among `es` to `out`, as elements.
fn push_phonemes(out: &mut Vec<SequenceElement>, es: &Vec<SequenceElement>)
    ensures
        elements_view(final(out)@) == elements_view(old(out)@) + as_elements(phonemes_of(elements_view(es@))),
{
    let ghost start = elements_view(out@);
    let ghost ev = elements_view(es@);
    let mut i: usize = 0;
    while i < es.len()
        invariant
            i <= es.len(),
            ev == elements_view(es@),
            elements_view(out@) =~= start + as_elements(phonemes_of(ev.take(i as int))),
        decreases es.len() - i,
    {
        assert(ev.take(i + 1).drop_last() =~= ev.take(i as int));
        match &es[i] {
            SequenceElement::Phoneme(p) => {
                let ghost before = elements_view(out@);
                out.push(SequenceElement::Phoneme(p.copy()));
                assert(elements_view(out@) =~= before.push(ElementView::Phoneme(p@)));
                assert(as_elements(phonemes_of(ev.take(i + 1))) =~= as_elements(phonemes_of(ev.take(i as int))).push(ElementView::Phoneme(p@)));
            },
            _ => {},
        }
        i = i + 1;
    }
    assert(ev.take(i as int) =~= ev);
}

impl SyllableStructure {
    /// The phonemes of the structure as elements, in order (onset, nucleus, coda).
    pub fn elements(&self) -> (r: Vec<SequenceElement>)
        ensures
            elements_view(r@) == as_elements(structure_phonemes(self@)),
    {
        let mut out: Vec<SequenceElement> = Vec::new();
        assert(elements_view(out@) =~= Seq::<ElementView>::empty());
        match self {
            SyllableStructure::Standard { onset, nucleus, coda } => {
                if let Some(o) = onset {
                    push_phonemes(&mut out, &o.elements);
                }
                assert(elements_view(out@) =~= as_elements(opt_phonemes(opt_view(*onset))));
                push_phonemes(&mut out, &nucleus.elements);
                if let Some(c) = coda {
                    push_phonemes(&mut out, &c.elements);
                }
                assert(elements_view(out@) =~= as_elements(opt_phonemes(opt_view(*onset)) + phonemes_of(nucleus@)
                    + opt_phonemes(opt_view(*coda))));
            },
            SyllableStructure::Root(p) => {
                out.push(SequenceElement::Phoneme(p.copy()));
                assert(elements_view(out@) =~= as_elements(seq![p@]));
            },
            SyllableStructure::Arbitrary(s) => {
                push_phonemes(&mut out, &s.elements);
                assert(elements_view(out@) =~= as_elements(phonemes_of(s@)));
            },
        }
        out
    }

    /// A copy of the structure.
    pub fn copy(&self) -> (r: SyllableStructure)
        ensures
            r@ == self@,
    {
        match self {
            SyllableStructure::Standard { onset, nucleus, coda } => {
                let o = match onset {
                    Some(s) => Some(s.copy()),
                    None => None,
                };
                let c = match coda {
                    Some(s) => Some(s.copy()),
                    None => None,
                };
                SyllableStructure::Standard { onset: o, nucleus: nucleus.copy(), coda: c }
            },
            SyllableStructure::Root(p) => SyllableStructure::Root(p.copy()),
            SyllableStructure::Arbitrary(s) => SyllableStructure::Arbitrary(s.copy()),
        }
    }
}

/// A syllable containing structure and stress.
pub struct Syllable {
    pub structure: SyllableStructure,
    pub stress: SyllableStress,
}

/// The model of a `Syllable`.
pub struct SyllableView {
    pub structure: StructureView,
    pub stress: SyllableStress,
}

impl View for Syllable {
    type V = SyllableView;

    open spec fn view(&self) -> SyllableView {
        SyllableView { structure: self.structure@, stress: self.stress }
    }
}

impl Syllable {
    /// Creates a standard syllable structure.
    pub fn standard(
        onset: Option<PhonemeSequence>,
        nucleus: PhonemeSequence,
        coda: Option<PhonemeSequence>,
        stress: SyllableStress,
    ) -> (r: Syllable)
        ensures
            r@ == (SyllableView {
                structure: StructureView::Standard { onset: opt_view(onset), nucleus: nucleus@, coda: opt_view(coda) },
                stress,
            }),
    {
        Syllable { structure: SyllableStructure::Standard { onset, nucleus, coda }, stress }
    }

    /// Creates a root syllable structure.
    pub fn root(root: Phoneme, stress: SyllableStress) -> (r: Syllable)
        ensures
            r@ == (SyllableView { structure: StructureView::Root(root@), stress }),
    {
        Syllable { structure: SyllableStructure::Root(root), stress }
    }

    /// Creates an arbitrary syllable structure.
    pub fn arbitrary(seq: PhonemeSequence, stress: SyllableStress) -> (r: Syllable)
        ensures
            r@ == (SyllableView { structure: StructureView::Arbitrary(seq@), stress }),
    {
        Syllable { structure: SyllableStructure::Arbitrary(seq), stress }
    }

    /// A copy of the syllable.
    pub fn copy(&self) -> (r: Syllable)
        ensures
            r@ == self@,
    {
        Syllable { structure: self.structure.copy(), stress: self.stress }
    }
}

/// The models of a list of syllables.
pub open spec fn syllables_view(ss: Seq<Syllable>) -> Seq<SyllableView> {
    ss.map_values(|s: Syllable| s@)
}

/// A word represented as a sequence of syllables.
pub struct IpaWord {
    pub syllables: Vec<Syllable>,
}

impl View for IpaWord {
    type V = Seq<SyllableView>;

    open spec fn view(&self) -> Seq<SyllableView> {
        syllables_view(self.syllables@)
    }
}

/// The mark of a stress, if it has one.
pub open spec fn stress_mark(s: SyllableStress) -> Seq<ElementView> {
    match s {
        SyllableStress::PrimaryStress => seq![ElementView::Prosody(ProsodyMarker::PrimaryStress)],
        SyllableStress::SecondaryStress => seq![ElementView::Prosody(ProsodyMarker::SecondaryStress)],
        _ => Seq::empty(),
    }
}

/// The elements of a syllable within a word: a syllable break before an
/// unstressed or unmarked syllable that is not the first (`breaks`), its
/// stress mark, then its phonemes.
pub open spec fn syllable_elements(s: SyllableView, breaks: bool) -> Seq<ElementView> {
    (if breaks && (s.stress == SyllableStress::UnknownStress || s.stress == SyllableStress::Unstressed) {
        seq![ElementView::SyllableBreak]
    } else {
        Seq::empty()
    }) + stress_mark(s.stress) + as_elements(structure_phonemes(s.structure))
}

/// The elements of a word: each syllable's elements, with syllable breaks
/// before the unmarked syllables after the first.
pub open spec fn word_elements(ws: Seq<SyllableView>) -> Seq<ElementView>
    decreases ws.len(),
{
    if ws.len() == 0 {
        Seq::empty()
    } else {
        word_elements(ws.drop_last()) + syllable_elements(ws.last(), ws.len() > 1)
    }
}

/// The elements of a word with its stress marks but no syllable breaks.
pub open spec fn flat_elements(ws: Seq<SyllableView>) -> Seq<ElementView>
    decreases ws.len(),
{
    if ws.len() == 0 {
        Seq::empty()
    } else {
        flat_elements(ws.drop_last()) + syllable_elements(ws.last(), false)
    }
}

/// The phonemes of a word's syllables, in order.
pub open spec fn word_phonemes(ws: Seq<SyllableView>) -> Seq<PhonemeView>
    decreases ws.len(),
{
    if ws.len() == 0 {
        Seq::empty()
    } else {
        word_phonemes(ws.drop_last()) + structure_phonemes(ws.last().structure)
    }
}

/// Appends a syllable's stress mark to `out`.
fn push_stress_mark(out: &mut Vec<SequenceElement>, stress: SyllableStress)
    ensures
        elements_view(final(out)@) == elements_view(old(out)@) + stress_mark(stress),
{
    let ghost before = elements_view(out@);
    match stress {
        SyllableStress::PrimaryStress => {
            out.push(SequenceElement::Prosody(ProsodyMarker::PrimaryStress));
        },
        SyllableStress::SecondaryStress => {
            out.push(SequenceElement::Prosody(ProsodyMarker::SecondaryStress));
        },
        _ => {},
    }
    assert(elements_view(out@) =~= before + stress_mark(stress));
}

/// Appends elements to `out`.
fn append_elements(out: &mut Vec<SequenceElement>, es: Vec<SequenceElement>)
    ensures
        elements_view(final(out)@) == elements_view(old(out)@) + elements_view(es@),
{
    let ghost before = out@;
    let ghost added = es@;
    let mut es = es;
    out.append(&mut es);
    assert(out@ =~= before + added);
    assert(elements_view(out@) =~= elements_view(before) + elements_view(added));
}

impl IpaWord {
    /// Creates a new `IpaWord` from a sequence of syllables.
    pub fn new(syllables: Vec<Syllable>) -> (r: IpaWord)
        ensures
            r@ == syllables_view(syllables@),
    {
        IpaWord { syllables }
    }

    /// The word's elements: stress marks, syllable breaks between unmarked
    /// syllables, and phonemes.
    pub fn elements(&self) -> (r: Vec<SequenceElement>)
        ensures
            elements_view(r@) == word_elements(self@),
    {
        self.collect_elements(true)
    }

    /// The word's elements with stress marks; syllable breaks only if `breaks`.
    fn collect_elements(&self, breaks: bool) -> (r: Vec<SequenceElement>)
        ensures
            breaks ==> elements_view(r@) == word_elements(self@),
            !breaks ==> elements_view(r@) == flat_elements(self@),
    {
        let ghost ws = self@;
        let mut out: Vec<SequenceElement> = Vec::new();
        assert(elements_view(out@) =~= Seq::<ElementView>::empty());
        let mut i: usize = 0;
        while i < self.syllables.len()
            invariant
                i <= self.syllables.len(),
                ws == self@,
                breaks ==> elements_view(out@) == word_elements(ws.take(i as int)),
                !breaks ==> elements_view(out@) == flat_elements(ws.take(i as int)),
            decreases self.syllables.len() - i,
        {
            let syl = &self.syllables[i];
            assert(ws.take(i + 1).drop_last() =~= ws.take(i as int));
            assert(ws.take(i + 1).last() == syl@);
            let ghost before = elements_view(out@);
            let unmarked = match syl.stress {
                SyllableStress::UnknownStress => true,
                SyllableStress::Unstressed => true,
                _ => false,
            };
            if breaks && i > 0 && unmarked {
                out.push(SequenceElement::SyllableBreak);
            }
            push_stress_mark(&mut out, syl.stress);
            let es = syl.structure.elements();
            append_elements(&mut out, es);
            assert(elements_view(out@) =~= before + syllable_elements(syl@, breaks && i > 0));
            i = i + 1;
        }
        assert(ws.take(i as int) =~= ws);
        out
    }

    /// Generates a flat `PhonemeSequence` from the word, retaining stress
    /// markers but omitting syllable breaks.
    pub fn to_flat_sequence(&self) -> (r: PhonemeSequence)
        ensures
            r@ == flat_elements(self@),
    {
        PhonemeSequence { elements: self.collect_elements(false) }
    }

    /// The word as a phoneme sequence (its `elements`).
    pub fn to_sequence(&self) -> (r: PhonemeSequence)
        ensures
            r@ == word_elements(self@),
    {
        PhonemeSequence { elements: self.elements() }
    }

    /// The word's text: the texts of its elements.
    pub fn to_text(&self) -> (r: String)
        ensures
            r@ == elements_text(word_elements(self@)),
    {
        let es = self.elements();
        crate::sequence::elements_to_text(&es)
    }

    /// The word as an IPA string: its sequence, composed.
    pub fn to_ipa_string(&self) -> (r: IpaString)
        ensures
            r@.elements == word_elements(self@),
            r@.raw == crate::text::nfc_text(elements_text(word_elements(self@))),
    {
        IpaString::from_sequence(self.to_sequence())
    }
}

impl crate::sequence::IpaSequence for IpaWord {
    open spec fn sequence_view(&self) -> Seq<ElementView> {
        word_elements(self@)
    }

    fn elements(&self) -> (r: Vec<SequenceElement>) {
        IpaWord::elements(self)
    }
}

/// Errors of syllabification.
pub enum SyllabificationError {
    BoundarySyllableBreak,
    DoubleSyllableBreak,
    ProsodicWithSyllableBreak,
    AdjacentProsody,
    IpaError(IpaStringError),
}

impl SyllabificationError {
    /// The error's message.
    pub fn message(&self) -> (r: String)
        ensures
            self is BoundarySyllableBreak ==> r@ == "Syllable break at start or end is not allowed"@,
            self is DoubleSyllableBreak ==> r@ == "Double syllable breaks are not allowed"@,
            self is ProsodicWithSyllableBreak ==> r@ == "Prosodic marker combined with syllable break is not allowed"@,
            self is AdjacentProsody ==> r@ == "Adjacent prosodic markers are not allowed"@,
    {
        match self {
            SyllabificationError::BoundarySyllableBreak => String::from_str("Syllable break at start or end is not allowed"),
            SyllabificationError::DoubleSyllableBreak => String::from_str("Double syllable breaks are not allowed"),
            SyllabificationError::ProsodicWithSyllableBreak => String::from_str("Prosodic marker combined with syllable break is not allowed"),
            SyllabificationError::AdjacentProsody => String::from_str("Adjacent prosodic markers are not allowed"),
            SyllabificationError::IpaError(e) => crate::text::concat2("IPA parsing failed: ", e.message().as_str()),
        }
    }
}

// ----- syllabification with stress placement -----

/// The prosodic system of a configuration. A configuration that names none
/// places no stress: the word keeps the stresses it was written with.
pub open spec fn prosody_of(cfg: LanguageConfig) -> ProsodicConfig {
    match cfg.phonology.prosody {
        Some(p) => p,
        None => ProsodicConfig::Unstressed,
    }
}

/// The word after stress placement, before it is syllabified again: the
/// sequence is syllabified and stress is placed with `sample` as the drawn
/// syllable.
pub open spec fn spec_stressed(sys: IpaSystemView, cfg: LanguageConfig, es: Seq<ElementView>, sample: int) -> Seq<SyllableView> {
    let w0 = spec_syllabify(sys, cfg, es);
    restressed(w0, spec_prosody_stresses(sys, prosody_of(cfg), w0, sample))
}

/// The word that a valid sequence becomes: it is syllabified, stress is
/// placed (with `sample` as the drawn syllable), and if the stresses changed
/// the stressed word is flattened and syllabified again, so that the new
/// stresses can move syllable boundaries. `None` when that second
/// syllabification finds a fault.
pub open spec fn spec_try_from(sys: IpaSystemView, cfg: LanguageConfig, es: Seq<ElementView>, sample: int) -> Option<Seq<SyllableView>> {
    let w0 = spec_syllabify(sys, cfg, es);
    let w1 = spec_stressed(sys, cfg, es, sample);
    if w0.len() != w1.len() || stresses(w0) != stresses(w1) {
        let flat = flat_elements(w1);
        if spec_sequence_fault(flat) is None {
            Some(spec_syllabify(sys, cfg, flat))
        } else {
            None
        }
    } else {
        Some(w1)
    }
}

/// Whether `s` is a value that `draw` gives when asked for the stressed
/// syllable of a word of `n` syllables (0 when the word has none, and
/// `draw` is not asked).
pub open spec fn drawn<G: Fn(usize) -> usize>(draw: G, n: int, s: int) -> bool {
    if n == 0 {
        s == 0
    } else {
        0 <= s && call_ensures(draw, (n as usize,), s as usize)
    }
}

/// Whether a result is what a valid sequence becomes with `sample` as the
/// drawn syllable: the word, or the error for the fault that the second
/// syllabification finds.
pub open spec fn try_outcome(sys: IpaSystemView, cfg: LanguageConfig, es: Seq<ElementView>, sample: int, r: Result<IpaWord, SyllabificationError>) -> bool {
    match r {
        Ok(w) => spec_try_from(sys, cfg, es, sample) == Some(w@),
        Err(e) => spec_try_from(sys, cfg, es, sample) is None
            && error_for(e, spec_sequence_fault(flat_elements(spec_stressed(sys, cfg, es, sample))).unwrap()),
    }
}

impl IpaWord {
    /// A copy of the word.
    pub fn copy(&self) -> (r: IpaWord)
        ensures
            r@ == self@,
    {
        let mut out: Vec<Syllable> = Vec::new();
        let mut i: usize = 0;
        while i < self.syllables.len()
            invariant
                i <= self.syllables.len(),
                out@.len() == i,
                forall|k: int| 0 <= k < i ==> #[trigger] out@[k]@ == self.syllables@[k]@,
            decreases self.syllables.len() - i,
        {
            out.push(self.syllables[i].copy());
            i = i + 1;
        }
        let w = IpaWord { syllables: out };
        assert(w@ =~= self@);
        w
    }

    /// Syllabifies a sequence and places stress: `draw(n)` picks the
    /// syllable, below `n`, that bears the primary stress of an unmarked
    /// word of `n` syllables when the language has no fixed stress. If the
    /// stresses change, the stressed word is syllabified again.
    pub fn try_from_sequence<F: Fn(usize) -> usize>(
        seq: &PhonemeSequence,
        config: &LanguageConfig,
        system: &IpaSystem,
        draw: F,
    ) -> (r: Result<IpaWord, SyllabificationError>)
        requires
            forall|n: usize| n > 0 ==> call_requires(draw, (n,)),
            forall|n: usize, s: usize| n > 0 && call_ensures(draw, (n,), s) ==> s < n,
        ensures
            spec_sequence_fault(seq@) is Some ==> (r matches Err(e) && error_for(e, spec_sequence_fault(seq@).unwrap())),
            spec_sequence_fault(seq@) is None ==> spec_syllabify(system@, *config, seq@).len() <= usize::MAX,
            spec_sequence_fault(seq@) is None ==> exists|s: int|
                drawn(draw, spec_syllabify(system@, *config, seq@).len() as int, s)
                && #[trigger] try_outcome(system@, *config, seq@, s, r),
    {
        let initial = syllabify_sequence(seq, config, system)?;
        let prosody = match config.phonology.prosody {
            Some(p) => p,
            None => ProsodicConfig::Unstressed,
        };
        let n = initial.syllables.len();
        let sample = if n > 0 {
            draw(n)
        } else {
            0
        };
        let updated = prosody.apply_prosody(&initial, system, sample);
        let ghost w0 = initial@;
        let ghost w1 = updated@;
        proof {
            crate::prosody::lemma_prosody_keeps_syllables(system@, prosody, w0, sample as int);
        }
        let mut propagated = false;
        let mut i: usize = 0;
        while i < n
            invariant
                i <= n,
                n == initial.syllables.len(),
                w0 == initial@,
                w1 == updated@,
                w0.len() == n,
                updated@.len() == n,
                updated.syllables@.len() == n,
                !propagated ==> forall|k: int| 0 <= k < i ==> #[trigger] w0[k].stress == w1[k].stress,
                propagated ==> stresses(w0) != stresses(w1),
            decreases n - i,
        {
            assert(w0[i as int] == initial.syllables@[i as int]@ && w1[i as int] == updated.syllables@[i as int]@);
            if initial.syllables[i].stress != updated.syllables[i].stress {
                assert(stresses(w0)[i as int] != stresses(w1)[i as int]);
                propagated = true;
            }
            i = i + 1;
        }
        if !propagated {
            assert(stresses(w0) =~= stresses(w1));
        }
        assert(w1 == spec_stressed(system@, *config, seq@, sample as int));
        assert(spec_try_from(system@, *config, seq@, sample as int) == if propagated {
            if spec_sequence_fault(flat_elements(w1)) is None {
                Some(spec_syllabify(system@, *config, flat_elements(w1)))
            } else {
                None
            }
        } else {
            Some(w1)
        });
        assert(drawn(draw, spec_syllabify(system@, *config, seq@).len() as int, sample as int));
        let r = if propagated {
            let flat = updated.to_flat_sequence();
            syllabify_sequence(&flat, config, system)
        } else {
            Ok(updated)
        };
        assert(try_outcome(system@, *config, seq@, sample as int, r));
        r
    }
}

} // verus!

verus! {

/// Elements without their syllable breaks, in order.
pub open spec fn drop_breaks(es: Seq<ElementView>) -> Seq<ElementView>
    decreases es.len(),
{
    if es.len() == 0 {
        Seq::empty()
    } else if es.last() is SyllableBreak {
        drop_breaks(es.drop_last())
    } else {
        drop_breaks(es.drop_last()).push(es.last())
    }
}

proof fn lemma_drop_breaks_append(a: Seq<ElementView>, b: Seq<ElementView>)
    ensures
        drop_breaks(a + b) == drop_breaks(a) + drop_breaks(b),
    decreases b.len(),
{
    if b.len() == 0 {
        assert(a + b =~= a);
        assert(drop_breaks(a) + Seq::<ElementView>::empty() =~= drop_breaks(a));
    } else {
        lemma_drop_breaks_append(a, b.drop_last());
        assert((a + b).drop_last() =~= a + b.drop_last());
        assert((a + b).last() == b.last());
        if !(b.last() is SyllableBreak) {
            assert(drop_breaks(a) + drop_breaks(b.drop_last()).push(b.last()) =~= (drop_breaks(a) + drop_breaks(b.drop_last())).push(b.last()));
        }
    }
}

proof fn lemma_drop_breaks_none(es: Seq<ElementView>)
    requires
        forall|i: int| 0 <= i < es.len() ==> !(#[trigger] es[i] is SyllableBreak),
    ensures
        drop_breaks(es) == es,
    decreases es.len(),
{
    if es.len() > 0 {
        assert forall|i: int| 0 <= i < es.drop_last().len() implies !(#[trigger] es.drop_last()[i] is SyllableBreak) by {
            assert(es.drop_last()[i] == es[i]);
        }
        lemma_drop_breaks_none(es.drop_last());
        assert(es[es.len() - 1] == es.last());
        assert(es.drop_last().push(es.last()) =~= es);
    }
}

proof fn lemma_syllable_elements_breaks(s: SyllableView, breaks: bool)
    ensures
        drop_breaks(syllable_elements(s, breaks)) == syllable_elements(s, false),
{
    let tail = stress_mark(s.stress) + as_elements(structure_phonemes(s.structure));
    assert forall|i: int| 0 <= i < tail.len() implies !(#[trigger] tail[i] is SyllableBreak) by {
        let m = stress_mark(s.stress);
        if i < m.len() {
            assert(tail[i] == m[i]);
        } else {
            assert(tail[i] == as_elements(structure_phonemes(s.structure))[i - m.len()]);
        }
    }
    lemma_drop_breaks_none(tail);
    assert(syllable_elements(s, false) =~= tail);
    if breaks && (s.stress == SyllableStress::UnknownStress || s.stress == SyllableStress::Unstressed) {
        assert(syllable_elements(s, breaks) == seq![ElementView::SyllableBreak] + tail);
        lemma_drop_breaks_append(seq![ElementView::SyllableBreak], tail);
        let one = seq![ElementView::SyllableBreak];
        assert(one.drop_last() =~= Seq::<ElementView>::empty());
        assert(one.last() is SyllableBreak);
        assert(drop_breaks(one.drop_last()) == Seq::<ElementView>::empty());
        assert(drop_breaks(one) == drop_breaks(one.drop_last()));
        assert(Seq::<ElementView>::empty() + tail =~= tail);
    } else {
        assert(syllable_elements(s, breaks) =~= tail);
    }
}

/// The flat sequence of a word is its sequence without the syllable breaks:
/// stress marks and phonemes stay, in order, and no break remains.
pub proof fn lemma_flat_is_word_without_breaks(ws: Seq<SyllableView>)
    ensures
        flat_elements(ws) == drop_breaks(word_elements(ws)),
        forall|i: int| 0 <= i < flat_elements(ws).len() ==> !(#[trigger] flat_elements(ws)[i] is SyllableBreak),
    decreases ws.len(),
{
    if ws.len() > 0 {
        lemma_flat_is_word_without_breaks(ws.drop_last());
        lemma_drop_breaks_append(word_elements(ws.drop_last()), syllable_elements(ws.last(), ws.len() > 1));
        lemma_syllable_elements_breaks(ws.last(), ws.len() > 1);
        lemma_syllable_elements_breaks(ws.last(), false);
        let a = flat_elements(ws.drop_last());
        let b = syllable_elements(ws.last(), false);
        assert forall|i: int| 0 <= i < (a + b).len() implies !(#[trigger] (a + b)[i] is SyllableBreak) by {
            if i < a.len() {
                assert((a + b)[i] == a[i]);
            } else {
                assert((a + b)[i] == b[i - a.len()]);
                let t = stress_mark(ws.last().stress);
                if i - a.len() < t.len() {
                    assert(b[i - a.len()] == t[i - a.len()]);
                } else {
                    assert(b[i - a.len()] == as_elements(structure_phonemes(ws.last().structure))[i - a.len() - t.len()]);
                }
            }
        }
    }
}

} // verus!
