//! Syllabification of phoneme sequences: validation of the marks, division
//! into stress segments, nuclei, and the placement of syllable boundaries.

use crate::ipa_system::{IpaSystem, IpaSystemView};
use crate::config::LanguageConfig;
use crate::feature::Feature;
use crate::phonology::{
    are_diphthong, can_vowel_capture, get_sonority, has_feature, is_illegal_onset, is_vowel,
    patterns_view, spec_are_diphthong, spec_can_vowel_capture, spec_has_feature, spec_illegal_onset,
    spec_is_vowel, spec_sonority,
};
use crate::sequence::{
    elements_view, phonemes_of, phonemes_view, ElementView, Phoneme, PhonemeSequence, PhonemeView,
    ProsodyMarker, SequenceElement,
};
use crate::syllable::{
    as_elements, opt_view, structure_phonemes, syllables_view, IpaWord, StructureView,
    SyllabificationError, Syllable, SyllableStress, SyllableView,
};
use vstd::prelude::*;

verus! {

/// The faults that the marks of a sequence can have.
#[derive(PartialEq, Eq, Structural, Clone, Copy, Debug)]
pub enum SequenceFault {
    BoundarySyllableBreak,
    DoubleSyllableBreak,
    ProsodicWithSyllableBreak,
    AdjacentProsody,
}

/// The fault of two adjacent elements, if any.
pub open spec fn pair_fault(a: ElementView, b: ElementView) -> Option<SequenceFault> {
    match (a, b) {
        (ElementView::SyllableBreak, ElementView::SyllableBreak) => Some(SequenceFault::DoubleSyllableBreak),
        (ElementView::SyllableBreak, ElementView::Prosody(_)) => Some(SequenceFault::ProsodicWithSyllableBreak),
        (ElementView::Prosody(_), ElementView::SyllableBreak) => Some(SequenceFault::ProsodicWithSyllableBreak),
        (ElementView::Prosody(_), ElementView::Prosody(_)) => Some(SequenceFault::AdjacentProsody),
        _ => None,
    }
}

/// The fault of the first faulty adjacent pair from position `k` on.
pub open spec fn first_pair_fault(es: Seq<ElementView>, k: int) -> Option<SequenceFault>
    decreases es.len() - k,
{
    if k < 0 || k + 1 >= es.len() {
        None
    } else {
        match pair_fault(es[k], es[k + 1]) {
            Some(f) => Some(f),
            None => first_pair_fault(es, k + 1),
        }
    }
}

/// The fault of a sequence: a syllable break at either end, else the fault
/// of its first faulty adjacent pair.
pub open spec fn spec_sequence_fault(es: Seq<ElementView>) -> Option<SequenceFault> {
    if es.len() == 0 {
        None
    } else if es[0] is SyllableBreak || es.last() is SyllableBreak {
        Some(SequenceFault::BoundarySyllableBreak)
    } else {
        first_pair_fault(es, 0)
    }
}

/// Whether an error is the one reported for a fault.
pub open spec fn error_for(e: SyllabificationError, f: SequenceFault) -> bool {
    match f {
        SequenceFault::BoundarySyllableBreak => e is BoundarySyllableBreak,
        SequenceFault::DoubleSyllableBreak => e is DoubleSyllableBreak,
        SequenceFault::ProsodicWithSyllableBreak => e is ProsodicWithSyllableBreak,
        SequenceFault::AdjacentProsody => e is AdjacentProsody,
    }
}

fn fault_error(f: SequenceFault) -> (r: SyllabificationError)
    ensures
        error_for(r, f),
{
    match f {
        SequenceFault::BoundarySyllableBreak => SyllabificationError::BoundarySyllableBreak,
        SequenceFault::DoubleSyllableBreak => SyllabificationError::DoubleSyllableBreak,
        SequenceFault::ProsodicWithSyllableBreak => SyllabificationError::ProsodicWithSyllableBreak,
        SequenceFault::AdjacentProsody => SyllabificationError::AdjacentProsody,
    }
}

fn element_pair_fault(a: &SequenceElement, b: &SequenceElement) -> (r: Option<SequenceFault>)
    ensures
        r == pair_fault(a@, b@),
{
    match (a, b) {
        (SequenceElement::SyllableBreak, SequenceElement::SyllableBreak) => Some(SequenceFault::DoubleSyllableBreak),
        (SequenceElement::SyllableBreak, SequenceElement::Prosody(_)) => Some(SequenceFault::ProsodicWithSyllableBreak),
        (SequenceElement::Prosody(_), SequenceElement::SyllableBreak) => Some(SequenceFault::ProsodicWithSyllableBreak),
        (SequenceElement::Prosody(_), SequenceElement::Prosody(_)) => Some(SequenceFault::AdjacentProsody),
        _ => None,
    }
}

/// Validate sequence bounds and adjacent elements: no syllable break at
/// either end, no two adjacent breaks, no break next to a stress mark and
/// no two adjacent stress marks.
pub fn validate_sequence(seq: &PhonemeSequence) -> (r: Result<(), SyllabificationError>)
    ensures
        r is Ok <==> spec_sequence_fault(seq@) is None,
        r matches Err(e) ==> error_for(e, spec_sequence_fault(seq@).unwrap()),
{
    let es = &seq.elements;
    let ghost ev = seq@;
    if es.len() == 0 {
        return Ok(());
    }
    assert(ev[0] == es@[0]@ && ev.last() == es@[es.len() - 1]@);
    if matches!(es[0], SequenceElement::SyllableBreak) || matches!(es[es.len() - 1], SequenceElement::SyllableBreak) {
        return Err(SyllabificationError::BoundarySyllableBreak);
    }
    let mut k: usize = 0;
    while k + 1 < es.len()
        invariant
            k < es.len(),
            ev == elements_view(es@),
            ev == seq@,
            ev.len() > 0,
            !(ev[0] is SyllableBreak) && !(ev.last() is SyllableBreak),
            first_pair_fault(ev, 0) == first_pair_fault(ev, k as int),
        decreases es.len() - k,
    {
        assert(ev[k as int] == es@[k as int]@ && ev[k + 1] == es@[k + 1]@);
        if let Some(f) = element_pair_fault(&es[k], &es[k + 1]) {
            return Err(fault_error(f));
        }
        k = k + 1;
    }
    Ok(())
}

// ----- segments between stress marks and syllable breaks -----

/// The stress that a prosodic marker gives the syllable after it.
pub open spec fn marker_stress(m: ProsodyMarker) -> SyllableStress {
    match m {
        ProsodyMarker::PrimaryStress => SyllableStress::PrimaryStress,
        ProsodyMarker::SecondaryStress => SyllableStress::SecondaryStress,
    }
}

/// The segments closed so far, the phonemes of the open segment and its
/// stress, after reading the elements: a break or a mark closes the open
/// segment; a mark gives the next one its stress.
pub open spec fn seg_fold(es: Seq<ElementView>) -> (Seq<(Seq<PhonemeView>, SyllableStress)>, Seq<PhonemeView>, SyllableStress)
    decreases es.len(),
{
    if es.len() == 0 {
        (Seq::empty(), Seq::empty(), SyllableStress::UnknownStress)
    } else {
        let (done, cur, st) = seg_fold(es.drop_last());
        match es.last() {
            ElementView::Phoneme(p) => (done, cur.push(p), st),
            ElementView::SyllableBreak => (done.push((cur, st)), Seq::empty(), SyllableStress::UnknownStress),
            ElementView::Prosody(m) => (done.push((cur, st)), Seq::empty(), marker_stress(m)),
        }
    }
}

/// The segments that hold phonemes, in order.
pub open spec fn nonempty_segments(segs: Seq<(Seq<PhonemeView>, SyllableStress)>) -> Seq<(Seq<PhonemeView>, SyllableStress)>
    decreases segs.len(),
{
    if segs.len() == 0 {
        segs
    } else if segs.last().0.len() == 0 {
        nonempty_segments(segs.drop_last())
    } else {
        nonempty_segments(segs.drop_last()).push(segs.last())
    }
}

/// The segments of a sequence: its runs of phonemes between breaks and
/// marks, each with the stress of the mark before it, empty runs left out.
pub open spec fn spec_pre_segment(es: Seq<ElementView>) -> Seq<(Seq<PhonemeView>, SyllableStress)> {
    let (done, cur, st) = seg_fold(es);
    nonempty_segments(done.push((cur, st)))
}

/// A run of phonemes with the stress of its first syllable.
struct PreSegment {
    phonemes: Vec<Phoneme>,
    stress: SyllableStress,
}

spec fn seg_view(s: PreSegment) -> (Seq<PhonemeView>, SyllableStress) {
    (phonemes_view(s.phonemes@), s.stress)
}

spec fn segs_view(ss: Seq<PreSegment>) -> Seq<(Seq<PhonemeView>, SyllableStress)> {
    ss.map_values(|s: PreSegment| seg_view(s))
}

fn pre_segment(seq: &PhonemeSequence) -> (r: Vec<PreSegment>)
    ensures
        segs_view(r@) == spec_pre_segment(seq@),
{
    let ghost ev = seq@;
    let mut segments: Vec<PreSegment> = Vec::new();
    let mut current: Vec<Phoneme> = Vec::new();
    let mut stress = SyllableStress::UnknownStress;
    let mut i: usize = 0;
    while i < seq.elements.len()
        invariant
            i <= seq.elements.len(),
            ev == seq@,
            ev.len() == seq.elements.len(),
            segs_view(segments@) == nonempty_segments(seg_fold(ev.take(i as int)).0),
            phonemes_view(current@) == seg_fold(ev.take(i as int)).1,
            stress == seg_fold(ev.take(i as int)).2,
        decreases seq.elements.len() - i,
    {
        assert(ev.take(i + 1).drop_last() =~= ev.take(i as int));
        assert(ev.take(i + 1).last() == seq.elements@[i as int]@);
        let ghost done = seg_fold(ev.take(i as int)).0;
        match &seq.elements[i] {
            SequenceElement::Phoneme(p) => {
                let ghost before = current@;
                current.push(p.copy());
                assert(phonemes_view(current@) =~= phonemes_view(before).push(p@));
            },
            SequenceElement::SyllableBreak => {
                let ghost closed = (phonemes_view(current@), stress);
                if current.len() > 0 {
                    let ghost before = segments@;
                    let mut taken: Vec<Phoneme> = Vec::new();
                    std::mem::swap(&mut taken, &mut current);
                    segments.push(PreSegment { phonemes: taken, stress });
                    assert(segs_view(segments@) =~= segs_view(before).push(closed));
                }
                assert(done.push(closed).drop_last() =~= done);
                current = Vec::new();
                assert(phonemes_view(current@) =~= Seq::<PhonemeView>::empty());
                stress = SyllableStress::UnknownStress;
            },
            SequenceElement::Prosody(m) => {
                let ghost closed = (phonemes_view(current@), stress);
                if current.len() > 0 {
                    let ghost before = segments@;
                    let mut taken: Vec<Phoneme> = Vec::new();
                    std::mem::swap(&mut taken, &mut current);
                    segments.push(PreSegment { phonemes: taken, stress });
                    assert(segs_view(segments@) =~= segs_view(before).push(closed));
                }
                assert(done.push(closed).drop_last() =~= done);
                current = Vec::new();
                assert(phonemes_view(current@) =~= Seq::<PhonemeView>::empty());
                stress = match m {
                    ProsodyMarker::PrimaryStress => SyllableStress::PrimaryStress,
                    ProsodyMarker::SecondaryStress => SyllableStress::SecondaryStress,
                };
            },
        }
        i = i + 1;
    }
    assert(ev.take(i as int) =~= ev);
    let ghost done = seg_fold(ev).0;
    let ghost closed = (phonemes_view(current@), stress);
    assert(done.push(closed).drop_last() =~= done);
    if current.len() > 0 {
        let ghost before = segments@;
        segments.push(PreSegment { phonemes: current, stress });
        assert(segs_view(segments@) =~= segs_view(before).push(closed));
    }
    segments
}

// ----- nuclei -----

/// The nuclei of a run of phonemes from `idx` on, as (start, end) ranges:
/// each vowel, or a vowel with the next when they form a diphthong.
pub open spec fn nuclei_from(sys: IpaSystemView, ps: Seq<PhonemeView>, idx: int) -> Seq<(int, int)>
    decreases ps.len() - idx,
{
    if idx < 0 || idx >= ps.len() {
        Seq::empty()
    } else if spec_is_vowel(sys, ps[idx]) {
        if idx + 1 < ps.len() && spec_are_diphthong(sys, ps[idx], ps[idx + 1]) {
            seq![(idx, idx + 2)] + nuclei_from(sys, ps, idx + 2)
        } else {
            seq![(idx, idx + 1)] + nuclei_from(sys, ps, idx + 1)
        }
    } else {
        nuclei_from(sys, ps, idx + 1)
    }
}

/// The nuclei of a run of phonemes.
pub open spec fn spec_nuclei(sys: IpaSystemView, ps: Seq<PhonemeView>) -> Seq<(int, int)> {
    nuclei_from(sys, ps, 0)
}

spec fn ranges_view(ns: Seq<(usize, usize)>) -> Seq<(int, int)> {
    ns.map_values(|n: (usize, usize)| (n.0 as int, n.1 as int))
}

proof fn lemma_nuclei_bounds(sys: IpaSystemView, ps: Seq<PhonemeView>, idx: int)
    requires
        0 <= idx <= ps.len(),
    ensures
        forall|k: int| 0 <= k < nuclei_from(sys, ps, idx).len() ==> idx <= (#[trigger] nuclei_from(sys, ps, idx)[k]).0
            < nuclei_from(sys, ps, idx)[k].1 <= ps.len(),
        forall|k: int| 0 <= k < nuclei_from(sys, ps, idx).len() - 1 ==> (#[trigger] nuclei_from(sys, ps, idx)[k]).1
            <= nuclei_from(sys, ps, idx)[k + 1].0,
    decreases ps.len() - idx,
{
    if idx < ps.len() {
        let n = nuclei_from(sys, ps, idx);
        if spec_is_vowel(sys, ps[idx]) {
            let next = if idx + 1 < ps.len() && spec_are_diphthong(sys, ps[idx], ps[idx + 1]) {
                idx + 2
            } else {
                idx + 1
            };
            lemma_nuclei_bounds(sys, ps, next);
            let rest = nuclei_from(sys, ps, next);
            assert(n == seq![(idx, next)] + rest);
            assert forall|k: int| 0 <= k < n.len() implies idx <= (#[trigger] n[k]).0 < n[k].1 <= ps.len() by {
                if k > 0 {
                    assert(n[k] == rest[k - 1]);
                }
            }
            assert forall|k: int| 0 <= k < n.len() - 1 implies (#[trigger] n[k]).1 <= n[k + 1].0 by {
                assert(n[k + 1] == rest[k]);
                if k > 0 {
                    assert(n[k] == rest[k - 1]);
                }
            }
        } else {
            lemma_nuclei_bounds(sys, ps, idx + 1);
            assert(n == nuclei_from(sys, ps, idx + 1));
        }
    } else {
        assert(nuclei_from(sys, ps, idx).len() == 0);
    }
}

fn find_nuclei(phonemes: &Vec<Phoneme>, system: &IpaSystem) -> (r: Vec<(usize, usize)>)
    ensures
        ranges_view(r@) == spec_nuclei(system@, phonemes_view(phonemes@)),
{
    let ghost pv = phonemes_view(phonemes@);
    let mut nuclei: Vec<(usize, usize)> = Vec::new();
    let mut idx: usize = 0;
    assert(ranges_view(nuclei@) + nuclei_from(system@, pv, 0) =~= spec_nuclei(system@, pv));
    while idx < phonemes.len()
        invariant
            idx <= phonemes.len(),
            pv == phonemes_view(phonemes@),
            ranges_view(nuclei@) + nuclei_from(system@, pv, idx as int) == spec_nuclei(system@, pv),
        decreases phonemes.len() - idx,
    {
        let ghost before = ranges_view(nuclei@);
        assert(pv[idx as int] == phonemes@[idx as int]@);
        if is_vowel(&phonemes[idx], system) {
            if idx + 1 < phonemes.len() && are_diphthong(&phonemes[idx], &phonemes[idx + 1], system) {
                assert(pv[idx + 1] == phonemes@[idx + 1]@);
                nuclei.push((idx, idx + 2));
                assert(ranges_view(nuclei@) =~= before.push((idx as int, idx + 2)));
                assert(before + nuclei_from(system@, pv, idx as int) =~= ranges_view(nuclei@) + nuclei_from(system@, pv, idx + 2));
                idx = idx + 2;
            } else {
                proof {
                    if idx + 1 < phonemes.len() {
                        assert(pv[idx + 1] == phonemes@[idx + 1]@);
                    }
                }
                nuclei.push((idx, idx + 1));
                assert(ranges_view(nuclei@) =~= before.push((idx as int, idx + 1)));
                assert(before + nuclei_from(system@, pv, idx as int) =~= ranges_view(nuclei@) + nuclei_from(system@, pv, idx + 1));
                idx = idx + 1;
            }
        } else {
            idx = idx + 1;
        }
    }
    assert(ranges_view(nuclei@) + Seq::<(int, int)>::empty() =~= ranges_view(nuclei@));
    nuclei
}

// ----- syllable boundaries between nuclei -----

/// Whether the sonority rises from the `k`-th phoneme of an onset to the
/// next, or the onset starts with a strident (an s-cluster).
pub open spec fn sonority_step_ok(sys: IpaSystemView, onset: Seq<PhonemeView>, k: int) -> bool {
    (k == 0 && spec_has_feature(sys, onset[k], Feature::Strident)) || spec_sonority(sys, onset[k]) < spec_sonority(
        sys,
        onset[k + 1],
    )
}

/// Whether an onset is valid: its sonority rises throughout (an initial
/// strident excepted) and it is not illegal in the configuration.
pub open spec fn spec_valid_onset(sys: IpaSystemView, cfg: LanguageConfig, onset: Seq<PhonemeView>, is_word_initial: bool) -> bool {
    (forall|k: int| 0 <= k < onset.len() - 1 ==> #[trigger] sonority_step_ok(sys, onset, k)) && !spec_illegal_onset(
        sys,
        cfg.phonology.sound_classes@,
        patterns_view(cfg.phonology.illegal_patterns@),
        onset,
        is_word_initial,
    )
}

/// The first split from `s` on after which the rest of the consonants is a
/// valid onset (all the consonants stay in the coda at worst).
pub open spec fn spec_optimal_split(sys: IpaSystemView, cfg: LanguageConfig, cons: Seq<PhonemeView>, s: int, is_word_initial: bool) -> int
    decreases cons.len() - s,
{
    if s < 0 || s >= cons.len() {
        cons.len() as int
    } else if spec_valid_onset(sys, cfg, cons.subrange(s, cons.len() as int), is_word_initial) {
        s
    } else {
        spec_optimal_split(sys, cfg, cons, s + 1, is_word_initial)
    }
}

/// The split just after the first long consonant from `k` on, if any.
pub open spec fn spec_geminate_split(sys: IpaSystemView, cons: Seq<PhonemeView>, k: int) -> Option<int>
    decreases cons.len() - k,
{
    if k < 0 || k >= cons.len() {
        None
    } else if spec_has_feature(sys, cons[k], Feature::Long) {
        Some(k + 1)
    } else {
        spec_geminate_split(sys, cons, k + 1)
    }
}

/// 1 when the first consonant is a liquid, which stays in the coda.
pub open spec fn spec_liquid_min(sys: IpaSystemView, cons: Seq<PhonemeView>) -> int {
    if cons.len() > 0 && spec_has_feature(sys, cons[0], Feature::Liquid) {
        1
    } else {
        0
    }
}

/// 1 when the first syllable of a stressed segment has a single short
/// vowel that captures the first consonant (unless it is a liquid or glide).
pub open spec fn spec_capture_min(
    sys: IpaSystemView,
    ps: Seq<PhonemeView>,
    stress: SyllableStress,
    nc: (int, int),
    cons: Seq<PhonemeView>,
    vowel_idx: int,
) -> int {
    if vowel_idx == 0 && (stress == SyllableStress::PrimaryStress || stress == SyllableStress::SecondaryStress)
        && nc.1 - nc.0 == 1 && 0 <= nc.0 < ps.len() && spec_can_vowel_capture(sys, ps[nc.0]) && cons.len() > 0
        && !spec_has_feature(sys, cons[0], Feature::Liquid) && !spec_has_feature(sys, cons[0], Feature::Glide) {
        1
    } else {
        0
    }
}

/// The consonants between two nuclei.
pub open spec fn between(ps: Seq<PhonemeView>, nc: (int, int), nn: (int, int)) -> Seq<PhonemeView> {
    if 0 <= nc.1 <= nn.0 <= ps.len() {
        ps.subrange(nc.1, nn.0)
    } else {
        Seq::empty()
    }
}

/// How many of the consonants between two nuclei stay in the coda of the
/// first: after a long consonant if there is one, else the first valid
/// onset split at or after the liquid and capture minimums.
pub open spec fn spec_split_point(
    sys: IpaSystemView,
    cfg: LanguageConfig,
    ps: Seq<PhonemeView>,
    stress: SyllableStress,
    nc: (int, int),
    nn: (int, int),
    vowel_idx: int,
) -> int {
    let cons = between(ps, nc, nn);
    if cons.len() == 0 {
        0
    } else {
        match spec_geminate_split(sys, cons, 0) {
            Some(g) => g,
            None => {
                let a = spec_liquid_min(sys, cons);
                let b = spec_capture_min(sys, ps, stress, nc, cons, vowel_idx);
                spec_optimal_split(sys, cfg, cons, if a >= b {
                    a
                } else {
                    b
                }, vowel_idx == 0)
            },
        }
    }
}

/// The split points between consecutive nuclei.
pub open spec fn spec_split_points(
    sys: IpaSystemView,
    cfg: LanguageConfig,
    ps: Seq<PhonemeView>,
    stress: SyllableStress,
    ns: Seq<(int, int)>,
) -> Seq<int> {
    if ns.len() == 0 {
        Seq::empty()
    } else {
        Seq::new((ns.len() - 1) as nat, |i: int| spec_split_point(sys, cfg, ps, stress, ns[i], ns[i + 1], i))
    }
}

/// The phonemes from `a` to `b` as an optional sequence (none when the range is empty).
pub open spec fn extract(ps: Seq<PhonemeView>, a: int, b: int) -> Option<Seq<ElementView>> {
    if a < b {
        Some(if 0 <= a && b <= ps.len() {
            as_elements(ps.subrange(a, b))
        } else {
            Seq::empty()
        })
    } else {
        None
    }
}

/// The `i`-th syllable of a segment, from its nuclei and split points: its
/// onset starts after the previous coda, its coda ends at the next split.
pub open spec fn spec_syllable_at(
    ps: Seq<PhonemeView>,
    stress: SyllableStress,
    ns: Seq<(int, int)>,
    splits: Seq<int>,
    i: int,
) -> SyllableView {
    let onset_start = if i == 0 {
        0
    } else {
        ns[i - 1].1 + splits[i - 1]
    };
    let coda_end = if i == ns.len() - 1 {
        ps.len() as int
    } else {
        ns[i].1 + splits[i]
    };
    SyllableView {
        structure: StructureView::Standard {
            onset: extract(ps, onset_start, ns[i].0),
            nucleus: match extract(ps, ns[i].0, ns[i].1) {
                Some(s) => s,
                None => Seq::empty(),
            },
            coda: extract(ps, ns[i].1, coda_end),
        },
        stress: if i == 0 {
            stress
        } else {
            SyllableStress::UnknownStress
        },
    }
}

/// The syllables of a segment: arbitrary when it has no nucleus but the
/// word has vowels, one root syllable per phoneme when the word has none,
/// else one standard syllable per nucleus.
pub open spec fn spec_segment_syllables(
    sys: IpaSystemView,
    cfg: LanguageConfig,
    seg: (Seq<PhonemeView>, SyllableStress),
    has_vowels: bool,
) -> Seq<SyllableView> {
    let (ps, stress) = seg;
    let ns = spec_nuclei(sys, ps);
    if ns.len() == 0 {
        if has_vowels {
            seq![SyllableView { structure: StructureView::Arbitrary(as_elements(ps)), stress }]
        } else {
            ps.map_values(|p: PhonemeView| SyllableView { structure: StructureView::Root(p), stress })
        }
    } else {
        let splits = spec_split_points(sys, cfg, ps, stress, ns);
        Seq::new(ns.len(), |i: int| spec_syllable_at(ps, stress, ns, splits, i))
    }
}

/// The syllables of the segments, in order.
pub open spec fn spec_segments_syllables(
    sys: IpaSystemView,
    cfg: LanguageConfig,
    segs: Seq<(Seq<PhonemeView>, SyllableStress)>,
    has_vowels: bool,
) -> Seq<SyllableView>
    decreases segs.len(),
{
    if segs.len() == 0 {
        Seq::empty()
    } else {
        spec_segments_syllables(sys, cfg, segs.drop_last(), has_vowels) + spec_segment_syllables(sys, cfg, segs.last(), has_vowels)
    }
}

/// Whether a sequence holds a vowel.
pub open spec fn has_vowel(sys: IpaSystemView, es: Seq<ElementView>) -> bool {
    exists|k: int| 0 <= k < es.len() && (#[trigger] es[k] matches ElementView::Phoneme(p) && spec_is_vowel(sys, p))
}

/// The syllables of a valid sequence.
pub open spec fn spec_syllabify(sys: IpaSystemView, cfg: LanguageConfig, es: Seq<ElementView>) -> Seq<SyllableView> {
    if es.len() == 0 {
        Seq::empty()
    } else {
        spec_segments_syllables(sys, cfg, spec_pre_segment(es), has_vowel(sys, es))
    }
}

proof fn lemma_optimal_split_bound(sys: IpaSystemView, cfg: LanguageConfig, cons: Seq<PhonemeView>, s: int, wi: bool)
    requires
        0 <= s,
    ensures
        spec_optimal_split(sys, cfg, cons, s, wi) <= cons.len(),
        s <= cons.len() ==> s <= spec_optimal_split(sys, cfg, cons, s, wi),
    decreases cons.len() - s,
{
    if s < cons.len() && !spec_valid_onset(sys, cfg, cons.subrange(s, cons.len() as int), wi) {
        lemma_optimal_split_bound(sys, cfg, cons, s + 1, wi);
    }
}

proof fn lemma_geminate_bound(sys: IpaSystemView, cons: Seq<PhonemeView>, k: int)
    requires
        0 <= k,
    ensures
        spec_geminate_split(sys, cons, k) matches Some(g) ==> 0 < g <= cons.len(),
    decreases cons.len() - k,
{
    if k < cons.len() && !spec_has_feature(sys, cons[k], Feature::Long) {
        lemma_geminate_bound(sys, cons, k + 1);
    }
}

proof fn lemma_geminate_first(sys: IpaSystemView, cons: Seq<PhonemeView>, j: int, k: int)
    requires
        0 <= j <= k < cons.len(),
        spec_has_feature(sys, cons[k], Feature::Long),
        forall|m: int| j <= m < k ==> !spec_has_feature(sys, #[trigger] cons[m], Feature::Long),
    ensures
        spec_geminate_split(sys, cons, j) == Some(k + 1),
    decreases k - j,
{
    if j < k {
        lemma_geminate_first(sys, cons, j + 1, k);
    }
}

/// Between two nuclei of a segment, where the consonants between them hold
/// a long consonant, the syllable boundary falls right after the first long
/// one, whatever follows it: the first syllable's coda runs from its
/// nucleus up to that consonant, included, and the next syllable's onset
/// holds the consonants after it.
pub proof fn lemma_geminate_closes_coda(
    sys: IpaSystemView,
    cfg: LanguageConfig,
    ps: Seq<PhonemeView>,
    stress: SyllableStress,
    has_vowels: bool,
    i: int,
    k: int,
)
    requires
        0 <= i && i + 1 < spec_nuclei(sys, ps).len(),
        0 <= k,
        spec_nuclei(sys, ps)[i].1 + k < spec_nuclei(sys, ps)[i + 1].0,
        spec_has_feature(sys, ps[spec_nuclei(sys, ps)[i].1 + k], Feature::Long),
        forall|m: int| spec_nuclei(sys, ps)[i].1 <= m < spec_nuclei(sys, ps)[i].1 + k
            ==> !spec_has_feature(sys, #[trigger] ps[m], Feature::Long),
    ensures
        ({
            let ns = spec_nuclei(sys, ps);
            let ws = spec_segment_syllables(sys, cfg, (ps, stress), has_vowels);
            let g = ns[i].1 + k + 1;
            &&& ws.len() == ns.len()
            &&& ws[i].structure matches StructureView::Standard { coda, .. } && coda == Some(as_elements(ps.subrange(ns[i].1, g)))
            &&& ws[i + 1].structure matches StructureView::Standard { onset, .. } && onset == extract(ps, g, ns[i + 1].0)
        }),
{
    let ns = spec_nuclei(sys, ps);
    lemma_nuclei_bounds(sys, ps, 0);
    assert(0 <= ns[i].0 < ns[i].1 <= ps.len());
    let cons = between(ps, ns[i], ns[i + 1]);
    assert(cons == ps.subrange(ns[i].1, ns[i + 1].0));
    assert forall|m: int| 0 <= m < k implies !spec_has_feature(sys, #[trigger] cons[m], Feature::Long) by {
        assert(cons[m] == ps[ns[i].1 + m]);
    }
    assert(cons[k] == ps[ns[i].1 + k]);
    lemma_geminate_first(sys, cons, 0, k);
    let splits = spec_split_points(sys, cfg, ps, stress, ns);
    assert(splits[i] == spec_split_point(sys, cfg, ps, stress, ns[i], ns[i + 1], i));
    assert(splits[i] == k + 1);
}

/// The phonemes from `start` to `end` as a sequence, or none when the range is empty.
fn extract_phoneme_sequence(ps: &[Phoneme], start: usize, end: usize) -> (r: Option<PhonemeSequence>)
    ensures
        opt_view(r) == extract(phonemes_view(ps@), start as int, end as int),
{
    if start >= end {
        return None;
    }
    let mut elements: Vec<SequenceElement> = Vec::new();
    if end <= ps.len() {
        let ghost pv = phonemes_view(ps@);
        let mut i = start;
        while i < end
            invariant
                start <= i <= end <= ps.len(),
                pv == phonemes_view(ps@),
                elements_view(elements@) =~= as_elements(pv.subrange(start as int, i as int)),
            decreases end - i,
        {
            let ghost before = elements_view(elements@);
            elements.push(SequenceElement::Phoneme(ps[i].copy()));
            assert(elements_view(elements@) =~= before.push(ElementView::Phoneme(pv[i as int])));
            i = i + 1;
        }
    } else {
        assert(elements_view(elements@) =~= Seq::<ElementView>::empty());
    }
    Some(PhonemeSequence { elements })
}

/// Whether a proposed onset is valid.
fn is_valid_onset(onset: &[Phoneme], is_word_initial: bool, config: &LanguageConfig, system: &IpaSystem) -> (r: bool)
    ensures
        r == spec_valid_onset(system@, *config, phonemes_view(onset@), is_word_initial),
{
    let ghost ov = phonemes_view(onset@);
    let mut k: usize = 0;
    while k < onset.len() && k + 1 < onset.len()
        invariant
            ov == phonemes_view(onset@),
            ov.len() == onset.len(),
            k <= onset.len(),
            forall|q: int| 0 <= q < k ==> #[trigger] sonority_step_ok(system@, ov, q),
        decreases onset.len() - k,
    {
        assert(ov[k as int] == onset@[k as int]@ && ov[k + 1] == onset@[k + 1]@);
        let sibilant_start = k == 0 && has_feature(&onset[k], Feature::Strident, system);
        if !sibilant_start && get_sonority(&onset[k], system) >= get_sonority(&onset[k + 1], system) {
            assert(!sonority_step_ok(system@, ov, k as int));
            return false;
        }
        k = k + 1;
    }
    !is_illegal_onset(onset, is_word_initial, config, system)
}

/// The first split from `min_s` on after which the rest is a valid onset.
fn find_optimal_split_point(consonants: &[Phoneme], min_s: usize, is_word_initial: bool, config: &LanguageConfig, system: &IpaSystem) -> (r: usize)
    ensures
        r as int == spec_optimal_split(system@, *config, phonemes_view(consonants@), min_s as int, is_word_initial),
{
    let ghost cv = phonemes_view(consonants@);
    let mut s = min_s;
    while s < consonants.len()
        invariant
            cv == phonemes_view(consonants@),
            min_s <= s,
            spec_optimal_split(system@, *config, cv, min_s as int, is_word_initial) == spec_optimal_split(system@, *config, cv, s as int, is_word_initial),
        decreases consonants.len() - s,
    {
        let onset = vstd::slice::slice_subrange(consonants, s, consonants.len());
        assert(phonemes_view(onset@) =~= cv.subrange(s as int, cv.len() as int));
        if is_valid_onset(onset, is_word_initial, config, system) {
            return s;
        }
        s = s + 1;
    }
    consonants.len()
}

/// 1 when the first consonant is a liquid.
fn check_liquid_constraint(consonants: &[Phoneme], system: &IpaSystem) -> (r: usize)
    ensures
        r as int == spec_liquid_min(system@, phonemes_view(consonants@)),
{
    if consonants.len() > 0 && has_feature(&consonants[0], Feature::Liquid, system) {
        1
    } else {
        0
    }
}

/// 1 when a stressed single short vowel captures the first consonant.
fn check_stressed_capture_constraint(
    ps: &Vec<Phoneme>,
    stress: SyllableStress,
    nc: (usize, usize),
    consonants: &[Phoneme],
    vowel_idx: usize,
    system: &IpaSystem,
) -> (r: usize)
    requires
        nc.0 <= nc.1,
    ensures
        r as int == spec_capture_min(system@, phonemes_view(ps@), stress, (nc.0 as int, nc.1 as int), phonemes_view(consonants@), vowel_idx as int),
{
    let stressed = vowel_idx == 0 && (matches!(stress, SyllableStress::PrimaryStress) || matches!(stress, SyllableStress::SecondaryStress));
    let single = nc.1 - nc.0 == 1 && nc.0 < ps.len() && can_vowel_capture(&ps[nc.0], system);
    if stressed && single && consonants.len() > 0 && !has_feature(&consonants[0], Feature::Liquid, system)
        && !has_feature(&consonants[0], Feature::Glide, system) {
        1
    } else {
        0
    }
}

/// The split just after the first long consonant, if any.
fn find_geminated_consonant_split(consonants: &[Phoneme], system: &IpaSystem) -> (r: Option<usize>)
    ensures
        r is Some == spec_geminate_split(system@, phonemes_view(consonants@), 0) is Some,
        r matches Some(g) ==> spec_geminate_split(system@, phonemes_view(consonants@), 0) == Some(g as int),
{
    let ghost cv = phonemes_view(consonants@);
    let mut k: usize = 0;
    while k < consonants.len()
        invariant
            k <= consonants.len(),
            cv == phonemes_view(consonants@),
            spec_geminate_split(system@, cv, 0) == spec_geminate_split(system@, cv, k as int),
        decreases consonants.len() - k,
    {
        assert(cv[k as int] == consonants@[k as int]@);
        if has_feature(&consonants[k], Feature::Long, system) {
            return Some(k + 1);
        }
        k = k + 1;
    }
    None
}

/// How many consonants between two nuclei stay in the coda of the first.
fn calculate_single_split_point(
    ps: &Vec<Phoneme>,
    stress: SyllableStress,
    config: &LanguageConfig,
    nc: (usize, usize),
    nn: (usize, usize),
    vowel_idx: usize,
    system: &IpaSystem,
) -> (r: usize)
    requires
        nc.0 <= nc.1 <= nn.0 <= ps.len(),
    ensures
        r as int == spec_split_point(system@, *config, phonemes_view(ps@), stress, (nc.0 as int, nc.1 as int), (nn.0 as int, nn.1 as int), vowel_idx as int),
        r <= nn.0 - nc.1,
{
    let ghost pv = phonemes_view(ps@);
    let consonants = vstd::slice::slice_subrange(ps.as_slice(), nc.1, nn.0);
    let ghost cv = phonemes_view(consonants@);
    assert(cv =~= between(pv, (nc.0 as int, nc.1 as int), (nn.0 as int, nn.1 as int)));
    if consonants.len() == 0 {
        return 0;
    }
    proof {
        lemma_geminate_bound(system@, cv, 0);
    }
    if let Some(g) = find_geminated_consonant_split(consonants, system) {
        return g;
    }
    let a = check_liquid_constraint(consonants, system);
    let b = check_stressed_capture_constraint(ps, stress, nc, consonants, vowel_idx, system);
    let min_s = if a >= b {
        a
    } else {
        b
    };
    proof {
        lemma_optimal_split_bound(system@, *config, cv, min_s as int, vowel_idx == 0);
    }
    find_optimal_split_point(consonants, min_s, vowel_idx == 0, config, system)
}

/// The split points between consecutive nuclei.
fn find_split_points(ps: &Vec<Phoneme>, stress: SyllableStress, config: &LanguageConfig, nuclei: &Vec<(usize, usize)>, system: &IpaSystem) -> (r: Vec<usize>)
    requires
        forall|k: int| 0 <= k < nuclei@.len() ==> (#[trigger] nuclei@[k]).0 < nuclei@[k].1 <= ps.len(),
        forall|k: int| 0 <= k < nuclei@.len() - 1 ==> (#[trigger] nuclei@[k]).1 <= nuclei@[k + 1].0,
    ensures
        r@.map_values(|x: usize| x as int) == spec_split_points(system@, *config, phonemes_view(ps@), stress, ranges_view(nuclei@)),
        r@.len() == (if nuclei@.len() == 0 { 0 } else { nuclei@.len() - 1 }),
        forall|k: int| 0 <= k < r@.len() ==> #[trigger] r@[k] <= nuclei@[k + 1].0 - nuclei@[k].1,
{
    let ghost nv = ranges_view(nuclei@);
    let ghost pv = phonemes_view(ps@);
    let mut out: Vec<usize> = Vec::new();
    if nuclei.len() == 0 {
        assert(out@.map_values(|x: usize| x as int) =~= spec_split_points(system@, *config, pv, stress, nv));
        return out;
    }
    let mut i: usize = 0;
    while i + 1 < nuclei.len()
        invariant
            i + 1 <= nuclei.len(),
            nv == ranges_view(nuclei@),
            pv == phonemes_view(ps@),
            forall|k: int| 0 <= k < nuclei@.len() ==> (#[trigger] nuclei@[k]).0 < nuclei@[k].1 <= ps.len(),
            forall|k: int| 0 <= k < nuclei@.len() - 1 ==> (#[trigger] nuclei@[k]).1 <= nuclei@[k + 1].0,
            out@.len() == i,
            forall|k: int| 0 <= k < i ==> #[trigger] out@[k] as int == spec_split_point(system@, *config, pv, stress, nv[k], nv[k + 1], k),
            forall|k: int| 0 <= k < i ==> #[trigger] out@[k] <= nuclei@[k + 1].0 - nuclei@[k].1,
        decreases nuclei.len() - i,
    {
        let nc = nuclei[i];
        let nn = nuclei[i + 1];
        assert(nv[i as int] == (nc.0 as int, nc.1 as int) && nv[i + 1] == (nn.0 as int, nn.1 as int));
        let sp = calculate_single_split_point(ps, stress, config, nc, nn, i, system);
        out.push(sp);
        i = i + 1;
    }
    assert(out@.map_values(|x: usize| x as int) =~= spec_split_points(system@, *config, pv, stress, nv));
    out
}

/// The syllables of a segment with at least one nucleus.
fn reconstruct_syllables(ps: &Vec<Phoneme>, stress: SyllableStress, nuclei: &Vec<(usize, usize)>, splits: &Vec<usize>) -> (r: Vec<Syllable>)
    requires
        nuclei@.len() > 0,
        splits@.len() == nuclei@.len() - 1,
        forall|k: int| 0 <= k < nuclei@.len() ==> (#[trigger] nuclei@[k]).0 < nuclei@[k].1 <= ps.len(),
        forall|k: int| 0 <= k < nuclei@.len() - 1 ==> (#[trigger] nuclei@[k]).1 <= nuclei@[k + 1].0,
        forall|k: int| 0 <= k < splits@.len() ==> #[trigger] splits@[k] <= nuclei@[k + 1].0 - nuclei@[k].1,
    ensures
        syllables_view(r@) == Seq::new(nuclei@.len(), |i: int| spec_syllable_at(phonemes_view(ps@), stress, ranges_view(nuclei@),
            splits@.map_values(|x: usize| x as int), i)),
{
    let ghost pv = phonemes_view(ps@);
    let ghost nv = ranges_view(nuclei@);
    let ghost sv = splits@.map_values(|x: usize| x as int);
    let mut out: Vec<Syllable> = Vec::new();
    let mut i: usize = 0;
    while i < nuclei.len()
        invariant
            i <= nuclei.len(),
            pv == phonemes_view(ps@),
            nv == ranges_view(nuclei@),
            sv == splits@.map_values(|x: usize| x as int),
            nuclei@.len() > 0,
            splits@.len() == nuclei@.len() - 1,
            forall|k: int| 0 <= k < nuclei@.len() ==> (#[trigger] nuclei@[k]).0 < nuclei@[k].1 <= ps.len(),
            forall|k: int| 0 <= k < nuclei@.len() - 1 ==> (#[trigger] nuclei@[k]).1 <= nuclei@[k + 1].0,
            forall|k: int| 0 <= k < splits@.len() ==> #[trigger] splits@[k] <= nuclei@[k + 1].0 - nuclei@[k].1,
            out@.len() == i,
            forall|k: int| 0 <= k < i ==> #[trigger] out@[k]@ == spec_syllable_at(pv, stress, nv, sv, k),
        decreases nuclei.len() - i,
    {
        let n = nuclei[i];
        let onset_start = if i == 0 {
            0
        } else {
            nuclei[i - 1].1 + splits[i - 1]
        };
        let coda_end = if i == nuclei.len() - 1 {
            ps.len()
        } else {
            n.1 + splits[i]
        };
        let onset = extract_phoneme_sequence(ps.as_slice(), onset_start, n.0);
        let nucleus = match extract_phoneme_sequence(ps.as_slice(), n.0, n.1) {
            Some(s) => s,
            None => PhonemeSequence { elements: Vec::new() },
        };
        let coda = extract_phoneme_sequence(ps.as_slice(), n.1, coda_end);
        let syl_stress = if i == 0 {
            stress
        } else {
            SyllableStress::UnknownStress
        };
        assert(nv[i as int] == (n.0 as int, n.1 as int));
        proof {
            if i > 0 {
                assert(nv[i - 1] == (nuclei@[i - 1].0 as int, nuclei@[i - 1].1 as int));
                assert(sv[i - 1] == splits@[i - 1] as int);
            }
            if i < nuclei.len() - 1 {
                assert(sv[i as int] == splits@[i as int] as int);
            }
            assert(elements_view(Seq::<SequenceElement>::empty()) =~= Seq::<ElementView>::empty());
        }
        let syl = Syllable::standard(onset, nucleus, coda, syl_stress);
        assert(syl@ == spec_syllable_at(pv, stress, nv, sv, i as int));
        out.push(syl);
        i = i + 1;
    }
    assert(syllables_view(out@) =~= Seq::new(nuclei@.len(), |i: int| spec_syllable_at(pv, stress, nv, sv, i)));
    out
}

/// The syllables of a segment without nuclei.
fn syllabify_segment_no_nuclei(ps: &Vec<Phoneme>, stress: SyllableStress, has_any_vowels_in_word: bool) -> (r: Vec<Syllable>)
    ensures
        has_any_vowels_in_word ==> syllables_view(r@) == seq![(SyllableView { structure: StructureView::Arbitrary(as_elements(phonemes_view(ps@))), stress })],
        !has_any_vowels_in_word ==> syllables_view(r@) == phonemes_view(ps@).map_values(|p: PhonemeView| (SyllableView { structure: StructureView::Root(p), stress })),
{
    let mut out: Vec<Syllable> = Vec::new();
    if has_any_vowels_in_word {
        let seq = match extract_phoneme_sequence(ps.as_slice(), 0, ps.len()) {
            Some(s) => s,
            None => PhonemeSequence { elements: Vec::new() },
        };
        assert(seq@ == as_elements(phonemes_view(ps@)));
        proof {
            assert(phonemes_view(ps@).subrange(0, ps.len() as int) =~= phonemes_view(ps@));
            assert(elements_view(Seq::<SequenceElement>::empty()) =~= Seq::<ElementView>::empty());
            assert(as_elements(Seq::<PhonemeView>::empty()) =~= Seq::<ElementView>::empty());
        }
        out.push(Syllable::arbitrary(seq, stress));
        assert(syllables_view(out@) =~= seq![SyllableView { structure: StructureView::Arbitrary(as_elements(phonemes_view(ps@))), stress }]);
        return out;
    }
    let mut i: usize = 0;
    while i < ps.len()
        invariant
            i <= ps.len(),
            out@.len() == i,
            forall|k: int| 0 <= k < i ==> #[trigger] out@[k]@ == (SyllableView { structure: StructureView::Root(ps@[k]@), stress }),
        decreases ps.len() - i,
    {
        out.push(Syllable::root(ps[i].copy(), stress));
        i = i + 1;
    }
    assert(syllables_view(out@) =~= phonemes_view(ps@).map_values(|p: PhonemeView| SyllableView { structure: StructureView::Root(p), stress }));
    out
}

/// The syllables of a segment.
fn syllabify_segment(seg: &PreSegment, config: &LanguageConfig, has_any_vowels_in_word: bool, system: &IpaSystem) -> (r: Vec<Syllable>)
    ensures
        syllables_view(r@) == spec_segment_syllables(system@, *config, seg_view(*seg), has_any_vowels_in_word),
{
    let nuclei = find_nuclei(&seg.phonemes, system);
    if nuclei.len() == 0 {
        return syllabify_segment_no_nuclei(&seg.phonemes, seg.stress, has_any_vowels_in_word);
    }
    proof {
        lemma_nuclei_bounds(system@, phonemes_view(seg.phonemes@), 0);
        assert forall|k: int| 0 <= k < nuclei@.len() implies (#[trigger] nuclei@[k]).0 < nuclei@[k].1 <= seg.phonemes.len() by {
            assert(ranges_view(nuclei@)[k] == (nuclei@[k].0 as int, nuclei@[k].1 as int));
        }
        assert forall|k: int| 0 <= k < nuclei@.len() - 1 implies (#[trigger] nuclei@[k]).1 <= nuclei@[k + 1].0 by {
            assert(ranges_view(nuclei@)[k] == (nuclei@[k].0 as int, nuclei@[k].1 as int));
            assert(ranges_view(nuclei@)[k + 1] == (nuclei@[k + 1].0 as int, nuclei@[k + 1].1 as int));
        }
    }
    let splits = find_split_points(&seg.phonemes, seg.stress, config, &nuclei, system);
    reconstruct_syllables(&seg.phonemes, seg.stress, &nuclei, &splits)
}

/// Whether a sequence holds a vowel.
fn sequence_has_vowel(seq: &PhonemeSequence, system: &IpaSystem) -> (r: bool)
    ensures
        r == has_vowel(system@, seq@),
{
    let ghost ev = seq@;
    let mut i: usize = 0;
    while i < seq.elements.len()
        invariant
            i <= seq.elements.len(),
            ev == seq@,
            ev.len() == seq.elements.len(),
            forall|k: int| 0 <= k < i ==> !(#[trigger] ev[k] matches ElementView::Phoneme(p) && spec_is_vowel(system@, p)),
        decreases seq.elements.len() - i,
    {
        assert(ev[i as int] == seq.elements@[i as int]@);
        if let SequenceElement::Phoneme(p) = &seq.elements[i] {
            if is_vowel(p, system) {
                return true;
            }
        }
        i = i + 1;
    }
    false
}

/// Syllabifies a phoneme sequence: the marks are validated, the sequence is
/// divided into segments at its breaks and stress marks, and each segment
/// is divided into syllables around its nuclei.
pub fn syllabify_sequence(seq: &PhonemeSequence, config: &LanguageConfig, system: &IpaSystem) -> (r: Result<IpaWord, SyllabificationError>)
    ensures
        r is Ok <==> spec_sequence_fault(seq@) is None,
        r matches Err(e) ==> error_for(e, spec_sequence_fault(seq@).unwrap()),
        r matches Ok(w) ==> w@ == spec_syllabify(system@, *config, seq@),
{
    validate_sequence(seq)?;
    if seq.elements.len() == 0 {
        let w = IpaWord { syllables: Vec::new() };
        assert(w@ =~= Seq::<SyllableView>::empty());
        return Ok(w);
    }
    let has_any_vowels = sequence_has_vowel(seq, system);
    let segments = pre_segment(seq);
    let ghost segs = segs_view(segments@);
    let mut syllables: Vec<Syllable> = Vec::new();
    let mut i: usize = 0;
    assert(syllables_view(syllables@) =~= Seq::<SyllableView>::empty());
    while i < segments.len()
        invariant
            i <= segments.len(),
            segs == segs_view(segments@),
            syllables_view(syllables@) == spec_segments_syllables(system@, *config, segs.take(i as int), has_any_vowels),
        decreases segments.len() - i,
    {
        assert(segs.take(i + 1).drop_last() =~= segs.take(i as int));
        assert(segs.take(i + 1).last() == seg_view(segments@[i as int]));
        let ghost before = syllables@;
        let mut seg_syllables = syllabify_segment(&segments[i], config, has_any_vowels, system);
        let ghost added = seg_syllables@;
        syllables.append(&mut seg_syllables);
        assert(syllables@ =~= before + added);
        assert(syllables_view(syllables@) =~= syllables_view(before) + syllables_view(added));
        i = i + 1;
    }
    assert(segs.take(i as int) =~= segs);
    Ok(IpaWord { syllables })
}

// ----- the phonemes of a word are those of its sequence -----

/// The phonemes of the segments, in order.
pub open spec fn segments_phonemes(segs: Seq<(Seq<PhonemeView>, SyllableStress)>) -> Seq<PhonemeView>
    decreases segs.len(),
{
    if segs.len() == 0 {
        Seq::empty()
    } else {
        segments_phonemes(segs.drop_last()) + segs.last().0
    }
}

proof fn lemma_phonemes_of_as_elements(ps: Seq<PhonemeView>)
    ensures
        phonemes_of(as_elements(ps)) == ps,
    decreases ps.len(),
{
    if ps.len() > 0 {
        lemma_phonemes_of_as_elements(ps.drop_last());
        assert(as_elements(ps).drop_last() =~= as_elements(ps.drop_last()));
        assert(ps.drop_last().push(ps.last()) =~= ps);
    } else {
        assert(as_elements(ps) =~= Seq::<ElementView>::empty());
    }
}

proof fn lemma_word_phonemes_append(a: Seq<SyllableView>, b: Seq<SyllableView>)
    ensures
        crate::syllable::word_phonemes(a + b) == crate::syllable::word_phonemes(a) + crate::syllable::word_phonemes(b),
    decreases b.len(),
{
    if b.len() == 0 {
        assert(a + b =~= a);
        assert(crate::syllable::word_phonemes(a) + Seq::<PhonemeView>::empty() =~= crate::syllable::word_phonemes(a));
    } else {
        lemma_word_phonemes_append(a, b.drop_last());
        assert((a + b).drop_last() =~= a + b.drop_last());
        assert((a + b).last() == b.last());
        assert(crate::syllable::word_phonemes(a) + crate::syllable::word_phonemes(b.drop_last()) + crate::syllable::structure_phonemes(b.last().structure)
            =~= crate::syllable::word_phonemes(a) + (crate::syllable::word_phonemes(b.drop_last()) + crate::syllable::structure_phonemes(b.last().structure)));
    }
}

proof fn lemma_segments_phonemes_nonempty(segs: Seq<(Seq<PhonemeView>, SyllableStress)>)
    ensures
        segments_phonemes(nonempty_segments(segs)) == segments_phonemes(segs),
    decreases segs.len(),
{
    if segs.len() > 0 {
        lemma_segments_phonemes_nonempty(segs.drop_last());
        if segs.last().0.len() == 0 {
            assert(segments_phonemes(segs.drop_last()) + segs.last().0 =~= segments_phonemes(segs.drop_last()));
        } else {
            assert(nonempty_segments(segs).drop_last() =~= nonempty_segments(segs.drop_last()));
        }
    }
}

proof fn lemma_seg_fold_phonemes(es: Seq<ElementView>)
    ensures
        segments_phonemes(seg_fold(es).0) + seg_fold(es).1 == phonemes_of(es),
    decreases es.len(),
{
    if es.len() == 0 {
        assert(Seq::<PhonemeView>::empty() + Seq::<PhonemeView>::empty() =~= Seq::<PhonemeView>::empty());
    } else {
        lemma_seg_fold_phonemes(es.drop_last());
        let (done, cur, st) = seg_fold(es.drop_last());
        match es.last() {
            ElementView::Phoneme(p) => {
                assert(segments_phonemes(done) + cur.push(p) =~= (segments_phonemes(done) + cur).push(p));
            },
            _ => {
                assert(done.push((cur, st)).drop_last() =~= done);
                assert(segments_phonemes(done.push((cur, st))) + Seq::<PhonemeView>::empty() =~= segments_phonemes(done) + cur);
            },
        }
    }
}

/// The phonemes of the segments of a sequence are its phonemes.
proof fn lemma_pre_segment_phonemes(es: Seq<ElementView>)
    ensures
        segments_phonemes(spec_pre_segment(es)) == phonemes_of(es),
{
    let (done, cur, st) = seg_fold(es);
    lemma_seg_fold_phonemes(es);
    lemma_segments_phonemes_nonempty(done.push((cur, st)));
    assert(done.push((cur, st)).drop_last() =~= done);
}

proof fn lemma_split_point_bound(
    sys: IpaSystemView,
    cfg: LanguageConfig,
    ps: Seq<PhonemeView>,
    stress: SyllableStress,
    nc: (int, int),
    nn: (int, int),
    vi: int,
)
    requires
        0 <= nc.1 <= nn.0 <= ps.len(),
    ensures
        0 <= spec_split_point(sys, cfg, ps, stress, nc, nn, vi) <= nn.0 - nc.1,
{
    let cons = between(ps, nc, nn);
    if cons.len() > 0 {
        lemma_geminate_bound(sys, cons, 0);
        let a = spec_liquid_min(sys, cons);
        let b = spec_capture_min(sys, ps, stress, nc, cons, vi);
        lemma_optimal_split_bound(sys, cfg, cons, if a >= b {
            a
        } else {
            b
        }, vi == 0);
    }
}

proof fn lemma_extract_phonemes(ps: Seq<PhonemeView>, a: int, b: int)
    requires
        0 <= a <= b <= ps.len(),
    ensures
        crate::syllable::opt_phonemes(extract(ps, a, b)) == ps.subrange(a, b),
{
    if a < b {
        lemma_phonemes_of_as_elements(ps.subrange(a, b));
    } else {
        assert(ps.subrange(a, b) =~= Seq::<PhonemeView>::empty());
    }
}

/// The phonemes of the syllables of a segment are the segment's phonemes.
proof fn lemma_segment_phonemes(sys: IpaSystemView, cfg: LanguageConfig, seg: (Seq<PhonemeView>, SyllableStress), hv: bool)
    ensures
        crate::syllable::word_phonemes(spec_segment_syllables(sys, cfg, seg, hv)) == seg.0,
{
    let (ps, stress) = seg;
    let ns = spec_nuclei(sys, ps);
    let syls = spec_segment_syllables(sys, cfg, seg, hv);
    if ns.len() == 0 {
        if hv {
            lemma_phonemes_of_as_elements(ps);
            assert(syls.drop_last() =~= Seq::<SyllableView>::empty());
            assert(crate::syllable::word_phonemes(syls.drop_last()) =~= Seq::<PhonemeView>::empty());
            assert(crate::syllable::structure_phonemes(syls.last().structure) == ps);
            assert(Seq::<PhonemeView>::empty() + ps =~= ps);
        } else {
            lemma_roots_phonemes(ps, stress);
            assert(crate::syllable::word_phonemes(syls) == ps);
        }
    } else {
        lemma_nuclei_bounds(sys, ps, 0);
        let splits = spec_split_points(sys, cfg, ps, stress, ns);
        assert forall|k: int| 0 <= k < ns.len() - 1 implies 0 <= #[trigger] splits[k] <= ns[k + 1].0 - ns[k].1 by {
            lemma_split_point_bound(sys, cfg, ps, stress, ns[k], ns[k + 1], k);
        }
        lemma_reconstruct_phonemes(ps, stress, ns, splits, ns.len() as int);
        assert(syls =~= Seq::new(ns.len(), |i: int| spec_syllable_at(ps, stress, ns, splits, i)).take(ns.len() as int));
        assert(coda_end_of(ps, ns, splits, ns.len() - 1) == ps.len());
        assert(ps.subrange(0, ps.len() as int) =~= ps);
        assert(crate::syllable::word_phonemes(syls) == ps);
    }
}

proof fn lemma_roots_phonemes(ps: Seq<PhonemeView>, stress: SyllableStress)
    ensures
        crate::syllable::word_phonemes(ps.map_values(|p: PhonemeView| (SyllableView { structure: StructureView::Root(p), stress }))) == ps,
    decreases ps.len(),
{
    let syls = ps.map_values(|p: PhonemeView| (SyllableView { structure: StructureView::Root(p), stress }));
    if ps.len() > 0 {
        lemma_roots_phonemes(ps.drop_last(), stress);
        assert(syls.drop_last() =~= ps.drop_last().map_values(|p: PhonemeView| (SyllableView { structure: StructureView::Root(p), stress })));
        assert(ps.drop_last() + seq![ps.last()] =~= ps);
    } else {
        assert(syls.len() == 0);
    }
}

/// The end of the coda of syllable `i`.
spec fn coda_end_of(ps: Seq<PhonemeView>, ns: Seq<(int, int)>, splits: Seq<int>, i: int) -> int {
    if i == ns.len() - 1 {
        ps.len() as int
    } else {
        ns[i].1 + splits[i]
    }
}

proof fn lemma_reconstruct_phonemes(ps: Seq<PhonemeView>, stress: SyllableStress, ns: Seq<(int, int)>, splits: Seq<int>, m: int)
    requires
        0 < m <= ns.len(),
        splits.len() == ns.len() - 1,
        forall|k: int| 0 <= k < ns.len() ==> 0 <= (#[trigger] ns[k]).0 < ns[k].1 <= ps.len(),
        forall|k: int| 0 <= k < ns.len() - 1 ==> (#[trigger] ns[k]).1 <= ns[k + 1].0,
        forall|k: int| 0 <= k < ns.len() - 1 ==> 0 <= #[trigger] splits[k] <= ns[k + 1].0 - ns[k].1,
    ensures
        crate::syllable::word_phonemes(Seq::new(ns.len(), |i: int| spec_syllable_at(ps, stress, ns, splits, i)).take(m))
            == ps.subrange(0, coda_end_of(ps, ns, splits, m - 1)),
    decreases m,
{
    let all = Seq::new(ns.len(), |i: int| spec_syllable_at(ps, stress, ns, splits, i));
    let i = m - 1;
    let os = if i == 0 {
        0
    } else {
        ns[i - 1].1 + splits[i - 1]
    };
    let ce = coda_end_of(ps, ns, splits, i);
    assert(0 <= os <= ns[i].0);
    assert(ns[i].1 <= ce <= ps.len()) by {
        if i < ns.len() - 1 {
            assert(splits[i] <= ns[i + 1].0 - ns[i].1);
            assert(ns[i + 1].1 <= ps.len());
        }
    }
    lemma_extract_phonemes(ps, os, ns[i].0);
    lemma_extract_phonemes(ps, ns[i].0, ns[i].1);
    lemma_extract_phonemes(ps, ns[i].1, ce);
    let sp = crate::syllable::structure_phonemes(all[i].structure);
    assert(sp =~= ps.subrange(os, ce));
    assert(all.take(m).drop_last() =~= all.take(m - 1));
    assert(all.take(m).last() == all[i]);
    assert(crate::syllable::word_phonemes(all.take(m)) == crate::syllable::word_phonemes(all.take(m - 1)) + sp);
    if m == 1 {
        assert(all.take(0) =~= Seq::<SyllableView>::empty());
        assert(Seq::<PhonemeView>::empty() + sp =~= ps.subrange(0, ce));
    } else {
        lemma_reconstruct_phonemes(ps, stress, ns, splits, m - 1);
        assert(coda_end_of(ps, ns, splits, m - 2) == os);
        assert(ps.subrange(0, os) + ps.subrange(os, ce) =~= ps.subrange(0, ce));
    }
}

proof fn lemma_segments_syllables_phonemes(
    sys: IpaSystemView,
    cfg: LanguageConfig,
    segs: Seq<(Seq<PhonemeView>, SyllableStress)>,
    hv: bool,
)
    ensures
        crate::syllable::word_phonemes(spec_segments_syllables(sys, cfg, segs, hv)) == segments_phonemes(segs),
    decreases segs.len(),
{
    if segs.len() > 0 {
        lemma_segments_syllables_phonemes(sys, cfg, segs.drop_last(), hv);
        lemma_segment_phonemes(sys, cfg, segs.last(), hv);
        lemma_word_phonemes_append(
            spec_segments_syllables(sys, cfg, segs.drop_last(), hv),
            spec_segment_syllables(sys, cfg, segs.last(), hv),
        );
    }
}

/// Syllabification keeps the phonemes: the phonemes of the syllables, in
/// order, are the phonemes of the sequence, whatever its marks.
pub proof fn lemma_syllabify_keeps_phonemes(sys: IpaSystemView, cfg: LanguageConfig, es: Seq<ElementView>)
    ensures
        crate::syllable::word_phonemes(spec_syllabify(sys, cfg, es)) == phonemes_of(es),
{
    if es.len() == 0 {
        assert(phonemes_of(es) =~= Seq::<PhonemeView>::empty());
    } else {
        lemma_segments_syllables_phonemes(sys, cfg, spec_pre_segment(es), has_vowel(sys, es));
        lemma_pre_segment_phonemes(es);
    }
}

} // verus!

verus! {

proof fn lemma_pairs_clean(es: Seq<ElementView>, k: int)
    requires
        0 <= k,
    ensures
        first_pair_fault(es, k) is None <==> forall|i: int| k <= i < es.len() - 1 ==> pair_fault(#[trigger] es[i], es[i + 1]) is None,
    decreases es.len() - k,
{
    if k + 1 < es.len() {
        lemma_pairs_clean(es, k + 1);
    }
}

/// A sequence passes validation exactly when it neither starts nor ends with
/// a syllable break and no two adjacent elements are two breaks, a break
/// and a stress mark, or two stress marks.
pub proof fn lemma_valid_sequence_marks(es: Seq<ElementView>)
    ensures
        spec_sequence_fault(es) is None <==> {
            &&& es.len() > 0 ==> !(es[0] is SyllableBreak) && !(es.last() is SyllableBreak)
            &&& forall|i: int| 0 <= i < es.len() - 1 ==> {
                &&& !(#[trigger] es[i] is SyllableBreak && es[i + 1] is SyllableBreak)
                &&& !(es[i] is SyllableBreak && es[i + 1] is Prosody)
                &&& !(es[i] is Prosody && es[i + 1] is SyllableBreak)
                &&& !(es[i] is Prosody && es[i + 1] is Prosody)
            }
        },
{
    lemma_pairs_clean(es, 0);
}

} // verus!
