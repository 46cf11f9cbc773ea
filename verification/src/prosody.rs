//! Stress placement: the prosodic systems of a language and how they put
//! stress marks on the syllables of a word.

use crate::generator::validation::ValidationError;
use crate::ipa_system::{IpaSystem, IpaSystemView};
use crate::phonology::{is_vowel, spec_is_vowel};
use crate::sequence::{ElementView, SequenceElement};
use crate::syllable::{
    syllables_view, IpaWord, StructureView, Syllable, SyllableStress, SyllableStructure,
    SyllableView,
};
use vstd::prelude::*;

verus! {

/// Options for alternating stress placement.
#[derive(PartialEq, Eq, Structural, Clone, Copy, Debug)]
pub enum AlternatingConfig {
    FirstSyllable,
    SecondSyllable,
    Antepenultimate,
    Penultimate,
    Ultimate,
}

/// Foot size variants (either 2 or 3).
#[derive(PartialEq, Eq, Structural, Clone, Copy, Debug)]
pub enum FootSize {
    Two,
    Three,
}

/// Stress location inside a foot.
#[derive(PartialEq, Eq, Structural, Clone, Copy, Debug)]
pub enum StressLocation {
    First,
    Second,
    Third,
}

/// Primary stress anchor (first or last foot).
#[derive(PartialEq, Eq, Structural, Clone, Copy, Debug)]
pub enum MainStress {
    First,
    Last,
}

/// Patterned stress configuration.
#[derive(PartialEq, Eq, Structural, Clone, Copy, Debug)]
pub struct PatternedConfig {
    pub foot: FootSize,
    pub stress_location: StressLocation,
    pub main_stress: MainStress,
}

/// Prosodic stress system configuration. Under `NoFixedStress` the primary
/// stress of an unmarked word falls on a syllable drawn from a Zipf
/// distribution; the draw is made by the caller and handed in.
#[derive(PartialEq, Eq, Structural, Clone, Copy, Debug)]
pub enum ProsodicConfig {
    NoFixedStress,
    Unstressed,
    Alternating { option: AlternatingConfig, stress_open_monosyllables: Option<bool> },
    Patterned(PatternedConfig),
}

/// The number of syllables in a foot.
pub open spec fn foot_len(f: FootSize) -> int {
    match f {
        FootSize::Two => 2,
        FootSize::Three => 3,
    }
}

/// The position of the stress in a foot, counted from 1.
pub open spec fn location_rank(l: StressLocation) -> int {
    match l {
        StressLocation::First => 1,
        StressLocation::Second => 2,
        StressLocation::Third => 3,
    }
}

impl ProsodicConfig {
    /// Validates the prosodic configuration: the stress of a patterned
    /// system must lie within its foot.
    pub fn validate(&self) -> (r: Result<(), ValidationError>)
        ensures
            r is Err <==> (self matches ProsodicConfig::Patterned(p) && location_rank(p.stress_location) > foot_len(p.foot)),
            r matches Err(e) ==> e is InvalidProsodyConfig,
    {
        match self {
            ProsodicConfig::Patterned(pat) => {
                let limit: u8 = match pat.foot {
                    FootSize::Two => 2,
                    FootSize::Three => 3,
                };
                let loc_val: u8 = match pat.stress_location {
                    StressLocation::First => 1,
                    StressLocation::Second => 2,
                    StressLocation::Third => 3,
                };
                if loc_val > limit {
                    return Err(ValidationError::InvalidProsodyConfig(String::from_str("Stress location is invalid for the foot size")));
                }
                Ok(())
            },
            _ => Ok(()),
        }
    }
}

// ----- stresses -----

/// The stresses of a word's syllables.
pub open spec fn stresses(ws: Seq<SyllableView>) -> Seq<SyllableStress> {
    ws.map_values(|s: SyllableView| s.stress)
}

/// The first syllable with the given stress.
pub open spec fn leftmost(st: Seq<SyllableStress>, target: SyllableStress) -> Option<int>
    decreases st.len(),
{
    if st.len() == 0 {
        None
    } else if st[0] == target {
        Some(0)
    } else {
        match leftmost(st.drop_first(), target) {
            Some(k) => Some(k + 1),
            None => None,
        }
    }
}

proof fn lemma_leftmost_bound(st: Seq<SyllableStress>, t: SyllableStress)
    ensures
        leftmost(st, t) matches Some(k) ==> 0 <= k < st.len() && st[k] == t,
    decreases st.len(),
{
    if st.len() > 0 && st[0] != t {
        lemma_leftmost_bound(st.drop_first(), t);
    }
}

proof fn lemma_anchor_bound(st: Seq<SyllableStress>)
    ensures
        stress_anchor(st) matches Some(k) ==> 0 <= k < st.len(),
{
    lemma_leftmost_bound(st, SyllableStress::PrimaryStress);
    lemma_leftmost_bound(st, SyllableStress::SecondaryStress);
}

/// The syllable that anchors stress: the first primary stress, else the first secondary.
pub open spec fn stress_anchor(st: Seq<SyllableStress>) -> Option<int> {
    match leftmost(st, SyllableStress::PrimaryStress) {
        Some(k) => Some(k),
        None => leftmost(st, SyllableStress::SecondaryStress),
    }
}

/// Alternating stress around a primary: the primary, then secondary stress
/// on every second syllable from it, the others unstressed.
pub open spec fn alternating_from(n: int, p: int) -> Seq<SyllableStress> {
    Seq::new(n as nat, |i: int| if i == p {
        SyllableStress::PrimaryStress
    } else if (if i >= p { i - p } else { p - i }) % 2 == 0 {
        SyllableStress::SecondaryStress
    } else {
        SyllableStress::Unstressed
    })
}

/// Whether a syllable is closed: a standard syllable with a non-empty coda,
/// or an arbitrary one that ends in a non-vowel.
pub open spec fn spec_is_closed(sys: IpaSystemView, s: SyllableView) -> bool {
    match s.structure {
        StructureView::Standard { coda, .. } => coda matches Some(c) && c.len() > 0,
        StructureView::Root(_) => false,
        StructureView::Arbitrary(es) => es.len() > 0 && (es.last() matches ElementView::Phoneme(p) && !spec_is_vowel(sys, p)),
    }
}

/// The syllable that an alternating system stresses first.
pub open spec fn alternating_target(option: AlternatingConfig, n: int) -> int {
    let idx = match option {
        AlternatingConfig::FirstSyllable => 0,
        AlternatingConfig::SecondSyllable => 1,
        AlternatingConfig::Antepenultimate => if n >= 3 { n - 3 } else { 0 },
        AlternatingConfig::Penultimate => if n >= 2 { n - 2 } else { 0 },
        AlternatingConfig::Ultimate => if n >= 1 { n - 1 } else { 0 },
    };
    if idx > n - 1 {
        n - 1
    } else {
        idx
    }
}

/// The stresses of an alternating system.
pub open spec fn spec_alternating(
    sys: IpaSystemView,
    ws: Seq<SyllableView>,
    option: AlternatingConfig,
    open_mono: Option<bool>,
) -> Seq<SyllableStress> {
    let st = stresses(ws);
    let n = ws.len() as int;
    match stress_anchor(st) {
        Some(p) => alternating_from(n, p),
        None => if n == 1 {
            if spec_is_closed(sys, ws[0]) || open_mono.unwrap_or(true) {
                st.update(0, SyllableStress::PrimaryStress)
            } else {
                st
            }
        } else {
            alternating_from(n, alternating_target(option, n))
        },
    }
}

/// The stresses after a list of writes, in order; writes outside the word do nothing.
pub open spec fn apply_writes(st: Seq<SyllableStress>, writes: Seq<(int, SyllableStress)>) -> Seq<SyllableStress>
    decreases writes.len(),
{
    if writes.len() == 0 {
        st
    } else {
        let s2 = apply_writes(st, writes.drop_last());
        let (i, v) = writes.last();
        if 0 <= i < s2.len() {
            s2.update(i, v)
        } else {
            s2
        }
    }
}

/// The stress of the `i`-th of `count` feet counted from the word's edge:
/// primary for the foot at `main`, secondary for the others.
pub open spec fn foot_stress(i: int, main: int) -> SyllableStress {
    if i == main {
        SyllableStress::PrimaryStress
    } else {
        SyllableStress::SecondaryStress
    }
}

/// The writes of a patterned system without an anchor: in each complete
/// foot, counted from `start`, the syllable at `loc` (when it lies within the
/// foot) gets the foot's stress; the foot at `main` gets the primary.
pub open spec fn foot_writes(feet: int, fs: int, loc: int, start: int, main: int) -> Seq<(int, SyllableStress)> {
    Seq::new(feet as nat, |i: int| (if loc < fs { start + i * fs + loc } else { -1 }, foot_stress(i, main)))
}

/// The writes of a patterned system around an anchor at `p` in the foot
/// `pf`: the anchor gets the primary, every other foot a secondary at `loc`.
pub open spec fn anchored_writes(feet: int, fs: int, loc: int, start: int, p: int, pf: int) -> Seq<(int, SyllableStress)> {
    Seq::new(feet as nat, |i: int| if i == pf {
        (p, SyllableStress::PrimaryStress)
    } else {
        (start + i * fs + loc, SyllableStress::SecondaryStress)
    })
}

/// The stresses of a patterned system on a word shorter than a foot.
pub open spec fn patterned_short(
    sys: IpaSystemView,
    ws: Seq<SyllableView>,
    loc: int,
    anchor: Option<int>,
) -> Seq<SyllableStress> {
    let n = ws.len() as int;
    let base = Seq::new(n as nat, |i: int| SyllableStress::Unstressed);
    match anchor {
        Some(p) => base.update(p, SyllableStress::PrimaryStress),
        None => if n == 1 {
            if spec_is_closed(sys, ws[0]) {
                base.update(0, SyllableStress::PrimaryStress)
            } else {
                base
            }
        } else {
            base.update(if loc > n - 1 { n - 1 } else { loc }, SyllableStress::PrimaryStress)
        },
    }
}

/// The stresses of a patterned system: every syllable is unstressed first;
/// then each complete foot, counted from the edge where the main stress
/// lies, gets its stress at the configured location, or around the word's
/// own stress anchor if it has one.
pub open spec fn spec_patterned(sys: IpaSystemView, ws: Seq<SyllableView>, pat: PatternedConfig) -> Seq<SyllableStress> {
    let n = ws.len() as int;
    let fs = foot_len(pat.foot);
    let loc = location_rank(pat.stress_location) - 1;
    let anchor = stress_anchor(stresses(ws));
    let base = Seq::new(n as nat, |i: int| SyllableStress::Unstressed);
    if n < fs {
        patterned_short(sys, ws, loc, anchor)
    } else {
        let feet = n / fs;
        let rem = n % fs;
        match pat.main_stress {
            MainStress::First => match anchor {
                Some(p) => apply_writes(
                    base,
                    anchored_writes(feet, fs, loc, 0, p, p / fs) + (if p / fs >= feet {
                        seq![(p, SyllableStress::PrimaryStress)]
                    } else {
                        Seq::empty()
                    }),
                ),
                None => apply_writes(base, foot_writes(feet, fs, loc, 0, 0)),
            },
            MainStress::Last => match anchor {
                Some(p) => if p < rem {
                    apply_writes(base, seq![(p, SyllableStress::PrimaryStress)] + foot_writes(feet, fs, loc, rem, -1))
                } else {
                    apply_writes(base, anchored_writes(feet, fs, loc, rem, p, (p - rem) / fs))
                },
                None => apply_writes(base, foot_writes(feet, fs, loc, rem, feet - 1)),
            },
        }
    }
}

/// The stresses that a prosodic system gives a word; `sample` is the
/// syllable drawn for the primary stress of an unmarked word under
/// `NoFixedStress`.
pub open spec fn spec_prosody_stresses(sys: IpaSystemView, cfg: ProsodicConfig, ws: Seq<SyllableView>, sample: int) -> Seq<SyllableStress> {
    let n = ws.len() as int;
    if n == 0 {
        stresses(ws)
    } else {
        match cfg {
            ProsodicConfig::Unstressed => stresses(ws),
            ProsodicConfig::NoFixedStress => match stress_anchor(stresses(ws)) {
                Some(p) => alternating_from(n, p),
                None => alternating_from(n, sample),
            },
            ProsodicConfig::Alternating { option, stress_open_monosyllables } => spec_alternating(
                sys,
                ws,
                option,
                stress_open_monosyllables,
            ),
            ProsodicConfig::Patterned(pat) => spec_patterned(sys, ws, pat),
        }
    }
}

/// The word with new stresses and the same syllable structures.
pub open spec fn restressed(ws: Seq<SyllableView>, st: Seq<SyllableStress>) -> Seq<SyllableView> {
    Seq::new(ws.len(), |i: int| SyllableView { structure: ws[i].structure, stress: st[i] })
}

proof fn lemma_feet_rem(fs: int, n: int)
    by (nonlinear_arith)
    requires
        fs >= 1,
        n >= 0,
    ensures
        (n / fs) * fs + n % fs == n,
        0 <= n % fs < fs,
        n / fs >= 0,
{
}

/// The stresses of the syllables of a word.
fn stresses_of(syllables: &Vec<Syllable>) -> (r: Vec<SyllableStress>)
    ensures
        r@ == stresses(syllables_view(syllables@)),
{
    let mut out: Vec<SyllableStress> = Vec::new();
    let mut i: usize = 0;
    while i < syllables.len()
        invariant
            i <= syllables.len(),
            out@.len() == i,
            forall|k: int| 0 <= k < i ==> out@[k] == #[trigger] syllables@[k].stress,
        decreases syllables.len() - i,
    {
        out.push(syllables[i].stress);
        i = i + 1;
    }
    assert(out@ =~= stresses(syllables_view(syllables@)));
    out
}

/// The first syllable with the given stress.
fn leftmost_index(st: &Vec<SyllableStress>, target: SyllableStress) -> (r: Option<usize>)
    ensures
        r is Some == leftmost(st@, target) is Some,
        r matches Some(k) ==> leftmost(st@, target) == Some(k as int) && k < st.len(),
{
    let mut i: usize = 0;
    assert(st@.skip(0) =~= st@);
    while i < st.len()
        invariant
            i <= st.len(),
            forall|k: int| 0 <= k < i ==> st@[k] != target,
            leftmost(st@, target) == (match leftmost(st@.skip(i as int), target) {
                Some(k) => Some(k + i),
                None => None,
            }),
        decreases st.len() - i,
    {
        assert(st@.skip(i as int).drop_first() =~= st@.skip(i + 1));
        if st[i] == target {
            return Some(i);
        }
        i = i + 1;
    }
    None
}

/// The index of the leftmost primary stress.
fn leftmost_primary_stress_index(st: &Vec<SyllableStress>) -> (r: Option<usize>)
    ensures
        r is Some == leftmost(st@, SyllableStress::PrimaryStress) is Some,
        r matches Some(k) ==> leftmost(st@, SyllableStress::PrimaryStress) == Some(k as int) && k < st.len(),
{
    leftmost_index(st, SyllableStress::PrimaryStress)
}

/// The index of the leftmost secondary stress.
fn leftmost_secondary_stress_index(st: &Vec<SyllableStress>) -> (r: Option<usize>)
    ensures
        r is Some == leftmost(st@, SyllableStress::SecondaryStress) is Some,
        r matches Some(k) ==> leftmost(st@, SyllableStress::SecondaryStress) == Some(k as int) && k < st.len(),
{
    leftmost_index(st, SyllableStress::SecondaryStress)
}

/// The syllable that anchors stress: the first primary, else the first secondary.
fn find_stress_anchor(st: &Vec<SyllableStress>) -> (r: Option<usize>)
    ensures
        r is Some == stress_anchor(st@) is Some,
        r matches Some(k) ==> stress_anchor(st@) == Some(k as int) && k < st.len(),
{
    match leftmost_primary_stress_index(st) {
        Some(k) => Some(k),
        None => leftmost_secondary_stress_index(st),
    }
}

/// Alternating stresses around a primary at `primary_idx`.
fn apply_alternating_secondary_stresses(n: usize, primary_idx: usize) -> (r: Vec<SyllableStress>)
    ensures
        r@ == alternating_from(n as int, primary_idx as int),
{
    let mut out: Vec<SyllableStress> = Vec::new();
    let mut i: usize = 0;
    while i < n
        invariant
            i <= n,
            out@.len() == i,
            forall|k: int| 0 <= k < i ==> #[trigger] out@[k] == alternating_from(n as int, primary_idx as int)[k],
        decreases n - i,
    {
        let diff = if i >= primary_idx {
            i - primary_idx
        } else {
            primary_idx - i
        };
        if i == primary_idx {
            out.push(SyllableStress::PrimaryStress);
        } else if diff % 2 == 0 {
            out.push(SyllableStress::SecondaryStress);
        } else {
            out.push(SyllableStress::Unstressed);
        }
        i = i + 1;
    }
    assert(out@ =~= alternating_from(n as int, primary_idx as int));
    out
}

/// Whether a syllable is closed.
fn is_closed_syllable(syl: &Syllable, system: &IpaSystem) -> (r: bool)
    ensures
        r == spec_is_closed(system@, syl@),
{
    match &syl.structure {
        SyllableStructure::Standard { coda, .. } => match coda {
            Some(c) => c.elements.len() > 0,
            None => false,
        },
        SyllableStructure::Root(_) => false,
        SyllableStructure::Arbitrary(seq) => {
            if seq.elements.len() == 0 {
                return false;
            }
            let last = &seq.elements[seq.elements.len() - 1];
            assert(seq@.last() == last@);
            match last {
                SequenceElement::Phoneme(p) => !is_vowel(p, system),
                _ => false,
            }
        },
    }
}

/// The stresses of a one-syllable word without stress under an alternating system.
fn apply_alternating_monosyllable(st: &Vec<SyllableStress>, closed: bool, stress_open_monosyllables: Option<bool>) -> (r: Vec<SyllableStress>)
    requires
        st.len() == 1,
    ensures
        r@ == (if closed || stress_open_monosyllables.unwrap_or(true) {
            st@.update(0, SyllableStress::PrimaryStress)
        } else {
            st@
        }),
{
    let stress_open = match stress_open_monosyllables {
        Some(b) => b,
        None => true,
    };
    let mut out = st.clone();
    assert(out@ == st@);
    if closed || stress_open {
        out.set(0, SyllableStress::PrimaryStress);
    }
    out
}

/// The syllable that an alternating system stresses first.
fn get_alternating_target_index(option: AlternatingConfig, num_syllables: usize) -> (r: usize)
    requires
        num_syllables >= 1,
    ensures
        r as int == alternating_target(option, num_syllables as int),
{
    let idx: usize = match option {
        AlternatingConfig::FirstSyllable => 0,
        AlternatingConfig::SecondSyllable => 1,
        AlternatingConfig::Antepenultimate => if num_syllables >= 3 { num_syllables - 3 } else { 0 },
        AlternatingConfig::Penultimate => if num_syllables >= 2 { num_syllables - 2 } else { 0 },
        AlternatingConfig::Ultimate => num_syllables - 1,
    };
    if idx > num_syllables - 1 {
        num_syllables - 1
    } else {
        idx
    }
}

/// The stresses of an alternating system.
fn apply_alternating(
    syllables: &Vec<Syllable>,
    option: AlternatingConfig,
    stress_open_monosyllables: Option<bool>,
    system: &IpaSystem,
) -> (r: Vec<SyllableStress>)
    requires
        syllables.len() > 0,
    ensures
        r@ == spec_alternating(system@, syllables_view(syllables@), option, stress_open_monosyllables),
{
    let st = stresses_of(syllables);
    let n = syllables.len();
    match find_stress_anchor(&st) {
        Some(p) => apply_alternating_secondary_stresses(n, p),
        None => {
            if n == 1 {
                let closed = is_closed_syllable(&syllables[0], system);
                assert(syllables_view(syllables@)[0] == syllables@[0]@);
                apply_alternating_monosyllable(&st, closed, stress_open_monosyllables)
            } else {
                let target = get_alternating_target_index(option, n);
                apply_alternating_secondary_stresses(n, target)
            }
        },
    }
}

/// Writes a stress where the index lies within the word.
fn write_stress(st: &mut Vec<SyllableStress>, i: usize, v: SyllableStress)
    ensures
        final(st)@ == (if i < old(st)@.len() {
            old(st)@.update(i as int, v)
        } else {
            old(st)@
        }),
{
    if i < st.len() {
        st.set(i, v);
    }
}

proof fn lemma_writes_step(base: Seq<SyllableStress>, ws: Seq<(int, SyllableStress)>, i: int)
    requires
        0 <= i < ws.len(),
    ensures
        apply_writes(base, ws.take(i + 1)) == (if 0 <= ws[i].0 < apply_writes(base, ws.take(i)).len() {
            apply_writes(base, ws.take(i)).update(ws[i].0, ws[i].1)
        } else {
            apply_writes(base, ws.take(i))
        }),
{
    assert(ws.take(i + 1).drop_last() =~= ws.take(i));
}

proof fn lemma_writes_len(base: Seq<SyllableStress>, ws: Seq<(int, SyllableStress)>)
    ensures
        apply_writes(base, ws).len() == base.len(),
    decreases ws.len(),
{
    if ws.len() > 0 {
        lemma_writes_len(base, ws.drop_last());
    }
}

proof fn lemma_writes_append(base: Seq<SyllableStress>, a: Seq<(int, SyllableStress)>, b: Seq<(int, SyllableStress)>)
    ensures
        apply_writes(base, a + b) == apply_writes(apply_writes(base, a), b),
    decreases b.len(),
{
    if b.len() == 0 {
        assert(a + b =~= a);
    } else {
        lemma_writes_append(base, a, b.drop_last());
        assert((a + b).drop_last() =~= a + b.drop_last());
        assert((a + b).last() == b.last());
    }
}

/// Applies the writes of `feet` feet in order, the `i`-th at `idx(i)`.
fn run_foot_writes(
    st: &mut Vec<SyllableStress>,
    feet: usize,
    fs: usize,
    loc: usize,
    start: usize,
    main: usize,
    has_main: bool,
    anchored: bool,
    p: usize,
    pf: usize,
)
    requires
        fs == 2 || fs == 3,
        loc <= 2,
        feet * fs + start <= old(st)@.len(),
    ensures
        anchored ==> final(st)@ == apply_writes(old(st)@, anchored_writes(feet as int, fs as int, loc as int, start as int, p as int, pf as int)),
        !anchored ==> final(st)@ == apply_writes(old(st)@, foot_writes(feet as int, fs as int, loc as int, start as int, if has_main { main as int } else { -1 })),
{
    let ghost base = old(st)@;
    let ghost ws = if anchored {
        anchored_writes(feet as int, fs as int, loc as int, start as int, p as int, pf as int)
    } else {
        foot_writes(feet as int, fs as int, loc as int, start as int, if has_main { main as int } else { -1 })
    };
    let n = st.len();
    let mut i: usize = 0;
    assert(ws.take(0) =~= Seq::<(int, SyllableStress)>::empty());
    while i < feet
        invariant
            i <= feet,
            fs == 2 || fs == 3,
            loc <= 2,
            feet * fs + start <= n,
            st@.len() == n,
            base.len() == n,
            ws == (if anchored {
                anchored_writes(feet as int, fs as int, loc as int, start as int, p as int, pf as int)
            } else {
                foot_writes(feet as int, fs as int, loc as int, start as int, if has_main { main as int } else { -1 })
            }),
            st@ == apply_writes(base, ws.take(i as int)),
        decreases feet - i,
    {
        proof {
            lemma_writes_step(base, ws, i as int);
            lemma_writes_len(base, ws.take(i as int));
            assert(i * fs + fs <= feet * fs) by (nonlinear_arith)
                requires
                    i < feet,
            ;
        }
        let foot_start = start + i * fs;
        if anchored {
            if i == pf {
                write_stress(st, p, SyllableStress::PrimaryStress);
            } else {
                write_stress(st, foot_start + loc, SyllableStress::SecondaryStress);
            }
        } else {
            if loc < fs {
                let v = if has_main && i == main {
                    SyllableStress::PrimaryStress
                } else {
                    SyllableStress::SecondaryStress
                };
                write_stress(st, foot_start + loc, v);
            }
        }
        i = i + 1;
    }
    assert(ws.take(feet as int) =~= ws);
}

/// The stresses of a patterned system on a word shorter than a foot.
fn apply_patterned_short_word(
    syllables: &Vec<Syllable>,
    stress_loc: usize,
    anchor_opt: Option<usize>,
    system: &IpaSystem,
) -> (r: Vec<SyllableStress>)
    requires
        syllables.len() > 0,
        anchor_opt matches Some(p) ==> p < syllables.len(),
    ensures
        r@ == patterned_short(system@, syllables_view(syllables@), stress_loc as int, match anchor_opt {
            Some(p) => Some(p as int),
            None => None,
        }),
{
    let n = syllables.len();
    let mut st: Vec<SyllableStress> = Vec::new();
    let mut i: usize = 0;
    while i < n
        invariant
            i <= n,
            st@.len() == i,
            forall|k: int| 0 <= k < i ==> st@[k] == SyllableStress::Unstressed,
        decreases n - i,
    {
        st.push(SyllableStress::Unstressed);
        i = i + 1;
    }
    assert(st@ =~= Seq::new(n as nat, |i: int| SyllableStress::Unstressed));
    if let Some(p) = anchor_opt {
        st.set(p, SyllableStress::PrimaryStress);
        return st;
    }
    if n == 1 {
        assert(syllables_view(syllables@)[0] == syllables@[0]@);
        if is_closed_syllable(&syllables[0], system) {
            st.set(0, SyllableStress::PrimaryStress);
        }
        return st;
    }
    let idx = if stress_loc > n - 1 {
        n - 1
    } else {
        stress_loc
    };
    st.set(idx, SyllableStress::PrimaryStress);
    st
}

/// The stresses of a patterned system.
fn apply_patterned(syllables: &Vec<Syllable>, pat: PatternedConfig, system: &IpaSystem) -> (r: Vec<SyllableStress>)
    requires
        syllables.len() > 0,
    ensures
        r@ == spec_patterned(system@, syllables_view(syllables@), pat),
{
    let n = syllables.len();
    let fs: usize = match pat.foot {
        FootSize::Two => 2,
        FootSize::Three => 3,
    };
    let loc: usize = match pat.stress_location {
        StressLocation::First => 0,
        StressLocation::Second => 1,
        StressLocation::Third => 2,
    };
    let st0 = stresses_of(syllables);
    let anchor_opt = find_stress_anchor(&st0);
    let ghost ws = syllables_view(syllables@);
    let ghost sanchor = stress_anchor(stresses(ws));
    assert(fs as int == foot_len(pat.foot));
    assert(loc as int == location_rank(pat.stress_location) - 1);
    assert(sanchor == match anchor_opt {
        Some(p) => Some(p as int),
        None => None,
    });
    if n < fs {
        return apply_patterned_short_word(syllables, loc, anchor_opt, system);
    }
    let mut st: Vec<SyllableStress> = Vec::new();
    let mut i: usize = 0;
    while i < n
        invariant
            i <= n,
            st@.len() == i,
            forall|k: int| 0 <= k < i ==> st@[k] == SyllableStress::Unstressed,
        decreases n - i,
    {
        st.push(SyllableStress::Unstressed);
        i = i + 1;
    }
    let ghost base = Seq::new(n as nat, |i: int| SyllableStress::Unstressed);
    assert(st@ =~= base);
    let feet = n / fs;
    let rem = n % fs;
    proof {
        lemma_feet_rem(fs as int, n as int);
    }
    match pat.main_stress {
        MainStress::First => match anchor_opt {
            Some(p) => {
                let pf = p / fs;
                run_foot_writes(&mut st, feet, fs, loc, 0, 0, false, true, p, pf);
                assert(st@ == apply_writes(base, anchored_writes(feet as int, fs as int, loc as int, 0, p as int, pf as int)));
                let ghost mid = st@;
                assert(pf as int == (p as int) / (fs as int));
                if pf >= feet {
                    write_stress(&mut st, p, SyllableStress::PrimaryStress);
                }
                proof {
                    let a = anchored_writes(feet as int, fs as int, loc as int, 0, p as int, pf as int);
                    let b = if pf >= feet {
                        seq![(p as int, SyllableStress::PrimaryStress)]
                    } else {
                        Seq::<(int, SyllableStress)>::empty()
                    };
                    lemma_writes_append(base, a, b);
                    lemma_writes_len(base, a);
                    lemma_anchor_bound(stresses(ws));
                    if pf >= feet {
                        assert(b.drop_last() =~= Seq::<(int, SyllableStress)>::empty());
                        assert(apply_writes(mid, b.drop_last()) == mid);
                        assert(apply_writes(mid, b) == st@);
                    } else {
                        assert(apply_writes(mid, b) == mid);
                    }
                    assert(pf as int == (p as int) / (fs as int));
                    assert(st@ == spec_patterned(system@, ws, pat));
                }
            },
            None => {
                run_foot_writes(&mut st, feet, fs, loc, 0, 0, true, false, 0, 0);
                assert(st@ == apply_writes(base, foot_writes(feet as int, fs as int, loc as int, 0, 0)));
                assert(feet as int == (n as int) / (fs as int));
                assert(st@ == spec_patterned(system@, ws, pat));
            },
        },
        MainStress::Last => match anchor_opt {
            Some(p) => {
                if p < rem {
                    write_stress(&mut st, p, SyllableStress::PrimaryStress);
                    proof {
                        let a = seq![(p as int, SyllableStress::PrimaryStress)];
                        assert(a.drop_last() =~= Seq::<(int, SyllableStress)>::empty());
                        assert(apply_writes(base, a.drop_last()) == base);
                        assert(apply_writes(base, a) == st@);
                        lemma_writes_append(base, a, foot_writes(feet as int, fs as int, loc as int, rem as int, -1));
                    }
                    run_foot_writes(&mut st, feet, fs, loc, rem, 0, false, false, 0, 0);
                    assert(st@ == spec_patterned(system@, ws, pat));
                } else {
                    let pf = (p - rem) / fs;
                    run_foot_writes(&mut st, feet, fs, loc, rem, 0, false, true, p, pf);
                    assert(st@ == spec_patterned(system@, ws, pat));
                }
            },
            None => {
                run_foot_writes(&mut st, feet, fs, loc, rem, feet - 1, true, false, 0, 0);
                assert(st@ == spec_patterned(system@, ws, pat));
            },
        },
    }
    assert(st@ == spec_patterned(system@, ws, pat));
    st
}

/// The word with new stresses and the same syllable structures.
fn with_stresses(syllables: &Vec<Syllable>, st: &Vec<SyllableStress>) -> (r: IpaWord)
    requires
        st.len() == syllables.len(),
    ensures
        r@ == restressed(syllables_view(syllables@), st@),
{
    let mut out: Vec<Syllable> = Vec::new();
    let mut i: usize = 0;
    while i < syllables.len()
        invariant
            i <= syllables.len(),
            st.len() == syllables.len(),
            out@.len() == i,
            forall|k: int| 0 <= k < i ==> #[trigger] out@[k]@ == (SyllableView { structure: syllables@[k]@.structure, stress: st@[k] }),
        decreases syllables.len() - i,
    {
        out.push(Syllable { structure: syllables[i].structure.copy(), stress: st[i] });
        i = i + 1;
    }
    let w = IpaWord { syllables: out };
    assert(w@ =~= restressed(syllables_view(syllables@), st@));
    w
}

impl ProsodicConfig {
    /// Applies the stress system to a word. Under `NoFixedStress`, a word
    /// without stress gets its primary stress on the syllable `sample`,
    /// drawn by the caller; the secondary stresses alternate around it.
    pub fn apply_prosody(&self, word: &IpaWord, system: &IpaSystem, sample: usize) -> (r: IpaWord)
        requires
            word@.len() > 0 ==> sample < word@.len(),
        ensures
            r@ == restressed(word@, spec_prosody_stresses(system@, *self, word@, sample as int)),
    {
        let n = word.syllables.len();
        let st = stresses_of(&word.syllables);
        if n == 0 {
            return with_stresses(&word.syllables, &st);
        }
        let new_st = match self {
            ProsodicConfig::Unstressed => st,
            ProsodicConfig::NoFixedStress => match find_stress_anchor(&st) {
                Some(p) => apply_alternating_secondary_stresses(n, p),
                None => apply_alternating_secondary_stresses(n, sample),
            },
            ProsodicConfig::Alternating { option, stress_open_monosyllables } => apply_alternating(
                &word.syllables,
                *option,
                *stress_open_monosyllables,
                system,
            ),
            ProsodicConfig::Patterned(pat) => apply_patterned(&word.syllables, *pat, system),
        };
        proof {
            lemma_prosody_len(system@, *self, word@, sample as int);
        }
        with_stresses(&word.syllables, &new_st)
    }
}

proof fn lemma_prosody_len(sys: IpaSystemView, cfg: ProsodicConfig, ws: Seq<SyllableView>, sample: int)
    ensures
        spec_prosody_stresses(sys, cfg, ws, sample).len() == ws.len(),
{
    let n = ws.len() as int;
    if n > 0 {
        if let ProsodicConfig::Alternating { option, stress_open_monosyllables } = cfg {
            assert(spec_alternating(sys, ws, option, stress_open_monosyllables).len() == n);
        }
        if let ProsodicConfig::Patterned(pat) = cfg {
            let fs = foot_len(pat.foot);
            let loc = location_rank(pat.stress_location) - 1;
            let base = Seq::new(n as nat, |i: int| SyllableStress::Unstressed);
            let feet = n / fs;
            let rem = n % fs;
            let anchor = stress_anchor(stresses(ws));
            lemma_anchor_bound(stresses(ws));
            if n < fs {
                assert(patterned_short(sys, ws, loc, anchor).len() == n);
            } else {
                if let Some(p) = anchor {
                    lemma_writes_len(base, anchored_writes(feet, fs, loc, 0, p, p / fs) + (if p / fs >= feet {
                        seq![(p, SyllableStress::PrimaryStress)]
                    } else {
                        Seq::empty()
                    }));
                    lemma_writes_len(base, seq![(p, SyllableStress::PrimaryStress)] + foot_writes(feet, fs, loc, rem, -1));
                    lemma_writes_len(base, anchored_writes(feet, fs, loc, rem, p, (p - rem) / fs));
                } else {
                    lemma_writes_len(base, foot_writes(feet, fs, loc, 0, 0));
                    lemma_writes_len(base, foot_writes(feet, fs, loc, rem, feet - 1));
                }
            }
        }
    }
}

// ----- laws of stress placement -----

/// Stress placement keeps the syllables: the word has as many syllables,
/// each with the same structure, so the same phonemes in the same order.
pub proof fn lemma_prosody_keeps_syllables(sys: IpaSystemView, cfg: ProsodicConfig, ws: Seq<SyllableView>, sample: int)
    ensures
        restressed(ws, spec_prosody_stresses(sys, cfg, ws, sample)).len() == ws.len(),
        forall|i: int| 0 <= i < ws.len() ==> (#[trigger] restressed(ws, spec_prosody_stresses(sys, cfg, ws, sample))[i]).structure
            == ws[i].structure,
        crate::syllable::word_phonemes(restressed(ws, spec_prosody_stresses(sys, cfg, ws, sample))) == crate::syllable::word_phonemes(ws),
{
    lemma_restressed_phonemes(ws, spec_prosody_stresses(sys, cfg, ws, sample));
}

proof fn lemma_restressed_phonemes(ws: Seq<SyllableView>, st: Seq<SyllableStress>)
    ensures
        crate::syllable::word_phonemes(restressed(ws, st)) == crate::syllable::word_phonemes(ws),
    decreases ws.len(),
{
    if ws.len() > 0 {
        lemma_restressed_phonemes(ws.drop_last(), st);
        assert(restressed(ws, st).drop_last() =~= restressed(ws.drop_last(), st));
    }
}

/// An unstressed system leaves a word as it is.
pub proof fn lemma_unstressed_identity(sys: IpaSystemView, ws: Seq<SyllableView>, sample: int)
    ensures
        restressed(ws, spec_prosody_stresses(sys, ProsodicConfig::Unstressed, ws, sample)) == ws,
{
    assert(restressed(ws, stresses(ws)) =~= ws);
}

proof fn lemma_alternating_one_primary(n: int, p: int)
    requires
        0 <= p < n,
    ensures
        alternating_from(n, p)[p] == SyllableStress::PrimaryStress,
        forall|i: int| 0 <= i < n && i != p ==> #[trigger] alternating_from(n, p)[i] != SyllableStress::PrimaryStress,
        leftmost(alternating_from(n, p), SyllableStress::PrimaryStress) == Some(p),
{
    lemma_leftmost_first(alternating_from(n, p), SyllableStress::PrimaryStress, p);
}

proof fn lemma_leftmost_first(st: Seq<SyllableStress>, t: SyllableStress, p: int)
    requires
        0 <= p < st.len(),
        st[p] == t,
        forall|i: int| 0 <= i < p ==> st[i] != t,
    ensures
        leftmost(st, t) == Some(p),
    decreases p,
{
    if p > 0 {
        assert forall|i: int| 0 <= i < p - 1 implies st.drop_first()[i] != t by {
            assert(st.drop_first()[i] == st[i + 1]);
        }
        lemma_leftmost_first(st.drop_first(), t, p - 1);
    }
}

/// Without fixed stress, a word gets exactly one primary stress: on its own
/// stress anchor if it has one, else on the drawn syllable.
pub proof fn lemma_no_fixed_stress_one_primary(sys: IpaSystemView, ws: Seq<SyllableView>, sample: int)
    requires
        0 <= sample < ws.len(),
    ensures
        ({
            let st = spec_prosody_stresses(sys, ProsodicConfig::NoFixedStress, ws, sample);
            let p = match stress_anchor(stresses(ws)) {
                Some(a) => a,
                None => sample,
            };
            &&& st.len() == ws.len()
            &&& st[p] == SyllableStress::PrimaryStress
            &&& forall|i: int| 0 <= i < ws.len() && i != p ==> st[i] != SyllableStress::PrimaryStress
        }),
{
    lemma_anchor_bound(stresses(ws));
    let p = match stress_anchor(stresses(ws)) {
        Some(a) => a,
        None => sample,
    };
    lemma_alternating_one_primary(ws.len() as int, p);
}

/// Placing stress without fixed stress twice gives what placing it once gives.
pub proof fn lemma_no_fixed_stress_idempotent(sys: IpaSystemView, ws: Seq<SyllableView>, sample: int, sample2: int)
    requires
        0 <= sample < ws.len(),
        0 <= sample2 < ws.len(),
    ensures
        ({
            let once = restressed(ws, spec_prosody_stresses(sys, ProsodicConfig::NoFixedStress, ws, sample));
            restressed(once, spec_prosody_stresses(sys, ProsodicConfig::NoFixedStress, once, sample2)) == once
        }),
{
    lemma_anchor_bound(stresses(ws));
    let n = ws.len() as int;
    let p = match stress_anchor(stresses(ws)) {
        Some(a) => a,
        None => sample,
    };
    let st = alternating_from(n, p);
    let once = restressed(ws, st);
    assert(stresses(once) =~= st);
    lemma_alternating_one_primary(n, p);
    assert(stress_anchor(stresses(once)) == Some(p));
    assert(restressed(once, st) =~= once);
}

} // verus!

verus! {

proof fn lemma_foot_positions(i: int, k: int, fs: int, loc: int, feet: int)
    by (nonlinear_arith)
    requires
        fs >= 1,
        0 <= loc < fs,
        0 <= i < feet,
        0 <= k < feet,
    ensures
        0 <= i * fs + loc < feet * fs,
        i != k ==> i * fs + loc != k * fs + loc,
{
}

proof fn lemma_foot_writes_primary(n: int, feet: int, fs: int, loc: int, start: int, main: int, k: int)
    requires
        fs >= 1,
        0 <= loc < fs,
        0 <= start,
        start + feet * fs <= n,
        0 <= main < feet,
        0 <= k <= feet,
    ensures
        ({
            let st = apply_writes(Seq::new(n as nat, |i: int| SyllableStress::Unstressed), foot_writes(k, fs, loc, start, main));
            let q = start + main * fs + loc;
            &&& st.len() == n
            &&& forall|j: int| 0 <= j < n && st[j] == SyllableStress::PrimaryStress ==> main < k && j == q
            &&& main < k ==> st[q] == SyllableStress::PrimaryStress
        }),
    decreases k,
{
    let base = Seq::new(n as nat, |i: int| SyllableStress::Unstressed);
    let q = start + main * fs + loc;
    lemma_foot_positions(main, main, fs, loc, feet);
    if k > 0 {
        lemma_foot_writes_primary(n, feet, fs, loc, start, main, k - 1);
        let w = foot_writes(k, fs, loc, start, main);
        assert(w.drop_last() =~= foot_writes(k - 1, fs, loc, start, main));
        let s1 = apply_writes(base, foot_writes(k - 1, fs, loc, start, main));
        let pos = start + (k - 1) * fs + loc;
        lemma_foot_positions(k - 1, main, fs, loc, feet);
        assert(w.last() == (pos, foot_stress(k - 1, main)));
        assert(apply_writes(base, w) == s1.update(pos, foot_stress(k - 1, main)));
    }
}

/// A word without stress marks, at least a foot long, gets exactly one
/// primary stress under a patterned system whose stress lies within the
/// foot: on the first foot's stressed syllable when the main stress is
/// first, on the last foot's when it is last.
pub proof fn lemma_patterned_one_primary(sys: IpaSystemView, ws: Seq<SyllableView>, pat: PatternedConfig)
    requires
        location_rank(pat.stress_location) <= foot_len(pat.foot),
        ws.len() >= foot_len(pat.foot),
        stress_anchor(stresses(ws)) is None,
    ensures
        ({
            let st = spec_patterned(sys, ws, pat);
            let n = ws.len() as int;
            let fs = foot_len(pat.foot);
            let loc = location_rank(pat.stress_location) - 1;
            let q = match pat.main_stress {
                MainStress::First => loc,
                MainStress::Last => n - fs + loc,
            };
            &&& st.len() == n
            &&& st[q] == SyllableStress::PrimaryStress
            &&& forall|j: int| 0 <= j < n && j != q ==> st[j] != SyllableStress::PrimaryStress
        }),
{
    let n = ws.len() as int;
    let fs = foot_len(pat.foot);
    let loc = location_rank(pat.stress_location) - 1;
    lemma_feet_rem(fs, n);
    let feet = n / fs;
    let rem = n % fs;
    assert(feet >= 1) by (nonlinear_arith)
        requires
            n >= fs,
            fs >= 1,
            feet * fs + rem == n,
            0 <= rem < fs,
    ;
    match pat.main_stress {
        MainStress::First => {
            lemma_foot_writes_primary(n, feet, fs, loc, 0, 0, feet);
        },
        MainStress::Last => {
            lemma_foot_writes_primary(n, feet, fs, loc, rem, feet - 1, feet);
            assert(rem + (feet - 1) * fs + loc == n - fs + loc) by (nonlinear_arith)
                requires
                    feet * fs + rem == n,
            ;
        },
    }
}

} // verus!

verus! {

proof fn lemma_writes_effect(n: int, w: Seq<(int, SyllableStress)>)
    requires
        n >= 0,
        forall|k: int| 0 <= k < w.len() ==> (#[trigger] w[k]).1 == SyllableStress::PrimaryStress || w[k].1 == SyllableStress::SecondaryStress,
    ensures
        ({
            let st = apply_writes(Seq::new(n as nat, |i: int| SyllableStress::Unstressed), w);
            &&& st.len() == n
            &&& forall|j: int| 0 <= j < n ==> #[trigger] st[j] != SyllableStress::UnknownStress
            &&& forall|j: int| 0 <= j < n && #[trigger] st[j] == SyllableStress::PrimaryStress ==> exists|k: int|
                0 <= k < w.len() && #[trigger] w[k] == (j, SyllableStress::PrimaryStress)
            &&& forall|k: int| 0 <= k < w.len() && 0 <= (#[trigger] w[k]).0 < n && (forall|k2: int| k < k2 < w.len() ==> w[k2].0 != w[k].0)
                ==> st[w[k].0] == w[k].1
        }),
    decreases w.len(),
{
    let base = Seq::new(n as nat, |i: int| SyllableStress::Unstressed);
    if w.len() > 0 {
        let d = w.drop_last();
        assert forall|k: int| 0 <= k < d.len() implies (#[trigger] d[k]).1 == SyllableStress::PrimaryStress
            || d[k].1 == SyllableStress::SecondaryStress by {
            assert(d[k] == w[k]);
        }
        lemma_writes_effect(n, d);
        let s2 = apply_writes(base, d);
        let st = apply_writes(base, w);
        let last = w.len() - 1;
        assert(w.last() == w[last]);
        let i = w[last].0;
        assert forall|j: int| 0 <= j < n && #[trigger] st[j] == SyllableStress::PrimaryStress implies exists|k: int|
            0 <= k < w.len() && #[trigger] w[k] == (j, SyllableStress::PrimaryStress) by {
            if j == i {
                assert(w[last] == (j, SyllableStress::PrimaryStress));
            } else {
                assert(st[j] == s2[j]);
                let k = choose|k: int| 0 <= k < d.len() && #[trigger] d[k] == (j, SyllableStress::PrimaryStress);
                assert(w[k] == d[k]);
            }
        }
        assert forall|k: int| 0 <= k < w.len() && 0 <= (#[trigger] w[k]).0 < n && (forall|k2: int| k < k2 < w.len() ==> w[k2].0 != w[k].0)
            implies st[w[k].0] == w[k].1 by {
            if k < last {
                assert(w[k] == d[k]);
                assert(w[last].0 != w[k].0);
                assert forall|k2: int| k < k2 < d.len() implies d[k2].0 != d[k].0 by {
                    assert(d[k2] == w[k2]);
                }
            }
        }
        assert forall|j: int| 0 <= j < n implies #[trigger] st[j] != SyllableStress::UnknownStress by {
            if j != i {
                assert(st[j] == s2[j]);
            }
        }
    }
}

proof fn lemma_later_foot(k: int, pf: int, fs: int, loc: int, start: int, p: int)
    by (nonlinear_arith)
    requires
        fs >= 1,
        0 <= loc,
        k > pf,
        p < start + pf * fs + fs,
    ensures
        start + k * fs + loc > p,
{
}

proof fn lemma_earlier_foot(k: int, pf: int, fs: int, loc: int, start: int, p: int)
    by (nonlinear_arith)
    requires
        fs >= 1,
        0 <= loc < fs,
        k < pf,
        start + pf * fs <= p,
    ensures
        start + k * fs + loc < p,
{
}

proof fn lemma_foot_index_bound(pf: int, feet: int, fs: int, x: int)
    by (nonlinear_arith)
    requires
        fs >= 1,
        pf * fs <= x < feet * fs,
    ensures
        pf < feet,
{
}

/// Stresses where `p` alone is primary and none is unknown.
pub open spec fn primary_only_at(st: Seq<SyllableStress>, n: int, p: int) -> bool {
    &&& st.len() == n
    &&& 0 <= p < n
    &&& st[p] == SyllableStress::PrimaryStress
    &&& forall|j: int| 0 <= j < n && j != p ==> #[trigger] st[j] != SyllableStress::PrimaryStress
    &&& forall|j: int| 0 <= j < n ==> #[trigger] st[j] != SyllableStress::UnknownStress
}

proof fn lemma_first_anchored(n: int, fs: int, loc: int, p: int)
    requires
        fs >= 1,
        0 <= loc < fs,
        n >= fs,
        0 <= p < n,
    ensures
        primary_only_at(
            apply_writes(
                Seq::new(n as nat, |i: int| SyllableStress::Unstressed),
                anchored_writes(n / fs, fs, loc, 0, p, p / fs) + (if p / fs >= n / fs {
                    seq![(p, SyllableStress::PrimaryStress)]
                } else {
                    Seq::empty()
                }),
            ),
            n,
            p,
        ),
{
    let P = SyllableStress::PrimaryStress;
    let S = SyllableStress::SecondaryStress;
    lemma_feet_rem(fs, n);
    lemma_feet_rem(fs, p);
    let feet = n / fs;
    let pf = p / fs;
    let extra = if pf >= feet { seq![(p, P)] } else { Seq::empty() };
    let aw = anchored_writes(feet, fs, loc, 0, p, pf);
    let w = aw + extra;
    assert forall|k: int| 0 <= k < w.len() implies (#[trigger] w[k]).1 == P || w[k].1 == S by {
        if k < feet {
            assert(w[k] == aw[k]);
        } else {
            assert(w[k] == extra[k - feet]);
        }
    }
    lemma_writes_effect(n, w);
    let st = apply_writes(Seq::new(n as nat, |i: int| SyllableStress::Unstressed), w);
    let kp = if pf < feet { pf } else { feet };
    if pf < feet {
        assert(w[kp] == aw[kp]);
    } else {
        assert(w[kp] == extra[0]);
    }
    assert forall|k2: int| kp < k2 < w.len() implies (#[trigger] w[k2]).0 != w[kp].0 by {
        assert(w[k2] == aw[k2]);
        lemma_later_foot(k2, pf, fs, loc, 0, p);
    }
    assert(st[p] == P);
    assert forall|j: int| 0 <= j < n && j != p implies #[trigger] st[j] != P by {
        if st[j] == P {
            let k = choose|k: int| 0 <= k < w.len() && #[trigger] w[k] == (j, P);
            if k < feet {
                assert(w[k] == aw[k]);
            } else {
                assert(w[k] == extra[k - feet]);
            }
        }
    }
}

proof fn lemma_last_before_feet(n: int, fs: int, loc: int, p: int)
    requires
        fs >= 1,
        0 <= loc < fs,
        n >= fs,
        0 <= p < n % fs,
    ensures
        primary_only_at(
            apply_writes(
                Seq::new(n as nat, |i: int| SyllableStress::Unstressed),
                seq![(p, SyllableStress::PrimaryStress)] + foot_writes(n / fs, fs, loc, n % fs, -1),
            ),
            n,
            p,
        ),
{
    let P = SyllableStress::PrimaryStress;
    let S = SyllableStress::SecondaryStress;
    lemma_feet_rem(fs, n);
    let fw = foot_writes(n / fs, fs, loc, n % fs, -1);
    let w = seq![(p, P)] + fw;
    assert forall|k: int| 0 <= k < w.len() implies (#[trigger] w[k]).1 == P || w[k].1 == S by {
        if k > 0 {
            assert(w[k] == fw[k - 1]);
        }
    }
    lemma_writes_effect(n, w);
    let st = apply_writes(Seq::new(n as nat, |i: int| SyllableStress::Unstressed), w);
    assert(w[0] == (p, P));
    assert forall|k2: int| 0 < k2 < w.len() implies (#[trigger] w[k2]).0 != w[0].0 by {
        assert(w[k2] == fw[k2 - 1]);
        lemma_later_foot(k2 - 1, -1, fs, loc, n % fs, p);
    }
    assert(st[p] == P);
    assert forall|j: int| 0 <= j < n && j != p implies #[trigger] st[j] != P by {
        if st[j] == P {
            let k = choose|k: int| 0 <= k < w.len() && #[trigger] w[k] == (j, P);
            if k > 0 {
                assert(w[k] == fw[k - 1]);
            }
        }
    }
}

proof fn lemma_last_anchored(n: int, fs: int, loc: int, p: int)
    requires
        fs >= 1,
        0 <= loc < fs,
        n >= fs,
        n % fs <= p < n,
    ensures
        primary_only_at(
            apply_writes(
                Seq::new(n as nat, |i: int| SyllableStress::Unstressed),
                anchored_writes(n / fs, fs, loc, n % fs, p, (p - n % fs) / fs),
            ),
            n,
            p,
        ),
{
    let P = SyllableStress::PrimaryStress;
    lemma_feet_rem(fs, n);
    let feet = n / fs;
    let rem = n % fs;
    lemma_feet_rem(fs, p - rem);
    let pf = (p - rem) / fs;
    lemma_foot_index_bound(pf, feet, fs, p - rem);
    let w = anchored_writes(feet, fs, loc, rem, p, pf);
    lemma_writes_effect(n, w);
    let st = apply_writes(Seq::new(n as nat, |i: int| SyllableStress::Unstressed), w);
    assert forall|k2: int| pf < k2 < w.len() implies (#[trigger] w[k2]).0 != w[pf].0 by {
        lemma_later_foot(k2, pf, fs, loc, rem, p);
    }
    assert(st[p] == P);
    assert forall|j: int| 0 <= j < n && j != p implies #[trigger] st[j] != P by {
        if st[j] == P {
            let k = choose|k: int| 0 <= k < w.len() && #[trigger] w[k] == (j, P);
            if k < pf {
                lemma_earlier_foot(k, pf, fs, loc, rem, p);
            } else if k > pf {
                lemma_later_foot(k, pf, fs, loc, rem, p);
            }
        }
    }
}

/// Under a patterned system whose stress lies within the foot, a word at
/// least a foot long gets exactly one primary stress, and every other
/// syllable a secondary stress or none (no stress is left unknown); where
/// the word marks a primary stress (else a secondary one), the first
/// syllable so marked is the one that gets the primary.
pub proof fn lemma_patterned_stress_placed(sys: IpaSystemView, ws: Seq<SyllableView>, pat: PatternedConfig)
    requires
        location_rank(pat.stress_location) <= foot_len(pat.foot),
        ws.len() >= foot_len(pat.foot),
    ensures
        ({
            let st = spec_patterned(sys, ws, pat);
            &&& st.len() == ws.len()
            &&& forall|j: int| 0 <= j < ws.len() ==> #[trigger] st[j] != SyllableStress::UnknownStress
            &&& exists|q: int| #[trigger] primary_only_at(st, ws.len() as int, q)
            &&& stress_anchor(stresses(ws)) matches Some(p) ==> primary_only_at(st, ws.len() as int, p)
        }),
{
    let n = ws.len() as int;
    let fs = foot_len(pat.foot);
    let loc = location_rank(pat.stress_location) - 1;
    lemma_feet_rem(fs, n);
    let feet = n / fs;
    let rem = n % fs;
    let st = spec_patterned(sys, ws, pat);
    match stress_anchor(stresses(ws)) {
        None => {
            lemma_patterned_one_primary(sys, ws, pat);
            let (w, q) = match pat.main_stress {
                MainStress::First => (foot_writes(feet, fs, loc, 0, 0), loc),
                MainStress::Last => (foot_writes(feet, fs, loc, rem, feet - 1), n - fs + loc),
            };
            lemma_writes_effect(n, w);
            assert(primary_only_at(st, n, q));
        },
        Some(p) => {
            lemma_anchor_bound(stresses(ws));
            match pat.main_stress {
                MainStress::First => lemma_first_anchored(n, fs, loc, p),
                MainStress::Last => if p < rem {
                    lemma_last_before_feet(n, fs, loc, p);
                } else {
                    lemma_last_anchored(n, fs, loc, p);
                },
            }
            assert(primary_only_at(st, n, p));
        },
    }
}

/// Under an alternating system, a word of two or more syllables without a
/// stress mark gets its primary stress on the syllable that the option
/// names: the first, the second, the third from last (the first when there
/// are only two), the second from last, or the last; from there every
/// second syllable gets a secondary stress and the others none.
pub proof fn lemma_alternating_places_primary(
    sys: IpaSystemView,
    ws: Seq<SyllableView>,
    option: AlternatingConfig,
    open_mono: Option<bool>,
    sample: int,
)
    requires
        ws.len() >= 2,
        stress_anchor(stresses(ws)) is None,
    ensures
        ({
            let n = ws.len() as int;
            let q = match option {
                AlternatingConfig::FirstSyllable => 0,
                AlternatingConfig::SecondSyllable => 1,
                AlternatingConfig::Antepenultimate => if n >= 3 { n - 3 } else { 0 },
                AlternatingConfig::Penultimate => n - 2,
                AlternatingConfig::Ultimate => n - 1,
            };
            let st = spec_prosody_stresses(
                sys,
                ProsodicConfig::Alternating { option, stress_open_monosyllables: open_mono },
                ws,
                sample,
            );
            &&& st.len() == n
            &&& st[q] == SyllableStress::PrimaryStress
            &&& forall|j: int| 0 <= j < n && j != q ==> #[trigger] st[j] != SyllableStress::PrimaryStress
            &&& forall|j: int| 0 <= j < n && j != q ==> (#[trigger] st[j] == SyllableStress::SecondaryStress
                <==> (if j >= q { j - q } else { q - j }) % 2 == 0)
            &&& forall|j: int| 0 <= j < n && j != q ==> (#[trigger] st[j] == SyllableStress::SecondaryStress
                || st[j] == SyllableStress::Unstressed)
        }),
{
    let n = ws.len() as int;
    let q = alternating_target(option, n);
    lemma_alternating_one_primary(n, q);
}

} // verus!
