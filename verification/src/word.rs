//! Syllabification of an IPA text straight from its symbols: the text is cut
//! into the longest known symbols, grouped at explicit breaks and stress
//! marks, and each group is split between its vowels.

use crate::data::{IpaEntry, IpaEntryView, SpeFeature, SpeFeatureView};
use crate::feature::{spec_feature_name, Feature};
use crate::ipa_string::IpaString;
use crate::ipa_system::{contains_feature, spec_get_entry, spec_phoneme_data, IpaSystem, IpaSystemView};
use crate::sequence::concat_texts;
use crate::text::{chars_of, str_eq, string_range};
use vstd::prelude::*;

verus! {

/// The stress of a syllable.
#[derive(PartialEq, Eq, Structural, Clone, Copy, Debug)]
pub enum Stress {
    Unstressed,
    PrimaryStress,
    SecondaryStress,
}

/// A syllable: its stress and its phoneme texts.
pub struct Syllable {
    pub stress: Stress,
    pub phonemes: Vec<String>,
}

/// The model of a syllable.
pub struct SyllableView {
    pub stress: Stress,
    pub phonemes: Seq<Seq<char>>,
}

impl View for Syllable {
    type V = SyllableView;

    open spec fn view(&self) -> SyllableView {
        SyllableView { stress: self.stress, phonemes: crate::data::strings_view(self.phonemes@) }
    }
}

/// A word: its syllables in order.
pub struct IpaWord {
    pub syllables: Vec<Syllable>,
}

impl View for IpaWord {
    type V = Seq<SyllableView>;

    open spec fn view(&self) -> Seq<SyllableView> {
        self.syllables@.map_values(|s: Syllable| s@)
    }
}

// ----- cutting the text into segments -----

/// Whether a segment begins with a break or stress mark.
pub open spec fn starts_with_mark(s: Seq<char>) -> bool {
    s.len() > 0 && (s[0] == '.' || s[0] == 'ˈ' || s[0] == 'ˌ')
}

/// Whether a text is a known symbol: an entry of the system, or a length
/// mark, or `w`.
pub open spec fn known_symbol(sys: IpaSystemView, t: Seq<char>) -> bool {
    spec_get_entry(sys, t) is Some || t == seq!['ː'] || t == seq!['ˑ'] || t == seq!['w']
}

/// The length of the longest known symbol of at most `len` characters at `i`;
/// 0 if there is none.
pub open spec fn longest_known(sys: IpaSystemView, cs: Seq<char>, i: int, len: int) -> int
    decreases len,
{
    if len <= 0 {
        0
    } else if known_symbol(sys, cs.subrange(i, i + len)) {
        len
    } else {
        longest_known(sys, cs, i, len - 1)
    }
}

/// Whether a text is a modifier entry of the system.
pub open spec fn is_modifier_symbol(sys: IpaSystemView, t: Seq<char>) -> bool {
    spec_get_entry(sys, t) matches Some(IpaEntryView::Modifier(_))
}

/// The segments after a symbol is read: a modifier joins the segment before
/// it unless that one is a mark; anything else is a segment of its own.
pub open spec fn add_symbol(sys: IpaSystemView, acc: Seq<Seq<char>>, t: Seq<char>) -> Seq<Seq<char>> {
    if is_modifier_symbol(sys, t) && acc.len() > 0 && !starts_with_mark(acc.last()) {
        acc.drop_last().push(acc.last() + t)
    } else {
        acc.push(t)
    }
}

pub proof fn lemma_longest_known_bounds(sys: IpaSystemView, cs: Seq<char>, i: int, len: int)
    ensures
        0 <= longest_known(sys, cs, i, len),
        len >= 0 ==> longest_known(sys, cs, i, len) <= len,
    decreases len,
{
    if len > 0 {
        lemma_longest_known_bounds(sys, cs, i, len - 1);
    }
}

/// The segments of `cs` from `i` on, read after `acc`: `.` and a zero-width
/// space are breaks, `ˈ` and `'` primary stress, `ˌ` secondary stress; else
/// the longest known symbol is read, and a character that begins none is
/// skipped.
pub open spec fn segments_from(sys: IpaSystemView, cs: Seq<char>, i: int, acc: Seq<Seq<char>>) -> Seq<Seq<char>>
    decreases cs.len() - i,
{
    if i < 0 || i >= cs.len() {
        acc
    } else if cs[i] == '.' || cs[i] == '\u{200B}' {
        segments_from(sys, cs, i + 1, acc.push(seq!['.']))
    } else if cs[i] == 'ˈ' || cs[i] == '\'' {
        segments_from(sys, cs, i + 1, acc.push(seq!['ˈ']))
    } else if cs[i] == 'ˌ' {
        segments_from(sys, cs, i + 1, acc.push(seq!['ˌ']))
    } else {
        let l = longest_known(sys, cs, i, cs.len() - i);
        if l <= 0 {
            segments_from(sys, cs, i + 1, acc)
        } else {
            proof {
                lemma_longest_known_bounds(sys, cs, i, cs.len() - i);
            }
            segments_from(sys, cs, i + l, add_symbol(sys, acc, cs.subrange(i, i + l)))
        }
    }
}

// ----- grouping at marks -----

/// Whether a segment is a break or stress mark.
pub open spec fn is_mark(s: Seq<char>) -> bool {
    s == seq!['.'] || s == seq!['ˈ'] || s == seq!['ˌ']
}

/// The stress that a mark opens.
pub open spec fn mark_stress(s: Seq<char>) -> Stress {
    if s == seq!['ˈ'] {
        Stress::PrimaryStress
    } else if s == seq!['ˌ'] {
        Stress::SecondaryStress
    } else {
        Stress::Unstressed
    }
}

/// The groups found from `i` on: `cur` is the open group, with `stress`;
/// `out` the groups closed so far. A mark closes a non-empty open group.
pub open spec fn groups_from(
    segs: Seq<Seq<char>>,
    i: int,
    stress: Stress,
    cur: Seq<Seq<char>>,
    out: Seq<(Stress, Seq<Seq<char>>)>,
) -> Seq<(Stress, Seq<Seq<char>>)>
    decreases segs.len() - i,
{
    if i < 0 || i >= segs.len() {
        if cur.len() > 0 {
            out.push((stress, cur))
        } else {
            out
        }
    } else if is_mark(segs[i]) {
        let out2 = if cur.len() > 0 {
            out.push((stress, cur))
        } else {
            out
        };
        groups_from(segs, i + 1, mark_stress(segs[i]), Seq::empty(), out2)
    } else {
        groups_from(segs, i + 1, stress, cur.push(segs[i]), out)
    }
}

// ----- splitting a group between its vowels -----

/// Whether a symbol's phoneme data has a feature with a plus sign.
pub open spec fn symbol_has(sys: IpaSystemView, t: Seq<char>, f: Feature) -> bool {
    match spec_phoneme_data(sys, t) {
        Some(d) => d.features.contains(SpeFeatureView::Plus(spec_feature_name(f))),
        None => false,
    }
}

/// Whether a symbol is a vowel: its data is `+syllabic`.
pub open spec fn symbol_is_vowel(sys: IpaSystemView, t: Seq<char>) -> bool {
    symbol_has(sys, t, Feature::Syllabic)
}

/// Whether a symbol is a liquid: `+liquid`, `+rhotic` or `+lateral`.
pub open spec fn symbol_is_liquid(sys: IpaSystemView, t: Seq<char>) -> bool {
    symbol_has(sys, t, Feature::Liquid) || symbol_has(sys, t, Feature::Rhotic) || symbol_has(sys, t, Feature::Lateral)
}

/// The sonority of a symbol's data, or 0.
pub open spec fn symbol_sonority(sys: IpaSystemView, t: Seq<char>) -> int {
    match spec_phoneme_data(sys, t) {
        Some(d) => d.sonority,
        None => 0,
    }
}

/// Whether a symbol carries a length mark.
pub open spec fn is_long_symbol(t: Seq<char>) -> bool {
    t.contains('ː') || t.contains('ˑ')
}

/// The positions of the vowels among the first `k` segments of a group.
pub open spec fn vowel_positions(sys: IpaSystemView, g: Seq<Seq<char>>, k: int) -> Seq<int>
    decreases k,
{
    if k <= 0 {
        Seq::empty()
    } else {
        vowel_positions(sys, g, k - 1) + (if symbol_is_vowel(sys, g[k - 1]) {
            seq![k - 1]
        } else {
            Seq::empty()
        })
    }
}

/// Where a group is cut between its `k`-th and next vowel: two vowels are
/// split; one consonant goes with the next vowel unless it is a liquid or
/// rhotic, or the first vowel of a stressed group is short; of two, the
/// first stays back unless it is less sonorous; of three, one stays; of four,
/// two; of more, half.
pub open spec fn break_index(sys: IpaSystemView, g: Seq<Seq<char>>, stress: Stress, vs: Seq<int>, k: int) -> int {
    let v1 = vs[k];
    let v2 = vs[k + 1];
    let between = v2 - v1 - 1;
    if between == 0 {
        v1 + 1
    } else if between == 1 {
        let is_short = !is_long_symbol(g[v1]);
        let is_stressed = stress != Stress::Unstressed && k == 0;
        let c = g[v1 + 1];
        if symbol_is_liquid(sys, c) || symbol_has(sys, c, Feature::Rhotic) || (is_short && is_stressed) {
            v1 + 2
        } else {
            v1 + 1
        }
    } else if between == 2 {
        if symbol_sonority(sys, g[v1 + 1]) < symbol_sonority(sys, g[v1 + 2]) {
            v1 + 1
        } else {
            v1 + 2
        }
    } else if between == 3 {
        v1 + 2
    } else if between == 4 {
        v1 + 3
    } else {
        v1 + between / 2 + 1
    }
}

/// The cuts of a group, one between each two of its vowels.
pub open spec fn group_breaks(sys: IpaSystemView, g: Seq<Seq<char>>, stress: Stress) -> Seq<int> {
    let vs = vowel_positions(sys, g, g.len() as int);
    Seq::new((vs.len() - 1) as nat, |k: int| break_index(sys, g, stress, vs, k))
}

/// The pieces of a group cut at `bs`: the first keeps the group's stress.
pub open spec fn cut_pieces(g: Seq<Seq<char>>, stress: Stress, bs: Seq<int>) -> Seq<SyllableView> {
    Seq::new(bs.len() + 1, |k: int| SyllableView {
        stress: if k == 0 { stress } else { Stress::Unstressed },
        phonemes: g.subrange(if k == 0 { 0 } else { bs[k - 1] }, if k < bs.len() { bs[k] } else { g.len() as int }),
    })
}

/// The syllables of a group: itself when it has at most one vowel, else its
/// pieces cut between the vowels.
pub open spec fn split_group(sys: IpaSystemView, stress: Stress, g: Seq<Seq<char>>) -> Seq<SyllableView> {
    if vowel_positions(sys, g, g.len() as int).len() <= 1 {
        seq![SyllableView { stress, phonemes: g }]
    } else {
        cut_pieces(g, stress, group_breaks(sys, g, stress))
    }
}

/// The syllables of groups, in order.
pub open spec fn split_groups(sys: IpaSystemView, gs: Seq<(Stress, Seq<Seq<char>>)>) -> Seq<SyllableView>
    decreases gs.len(),
{
    if gs.len() == 0 {
        Seq::empty()
    } else {
        split_groups(sys, gs.drop_last()) + split_group(sys, gs.last().0, gs.last().1)
    }
}

/// The segments of a text.
pub open spec fn spec_segments(sys: IpaSystemView, cs: Seq<char>) -> Seq<Seq<char>> {
    segments_from(sys, cs, 0, Seq::empty())
}

/// The groups of a text's segments.
pub open spec fn spec_groups(sys: IpaSystemView, cs: Seq<char>) -> Seq<(Stress, Seq<Seq<char>>)> {
    groups_from(spec_segments(sys, cs), 0, Stress::Unstressed, Seq::empty(), Seq::empty())
}

/// The syllables of a text.
pub open spec fn spec_syllabify_text(sys: IpaSystemView, cs: Seq<char>) -> Seq<SyllableView> {
    split_groups(sys, spec_groups(sys, cs))
}

// ----- reading -----

/// Whether a symbol's phoneme data has a feature with a plus sign.
fn has_plus(system: &IpaSystem, t: &str, f: Feature) -> (r: bool)
    ensures
        r == symbol_has(system@, t@, f),
{
    match system.get_phoneme_data(t) {
        Some(d) => contains_feature(&d.features, &SpeFeature::Plus(String::from_str(f.name()))),
        None => false,
    }
}

/// The sonority of a symbol's data, or 0.
fn sonority_of(system: &IpaSystem, t: &str) -> (r: i32)
    ensures
        r as int == symbol_sonority(system@, t@),
{
    match system.get_phoneme_data(t) {
        Some(d) => d.sonority,
        None => 0,
    }
}

/// Whether a symbol carries a length mark.
fn is_long(t: &str) -> (r: bool)
    ensures
        r == is_long_symbol(t@),
{
    let cs = chars_of(t);
    let mut i: usize = 0;
    while i < cs.len()
        invariant
            cs@ == t@,
            i <= cs.len(),
            forall|j: int| 0 <= j < i ==> cs@[j] != 'ː' && cs@[j] != 'ˑ',
        decreases cs.len() - i,
    {
        if cs[i] == 'ː' || cs[i] == 'ˑ' {
            assert(t@[i as int] == cs@[i as int]);
            return true;
        }
        i = i + 1;
    }
    false
}

/// Whether a text is a known symbol.
fn is_known(system: &IpaSystem, t: &str) -> (r: bool)
    ensures
        r == known_symbol(system@, t@),
{
    proof {
        reveal_strlit("ː");
        reveal_strlit("ˑ");
        reveal_strlit("w");
        assert("ː"@ =~= seq!['ː']);
        assert("ˑ"@ =~= seq!['ˑ']);
        assert("w"@ =~= seq!['w']);
    }
    system.get_entry(t).is_some() || str_eq(t, "ː") || str_eq(t, "ˑ") || str_eq(t, "w")
}

/// Whether a segment begins with a break or stress mark.
fn begins_with_mark(t: &String) -> (r: bool)
    ensures
        r == starts_with_mark(t@),
{
    let cs = chars_of(t.as_str());
    cs.len() > 0 && (cs[0] == '.' || cs[0] == 'ˈ' || cs[0] == 'ˌ')
}

proof fn lemma_push_view(ss: Seq<String>, x: String)
    ensures
        crate::data::strings_view(ss.push(x)) == crate::data::strings_view(ss).push(x@),
{
    assert(crate::data::strings_view(ss.push(x)) =~= crate::data::strings_view(ss).push(x@));
}

/// Adds a symbol to the segments read so far.
fn add_symbol_exec(system: &IpaSystem, segs: &mut Vec<String>, t: String)
    ensures
        crate::data::strings_view(final(segs)@) == add_symbol(system@, crate::data::strings_view(old(segs)@), t@),
{
    let ghost sv = crate::data::strings_view(segs@);
    let is_modifier = match system.get_entry(t.as_str()) {
        Some(IpaEntry::Modifier(_)) => true,
        _ => false,
    };
    if is_modifier && segs.len() > 0 && !begins_with_mark(&segs[segs.len() - 1]) {
        assert(sv.last() == segs@[segs@.len() - 1]@);
        let mut last = segs.pop().unwrap();
        last.append(t.as_str());
        let ghost shortened = segs@;
        segs.push(last);
        proof {
            lemma_push_view(shortened, last);
            assert(crate::data::strings_view(shortened) =~= sv.drop_last());
        }
    } else {
        let ghost before = segs@;
        segs.push(t);
        proof {
            lemma_push_view(before, t);
        }
    }
}

/// Pushes a mark segment.
fn push_mark(segs: &mut Vec<String>, m: &str)
    ensures
        crate::data::strings_view(final(segs)@) == crate::data::strings_view(old(segs)@).push(m@),
{
    let ghost before = segs@;
    let s = String::from_str(m);
    segs.push(s);
    proof {
        lemma_push_view(before, s);
    }
}

/// Cuts a text into segments.
fn read_segments(system: &IpaSystem, cs: &Vec<char>) -> (segs: Vec<String>)
    ensures
        crate::data::strings_view(segs@) == spec_segments(system@, cs@),
{
    let ghost sys = system@;
    let n = cs.len();
    let mut segs: Vec<String> = Vec::new();
    let mut i: usize = 0;
    assert(crate::data::strings_view(segs@) =~= Seq::<Seq<char>>::empty());
    while i < n
        invariant
            sys == system@,
            n == cs.len(),
            i <= n,
            spec_segments(sys, cs@) == segments_from(sys, cs@, i as int, crate::data::strings_view(segs@)),
        decreases n - i,
    {
        let c = cs[i];
        if c == '.' || c == '\u{200B}' {
            proof {
                reveal_strlit(".");
                assert("."@ =~= seq!['.']);
            }
            push_mark(&mut segs, ".");
            i = i + 1;
        } else if c == 'ˈ' || c == '\'' {
            proof {
                reveal_strlit("ˈ");
                assert("ˈ"@ =~= seq!['ˈ']);
            }
            push_mark(&mut segs, "ˈ");
            i = i + 1;
        } else if c == 'ˌ' {
            proof {
                reveal_strlit("ˌ");
                assert("ˌ"@ =~= seq!['ˌ']);
            }
            push_mark(&mut segs, "ˌ");
            i = i + 1;
        } else {
            let mut len: usize = n - i;
            while len > 0
                invariant
                    sys == system@,
                    n == cs.len(),
                    i < n,
                    len <= n - i,
                    longest_known(sys, cs@, i as int, (n - i) as int) == longest_known(sys, cs@, i as int, len as int),
                ensures
                    longest_known(sys, cs@, i as int, (n - i) as int) == longest_known(sys, cs@, i as int, len as int),
                    len == 0 || known_symbol(sys, cs@.subrange(i as int, i + len)),
                decreases len,
            {
                let t = string_range(cs.as_slice(), i, i + len);
                if is_known(system, t.as_str()) {
                    break;
                }
                len = len - 1;
            }
            proof {
                lemma_longest_known_bounds(sys, cs@, i as int, len as int);
            }
            if len == 0 {
                i = i + 1;
            } else {
                let t = string_range(cs.as_slice(), i, i + len);
                add_symbol_exec(system, &mut segs, t);
                i = i + len;
            }
        }
    }
    segs
}

// ----- grouping -----

/// The models of groups.
pub open spec fn groups_view(gs: Seq<(Stress, Vec<String>)>) -> Seq<(Stress, Seq<Seq<char>>)> {
    gs.map_values(|p: (Stress, Vec<String>)| (p.0, crate::data::strings_view(p.1@)))
}

/// Groups segments at marks.
fn group_segments(segs: &Vec<String>) -> (gs: Vec<(Stress, Vec<String>)>)
    ensures
        groups_view(gs@) == groups_from(crate::data::strings_view(segs@), 0, Stress::Unstressed, Seq::empty(), Seq::empty()),
{
    let ghost sv = crate::data::strings_view(segs@);
    let mut out: Vec<(Stress, Vec<String>)> = Vec::new();
    let mut cur: Vec<String> = Vec::new();
    let mut stress = Stress::Unstressed;
    let mut i: usize = 0;
    assert(groups_view(out@) =~= Seq::<(Stress, Seq<Seq<char>>)>::empty());
    assert(crate::data::strings_view(cur@) =~= Seq::<Seq<char>>::empty());
    proof {
        reveal_strlit(".");
        reveal_strlit("ˈ");
        reveal_strlit("ˌ");
        assert("."@ =~= seq!['.']);
        assert("ˈ"@ =~= seq!['ˈ']);
        assert("ˌ"@ =~= seq!['ˌ']);
    }
    while i < segs.len()
        invariant
            sv == crate::data::strings_view(segs@),
            i <= segs.len(),
            "."@ == seq!['.'],
            "ˈ"@ == seq!['ˈ'],
            "ˌ"@ == seq!['ˌ'],
            groups_from(sv, 0, Stress::Unstressed, Seq::empty(), Seq::empty())
                == groups_from(sv, i as int, stress, crate::data::strings_view(cur@), groups_view(out@)),
        decreases segs.len() - i,
    {
        let seg = &segs[i];
        assert(sv[i as int] == seg@);
        let is_break = str_eq(seg.as_str(), ".");
        let is_primary = str_eq(seg.as_str(), "ˈ");
        let is_secondary = str_eq(seg.as_str(), "ˌ");
        if is_break || is_primary || is_secondary {
            if cur.len() > 0 {
                let ghost before = out@;
                let ghost cv = crate::data::strings_view(cur@);
                out.push((stress, cur));
                assert(groups_view(out@) =~= groups_view(before).push((stress, cv)));
                cur = Vec::new();
            }
            stress = if is_primary {
                Stress::PrimaryStress
            } else if is_secondary {
                Stress::SecondaryStress
            } else {
                Stress::Unstressed
            };
            assert(crate::data::strings_view(cur@) =~= Seq::<Seq<char>>::empty());
        } else {
            let ghost before = cur@;
            cur.push(seg.clone());
            proof {
                lemma_push_view(before, segs@[i as int]);
            }
        }
        i = i + 1;
    }
    if cur.len() > 0 {
        let ghost before = out@;
        let ghost cv = crate::data::strings_view(cur@);
        out.push((stress, cur));
        assert(groups_view(out@) =~= groups_view(before).push((stress, cv)));
    }
    out
}

// ----- splitting -----

/// The models of syllables.
pub open spec fn syllables_view(ss: Seq<Syllable>) -> Seq<SyllableView> {
    ss.map_values(|x: Syllable| x@)
}

/// Positions as integers.
pub open spec fn positions_view(v: Seq<usize>) -> Seq<int> {
    v.map_values(|x: usize| x as int)
}

pub proof fn lemma_vowel_positions(sys: IpaSystemView, g: Seq<Seq<char>>, k: int)
    requires
        0 <= k <= g.len(),
    ensures
        forall|j: int| 0 <= j < vowel_positions(sys, g, k).len() ==> 0 <= #[trigger] vowel_positions(sys, g, k)[j] < k,
        forall|a: int, b: int|
            0 <= a < b < vowel_positions(sys, g, k).len() ==> #[trigger] vowel_positions(sys, g, k)[a] < #[trigger] vowel_positions(sys, g, k)[b],
    decreases k,
{
    if k > 0 {
        lemma_vowel_positions(sys, g, k - 1);
        let p = vowel_positions(sys, g, k - 1);
        let v = vowel_positions(sys, g, k);
        assert forall|j: int| 0 <= j < v.len() implies 0 <= #[trigger] v[j] < k by {
            if j < p.len() {
                assert(v[j] == p[j]);
            }
        }
        assert forall|a: int, b: int| 0 <= a < b < v.len() implies #[trigger] v[a] < #[trigger] v[b] by {
            assert(v[a] == p[a]);
            if b < p.len() {
                assert(v[b] == p[b]);
            } else {
                assert(v[b] == k - 1);
            }
        }
    }
}

proof fn lemma_break_bounds(sys: IpaSystemView, g: Seq<Seq<char>>, stress: Stress, vs: Seq<int>, k: int)
    requires
        0 <= k < vs.len() - 1,
        vs[k] < vs[k + 1],
    ensures
        vs[k] < break_index(sys, g, stress, vs, k) <= vs[k + 1],
{
    let between = vs[k + 1] - vs[k] - 1;
    if between >= 5 {
        assert(between / 2 + 1 <= between);
    }
}

/// Copies `g[from..to]`.
fn strings_range(g: &Vec<String>, from: usize, to: usize) -> (r: Vec<String>)
    requires
        from <= to <= g.len(),
    ensures
        crate::data::strings_view(r@) == crate::data::strings_view(g@).subrange(from as int, to as int),
{
    let mut r: Vec<String> = Vec::new();
    let mut i = from;
    while i < to
        invariant
            from <= i <= to <= g.len(),
            crate::data::strings_view(r@) == crate::data::strings_view(g@).subrange(from as int, i as int),
        decreases to - i,
    {
        let ghost before = r@;
        r.push(g[i].clone());
        proof {
            lemma_push_view(before, g@[i as int]);
            assert(crate::data::strings_view(g@).subrange(from as int, i + 1) =~= crate::data::strings_view(g@).subrange(from as int, i as int).push(g@[i as int]@));
        }
        i = i + 1;
    }
    r
}

/// Where a group is cut between its `k`-th and next vowel.
fn break_at(system: &IpaSystem, g: &Vec<String>, stress: Stress, vs: &Vec<usize>, k: usize) -> (r: usize)
    requires
        k + 1 < vs.len(),
        vs[k as int] < vs[k + 1],
        vs[k + 1] < g.len(),
    ensures
        r as int == break_index(system@, crate::data::strings_view(g@), stress, positions_view(vs@), k as int),
{
    let ghost gv = crate::data::strings_view(g@);
    let v1 = vs[k];
    let v2 = vs[k + 1];
    let between = v2 - v1 - 1;
    assert(gv[v1 as int] == g@[v1 as int]@);
    if between == 0 {
        v1 + 1
    } else if between == 1 {
        assert(gv[v1 + 1] == g@[v1 + 1]@);
        let is_short = !is_long(g[v1].as_str());
        let is_stressed = stress != Stress::Unstressed && k == 0;
        let c = g[v1 + 1].as_str();
        if has_plus(system, c, Feature::Liquid) || has_plus(system, c, Feature::Rhotic) || has_plus(system, c, Feature::Lateral)
            || has_plus(system, c, Feature::Rhotic) || (is_short && is_stressed) {
            v1 + 2
        } else {
            v1 + 1
        }
    } else if between == 2 {
        assert(gv[v1 + 1] == g@[v1 + 1]@);
        assert(gv[v1 + 2] == g@[v1 + 2]@);
        if sonority_of(system, g[v1 + 1].as_str()) < sonority_of(system, g[v1 + 2].as_str()) {
            v1 + 1
        } else {
            v1 + 2
        }
    } else if between == 3 {
        v1 + 2
    } else if between == 4 {
        v1 + 3
    } else {
        v1 + between / 2 + 1
    }
}

/// Appends the syllables of a group.
fn split_into(system: &IpaSystem, stress: Stress, g: &Vec<String>, out: &mut Vec<Syllable>)
    ensures
        syllables_view(final(out)@) == syllables_view(old(out)@) + split_group(system@, stress, crate::data::strings_view(g@)),
{
    let ghost sys = system@;
    let ghost gv = crate::data::strings_view(g@);
    let ghost o0 = syllables_view(out@);
    let mut vs: Vec<usize> = Vec::new();
    let mut k: usize = 0;
    while k < g.len()
        invariant
            sys == system@,
            gv == crate::data::strings_view(g@),
            k <= g.len(),
            positions_view(vs@) == vowel_positions(sys, gv, k as int),
        decreases g.len() - k,
    {
        assert(gv[k as int] == g@[k as int]@);
        if has_plus(system, g[k].as_str(), Feature::Syllabic) {
            let ghost before = vs@;
            vs.push(k);
            assert(positions_view(vs@) =~= positions_view(before).push(k as int));
        }
        assert(positions_view(vs@) =~= vowel_positions(sys, gv, k + 1));
        k = k + 1;
    }
    let ghost vsv = positions_view(vs@);
    proof {
        lemma_vowel_positions(sys, gv, gv.len() as int);
    }
    if vs.len() <= 1 {
        let ghost before = out@;
        let syl = Syllable { stress, phonemes: strings_range(g, 0, g.len()) };
        assert(crate::data::strings_view(g@).subrange(0, g@.len() as int) =~= gv);
        out.push(syl);
        assert(syllables_view(out@) =~= syllables_view(before).push(syl@));
        return;
    }
    let ghost bsv = group_breaks(sys, gv, stress);
    let mut bs: Vec<usize> = Vec::new();
    let mut q: usize = 0;
    while q + 1 < vs.len()
        invariant
            sys == system@,
            gv == crate::data::strings_view(g@),
            vsv == positions_view(vs@),
            vsv == vowel_positions(sys, gv, gv.len() as int),
            vs.len() >= 2,
            bsv == group_breaks(sys, gv, stress),
            q + 1 <= vs.len(),
            positions_view(bs@) == bsv.take(q as int),
            forall|j: int| 0 <= j < vsv.len() ==> 0 <= #[trigger] vsv[j] < gv.len(),
            forall|a: int, b: int| 0 <= a < b < vsv.len() ==> #[trigger] vsv[a] < #[trigger] vsv[b],
        decreases vs.len() - q,
    {
        assert(vsv[q as int] < vsv[q + 1]);
        let b = break_at(system, g, stress, &vs, q);
        assert(bsv[q as int] == b as int);
        let ghost before = bs@;
        bs.push(b);
        assert(positions_view(bs@) =~= positions_view(before).push(b as int));
        assert(bsv.take(q + 1) =~= bsv.take(q as int).push(bsv[q as int]));
        q = q + 1;
    }
    assert(bsv.len() == vs.len() - 1);
    assert(positions_view(bs@) =~= bsv);
    proof {
        assert forall|j: int| 0 <= j < bsv.len() implies vsv[j] < #[trigger] bsv[j] <= vsv[j + 1] by {
            lemma_break_bounds(sys, gv, stress, vsv, j);
        }
    }
    let ghost pieces = cut_pieces(gv, stress, bsv);
    let mut start: usize = 0;
    let mut t: usize = 0;
    while t < bs.len()
        invariant
            gv == crate::data::strings_view(g@),
            positions_view(bs@) == bsv,
            bsv.len() + 1 == vsv.len(),
            pieces == cut_pieces(gv, stress, bsv),
            t <= bs.len(),
            start as int == (if t == 0 { 0 } else { bsv[t - 1] }),
            syllables_view(out@) == o0 + pieces.take(t as int),
            forall|j: int| 0 <= j < vsv.len() ==> 0 <= #[trigger] vsv[j] < gv.len(),
            forall|a: int, b: int| 0 <= a < b < vsv.len() ==> #[trigger] vsv[a] < #[trigger] vsv[b],
            forall|j: int| 0 <= j < bsv.len() ==> vsv[j] < #[trigger] bsv[j] <= vsv[j + 1],
        decreases bs.len() - t,
    {
        assert(bsv[t as int] == bs@[t as int] as int);
        if t > 0 {
            assert(vsv[t - 1] < vsv[t as int]);
        }
        let end = bs[t];
        let syl = Syllable {
            stress: if t == 0 { stress } else { Stress::Unstressed },
            phonemes: strings_range(g, start, end),
        };
        let ghost before = out@;
        out.push(syl);
        assert(syllables_view(out@) =~= syllables_view(before).push(syl@));
        assert(pieces.take(t + 1) =~= pieces.take(t as int).push(pieces[t as int]));
        start = end;
        t = t + 1;
    }
    assert(vsv[vsv.len() - 1] < gv.len());
    let syl = Syllable {
        stress: if bs.len() == 0 { stress } else { Stress::Unstressed },
        phonemes: strings_range(g, start, g.len()),
    };
    let ghost before = out@;
    out.push(syl);
    assert(syllables_view(out@) =~= syllables_view(before).push(syl@));
    assert(pieces =~= pieces.take(t as int).push(pieces[t as int]));
}

/// The model of a group list as the groups of the first `k`.
proof fn lemma_split_groups_step(sys: IpaSystemView, gs: Seq<(Stress, Seq<Seq<char>>)>, k: int)
    requires
        0 <= k < gs.len(),
    ensures
        split_groups(sys, gs.take(k + 1)) == split_groups(sys, gs.take(k)) + split_group(sys, gs[k].0, gs[k].1),
{
    assert(gs.take(k + 1).drop_last() =~= gs.take(k));
}

impl IpaWord {
    /// Syllabifies an IPA text: it is cut into the longest symbols that the
    /// system knows, grouped at breaks and stress marks, and each group with
    /// two or more vowels is cut between them.
    pub fn syllabify(ipa: &IpaString, system: &IpaSystem) -> (r: IpaWord)
        ensures
            r@ == spec_syllabify_text(system@, ipa@.raw),
    {
        let cs = chars_of(ipa.as_str());
        if cs.len() == 0 {
            let r = IpaWord { syllables: Vec::new() };
            assert(r@ =~= Seq::<SyllableView>::empty());
            return r;
        }
        let segs = read_segments(system, &cs);
        let groups = group_segments(&segs);
        let ghost gsv = groups_view(groups@);
        let mut out: Vec<Syllable> = Vec::new();
        let mut k: usize = 0;
        assert(gsv.take(0) =~= Seq::<(Stress, Seq<Seq<char>>)>::empty());
        assert(syllables_view(out@) =~= Seq::<SyllableView>::empty());
        while k < groups.len()
            invariant
                gsv == groups_view(groups@),
                k <= groups.len(),
                syllables_view(out@) == split_groups(system@, gsv.take(k as int)),
            decreases groups.len() - k,
        {
            proof {
                lemma_split_groups_step(system@, gsv, k as int);
            }
            split_into(system, groups[k].0, &groups[k].1, &mut out);
            k = k + 1;
        }
        assert(gsv.take(k as int) =~= gsv);
        let r = IpaWord { syllables: out };
        assert(r@ =~= syllables_view(out@));
        r
    }
}

// ----- text -----

/// The mark that a stress is written with.
pub open spec fn stress_mark_text(st: Stress) -> Seq<char> {
    match st {
        Stress::PrimaryStress => seq!['ˈ'],
        Stress::SecondaryStress => seq!['ˌ'],
        Stress::Unstressed => Seq::empty(),
    }
}

/// The text of a syllable: a `.` before an unstressed syllable that is not
/// the first, its stress mark, then its phonemes.
pub open spec fn syllable_text(syl: SyllableView, first: bool) -> Seq<char> {
    (if !first && syl.stress == Stress::Unstressed {
        seq!['.']
    } else {
        Seq::empty()
    }) + stress_mark_text(syl.stress) + crate::sequence::concat_texts(syl.phonemes)
}

/// The text of a word.
pub open spec fn word_text(ws: Seq<SyllableView>) -> Seq<char>
    decreases ws.len(),
{
    if ws.len() == 0 {
        Seq::empty()
    } else {
        word_text(ws.drop_last()) + syllable_text(ws.last(), ws.len() == 1)
    }
}

impl IpaWord {
    /// The text of the word, with `.` between syllables where no stress
    /// mark separates them.
    pub fn to_text(&self) -> (r: String)
        ensures
            r@ == word_text(self@),
    {
        let ghost wv = self@;
        let mut out = String::new();
        let mut i: usize = 0;
        proof {
            reveal_strlit(".");
            reveal_strlit("ˈ");
            reveal_strlit("ˌ");
        }
        assert(wv.take(0) =~= Seq::<SyllableView>::empty());
        while i < self.syllables.len()
            invariant
                wv == self@,
                i <= self.syllables.len(),
                out@ == word_text(wv.take(i as int)),
                "."@ == seq!['.'],
                "ˈ"@ == seq!['ˈ'],
                "ˌ"@ == seq!['ˌ'],
            decreases self.syllables.len() - i,
        {
            let syl = &self.syllables[i];
            assert(wv[i as int] == syl@);
            assert(wv.take(i + 1).drop_last() =~= wv.take(i as int));
            let ghost before = out@;
            if i > 0 && syl.stress == Stress::Unstressed {
                out.append(".");
            }
            match syl.stress {
                Stress::PrimaryStress => out.append("ˈ"),
                Stress::SecondaryStress => out.append("ˌ"),
                Stress::Unstressed => {},
            }
            let ghost marks = out@;
            let ghost pv = crate::data::strings_view(syl.phonemes@);
            let mut j: usize = 0;
            assert(pv.take(0) =~= Seq::<Seq<char>>::empty());
            assert(marks =~= marks + crate::sequence::concat_texts(pv.take(0)));
            while j < syl.phonemes.len()
                invariant
                    pv == crate::data::strings_view(syl.phonemes@),
                    j <= syl.phonemes.len(),
                    out@ == marks + crate::sequence::concat_texts(pv.take(j as int)),
                decreases syl.phonemes.len() - j,
            {
                assert(pv.take(j + 1).drop_last() =~= pv.take(j as int));
                assert(pv[j as int] == syl.phonemes@[j as int]@);
                out.append(syl.phonemes[j].as_str());
                j = j + 1;
            }
            assert(pv.take(j as int) =~= pv);
            assert(out@ =~= before + syllable_text(syl@, i + 1 == 1));
            i = i + 1;
        }
        assert(wv.take(i as int) =~= wv);
        out
    }
}

// ----- what syllabification keeps -----

/// The phonemes of syllables, in order.
pub open spec fn word_phonemes(ws: Seq<SyllableView>) -> Seq<Seq<char>>
    decreases ws.len(),
{
    if ws.len() == 0 {
        Seq::empty()
    } else {
        word_phonemes(ws.drop_last()) + ws.last().phonemes
    }
}

/// The phonemes of groups, in order.
pub open spec fn groups_phonemes(gs: Seq<(Stress, Seq<Seq<char>>)>) -> Seq<Seq<char>>
    decreases gs.len(),
{
    if gs.len() == 0 {
        Seq::empty()
    } else {
        groups_phonemes(gs.drop_last()) + gs.last().1
    }
}

proof fn lemma_word_phonemes_append(a: Seq<SyllableView>, b: Seq<SyllableView>)
    ensures
        word_phonemes(a + b) == word_phonemes(a) + word_phonemes(b),
    decreases b.len(),
{
    if b.len() == 0 {
        assert(a + b =~= a);
    } else {
        assert((a + b).drop_last() =~= a + b.drop_last());
        lemma_word_phonemes_append(a, b.drop_last());
    }
}

proof fn lemma_pieces_phonemes(g: Seq<Seq<char>>, stress: Stress, bs: Seq<int>, k: int)
    requires
        0 <= k <= bs.len(),
        forall|j: int| 0 <= j < bs.len() ==> 0 < #[trigger] bs[j] < g.len(),
        forall|a: int, b: int| 0 <= a < b < bs.len() ==> #[trigger] bs[a] < #[trigger] bs[b],
    ensures
        word_phonemes(cut_pieces(g, stress, bs).take(k)) == g.take(if k == 0 { 0 } else { bs[k - 1] }),
    decreases k,
{
    let ps = cut_pieces(g, stress, bs);
    if k == 0 {
        assert(ps.take(0) =~= Seq::<SyllableView>::empty());
        assert(g.take(0) =~= Seq::<Seq<char>>::empty());
    } else {
        lemma_pieces_phonemes(g, stress, bs, k - 1);
        assert(ps.take(k).drop_last() =~= ps.take(k - 1));
        let from = if k - 1 == 0 { 0 } else { bs[k - 2] };
        if k - 1 > 0 {
            assert(bs[k - 2] < bs[k - 1]);
        }
        assert(g.take(from) + g.subrange(from, bs[k - 1]) =~= g.take(bs[k - 1]));
    }
}

/// Syllabification keeps a group's phonemes, in order.
pub proof fn lemma_split_group_keeps_phonemes(sys: IpaSystemView, stress: Stress, g: Seq<Seq<char>>)
    ensures
        word_phonemes(split_group(sys, stress, g)) == g,
{
    let vs = vowel_positions(sys, g, g.len() as int);
    if vs.len() <= 1 {
        let one = seq![SyllableView { stress, phonemes: g }];
        assert(one.drop_last() =~= Seq::<SyllableView>::empty());
        assert(word_phonemes(one) == word_phonemes(one.drop_last()) + g);
        assert(Seq::<Seq<char>>::empty() + g =~= g);
    } else {
        lemma_vowel_positions(sys, g, g.len() as int);
        let bs = group_breaks(sys, g, stress);
        assert forall|j: int| 0 <= j < bs.len() implies vs[j] < #[trigger] bs[j] <= vs[j + 1] by {
            assert(vs[j] < vs[j + 1]);
            lemma_break_bounds(sys, g, stress, vs, j);
        }
        assert forall|a: int, b: int| 0 <= a < b < bs.len() implies #[trigger] bs[a] < #[trigger] bs[b] by {
            assert(bs[a] <= vs[a + 1]);
            if a + 1 < b {
                assert(vs[a + 1] < vs[b]);
            }
        }
        assert forall|j: int| 0 <= j < bs.len() implies 0 < #[trigger] bs[j] < g.len() by {
            assert(vs[j + 1] < g.len());
            assert(bs[j] > vs[j]);
        }
        let ps = cut_pieces(g, stress, bs);
        lemma_pieces_phonemes(g, stress, bs, bs.len() as int);
        let n = bs.len() as int;
        assert(ps.drop_last() =~= ps.take(n));
        assert(ps.last().phonemes == g.subrange(bs[n - 1], g.len() as int));
        assert(word_phonemes(ps) == word_phonemes(ps.take(n)) + ps.last().phonemes);
        assert(g.take(bs[n - 1]) + g.subrange(bs[n - 1], g.len() as int) =~= g);
    }
}

proof fn lemma_split_groups_keeps_phonemes(sys: IpaSystemView, gs: Seq<(Stress, Seq<Seq<char>>)>)
    ensures
        word_phonemes(split_groups(sys, gs)) == groups_phonemes(gs),
    decreases gs.len(),
{
    if gs.len() > 0 {
        lemma_split_groups_keeps_phonemes(sys, gs.drop_last());
        lemma_word_phonemes_append(split_groups(sys, gs.drop_last()), split_group(sys, gs.last().0, gs.last().1));
        lemma_split_group_keeps_phonemes(sys, gs.last().0, gs.last().1);
    }
}

/// Syllabifying a text keeps the phonemes of its groups, in order: cutting a
/// group between its vowels drops, repeats and moves none of them.
pub proof fn lemma_syllabify_keeps_group_phonemes(sys: IpaSystemView, cs: Seq<char>)
    ensures
        word_phonemes(spec_syllabify_text(sys, cs)) == groups_phonemes(spec_groups(sys, cs)),
{
    lemma_split_groups_keeps_phonemes(sys, spec_groups(sys, cs));
}

} // verus!

verus! {

/// Whether at most one of the symbols is a vowel.
pub open spec fn at_most_one_vowel(sys: IpaSystemView, ps: Seq<Seq<char>>) -> bool {
    forall|i: int, j: int|
        0 <= i < ps.len() && 0 <= j < ps.len() && symbol_is_vowel(sys, #[trigger] ps[i]) && symbol_is_vowel(sys, #[trigger] ps[j]) ==> i == j
}

/// Whether every syllable holds at least one symbol and at most one vowel.
pub open spec fn syllables_wf(sys: IpaSystemView, ws: Seq<SyllableView>) -> bool {
    forall|k: int| 0 <= k < ws.len() ==> (#[trigger] ws[k]).phonemes.len() > 0 && at_most_one_vowel(sys, ws[k].phonemes)
}

proof fn lemma_vowel_listed(sys: IpaSystemView, g: Seq<Seq<char>>, k: int, p: int)
    requires
        0 <= p < k <= g.len(),
        symbol_is_vowel(sys, g[p]),
    ensures
        vowel_positions(sys, g, k).contains(p),
    decreases k,
{
    let v = vowel_positions(sys, g, k);
    let q = vowel_positions(sys, g, k - 1);
    if p < k - 1 {
        lemma_vowel_listed(sys, g, k - 1, p);
        let a = choose|a: int| 0 <= a < q.len() && q[a] == p;
        assert(v[a] == q[a]);
    } else {
        assert(v[q.len() as int] == k - 1);
    }
}

proof fn lemma_groups_nonempty(
    segs: Seq<Seq<char>>,
    i: int,
    stress: Stress,
    cur: Seq<Seq<char>>,
    out: Seq<(Stress, Seq<Seq<char>>)>,
)
    requires
        forall|k: int| 0 <= k < out.len() ==> (#[trigger] out[k]).1.len() > 0,
    ensures
        forall|k: int| 0 <= k < groups_from(segs, i, stress, cur, out).len() ==> (#[trigger] groups_from(segs, i, stress, cur, out)[k]).1.len() > 0,
    decreases segs.len() - i,
{
    if i < 0 || i >= segs.len() {
        if cur.len() > 0 {
            assert forall|k: int| 0 <= k < out.push((stress, cur)).len() implies (#[trigger] out.push((stress, cur))[k]).1.len() > 0 by {
                if k < out.len() {
                    assert(out.push((stress, cur))[k] == out[k]);
                }
            }
        }
    } else if is_mark(segs[i]) {
        let out2 = if cur.len() > 0 {
            out.push((stress, cur))
        } else {
            out
        };
        assert forall|k: int| 0 <= k < out2.len() implies (#[trigger] out2[k]).1.len() > 0 by {
            if k < out.len() {
                assert(out2[k] == out[k]);
            }
        }
        lemma_groups_nonempty(segs, i + 1, mark_stress(segs[i]), Seq::empty(), out2);
        assert(groups_from(segs, i, stress, cur, out) == groups_from(segs, i + 1, mark_stress(segs[i]), Seq::empty(), out2));
    } else {
        lemma_groups_nonempty(segs, i + 1, stress, cur.push(segs[i]), out);
        assert(groups_from(segs, i, stress, cur, out) == groups_from(segs, i + 1, stress, cur.push(segs[i]), out));
    }
}

proof fn lemma_split_group_wf(sys: IpaSystemView, stress: Stress, g: Seq<Seq<char>>)
    requires
        g.len() > 0,
    ensures
        syllables_wf(sys, split_group(sys, stress, g)),
{
    let vs = vowel_positions(sys, g, g.len() as int);
    lemma_vowel_positions(sys, g, g.len() as int);
    if vs.len() <= 1 {
        let ws = split_group(sys, stress, g);
        assert forall|i: int, j: int|
            0 <= i < g.len() && 0 <= j < g.len() && symbol_is_vowel(sys, #[trigger] g[i]) && symbol_is_vowel(sys, #[trigger] g[j]) implies i == j by {
            lemma_vowel_listed(sys, g, g.len() as int, i);
            lemma_vowel_listed(sys, g, g.len() as int, j);
            let a = choose|a: int| 0 <= a < vs.len() && vs[a] == i;
            let b = choose|b: int| 0 <= b < vs.len() && vs[b] == j;
        }
        assert(ws[0].phonemes == g);
    } else {
        let bs = group_breaks(sys, g, stress);
        let m = vs.len();
        assert forall|k: int| 0 <= k < m - 1 implies vs[k] < #[trigger] bs[k] <= vs[k + 1] by {
            lemma_break_bounds(sys, g, stress, vs, k);
        }
        let ws = cut_pieces(g, stress, bs);
        assert forall|k: int| 0 <= k < ws.len() implies (#[trigger] ws[k]).phonemes.len() > 0 && at_most_one_vowel(sys, ws[k].phonemes) by {
            let lo = if k == 0 { 0 } else { bs[k - 1] };
            let hi = if k < bs.len() { bs[k] } else { g.len() as int };
            if k > 0 {
                assert(vs[k - 1] < bs[k - 1] <= vs[k]);
            }
            if k < bs.len() {
                assert(vs[k] < bs[k] <= vs[k + 1]);
            }
            assert(lo <= vs[k] < hi);
            assert(hi <= g.len());
            let ps = g.subrange(lo, hi);
            assert(ws[k].phonemes == ps);
            assert forall|i: int, j: int|
                0 <= i < ps.len() && 0 <= j < ps.len() && symbol_is_vowel(sys, #[trigger] ps[i]) && symbol_is_vowel(sys, #[trigger] ps[j]) implies i == j by {
                assert(ps[i] == g[lo + i] && ps[j] == g[lo + j]);
                lemma_vowel_listed(sys, g, g.len() as int, lo + i);
                lemma_vowel_listed(sys, g, g.len() as int, lo + j);
                let a = choose|a: int| 0 <= a < vs.len() && vs[a] == lo + i;
                let b = choose|b: int| 0 <= b < vs.len() && vs[b] == lo + j;
                if a < k {
                    assert(vs[a] <= vs[k - 1]);
                }
                if a > k {
                    assert(vs[a] >= vs[k + 1]);
                }
                if b < k {
                    assert(vs[b] <= vs[k - 1]);
                }
                if b > k {
                    assert(vs[b] >= vs[k + 1]);
                }
            }
        }
    }
}

proof fn lemma_split_groups_wf(sys: IpaSystemView, gs: Seq<(Stress, Seq<Seq<char>>)>)
    requires
        forall|k: int| 0 <= k < gs.len() ==> (#[trigger] gs[k]).1.len() > 0,
    ensures
        syllables_wf(sys, split_groups(sys, gs)),
    decreases gs.len(),
{
    if gs.len() > 0 {
        assert forall|k: int| 0 <= k < gs.drop_last().len() implies (#[trigger] gs.drop_last()[k]).1.len() > 0 by {
            assert(gs.drop_last()[k] == gs[k]);
        }
        lemma_split_groups_wf(sys, gs.drop_last());
        assert(gs[gs.len() - 1] == gs.last());
        lemma_split_group_wf(sys, gs.last().0, gs.last().1);
        let a = split_groups(sys, gs.drop_last());
        let b = split_group(sys, gs.last().0, gs.last().1);
        assert forall|k: int| 0 <= k < (a + b).len() implies (#[trigger] (a + b)[k]).phonemes.len() > 0 && at_most_one_vowel(sys, (a + b)[k].phonemes) by {
            if k < a.len() {
                assert((a + b)[k] == a[k]);
            } else {
                assert((a + b)[k] == b[k - a.len()]);
            }
        }
    }
}

/// Every syllable of a syllabified text holds at least one symbol and at
/// most one vowel.
pub proof fn lemma_syllables_hold_one_vowel_at_most(sys: IpaSystemView, cs: Seq<char>)
    ensures
        syllables_wf(sys, spec_syllabify_text(sys, cs)),
{
    lemma_groups_nonempty(spec_segments(sys, cs), 0, Stress::Unstressed, Seq::empty(), Seq::empty());
    lemma_split_groups_wf(sys, spec_groups(sys, cs));
}


/// The segments from `i` on that are no marks, in order.
pub open spec fn unmarked_from(segs: Seq<Seq<char>>, i: int) -> Seq<Seq<char>>
    decreases segs.len() - i,
{
    if i < 0 || i >= segs.len() {
        Seq::empty()
    } else if is_mark(segs[i]) {
        unmarked_from(segs, i + 1)
    } else {
        seq![segs[i]] + unmarked_from(segs, i + 1)
    }
}

proof fn lemma_groups_unmarked(
    segs: Seq<Seq<char>>,
    i: int,
    stress: Stress,
    cur: Seq<Seq<char>>,
    out: Seq<(Stress, Seq<Seq<char>>)>,
)
    requires
        0 <= i,
    ensures
        groups_phonemes(groups_from(segs, i, stress, cur, out)) == groups_phonemes(out) + cur + unmarked_from(segs, i),
    decreases segs.len() - i,
{
    if i >= segs.len() {
        if cur.len() > 0 {
            assert(out.push((stress, cur)).drop_last() =~= out);
            assert(groups_phonemes(out.push((stress, cur))) == groups_phonemes(out) + cur);
        }
        assert(groups_phonemes(out) + cur + Seq::<Seq<char>>::empty() =~= groups_phonemes(out) + cur);
        assert(cur.len() == 0 ==> groups_phonemes(out) + cur =~= groups_phonemes(out));
    } else if is_mark(segs[i]) {
        let out2 = if cur.len() > 0 {
            out.push((stress, cur))
        } else {
            out
        };
        if cur.len() > 0 {
            assert(out.push((stress, cur)).drop_last() =~= out);
        }
        assert(groups_phonemes(out2) =~= groups_phonemes(out) + cur);
        lemma_groups_unmarked(segs, i + 1, mark_stress(segs[i]), Seq::empty(), out2);
        assert(groups_from(segs, i, stress, cur, out) == groups_from(segs, i + 1, mark_stress(segs[i]), Seq::empty(), out2));
        assert(groups_phonemes(out2) + Seq::<Seq<char>>::empty() + unmarked_from(segs, i + 1) =~= groups_phonemes(out) + cur + unmarked_from(segs, i));
    } else {
        lemma_groups_unmarked(segs, i + 1, stress, cur.push(segs[i]), out);
        assert(groups_from(segs, i, stress, cur, out) == groups_from(segs, i + 1, stress, cur.push(segs[i]), out));
        assert(groups_phonemes(out) + cur.push(segs[i]) + unmarked_from(segs, i + 1)
            =~= groups_phonemes(out) + cur + (seq![segs[i]] + unmarked_from(segs, i + 1)));
    }
}

/// Syllabifying a text keeps its symbols, marks aside, in order: the
/// syllables' symbols are the text's segments without its stress marks and
/// syllable breaks.
pub proof fn lemma_syllabify_keeps_symbols(sys: IpaSystemView, cs: Seq<char>)
    ensures
        word_phonemes(spec_syllabify_text(sys, cs)) == unmarked_from(spec_segments(sys, cs), 0),
{
    lemma_syllabify_keeps_group_phonemes(sys, cs);
    lemma_groups_unmarked(spec_segments(sys, cs), 0, Stress::Unstressed, Seq::empty(), Seq::empty());
    assert(groups_phonemes(Seq::<(Stress, Seq<Seq<char>>)>::empty()) + Seq::<Seq<char>>::empty()
        + unmarked_from(spec_segments(sys, cs), 0) =~= unmarked_from(spec_segments(sys, cs), 0));
}

// ----- the characters that syllabification keeps -----

/// Whether a character is a stress mark or a syllable break of the text.
pub open spec fn is_text_mark(c: char) -> bool {
    c == '.' || c == '\u{200B}' || c == 'ˈ' || c == '\'' || c == 'ˌ'
}

/// The characters of `cs` from `i` on that are no mark, in order.
pub open spec fn unmarked_chars(cs: Seq<char>, i: int) -> Seq<char>
    decreases cs.len() - i,
{
    if i < 0 || i >= cs.len() {
        Seq::empty()
    } else if is_text_mark(cs[i]) {
        unmarked_chars(cs, i + 1)
    } else {
        seq![cs[i]] + unmarked_chars(cs, i + 1)
    }
}

/// Whether the reading of `cs` from `i` on passes over no character: each
/// is a mark, or starts a symbol that the system knows and that holds no
/// mark.
pub open spec fn reads_every_char(sys: IpaSystemView, cs: Seq<char>, i: int) -> bool
    decreases cs.len() - i,
{
    if i < 0 || i >= cs.len() {
        true
    } else if is_text_mark(cs[i]) {
        reads_every_char(sys, cs, i + 1)
    } else {
        let l = longest_known(sys, cs, i, cs.len() - i);
        &&& 0 < l
        &&& i + l <= cs.len()
        &&& forall|k: int| i <= k < i + l ==> !is_text_mark(#[trigger] cs[k])
        &&& reads_every_char(sys, cs, i + l)
    }
}

proof fn lemma_concat_texts_append(a: Seq<Seq<char>>, b: Seq<Seq<char>>)
    ensures
        concat_texts(a + b) == concat_texts(a) + concat_texts(b),
    decreases b.len(),
{
    if b.len() == 0 {
        assert(a + b =~= a);
        assert(concat_texts(a) + Seq::<char>::empty() =~= concat_texts(a));
    } else {
        assert((a + b).drop_last() =~= a + b.drop_last());
        lemma_concat_texts_append(a, b.drop_last());
        assert(concat_texts(a) + concat_texts(b.drop_last()) + b.last() =~= concat_texts(a) + (concat_texts(b.drop_last()) + b.last()));
    }
}

proof fn lemma_unmarked_push(a: Seq<Seq<char>>, t: Seq<char>, i: int)
    requires
        0 <= i <= a.len(),
    ensures
        unmarked_from(a.push(t), i) == unmarked_from(a, i) + (if is_mark(t) { Seq::empty() } else { seq![t] }),
    decreases a.len() - i,
{
    if i == a.len() {
        assert(a.push(t)[i] == t);
        assert(unmarked_from(a.push(t), i + 1) =~= Seq::<Seq<char>>::empty());
        if !is_mark(t) {
            assert(seq![t] + Seq::<Seq<char>>::empty() =~= seq![t]);
        }
        assert(Seq::<Seq<char>>::empty() + (if is_mark(t) { Seq::empty() } else { seq![t] }) =~= (if is_mark(t) { Seq::empty() } else { seq![t] }));
    } else {
        lemma_unmarked_push(a, t, i + 1);
        assert(a.push(t)[i] == a[i]);
        let tail: Seq<Seq<char>> = if is_mark(t) { Seq::empty() } else { seq![t] };
        if !is_mark(a[i]) {
            assert(seq![a[i]] + (unmarked_from(a, i + 1) + tail) =~= (seq![a[i]] + unmarked_from(a, i + 1)) + tail);
        }
    }
}

/// The text of the segments that are no mark.
pub open spec fn kept_text(segs: Seq<Seq<char>>) -> Seq<char> {
    concat_texts(unmarked_from(segs, 0))
}

proof fn lemma_kept_push(a: Seq<Seq<char>>, t: Seq<char>)
    ensures
        kept_text(a.push(t)) == kept_text(a) + (if is_mark(t) { Seq::<char>::empty() } else { t }),
{
    lemma_unmarked_push(a, t, 0);
    let tail: Seq<Seq<char>> = if is_mark(t) { Seq::empty() } else { seq![t] };
    lemma_concat_texts_append(unmarked_from(a, 0), tail);
    if is_mark(t) {
        assert(concat_texts(tail) =~= Seq::<char>::empty());
    } else {
        assert(tail.drop_last() =~= Seq::<Seq<char>>::empty());
        assert(concat_texts(tail.drop_last()) =~= Seq::<char>::empty());
        assert(tail.last() == t);
        assert(concat_texts(tail) == concat_texts(tail.drop_last()) + tail.last());
        assert(concat_texts(tail) =~= t);
    }
}

proof fn lemma_unmarked_chars_span(cs: Seq<char>, i: int, j: int)
    requires
        0 <= i <= j <= cs.len(),
        forall|k: int| i <= k < j ==> !is_text_mark(#[trigger] cs[k]),
    ensures
        unmarked_chars(cs, i) == cs.subrange(i, j) + unmarked_chars(cs, j),
    decreases j - i,
{
    if i < j {
        lemma_unmarked_chars_span(cs, i + 1, j);
        assert(cs.subrange(i, j) =~= seq![cs[i]] + cs.subrange(i + 1, j));
        assert(seq![cs[i]] + (cs.subrange(i + 1, j) + unmarked_chars(cs, j)) =~= (seq![cs[i]] + cs.subrange(i + 1, j)) + unmarked_chars(cs, j));
    } else {
        assert(cs.subrange(i, j) =~= Seq::<char>::empty());
        assert(Seq::<char>::empty() + unmarked_chars(cs, j) =~= unmarked_chars(cs, j));
    }
}

proof fn lemma_segments_keep_chars(sys: IpaSystemView, cs: Seq<char>, i: int, acc: Seq<Seq<char>>)
    requires
        0 <= i,
        reads_every_char(sys, cs, i),
        forall|k: int| 0 <= k < acc.len() ==> (#[trigger] acc[k]).len() > 0,
    ensures
        kept_text(segments_from(sys, cs, i, acc)) == kept_text(acc) + unmarked_chars(cs, i),
    decreases cs.len() - i,
{
    if i >= cs.len() {
        assert(kept_text(acc) + Seq::<char>::empty() =~= kept_text(acc));
    } else {
        let c = cs[i];
        if is_text_mark(c) {
            let m: Seq<char> = if c == '.' || c == '\u{200B}' {
                seq!['.']
            } else if c == 'ˈ' || c == '\'' {
                seq!['ˈ']
            } else {
                seq!['ˌ']
            };
            let acc2 = acc.push(m);
            assert forall|k: int| 0 <= k < acc2.len() implies (#[trigger] acc2[k]).len() > 0 by {
                if k < acc.len() {
                    assert(acc2[k] == acc[k]);
                }
            }
            lemma_segments_keep_chars(sys, cs, i + 1, acc2);
            lemma_kept_push(acc, m);
            assert(segments_from(sys, cs, i, acc) == segments_from(sys, cs, i + 1, acc2));
        } else {
            let l = longest_known(sys, cs, i, cs.len() - i);
            lemma_longest_known_bounds(sys, cs, i, cs.len() - i);
            let t = cs.subrange(i, i + l);
            let acc2 = add_symbol(sys, acc, t);
            assert(t[0] == c);
            assert(!is_mark(t));
            if is_modifier_symbol(sys, t) && acc.len() > 0 && !starts_with_mark(acc.last()) {
                let a0 = acc.drop_last();
                let last = acc.last();
                assert(acc[acc.len() - 1] == last);
                assert(a0.push(last) =~= acc);
                lemma_kept_push(a0, last);
                lemma_kept_push(a0, last + t);
                assert(!is_mark(last));
                assert(!is_mark(last + t)) by {
                    assert((last + t).len() >= 2);
                }
                assert(kept_text(a0) + (last + t) =~= kept_text(a0) + last + t);
                assert forall|k: int| 0 <= k < acc2.len() implies (#[trigger] acc2[k]).len() > 0 by {
                    if k < a0.len() {
                        assert(acc2[k] == acc[k]);
                    }
                }
            } else {
                lemma_kept_push(acc, t);
                assert forall|k: int| 0 <= k < acc2.len() implies (#[trigger] acc2[k]).len() > 0 by {
                    if k < acc.len() {
                        assert(acc2[k] == acc[k]);
                    }
                }
            }
            assert(kept_text(acc2) == kept_text(acc) + t);
            lemma_segments_keep_chars(sys, cs, i + l, acc2);
            lemma_unmarked_chars_span(cs, i, i + l);
            assert(segments_from(sys, cs, i, acc) == segments_from(sys, cs, i + l, acc2));
            assert(kept_text(acc) + t + unmarked_chars(cs, i + l) =~= kept_text(acc) + (t + unmarked_chars(cs, i + l)));
        }
    }
}

/// Where the reading of a text passes over no character (each is a stress
/// mark, a syllable break, or part of a symbol that the system knows, and
/// no symbol read holds a mark), syllabifying it loses, repeats and moves
/// no character: the syllables' phonemes, put together in order, are the
/// text without its marks.
pub proof fn lemma_syllabify_keeps_text(sys: IpaSystemView, cs: Seq<char>)
    requires
        reads_every_char(sys, cs, 0),
    ensures
        concat_texts(word_phonemes(spec_syllabify_text(sys, cs))) == unmarked_chars(cs, 0),
{
    lemma_syllabify_keeps_symbols(sys, cs);
    lemma_segments_keep_chars(sys, cs, 0, Seq::empty());
    assert(unmarked_from(Seq::<Seq<char>>::empty(), 0) =~= Seq::<Seq<char>>::empty());
    assert(kept_text(Seq::<Seq<char>>::empty()) =~= Seq::<char>::empty());
    assert(Seq::<char>::empty() + unmarked_chars(cs, 0) =~= unmarked_chars(cs, 0));
}

} // verus!
