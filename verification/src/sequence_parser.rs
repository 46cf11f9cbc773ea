//! Splitting a text into phonemes, stress marks and syllable breaks.

use crate::ipa_string::IpaStringError;
use crate::ipa_system::{spec_phoneme_data, IpaSystem, IpaSystemView};
use crate::sequence::{
    elements_view, is_mark_char, is_modifier, spec_is_modifier, ElementView, Phoneme, PhonemeView,
    ProsodyMarker, SequenceElement,
};
use crate::text::{char_string, chars_of, decimal, string_range};
use vstd::prelude::*;

verus! {

/// `e` in front of a parse result.
pub open spec fn prepend(e: ElementView, rest: Option<Seq<ElementView>>) -> Option<Seq<ElementView>> {
    match rest {
        Some(r) => Some(seq![e] + r),
        None => None,
    }
}

/// `prefix` in front of a parse result.
pub open spec fn after(prefix: Seq<ElementView>, rest: Option<Seq<ElementView>>) -> Option<Seq<ElementView>> {
    match rest {
        Some(r) => Some(prefix + r),
        None => None,
    }
}

/// The greatest length `n` in `1..=l` such that `cs[idx..idx + n]` is a
/// phoneme of the system, or 0 if there is none.
pub open spec fn base_len_at(sys: IpaSystemView, cs: Seq<char>, idx: int, l: int) -> int
    decreases l,
{
    if l <= 0 {
        0
    } else if spec_phoneme_data(sys, cs.subrange(idx, idx + l)) is Some {
        l
    } else {
        base_len_at(sys, cs, idx, l - 1)
    }
}

/// The end of the run of modifiers that starts at `j` (stress marks and
/// syllable breaks end a run).
pub open spec fn modifier_run_end(cs: Seq<char>, j: int) -> int
    decreases cs.len() - j,
{
    if 0 <= j < cs.len() && spec_is_modifier(cs[j]) && !is_mark_char(cs[j]) {
        modifier_run_end(cs, j + 1)
    } else {
        j
    }
}

/// The phoneme whose base starts at `start`, read by a cursor that stands at
/// `at`, and where the cursor ends: the longest known base symbol at `start`;
/// the cursor then moves past as many characters as the base has, and each
/// modifier that follows it there is read on its own.
pub open spec fn spec_segment_from(sys: IpaSystemView, cs: Seq<char>, start: int, at: int) -> Option<(PhonemeView, int)> {
    let l = base_len_at(sys, cs, start, cs.len() - start);
    if l <= 0 {
        None
    } else {
        let p = at + l;
        let end = modifier_run_end(cs, p);
        Some(
            (
                PhonemeView {
                    base: cs.subrange(start, start + l),
                    modifiers: if p <= cs.len() {
                        cs.subrange(p, end).map_values(|m: char| seq![m])
                    } else {
                        Seq::empty()
                    },
                },
                end,
            ),
        )
    }
}

/// The phoneme that starts at `idx`, and where it ends: the longest known
/// base symbol, then each following modifier on its own.
pub open spec fn spec_segment(sys: IpaSystemView, cs: Seq<char>, idx: int) -> Option<(PhonemeView, int)> {
    spec_segment_from(sys, cs, idx, idx)
}

/// The elements of `cs[idx..]`, or `None` where some part is no phoneme of
/// the system or a modifier has no base.
pub open spec fn spec_parse_from(sys: IpaSystemView, cs: Seq<char>, idx: int) -> Option<Seq<ElementView>>
    decreases cs.len() - idx,
{
    if idx < 0 || idx >= cs.len() {
        Some(Seq::empty())
    } else if cs[idx] == '\'' || cs[idx] == '\u{02C8}' {
        prepend(ElementView::Prosody(ProsodyMarker::PrimaryStress), spec_parse_from(sys, cs, idx + 1))
    } else if cs[idx] == '\u{02CC}' {
        prepend(ElementView::Prosody(ProsodyMarker::SecondaryStress), spec_parse_from(sys, cs, idx + 1))
    } else if cs[idx] == '.' {
        prepend(ElementView::SyllableBreak, spec_parse_from(sys, cs, idx + 1))
    } else if spec_is_modifier(cs[idx]) {
        None
    } else {
        match spec_segment(sys, cs, idx) {
            Some((p, end)) => if idx < end <= cs.len() {
                prepend(ElementView::Phoneme(p), spec_parse_from(sys, cs, end))
            } else {
                None
            },
            None => None,
        }
    }
}

/// The elements of a text: the text is decomposed (NFD) and then split.
pub open spec fn spec_parse_text(sys: IpaSystemView, s: Seq<char>) -> Option<Seq<ElementView>> {
    if s.len() == 0 {
        Some(Seq::empty())
    } else {
        spec_parse_from(sys, crate::text::nfd_text(s), 0)
    }
}

/// A message that locates a character: `head`, the character, `tail`, the
/// index, then the input text in quotes.
pub open spec fn located_text(head: Seq<char>, c: char, tail: Seq<char>, at: nat, s: Seq<char>) -> Seq<char> {
    head + seq![c] + tail + crate::text::decimal_text(at) + " in string \""@ + s + "\""@
}

/// The message for a phoneme whose first character starts no known base.
pub open spec fn unrecognized_base_text(c: char, at: nat, s: Seq<char>) -> Seq<char> {
    located_text("Unrecognized base phoneme starting with '"@, c, "' at index "@, at, s)
}

/// The message for a modifier with no base before it.
pub open spec fn leading_modifier_text(c: char, at: nat, s: Seq<char>) -> Seq<char> {
    located_text("Modifier '"@, c, "' found without a preceding base phoneme at index "@, at, s)
}

/// The message of the first fault in `cs[idx..]`, `s` being the input
/// text; empty where there is none.
pub open spec fn spec_parse_fault(sys: IpaSystemView, cs: Seq<char>, idx: int, s: Seq<char>) -> Seq<char>
    decreases cs.len() - idx,
{
    if idx < 0 || idx >= cs.len() {
        Seq::empty()
    } else if is_mark_char(cs[idx]) {
        spec_parse_fault(sys, cs, idx + 1, s)
    } else if spec_is_modifier(cs[idx]) {
        leading_modifier_text(cs[idx], idx as nat, s)
    } else {
        match spec_segment(sys, cs, idx) {
            Some((p, end)) => if idx < end <= cs.len() {
                spec_parse_fault(sys, cs, end, s)
            } else {
                Seq::empty()
            },
            None => unrecognized_base_text(cs[idx], idx as nat, s),
        }
    }
}

/// Builds a located message.
fn located_message(head: &str, c: char, tail: &str, at: usize, s: &str) -> (r: String)
    ensures
        r@ == located_text(head@, c, tail@, at as nat, s@),
{
    proof {
        reveal_strlit(" in string \"");
        reveal_strlit("\"");
    }
    let a = crate::text::concat2(head, char_string(c).as_str());
    let b = crate::text::concat2(a.as_str(), tail);
    let d = crate::text::concat2(b.as_str(), decimal(at).as_str());
    let e = crate::text::concat2(d.as_str(), " in string \"");
    let f = crate::text::concat2(e.as_str(), s);
    crate::text::concat2(f.as_str(), "\"")
}

proof fn lemma_base_len_bounds(sys: IpaSystemView, cs: Seq<char>, idx: int, l: int)
    ensures
        0 <= base_len_at(sys, cs, idx, l),
        l >= 0 ==> base_len_at(sys, cs, idx, l) <= l,
    decreases l,
{
    if l > 0 {
        lemma_base_len_bounds(sys, cs, idx, l - 1);
    }
}

proof fn lemma_run_end_bounds(cs: Seq<char>, j: int)
    requires
        0 <= j <= cs.len(),
    ensures
        j <= modifier_run_end(cs, j) <= cs.len(),
        forall|k: int| j <= k < modifier_run_end(cs, j) ==> spec_is_modifier(#[trigger] cs[k]) && !is_mark_char(cs[k]),
        modifier_run_end(cs, j) < cs.len() ==> !(spec_is_modifier(cs[modifier_run_end(cs, j)]) && !is_mark_char(cs[modifier_run_end(cs, j)])),
    decreases cs.len() - j,
{
    if j < cs.len() && spec_is_modifier(cs[j]) && !is_mark_char(cs[j]) {
        lemma_run_end_bounds(cs, j + 1);
    }
}

/// The characters of the decomposed input and the input itself, for messages.
pub struct PhonemeSegmentContext<'a> {
    pub chars: &'a [char],
    pub s: &'a str,
}

/// Parses the phoneme whose base starts at `start`: the longest base symbol
/// that the system knows, then the modifiers that follow. `idx` moves on by
/// the length of the base, and then past each modifier found where it stands.
pub fn parse_phoneme_segment_op(
    ctx: &PhonemeSegmentContext<'_>,
    start: usize,
    idx: &mut usize,
    system: &IpaSystem,
) -> (r: Result<SequenceElement, IpaStringError>)
    requires
        start < ctx.chars@.len() ==> *old(idx) + (ctx.chars@.len() - start) <= usize::MAX,
    ensures
        start >= ctx.chars@.len() ==> (r matches Err(IpaStringError::InvalidSequence(m)) && m@ == "Index out of bounds"@),
        r is Ok <==> (start < ctx.chars@.len() && spec_segment_from(system@, ctx.chars@, start as int, *old(idx) as int) is Some),
        r matches Ok(e) ==> ({
            let (p, end) = spec_segment_from(system@, ctx.chars@, start as int, *old(idx) as int).unwrap();
            &&& e@ == ElementView::Phoneme(p)
            &&& *final(idx) == end
        }),
        r is Err ==> *final(idx) == *old(idx),
        start < ctx.chars@.len() && spec_segment_from(system@, ctx.chars@, start as int, *old(idx) as int) is None ==> (
            r matches Err(IpaStringError::InvalidSequence(m))
            && m@ == unrecognized_base_text(ctx.chars@[start as int], start as nat, ctx.s@)),
{
    let ghost cs = ctx.chars@;
    let n = ctx.chars.len();
    if start >= n {
        proof {
            reveal_strlit("Index out of bounds");
        }
        return Err(IpaStringError::InvalidSequence(String::from_str("Index out of bounds")));
    }
    let mut l = n - start;
    let mut found = false;
    while l > 0 && !found
        invariant
            start < n,
            n == cs.len(),
            cs == ctx.chars@,
            l <= n - start,
            base_len_at(system@, cs, start as int, (n - start) as int) == base_len_at(system@, cs, start as int, l as int),
            found ==> l > 0 && base_len_at(system@, cs, start as int, l as int) == l,
        decreases l, (if found { 0int } else { 1int }),
    {
        let candidate = string_range(ctx.chars, start, start + l);
        if system.get_phoneme_data(candidate.as_str()).is_some() {
            found = true;
        } else {
            l = l - 1;
        }
    }
    proof {
        lemma_base_len_bounds(system@, cs, start as int, (n - start) as int);
    }
    if l == 0 {
        proof {
            reveal_strlit("Unrecognized base phoneme starting with '");
            reveal_strlit("' at index ");
        }
        return Err(IpaStringError::InvalidSequence(located_message("Unrecognized base phoneme starting with '", ctx.chars[start], "' at index ", start, ctx.s)));
    }
    let base = string_range(ctx.chars, start, start + l);
    *idx = *idx + l;
    let mut modifiers: Vec<String> = Vec::new();
    let ghost mstart = *idx as int;
    proof {
        if mstart <= n {
            lemma_run_end_bounds(cs, mstart);
        }
    }
    assert(crate::data::strings_view(modifiers@) =~= (if mstart <= n {
        cs.subrange(mstart, *idx as int).map_values(|m: char| seq![m])
    } else {
        Seq::empty()
    }));
    while *idx < n && is_modifier(ctx.chars[*idx]) && !(ctx.chars[*idx] == '\'' || ctx.chars[*idx] == '\u{02C8}' || ctx.chars[*idx] == '\u{02CC}' || ctx.chars[*idx] == '.')
        invariant
            n == cs.len(),
            cs == ctx.chars@,
            0 <= mstart <= *idx,
            mstart <= n ==> *idx <= n,
            mstart > n ==> *idx == mstart,
            modifier_run_end(cs, mstart) == modifier_run_end(cs, *idx as int),
            crate::data::strings_view(modifiers@) =~= (if mstart <= n {
                cs.subrange(mstart, *idx as int).map_values(|m: char| seq![m])
            } else {
                Seq::empty()
            }),
        decreases n - *idx,
    {
        let m = char_string(ctx.chars[*idx]);
        let ghost before = modifiers@;
        let ghost j = *idx as int;
        modifiers.push(m);
        assert(crate::data::strings_view(modifiers@) =~= crate::data::strings_view(before).push(seq![cs[j]]));
        assert(cs.subrange(mstart, j + 1) =~= cs.subrange(mstart, j).push(cs[j]));
        assert(cs.subrange(mstart, j + 1).map_values(|m: char| seq![m]) =~= cs.subrange(mstart, j).map_values(|m: char| seq![m]).push(seq![cs[j]]));
        *idx = *idx + 1;
    }
    proof {
        if *idx <= n {
            lemma_run_end_bounds(cs, *idx as int);
        }
    }
    Ok(SequenceElement::Phoneme(Phoneme { base, modifiers }))
}

/// Parses the element that starts with the character `c` at `idx`: a stress
/// mark, a syllable break, or a phoneme. A modifier without a base is an error.
pub fn parse_single_element_op(
    c: char,
    ctx: &PhonemeSegmentContext<'_>,
    idx: &mut usize,
    system: &IpaSystem,
) -> (r: Result<Option<SequenceElement>, IpaStringError>)
    requires
        is_mark_char(c) ==> *old(idx) < usize::MAX,
    ensures
        (c == '\'' || c == '\u{02C8}') ==> (r matches Ok(Some(e)) && e@ == ElementView::Prosody(ProsodyMarker::PrimaryStress)
            && *final(idx) == *old(idx) + 1),
        c == '\u{02CC}' ==> (r matches Ok(Some(e)) && e@ == ElementView::Prosody(ProsodyMarker::SecondaryStress)
            && *final(idx) == *old(idx) + 1),
        c == '.' ==> (r matches Ok(Some(e)) && e@ == ElementView::SyllableBreak && *final(idx) == *old(idx) + 1),
        !is_mark_char(c) && spec_is_modifier(c) ==> (r matches Err(IpaStringError::InvalidSequence(m))
            && m@ == leading_modifier_text(c, *old(idx) as nat, ctx.s@)),
        !is_mark_char(c) && !spec_is_modifier(c) && *old(idx) >= ctx.chars@.len() ==> (
            r matches Err(IpaStringError::InvalidSequence(m)) && m@ == "Index out of bounds"@),
        !is_mark_char(c) && !spec_is_modifier(c) && *old(idx) < ctx.chars@.len() ==> ({
            &&& r is Ok <==> spec_segment(system@, ctx.chars@, *old(idx) as int) is Some
            &&& r matches Ok(Some(e)) ==> e@ == ElementView::Phoneme(spec_segment(system@, ctx.chars@, *old(idx) as int).unwrap().0)
                && *final(idx) == spec_segment(system@, ctx.chars@, *old(idx) as int).unwrap().1
            &&& r is Err ==> (r matches Err(IpaStringError::InvalidSequence(m))
                && m@ == unrecognized_base_text(ctx.chars@[*old(idx) as int], *old(idx) as nat, ctx.s@))
        }),
        r is Err ==> *final(idx) == *old(idx),
        r matches Ok(x) ==> x is Some,
        *old(idx) < ctx.chars@.len() && c == ctx.chars@[*old(idx) as int] ==> ({
            &&& r is Err ==> spec_parse_from(system@, ctx.chars@, *old(idx) as int) is None
            &&& r matches Err(IpaStringError::InvalidSequence(m)) ==> m@ == spec_parse_fault(system@, ctx.chars@, *old(idx) as int, ctx.s@)
            &&& r matches Ok(Some(e)) ==> *old(idx) < *final(idx) <= ctx.chars@.len()
                && spec_parse_from(system@, ctx.chars@, *old(idx) as int)
                    == prepend(e@, spec_parse_from(system@, ctx.chars@, *final(idx) as int))
        }),
{
    if c == '\'' || c == '\u{02C8}' {
        *idx = *idx + 1;
        return Ok(Some(SequenceElement::Prosody(ProsodyMarker::PrimaryStress)));
    }
    if c == '\u{02CC}' {
        *idx = *idx + 1;
        return Ok(Some(SequenceElement::Prosody(ProsodyMarker::SecondaryStress)));
    }
    if c == '.' {
        *idx = *idx + 1;
        return Ok(Some(SequenceElement::SyllableBreak));
    }
    if is_modifier(c) {
        proof {
            reveal_strlit("Modifier '");
            reveal_strlit("' found without a preceding base phoneme at index ");
        }
        return Err(IpaStringError::InvalidSequence(located_message("Modifier '", c, "' found without a preceding base phoneme at index ", *idx, ctx.s)));
    }
    proof {
        if *idx < ctx.chars@.len() {
            lemma_base_len_bounds(system@, ctx.chars@, *idx as int, ctx.chars@.len() - *idx);
            let l = base_len_at(system@, ctx.chars@, *idx as int, ctx.chars@.len() - *idx);
            if l > 0 {
                lemma_run_end_bounds(ctx.chars@, *idx + l);
            }
        }
    }
    let start = *idx;
    let n = ctx.chars.len();
    assert(start < n ==> start + (n - start) <= usize::MAX);
    let e = parse_phoneme_segment_op(ctx, start, idx, system)?;
    Ok(Some(e))
}

/// Splits a text into elements, after canonical decomposition.
pub fn parse_elements_op(s: &str, system: &IpaSystem) -> (r: Result<Vec<SequenceElement>, IpaStringError>)
    ensures
        r is Ok <==> spec_parse_text(system@, s@) is Some,
        r matches Ok(es) ==> spec_parse_text(system@, s@) == Some(elements_view(es@)),
        r matches Err(IpaStringError::InvalidSequence(m)) ==> m@ == spec_parse_fault(system@, crate::text::nfd_text(s@), 0, s@),
{
    if s.is_empty() {
        let out: Vec<SequenceElement> = Vec::new();
        assert(elements_view(out@) =~= Seq::<ElementView>::empty());
        return Ok(out);
    }
    let norm = crate::text::nfd(s);
    let chars = chars_of(norm.as_str());
    let ghost cs = chars@;
    let ctx = PhonemeSegmentContext { chars: chars.as_slice(), s };
    let mut elements: Vec<SequenceElement> = Vec::new();
    let mut idx: usize = 0;
    assert(elements_view(elements@) =~= Seq::<ElementView>::empty());
    while idx < chars.len()
        invariant
            idx <= chars.len(),
            cs == chars@,
            ctx.chars@ == cs,
            cs == crate::text::nfd_text(s@),
            s@.len() > 0,
            spec_parse_from(system@, cs, 0) == after(elements_view(elements@), spec_parse_from(system@, cs, idx as int)),
            ctx.s@ == s@,
            spec_parse_fault(system@, cs, 0, s@) == spec_parse_fault(system@, cs, idx as int, s@),
        decreases chars.len() - idx,
    {
        let c = chars[idx];
        let ghost old_idx = idx;
        match parse_single_element_op(c, &ctx, &mut idx, system) {
            Ok(Some(e)) => {
                let ghost before = elements_view(elements@);
                elements.push(e);
                assert(elements_view(elements@) =~= before.push(e@));
                proof {
                    match spec_parse_from(system@, cs, idx as int) {
                        Some(rest) => {
                            assert(before + (seq![e@] + rest) =~= before.push(e@) + rest);
                        },
                        None => {},
                    }
                }
            },
            Ok(None) => {},
            Err(err) => {
                return Err(err);
            },
        }
    }
    assert(elements_view(elements@) + Seq::<ElementView>::empty() =~= elements_view(elements@));
    Ok(elements)
}

} // verus!

verus! {

proof fn lemma_base_len_longest(sys: IpaSystemView, cs: Seq<char>, idx: int, l: int)
    ensures
        base_len_at(sys, cs, idx, l) > 0 ==> spec_phoneme_data(sys, cs.subrange(idx, idx + base_len_at(sys, cs, idx, l))) is Some,
        forall|m: int| base_len_at(sys, cs, idx, l) < m <= l ==> spec_phoneme_data(sys, #[trigger] cs.subrange(idx, idx + m)) is None,
    decreases l,
{
    if l > 0 && spec_phoneme_data(sys, cs.subrange(idx, idx + l)) is None {
        lemma_base_len_longest(sys, cs, idx, l - 1);
    }
}

/// A phoneme read at `idx` takes the longest base that the system knows,
/// then each following modifier (stress marks and breaks excepted) as one
/// modifier, as many as follow: the character after the phoneme, if any, is
/// no such modifier. Where no prefix is a known base, nothing is read.
pub proof fn lemma_segment_longest_base(sys: IpaSystemView, cs: Seq<char>, idx: int)
    requires
        0 <= idx < cs.len(),
    ensures
        spec_segment(sys, cs, idx) matches Some((p, end)) ==> {
            let l = p.base.len() as int;
            &&& 0 < l && idx + l <= end <= cs.len()
            &&& p.base == cs.subrange(idx, idx + l)
            &&& spec_phoneme_data(sys, p.base) is Some
            &&& forall|m: int| l < m <= cs.len() - idx ==> spec_phoneme_data(sys, #[trigger] cs.subrange(idx, idx + m)) is None
            &&& p.modifiers.len() == end - idx - l
            &&& forall|j: int| 0 <= j < p.modifiers.len() ==> #[trigger] p.modifiers[j] == seq![cs[idx + l + j]]
                && spec_is_modifier(cs[idx + l + j]) && !is_mark_char(cs[idx + l + j])
            &&& end < cs.len() ==> !spec_is_modifier(cs[end]) || is_mark_char(cs[end])
        },
        spec_segment(sys, cs, idx) is None ==> forall|m: int|
            1 <= m <= cs.len() - idx ==> spec_phoneme_data(sys, #[trigger] cs.subrange(idx, idx + m)) is None,
{
    let big = cs.len() - idx;
    lemma_base_len_longest(sys, cs, idx, big);
    lemma_base_len_bounds(sys, cs, idx, big);
    let l = base_len_at(sys, cs, idx, big);
    if l > 0 {
        lemma_run_end_bounds(cs, idx + l);
        let end = modifier_run_end(cs, idx + l);
        let mods = cs.subrange(idx + l, end).map_values(|m: char| seq![m]);
        assert forall|j: int| 0 <= j < mods.len() implies #[trigger] mods[j] == seq![cs[idx + l + j]]
            && spec_is_modifier(cs[idx + l + j]) && !is_mark_char(cs[idx + l + j]) by {
            assert(cs.subrange(idx + l, end)[j] == cs[idx + l + j]);
        }
    }
}

} // verus!

verus! {

/// A phoneme read at `i`: its base is the longest prefix of `cs[i..]` that the
/// system knows, and its modifiers are the characters after the base, one
/// each, each a modifier and no stress mark or break.
pub open spec fn read_at(sys: IpaSystemView, cs: Seq<char>, i: int, p: PhonemeView) -> bool {
    let l = p.base.len() as int;
    &&& 0 <= i && 0 < l && i + l + p.modifiers.len() <= cs.len()
    &&& p.base == cs.subrange(i, i + l)
    &&& spec_phoneme_data(sys, p.base) is Some
    &&& forall|m: int| l < m <= cs.len() - i ==> spec_phoneme_data(sys, #[trigger] cs.subrange(i, i + m)) is None
    &&& forall|j: int| 0 <= j < p.modifiers.len() ==> #[trigger] p.modifiers[j] == seq![cs[i + l + j]]
        && spec_is_modifier(cs[i + l + j]) && !is_mark_char(cs[i + l + j])
}

/// A phoneme read at some position of `cs`.
pub open spec fn phoneme_read(sys: IpaSystemView, cs: Seq<char>, p: PhonemeView) -> bool {
    exists|i: int| #[trigger] read_at(sys, cs, i, p)
}

/// An element of a parse that is a phoneme is read at some position.
pub open spec fn element_read(sys: IpaSystemView, cs: Seq<char>, e: ElementView) -> bool {
    match e {
        ElementView::Phoneme(p) => phoneme_read(sys, cs, p),
        _ => true,
    }
}

/// Every phoneme that a parse gives is read at some position of the text:
/// its base is a symbol that the system knows, the longest one there, and
/// its modifiers are single modifier characters. A modifier that stands
/// where a phoneme would start, or right after a stress mark or break,
/// makes the parse fail.
pub proof fn lemma_parsed_phonemes_known(sys: IpaSystemView, cs: Seq<char>, idx: int)
    requires
        0 <= idx,
    ensures
        spec_parse_from(sys, cs, idx) matches Some(es) ==> forall|k: int| 0 <= k < es.len() ==> element_read(sys, cs, #[trigger] es[k]),
        idx < cs.len() && spec_is_modifier(cs[idx]) && !is_mark_char(cs[idx]) ==> spec_parse_from(sys, cs, idx) is None,
        idx + 1 < cs.len() && is_mark_char(cs[idx]) && spec_is_modifier(cs[idx + 1]) && !is_mark_char(cs[idx + 1])
            ==> spec_parse_from(sys, cs, idx) is None,
    decreases cs.len() - idx,
{
    if idx < cs.len() {
        let c = cs[idx];
        if is_mark_char(c) {
            lemma_parsed_phonemes_known(sys, cs, idx + 1);
            if let Some(rest) = spec_parse_from(sys, cs, idx + 1) {
                let es = spec_parse_from(sys, cs, idx).unwrap();
                assert forall|k: int| 0 <= k < es.len() implies element_read(sys, cs, #[trigger] es[k]) by {
                    if k > 0 {
                        assert(es[k] == rest[k - 1]);
                    }
                }
            }
        } else if !spec_is_modifier(c) {
            if let Some((p, end)) = spec_segment(sys, cs, idx) {
                if idx < end <= cs.len() {
                    lemma_segment_longest_base(sys, cs, idx);
                    assert(read_at(sys, cs, idx, p));
                    lemma_parsed_phonemes_known(sys, cs, end);
                    if let Some(rest) = spec_parse_from(sys, cs, end) {
                        let es = spec_parse_from(sys, cs, idx).unwrap();
                        assert(es == seq![ElementView::Phoneme(p)] + rest);
                        assert forall|k: int| 0 <= k < es.len() implies element_read(sys, cs, #[trigger] es[k]) by {
                            if k > 0 {
                                assert(es[k] == rest[k - 1]);
                            } else {
                                assert(phoneme_read(sys, cs, p));
                            }
                        }
                    }
                }
            }
        }
    }
}

} // verus!

verus! {

/// A text with each `'` written as the stress mark `ˈ`.
pub open spec fn quote_as_stress(cs: Seq<char>) -> Seq<char> {
    cs.map_values(|c: char| if c == '\'' { '\u{02C8}' } else { c })
}

/// Whether no symbol that the system knows holds a `'`.
pub open spec fn no_quote_symbols(sys: IpaSystemView) -> bool {
    forall|t: Seq<char>| #[trigger] spec_phoneme_data(sys, t) is Some ==> !t.contains('\'')
}

proof fn lemma_elements_text_append(a: Seq<ElementView>, b: Seq<ElementView>)
    ensures
        crate::sequence::elements_text(a + b) == crate::sequence::elements_text(a) + crate::sequence::elements_text(b),
    decreases b.len(),
{
    if b.len() == 0 {
        assert(a + b =~= a);
        assert(crate::sequence::elements_text(a) + Seq::<char>::empty() =~= crate::sequence::elements_text(a));
    } else {
        assert((a + b).drop_last() =~= a + b.drop_last());
        lemma_elements_text_append(a, b.drop_last());
        assert(crate::sequence::elements_text(a) + crate::sequence::elements_text(b.drop_last()) + crate::sequence::element_text(b.last())
            =~= crate::sequence::elements_text(a) + (crate::sequence::elements_text(b.drop_last()) + crate::sequence::element_text(b.last())));
    }
}

proof fn lemma_single_chars_text(cs: Seq<char>)
    ensures
        crate::sequence::concat_texts(cs.map_values(|m: char| seq![m])) == cs,
    decreases cs.len(),
{
    if cs.len() > 0 {
        lemma_single_chars_text(cs.drop_last());
        assert(cs.map_values(|m: char| seq![m]).drop_last() =~= cs.drop_last().map_values(|m: char| seq![m]));
        assert(cs.drop_last() + seq![cs.last()] =~= cs);
    } else {
        assert(cs.map_values(|m: char| seq![m]) =~= Seq::<Seq<char>>::empty());
    }
}

/// Where no symbol that the system knows holds a `'`, the elements that a
/// parse gives, written out one after another, are the text that was
/// parsed, with each `'` written as `ˈ`: parsing drops, repeats and moves
/// no character.
pub proof fn lemma_parse_writes_back(sys: IpaSystemView, cs: Seq<char>, idx: int)
    requires
        0 <= idx <= cs.len(),
        no_quote_symbols(sys),
    ensures
        spec_parse_from(sys, cs, idx) matches Some(es) ==> crate::sequence::elements_text(es) == quote_as_stress(cs.subrange(idx, cs.len() as int)),
    decreases cs.len() - idx,
{
    let tail = cs.subrange(idx, cs.len() as int);
    if idx == cs.len() {
        assert(quote_as_stress(tail) =~= Seq::<char>::empty());
    } else if let Some(es) = spec_parse_from(sys, cs, idx) {
        let c = cs[idx];
        let end: int = if is_mark_char(c) { idx + 1 } else { spec_segment(sys, cs, idx).unwrap().1 };
        let e = es[0];
        if !is_mark_char(c) {
            lemma_segment_longest_base(sys, cs, idx);
        }
        assert(idx < end <= cs.len());
        lemma_parse_writes_back(sys, cs, end);
        let rest = spec_parse_from(sys, cs, end).unwrap();
        assert(es == seq![e] + rest);
        lemma_elements_text_append(seq![e], rest);
        assert(crate::sequence::elements_text(seq![e]) == crate::sequence::element_text(e)) by {
            assert(seq![e].drop_last() =~= Seq::<ElementView>::empty());
            assert(crate::sequence::elements_text(seq![e].drop_last()) =~= Seq::<char>::empty());
            assert(seq![e].last() == e);
            assert(Seq::<char>::empty() + crate::sequence::element_text(e) =~= crate::sequence::element_text(e));
        }
        let piece = cs.subrange(idx, end);
        assert(crate::sequence::element_text(e) == quote_as_stress(piece)) by {
            if is_mark_char(c) {
                assert(piece =~= seq![c]);
                assert(quote_as_stress(piece) =~= seq![if c == '\'' { '\u{02C8}' } else { c }]);
            } else {
                let (p, end2) = spec_segment(sys, cs, idx).unwrap();
                let l = p.base.len() as int;
                assert(p.base == cs.subrange(idx, idx + l));
                assert(spec_phoneme_data(sys, p.base) is Some);
                assert(p.modifiers == cs.subrange(idx + l, end).map_values(|m: char| seq![m]));
                lemma_single_chars_text(cs.subrange(idx + l, end));
                assert(piece =~= p.base + cs.subrange(idx + l, end));
                assert forall|k: int| 0 <= k < piece.len() implies #[trigger] piece[k] != '\'' by {
                    if k < l {
                        assert(p.base[k] == piece[k]);
                        if piece[k] == '\'' {
                            assert(p.base.contains('\''));
                        }
                    } else {
                        assert(p.modifiers[k - l] == seq![cs[idx + k]]);
                    }
                }
                assert(quote_as_stress(piece) =~= piece);
            }
        }
        assert(tail =~= piece + cs.subrange(end, cs.len() as int));
        assert(quote_as_stress(tail) =~= quote_as_stress(piece) + quote_as_stress(cs.subrange(end, cs.len() as int)));
    }
}

/// Where no symbol that the system knows holds a `'`, printing the parse of
/// a non-empty text (its elements written out, then composed, NFC) gives
/// the composition of the text's decomposition with each `'` written as `ˈ`.
pub proof fn lemma_parse_prints_back(sys: IpaSystemView, s: Seq<char>)
    requires
        no_quote_symbols(sys),
        s.len() > 0,
    ensures
        spec_parse_text(sys, s) matches Some(es) ==> crate::text::nfc_text(crate::sequence::elements_text(es))
            == crate::text::nfc_text(quote_as_stress(crate::text::nfd_text(s))),
{
    let cs = crate::text::nfd_text(s);
    lemma_parse_writes_back(sys, cs, 0);
    assert(cs.subrange(0, cs.len() as int) =~= cs);
}

} // verus!
