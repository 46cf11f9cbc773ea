//! Phonotactic patterns such as `CV(C)50%`: sound classes, literal IPA
//! sequences and optional groups with a probability.
//!
//! The grammar, over the characters of the pattern:
//! - a pattern is one or more elements, with no whitespace;
//! - an element is a sound class (one uppercase ASCII letter), a run of IPA
//!   characters (lowercase ASCII letters and characters from U+00C0 on), or
//!   an optional group;
//! - an optional group is `(`, a pattern, `)`, then optionally one or two
//!   decimal digits followed by `%`.

use crate::data::is_digit;
use crate::ipa_string::{IpaString, IpaStringView};
use crate::ipa_system::{IpaSystem, IpaSystemView};
use crate::sequence_parser::spec_parse_text;
use crate::sound_class::{is_class_letter, SoundClassKey};
use crate::text::{decimal, decimal_text, nfc_text, string_range};
use vstd::prelude::*;

verus! {

/// Errors in parsing a phonotactic pattern.
pub enum PhonotacticsError {
    ParseError(String),
}

impl PhonotacticsError {
    /// The error's message: `Failed to parse pattern: ` and the detail.
    pub fn message(&self) -> (r: String)
        ensures
            r@ == (match self {
                PhonotacticsError::ParseError(m) => "Failed to parse pattern: "@ + m@,
            }),
    {
        match self {
            PhonotacticsError::ParseError(m) => crate::text::concat2("Failed to parse pattern: ", m.as_str()),
        }
    }
}

/// The probability, in percent, of an optional group written without one.
pub const DEFAULT_OPTIONAL_PROBABILITY: u8 = 20;

/// A phonotactic pattern.
pub enum PhonotacticPattern {
    Sequence(Vec<PhonotacticPattern>),
    SoundClass(SoundClassKey),
    IpaSequence(IpaString),
    /// A pattern and the probability, in percent, that it occurs.
    OptionalGroup(Box<PhonotacticPattern>, u8),
}

/// The model of a `PhonotacticPattern`.
pub enum PatternView {
    Sequence(Seq<PatternView>),
    SoundClass(char),
    IpaSequence(IpaStringView),
    OptionalGroup(Box<PatternView>, u8),
}

/// The model of a pattern.
pub open spec fn pattern_view(p: PhonotacticPattern) -> PatternView
    decreases p,
{
    match p {
        PhonotacticPattern::Sequence(ps) => PatternView::Sequence(patterns_view(ps@)),
        PhonotacticPattern::SoundClass(k) => PatternView::SoundClass(k.letter),
        PhonotacticPattern::IpaSequence(ipa) => PatternView::IpaSequence(ipa@),
        PhonotacticPattern::OptionalGroup(inner, prob) => PatternView::OptionalGroup(
            Box::new(pattern_view(*inner)),
            prob,
        ),
    }
}

/// The models of a list of patterns.
pub open spec fn patterns_view(ps: Seq<PhonotacticPattern>) -> Seq<PatternView>
    decreases ps,
{
    if ps.len() == 0 {
        Seq::empty()
    } else {
        patterns_view(ps.drop_last()).push(pattern_view(ps.last()))
    }
}

impl View for PhonotacticPattern {
    type V = PatternView;

    open spec fn view(&self) -> PatternView {
        pattern_view(*self)
    }
}


/// Whether a character may stand in a literal IPA run of a pattern.
pub open spec fn is_pattern_ipa_char(c: char) -> bool {
    ('a' <= c <= 'z') || (c as u32) >= 0xC0
}

/// The end of the run of IPA characters that starts at `j`.
pub open spec fn ipa_run_end(cs: Seq<char>, j: int) -> int
    decreases cs.len() - j,
{
    if 0 <= j < cs.len() && is_pattern_ipa_char(cs[j]) {
        ipa_run_end(cs, j + 1)
    } else {
        j
    }
}

/// The IPA string that a literal run denotes, if the system accepts it: the
/// run composed (NFC) and split into elements.
pub open spec fn spec_ipa_of(sys: IpaSystemView, text: Seq<char>) -> Option<IpaStringView> {
    match spec_parse_text(sys, nfc_text(text)) {
        Some(es) => Some(IpaStringView { raw: nfc_text(text), elements: es }),
        None => None,
    }
}

/// The value of a decimal digit.
pub open spec fn digit_value(c: char) -> int {
    c as int - '0' as int
}

/// The probability written at `j` after a group's `)`, and where it ends:
/// one or two digits followed by `%`, or nothing (the default).
pub open spec fn spec_probability(cs: Seq<char>, j: int) -> Option<(u8, int)> {
    if 0 <= j < cs.len() && is_digit(cs[j]) {
        if j + 1 < cs.len() && is_digit(cs[j + 1]) {
            if j + 2 < cs.len() && cs[j + 2] == '%' {
                Some(((digit_value(cs[j]) * 10 + digit_value(cs[j + 1])) as u8, j + 3))
            } else {
                None
            }
        } else if j + 1 < cs.len() && cs[j + 1] == '%' {
            Some((digit_value(cs[j]) as u8, j + 2))
        } else {
            None
        }
    } else {
        Some((DEFAULT_OPTIONAL_PROBABILITY, j))
    }
}

/// A list of elements as one pattern: the element itself when there is one.
pub open spec fn group_of(ps: Seq<PatternView>) -> PatternView {
    if ps.len() == 1 {
        ps[0]
    } else {
        PatternView::Sequence(ps)
    }
}

/// `x` in front of an element list result.
pub open spec fn cons(x: PatternView, r: Option<(Seq<PatternView>, int)>) -> Option<(Seq<PatternView>, int)> {
    match r {
        Some((s, e)) => Some((seq![x] + s, e)),
        None => None,
    }
}

/// `prefix` in front of an element list result.
pub open spec fn after(prefix: Seq<PatternView>, r: Option<(Seq<PatternView>, int)>) -> Option<(Seq<PatternView>, int)> {
    match r {
        Some((s, e)) => Some((prefix + s, e)),
        None => None,
    }
}

/// The elements from `i` on, and where they end: at the end of the text, or,
/// inside a group (`nested`), at its closing `)`. `None` where the text does
/// not follow the grammar or a literal run is not accepted by the system.
pub open spec fn spec_elems(sys: IpaSystemView, cs: Seq<char>, i: int, nested: bool) -> Option<(Seq<PatternView>, int)>
    decreases cs.len() - i,
{
    if i < 0 {
        None
    } else if i >= cs.len() {
        if nested {
            None
        } else {
            Some((Seq::empty(), i))
        }
    } else if cs[i] == ')' {
        if nested {
            Some((Seq::empty(), i))
        } else {
            None
        }
    } else if is_class_letter(cs[i]) {
        cons(PatternView::SoundClass(cs[i]), spec_elems(sys, cs, i + 1, nested))
    } else if is_pattern_ipa_char(cs[i]) {
        let end = ipa_run_end(cs, i);
        if i < end <= cs.len() {
            match spec_ipa_of(sys, cs.subrange(i, end)) {
                Some(ipa) => cons(PatternView::IpaSequence(ipa), spec_elems(sys, cs, end, nested)),
                None => None,
            }
        } else {
            None
        }
    } else if cs[i] == '(' {
        match spec_elems(sys, cs, i + 1, true) {
            Some((ps, close)) => if i < close < cs.len() && ps.len() > 0 {
                match spec_probability(cs, close + 1) {
                    Some((prob, next)) => if close < next <= cs.len() {
                        cons(
                            PatternView::OptionalGroup(Box::new(group_of(ps)), prob),
                            spec_elems(sys, cs, next, nested),
                        )
                    } else {
                        None
                    },
                    None => None,
                }
            } else {
                None
            },
            None => None,
        }
    } else {
        None
    }
}

/// The pattern that a text denotes, if it follows the grammar and the system
/// accepts its literal runs.
pub open spec fn spec_parse_pattern(sys: IpaSystemView, s: Seq<char>) -> Option<PatternView> {
    match spec_elems(sys, s, 0, false) {
        Some((ps, _)) => if ps.len() == 0 {
            None
        } else {
            Some(group_of(ps))
        },
        None => None,
    }
}

/// The text of a pattern: sound classes by their letter, IPA runs by their
/// text, groups in parentheses with their probability unless it is the default.
pub open spec fn spec_pattern_text(p: PatternView) -> Seq<char>
    decreases p,
{
    match p {
        PatternView::Sequence(ps) => spec_patterns_text(ps),
        PatternView::SoundClass(c) => seq![c],
        PatternView::IpaSequence(ipa) => ipa.raw,
        PatternView::OptionalGroup(inner, prob) => seq!['('] + spec_pattern_text(*inner) + seq![')'] + (if prob
            != DEFAULT_OPTIONAL_PROBABILITY {
            decimal_text(prob as nat) + seq!['%']
        } else {
            Seq::empty()
        }),
    }
}

/// The concatenated texts of a list of patterns.
pub open spec fn spec_patterns_text(ps: Seq<PatternView>) -> Seq<char>
    decreases ps,
{
    if ps.len() == 0 {
        Seq::empty()
    } else {
        spec_patterns_text(ps.drop_last()) + spec_pattern_text(ps.last())
    }
}

proof fn lemma_patterns_view(ps: Seq<PhonotacticPattern>)
    ensures
        patterns_view(ps).len() == ps.len(),
        forall|k: int| 0 <= k < ps.len() ==> #[trigger] patterns_view(ps)[k] == pattern_view(ps[k]),
    decreases ps.len(),
{
    if ps.len() > 0 {
        lemma_patterns_view(ps.drop_last());
    }
}

proof fn lemma_after_cons(acc: Seq<PatternView>, x: PatternView, r: Option<(Seq<PatternView>, int)>)
    ensures
        after(acc, cons(x, r)) == after(acc.push(x), r),
{
    if let Some((s, e)) = r {
        assert(acc + (seq![x] + s) =~= acc.push(x) + s);
    }
}

proof fn lemma_ipa_run(cs: Seq<char>, j: int)
    requires
        0 <= j <= cs.len(),
    ensures
        j <= ipa_run_end(cs, j) <= cs.len(),
    decreases cs.len() - j,
{
    if j < cs.len() && is_pattern_ipa_char(cs[j]) {
        lemma_ipa_run(cs, j + 1);
    }
}

/// Whether a character may stand in a literal IPA run.
fn is_ipa_char(c: char) -> (r: bool)
    ensures
        r == is_pattern_ipa_char(c),
{
    ('a' <= c && c <= 'z') || (c as u32) >= 0xC0
}

/// Reads the probability after a group's `)` at `j`.
fn parse_probability(cs: &Vec<char>, j: usize) -> (r: Option<(u8, usize)>)
    requires
        j <= cs.len(),
    ensures
        r is Some <==> spec_probability(cs@, j as int) is Some,
        r matches Some((p, e)) ==> spec_probability(cs@, j as int) == Some((p, e as int)),
{
    if j < cs.len() && '0' <= cs[j] && cs[j] <= '9' {
        let d1 = (cs[j] as u32) - 48;
        if j + 1 < cs.len() && '0' <= cs[j + 1] && cs[j + 1] <= '9' {
            let d2 = (cs[j + 1] as u32) - 48;
            if j + 2 < cs.len() && cs[j + 2] == '%' {
                let v: u32 = d1 * 10 + d2;
                assert(v == digit_value(cs@[j as int]) * 10 + digit_value(cs@[j + 1]));
                Some((v as u8, j + 3))
            } else {
                None
            }
        } else if j + 1 < cs.len() && cs[j + 1] == '%' {
            Some((d1 as u8, j + 2))
        } else {
            None
        }
    } else {
        Some((DEFAULT_OPTIONAL_PROBABILITY, j))
    }
}

/// A list of elements as one pattern: the element itself when there is one.
fn pattern_of(ps: Vec<PhonotacticPattern>) -> (r: PhonotacticPattern)
    ensures
        r@ == group_of(patterns_view(ps@)),
{
    let mut ps = ps;
    if ps.len() == 1 {
        let ghost v = ps@;
        let p = ps.pop().unwrap();
        proof {
            lemma_patterns_view(v);
            assert(p == v[0]);
            assert(patterns_view(v)[0] == pattern_view(v[0]));
        }
        p
    } else {
        proof {
            lemma_patterns_view(ps@);
        }
        let r = PhonotacticPattern::Sequence(ps);
        assert(pattern_view(r) == PatternView::Sequence(patterns_view(ps@)));
        r
    }
}

/// Parses the elements of `cs` from `start` on, up to the end of the text,
/// or, inside a group, up to its closing `)`.
fn parse_pattern(cs: &Vec<char>, start: usize, nested: bool, system: &IpaSystem) -> (r: Result<(Vec<PhonotacticPattern>, usize), PhonotacticsError>)
    requires
        start <= cs.len(),
    ensures
        r is Ok <==> spec_elems(system@, cs@, start as int, nested) is Some,
        r matches Ok((ps, e)) ==> spec_elems(system@, cs@, start as int, nested) == Some((patterns_view(ps@), e as int)),
    decreases cs.len() - start,
{
    let mut acc: Vec<PhonotacticPattern> = Vec::new();
    let mut i = start;
    assert(after(patterns_view(acc@), spec_elems(system@, cs@, i as int, nested)) =~= spec_elems(system@, cs@, start as int, nested)) by {
        if let Some((s, e)) = spec_elems(system@, cs@, i as int, nested) {
            assert(patterns_view(acc@) + s =~= s);
        }
    }
    loop
        invariant
            start <= i <= cs.len(),
            spec_elems(system@, cs@, start as int, nested) == after(patterns_view(acc@), spec_elems(system@, cs@, i as int, nested)),
        decreases cs.len() - i,
    {
        let ghost sys = system@;
        let ghost acc_v = patterns_view(acc@);
        if i >= cs.len() {
            if nested {
                return Err(PhonotacticsError::ParseError(String::from_str("unclosed optional group")));
            } else {
                assert(acc_v + Seq::<PatternView>::empty() =~= acc_v);
                return Ok((acc, i));
            }
        }
        let c = cs[i];
        if c == ')' {
            if nested {
                assert(acc_v + Seq::<PatternView>::empty() =~= acc_v);
                return Ok((acc, i));
            } else {
                return Err(PhonotacticsError::ParseError(String::from_str("unbalanced ')'")));
            }
        }
        if let Some(key) = SoundClassKey::from_char(c) {
            proof {
                lemma_after_cons(acc_v, PatternView::SoundClass(c), spec_elems(sys, cs@, i + 1, nested));
            }
            let ghost before = acc@;
            acc.push(PhonotacticPattern::SoundClass(key));
            assert(acc@.drop_last() =~= before);
            assert(pattern_view(acc@.last()) == PatternView::SoundClass(c));
            assert(patterns_view(acc@) == acc_v.push(PatternView::SoundClass(c)));
            assert(spec_elems(sys, cs@, i as int, nested) == cons(PatternView::SoundClass(c), spec_elems(sys, cs@, i + 1, nested)));
            i = i + 1;
        } else if is_ipa_char(c) {
            let mut j = i + 1;
            proof {
                lemma_ipa_run(cs@, i + 1);
            }
            while j < cs.len() && is_ipa_char(cs[j])
                invariant
                    i < j <= cs.len(),
                    is_pattern_ipa_char(cs@[i as int]),
                    ipa_run_end(cs@, i as int) == ipa_run_end(cs@, j as int),
                decreases cs.len() - j,
            {
                j = j + 1;
            }
            let text = string_range(cs.as_slice(), i, j);
            match IpaString::parse(text.as_str(), system) {
                Ok(ipa) => {
                    proof {
                        lemma_after_cons(acc_v, PatternView::IpaSequence(ipa@), spec_elems(sys, cs@, j as int, nested));
                    }
                    let ghost before = acc@;
                    acc.push(PhonotacticPattern::IpaSequence(ipa));
                    assert(acc@.drop_last() =~= before);
                    assert(patterns_view(acc@) == acc_v.push(PatternView::IpaSequence(ipa@)));
                    assert(spec_ipa_of(sys, cs@.subrange(i as int, j as int)) == Some(ipa@));
                    assert(spec_elems(sys, cs@, i as int, nested) == cons(PatternView::IpaSequence(ipa@), spec_elems(sys, cs@, j as int, nested)));
                    i = j;
                },
                Err(e) => {
                    return Err(PhonotacticsError::ParseError(e.message()));
                },
            }
        } else if c == '(' {
            let (inner, close) = parse_pattern(cs, i + 1, true, system)?;
            proof {
                lemma_patterns_view(inner@);
            }
            if inner.len() == 0 {
                return Err(PhonotacticsError::ParseError(String::from_str("empty optional group")));
            }
            proof {
                // the inner list ends at its `)`, after the `(`
                lemma_elems_end(sys, cs@, i + 1, true);
            }
            match parse_probability(cs, close + 1) {
                Some((prob, next)) => {
                    let ghost inner_v = patterns_view(inner@);
                    let group = pattern_of(inner);
                    let g = PhonotacticPattern::OptionalGroup(Box::new(group), prob);
                    assert(pattern_view(g) == PatternView::OptionalGroup(Box::new(group_of(inner_v)), prob));
                    proof {
                        lemma_after_cons(
                            acc_v,
                            PatternView::OptionalGroup(Box::new(group_of(inner_v)), prob),
                            spec_elems(sys, cs@, next as int, nested),
                        );
                    }
                    let ghost before = acc@;
                    acc.push(g);
                    assert(acc@.drop_last() =~= before);
                    assert(patterns_view(acc@) == acc_v.push(PatternView::OptionalGroup(Box::new(group_of(inner_v)), prob)));
                    assert(spec_elems(sys, cs@, i as int, nested) == cons(PatternView::OptionalGroup(Box::new(group_of(inner_v)), prob), spec_elems(sys, cs@, next as int, nested)));
                    i = next;
                },
                None => {
                    return Err(PhonotacticsError::ParseError(String::from_str("malformed probability")));
                },
            }
        } else {
            return Err(PhonotacticsError::ParseError(crate::text::concat2("unexpected character ", crate::text::char_string(c).as_str())));
        }
    }
}

proof fn lemma_elems_end(sys: IpaSystemView, cs: Seq<char>, i: int, nested: bool)
    requires
        0 <= i <= cs.len(),
        spec_elems(sys, cs, i, nested) is Some,
    ensures
        i <= spec_elems(sys, cs, i, nested).unwrap().1 <= cs.len(),
        nested ==> spec_elems(sys, cs, i, nested).unwrap().1 < cs.len() && cs[spec_elems(sys, cs, i, nested).unwrap().1] == ')',
    decreases cs.len() - i,
{
    if i < cs.len() && cs[i] != ')' {
        if is_class_letter(cs[i]) {
            lemma_elems_end(sys, cs, i + 1, nested);
        } else if is_pattern_ipa_char(cs[i]) {
            let end = ipa_run_end(cs, i);
            lemma_elems_end(sys, cs, end, nested);
        } else if cs[i] == '(' {
            let (ps, close) = spec_elems(sys, cs, i + 1, true).unwrap();
            let next = spec_probability(cs, close + 1).unwrap().1;
            lemma_elems_end(sys, cs, next, nested);
        }
    }
}

/// The hand-written parser of phonotactic patterns.
pub struct PhonotacticsParser;

impl PhonotacticsParser {
    /// Parses a pattern; literal IPA runs are read with the given system.
    pub fn parse(s: &str, system: &IpaSystem) -> (r: Result<PhonotacticPattern, PhonotacticsError>)
        ensures
            r is Ok <==> spec_parse_pattern(system@, s@) is Some,
            r matches Ok(p) ==> spec_parse_pattern(system@, s@) == Some(p@),
    {
        let cs = crate::text::chars_of(s);
        let (ps, _end) = parse_pattern(&cs, 0, false, system)?;
        if ps.len() == 0 {
            return Err(PhonotacticsError::ParseError(String::from_str("empty pattern")));
        }
        Ok(pattern_of(ps))
    }
}

impl PhonotacticPattern {
    /// Parses a pattern; literal IPA runs are read with the given system.
    pub fn parse(s: &str, system: &IpaSystem) -> (r: Result<PhonotacticPattern, PhonotacticsError>)
        ensures
            r is Ok <==> spec_parse_pattern(system@, s@) is Some,
            r matches Ok(p) ==> spec_parse_pattern(system@, s@) == Some(p@),
    {
        PhonotacticsParser::parse(s, system)
    }
}

impl PhonotacticPattern {
    /// The pattern's text: sound classes by their letter, IPA runs by their
    /// text, groups in parentheses followed by their probability and `%`
    /// unless it is the default.
    pub fn to_text(&self) -> (r: String)
        ensures
            r@ == spec_pattern_text(self@),
        decreases self,
    {
        match self {
            PhonotacticPattern::Sequence(ps) => {
                let ghost pv = patterns_view(ps@);
                proof {
                    lemma_patterns_view(ps@);
                }
                let mut out = String::new();
                let mut i: usize = 0;
                while i < ps.len()
                    invariant
                        i <= ps.len(),
                        pv == patterns_view(ps@),
                        pv.len() == ps@.len(),
                        forall|k: int| 0 <= k < ps@.len() ==> #[trigger] pv[k] == pattern_view(ps@[k]),
                        out@ == spec_patterns_text(pv.take(i as int)),
                        *self == PhonotacticPattern::Sequence(*ps),
                    decreases ps.len() - i,
                {
                    assert(pv.take(i + 1).drop_last() =~= pv.take(i as int));
                    proof {
                        assert(decreases_to!(*ps => ps@));
                        assert(decreases_to!(ps@ => ps@[i as int]));
                        assert(decreases_to!(*self => (*self)->Sequence_0));
                        assert(decreases_to!(*self => ps@[i as int]));
                    }
                    let t = ps[i].to_text();
                    out.append(t.as_str());
                    i = i + 1;
                }
                assert(pv.take(i as int) =~= pv);
                out
            },
            PhonotacticPattern::SoundClass(k) => k.to_text(),
            PhonotacticPattern::IpaSequence(ipa) => String::from_str(ipa.as_str()),
            PhonotacticPattern::OptionalGroup(inner, prob) => {
                let mut out = crate::text::char_string('(');
                let t = inner.to_text();
                out.append(t.as_str());
                out.append(")");
                if *prob != DEFAULT_OPTIONAL_PROBABILITY {
                    let d = decimal(*prob as usize);
                    out.append(d.as_str());
                    out.append("%");
                }
                proof {
                    reveal_strlit(")");
                    reveal_strlit("%");
                }
                out
            },
        }
    }
}

} // verus!
