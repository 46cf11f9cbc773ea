//! The parser of sound patterns.
//!
//! The grammar, over the characters of the pattern (no whitespace outside brackets and braces):
//! - a pattern is one or more elements;
//! - an element is a base, then optionally `*` (zero or more) or `+` (one or more);
//! - a base is `#` (word boundary), `$` (syllable boundary), a sound class
//!   letter with an optional decimal marker (`C1`), a run of IPA characters
//!   (lowercase ASCII letters and characters from U+00C0 on), a feature class,
//!   a set, or a group `(pattern)`;
//! - a feature class is `[`, optionally a class letter with its marker, then
//!   descriptors `+name` or `-name` separated by spaces, then `]`;
//! - a set is `{`, one or more class letters or IPA runs separated by commas
//!   (with optional spaces), then `}`.

use crate::data::{digits_value, is_digit};
use crate::feature::{feature_named, Feature};
use crate::ipa_string::IpaString;
use crate::ipa_system::{IpaSystem, IpaSystemView};
use crate::matcher::ast::{
    BaseElement, BaseView, ElementView, FeatureDescriptor, PatternElement, Quantifier,
    SoundMatcherError, SoundMatcherPattern, bases_view, pattern_elements_view, base_view, element_view,
};
use crate::phonotactics::{ipa_run_end, is_pattern_ipa_char, spec_ipa_of};
use crate::sound_class::{is_class_letter, SoundClassKey};
use vstd::prelude::*;

verus! {

/// The feature that a descriptor names: a feature by its name, or `voice`
/// by the spelling `voiced`.
pub open spec fn descriptor_feature(name: Seq<char>) -> Option<Feature> {
    if name == "voiced"@ {
        Some(Feature::Voice)
    } else {
        feature_named(name)
    }
}

/// The feature that a descriptor names.
fn descriptor_feature_of(name: &str) -> (r: Option<Feature>)
    ensures
        r == descriptor_feature(name@),
{
    proof {
        reveal_strlit("voiced");
    }
    if crate::text::str_eq(name, "voiced") {
        Some(Feature::Voice)
    } else {
        Feature::from_name(name)
    }
}

/// The end of the run of digits that starts at `j`.
pub open spec fn digits_end(cs: Seq<char>, j: int) -> int
    decreases cs.len() - j,
{
    if 0 <= j < cs.len() && is_digit(cs[j]) {
        digits_end(cs, j + 1)
    } else {
        j
    }
}

/// The end of the run of spaces that starts at `j`.
pub open spec fn spaces_end(cs: Seq<char>, j: int) -> int
    decreases cs.len() - j,
{
    if 0 <= j < cs.len() && cs[j] == ' ' {
        spaces_end(cs, j + 1)
    } else {
        j
    }
}

/// Whether a character may stand in a feature name.
pub open spec fn is_name_char(c: char) -> bool {
    ('a' <= c <= 'z') || c == '_'
}

/// The end of the feature name that starts at `j`.
pub open spec fn name_end(cs: Seq<char>, j: int) -> int
    decreases cs.len() - j,
{
    if 0 <= j < cs.len() && is_name_char(cs[j]) {
        name_end(cs, j + 1)
    } else {
        j
    }
}

/// The marker written at `j`, if any, and where it ends; `None` when its
/// digits denote more than 255.
pub open spec fn spec_marker(cs: Seq<char>, j: int) -> Option<(Option<u8>, int)> {
    if 0 <= j < cs.len() && is_digit(cs[j]) {
        let e = digits_end(cs, j);
        let v = digits_value(cs.subrange(j, e));
        if v <= 255 {
            Some((Some(v as u8), e))
        } else {
            None
        }
    } else {
        Some((None, j))
    }
}

/// The quantifier written at `j`, and where it ends.
pub open spec fn spec_quantifier(cs: Seq<char>, j: int) -> (Quantifier, int) {
    if 0 <= j < cs.len() && cs[j] == '*' {
        (Quantifier::ZeroOrMore, j + 1)
    } else if 0 <= j < cs.len() && cs[j] == '+' {
        (Quantifier::OneOrMore, j + 1)
    } else {
        (Quantifier::Once, j)
    }
}

/// `x` in front of a list result.
pub open spec fn cons_list<A>(x: A, r: Option<(Seq<A>, int)>) -> Option<(Seq<A>, int)> {
    match r {
        Some((s, e)) => Some((seq![x] + s, e)),
        None => None,
    }
}

/// The descriptors of a feature class from `j` on, up to and past its `]`.
pub open spec fn spec_descriptors(cs: Seq<char>, j: int) -> Option<(Seq<FeatureDescriptor>, int)>
    decreases cs.len() - j,
{
    let k = spaces_end(cs, j);
    if !(0 <= j <= k < cs.len()) {
        None
    } else if cs[k] == ']' {
        Some((Seq::empty(), k + 1))
    } else if cs[k] == '+' || cs[k] == '-' {
        let e = name_end(cs, k + 1);
        if k + 1 < e <= cs.len() {
            match descriptor_feature(cs.subrange(k + 1, e)) {
                Some(f) => cons_list(FeatureDescriptor { sign: cs[k] == '+', feature: f }, spec_descriptors(cs, e)),
                None => None,
            }
        } else {
            None
        }
    } else {
        None
    }
}

/// A feature class from `j` (after its `[`) on: its class letter, marker and
/// descriptors, and where it ends.
pub open spec fn spec_feature_class(cs: Seq<char>, j: int) -> Option<(Option<char>, Option<u8>, Seq<FeatureDescriptor>, int)> {
    let k = spaces_end(cs, j);
    if 0 <= k < cs.len() && is_class_letter(cs[k]) {
        match spec_marker(cs, k + 1) {
            Some((m, e)) => match spec_descriptors(cs, e) {
                Some((ds, end)) => Some((Some(cs[k]), m, ds, end)),
                None => None,
            },
            None => None,
        }
    } else {
        match spec_descriptors(cs, k) {
            Some((ds, end)) => Some((None, None, ds, end)),
            None => None,
        }
    }
}

/// The member of a set at `k`: a class letter or an IPA run, and where it ends.
pub open spec fn spec_set_member(sys: IpaSystemView, cs: Seq<char>, k: int) -> Option<(BaseView, int)> {
    if !(0 <= k < cs.len()) {
        None
    } else if is_class_letter(cs[k]) {
        Some((BaseView::SoundClass(cs[k]), k + 1))
    } else if is_pattern_ipa_char(cs[k]) {
        let e = ipa_run_end(cs, k);
        if k < e <= cs.len() {
            match spec_ipa_of(sys, cs.subrange(k, e)) {
                Some(ipa) => Some((BaseView::IpaSequence(ipa), e)),
                None => None,
            }
        } else {
            None
        }
    } else {
        None
    }
}

/// The members of a set from `j` on, up to and past its `}`.
pub open spec fn spec_set_members(sys: IpaSystemView, cs: Seq<char>, j: int) -> Option<(Seq<BaseView>, int)>
    decreases cs.len() - j,
{
    let k = spaces_end(cs, j);
    if !(0 <= j <= k) {
        None
    } else {
        match spec_set_member(sys, cs, k) {
            Some((b, e)) => {
                let k2 = spaces_end(cs, e);
                if !(j < e <= k2 < cs.len()) {
                    None
                } else if cs[k2] == ',' {
                    cons_list(b, spec_set_members(sys, cs, k2 + 1))
                } else if cs[k2] == '}' {
                    Some((seq![b], k2 + 1))
                } else {
                    None
                }
            },
            None => None,
        }
    }
}

/// The elements from `i` on, up to the end of the text, or, inside a group
/// (`nested`), up to its `)`.
pub open spec fn spec_match_elems(sys: IpaSystemView, cs: Seq<char>, i: int, nested: bool) -> Option<(Seq<ElementView>, int)>
    decreases cs.len() - i, 2int,
{
    if i < 0 {
        None
    } else if i >= cs.len() {
        if nested {
            None
        } else {
            Some((Seq::empty(), i))
        }
    } else if cs[i] == ')' {
        if nested {
            Some((Seq::empty(), i))
        } else {
            None
        }
    } else {
        match spec_element(sys, cs, i) {
            Some((e, next)) => if i < next <= cs.len() {
                cons_list(e, spec_match_elems(sys, cs, next, nested))
            } else {
                None
            },
            None => None,
        }
    }
}

/// The element at `i`, and where it ends.
pub open spec fn spec_element(sys: IpaSystemView, cs: Seq<char>, i: int) -> Option<(ElementView, int)>
    decreases cs.len() - i, 1int,
{
    match spec_base(sys, cs, i) {
        Some((b, m, j)) => {
            let (q, e) = spec_quantifier(cs, j);
            Some((ElementView { base: b, quantifier: q, marker: m }, e))
        },
        None => None,
    }
}

/// The base at `i`, its marker, and where they end.
pub open spec fn spec_base(sys: IpaSystemView, cs: Seq<char>, i: int) -> Option<(BaseView, Option<u8>, int)>
    decreases cs.len() - i, 0int,
{
    if !(0 <= i < cs.len()) {
        None
    } else if cs[i] == '#' {
        Some((BaseView::WordBoundary, None, i + 1))
    } else if cs[i] == '$' {
        Some((BaseView::SyllableBoundary, None, i + 1))
    } else if is_class_letter(cs[i]) {
        match spec_marker(cs, i + 1) {
            Some((m, e)) => Some((BaseView::SoundClass(cs[i]), m, e)),
            None => None,
        }
    } else if is_pattern_ipa_char(cs[i]) {
        let e = ipa_run_end(cs, i);
        if i < e <= cs.len() {
            match spec_ipa_of(sys, cs.subrange(i, e)) {
                Some(ipa) => Some((BaseView::IpaSequence(ipa), None, e)),
                None => None,
            }
        } else {
            None
        }
    } else if cs[i] == '[' {
        match spec_feature_class(cs, i + 1) {
            Some((k, m, ds, end)) => Some((BaseView::FeatureClass(k, ds), m, end)),
            None => None,
        }
    } else if cs[i] == '{' {
        match spec_set_members(sys, cs, i + 1) {
            Some((bs, end)) => Some((BaseView::SetOf(bs), None, end)),
            None => None,
        }
    } else if cs[i] == '(' {
        match spec_match_elems(sys, cs, i + 1, true) {
            Some((ps, close)) => if i < close < cs.len() && ps.len() > 0 {
                Some((BaseView::OptionalGroup(Box::new(ps)), None, close + 1))
            } else {
                None
            },
            None => None,
        }
    } else {
        None
    }
}

/// The pattern that a text denotes, if it follows the grammar and the
/// system accepts its IPA runs.
pub open spec fn spec_parse_matcher(sys: IpaSystemView, s: Seq<char>) -> Option<Seq<ElementView>> {
    match spec_match_elems(sys, s, 0, false) {
        Some((es, _)) => if es.len() > 0 {
            Some(es)
        } else {
            None
        },
        None => None,
    }
}

/// A list result with `prefix` in front.
pub open spec fn after_list<A>(prefix: Seq<A>, r: Option<(Seq<A>, int)>) -> Option<(Seq<A>, int)> {
    match r {
        Some((s, e)) => Some((prefix + s, e)),
        None => None,
    }
}

proof fn lemma_after_cons<A>(acc: Seq<A>, x: A, r: Option<(Seq<A>, int)>)
    ensures
        after_list(acc, cons_list(x, r)) == after_list(acc.push(x), r),
{
    if let Some((s, e)) = r {
        assert(acc + (seq![x] + s) =~= acc.push(x) + s);
    }
}

proof fn lemma_after_empty<A>(r: Option<(Seq<A>, int)>)
    ensures
        after_list(Seq::<A>::empty(), r) == r,
{
    if let Some((s, e)) = r {
        assert(Seq::<A>::empty() + s =~= s);
    }
}

fn digits_end_at(cs: &Vec<char>, j: usize) -> (r: usize)
    requires
        j <= cs.len(),
    ensures
        r as int == digits_end(cs@, j as int),
        j <= r <= cs.len(),
{
    let mut k = j;
    while k < cs.len() && '0' <= cs[k] && cs[k] <= '9'
        invariant
            j <= k <= cs.len(),
            digits_end(cs@, j as int) == digits_end(cs@, k as int),
        decreases cs.len() - k,
    {
        k = k + 1;
    }
    k
}

fn spaces_end_at(cs: &Vec<char>, j: usize) -> (r: usize)
    requires
        j <= cs.len(),
    ensures
        r as int == spaces_end(cs@, j as int),
        j <= r <= cs.len(),
{
    let mut k = j;
    while k < cs.len() && cs[k] == ' '
        invariant
            j <= k <= cs.len(),
            spaces_end(cs@, j as int) == spaces_end(cs@, k as int),
        decreases cs.len() - k,
    {
        k = k + 1;
    }
    k
}

fn name_end_at(cs: &Vec<char>, j: usize) -> (r: usize)
    requires
        j <= cs.len(),
    ensures
        r as int == name_end(cs@, j as int),
        j <= r <= cs.len(),
{
    let mut k = j;
    while k < cs.len() && (('a' <= cs[k] && cs[k] <= 'z') || cs[k] == '_')
        invariant
            j <= k <= cs.len(),
            name_end(cs@, j as int) == name_end(cs@, k as int),
        decreases cs.len() - k,
    {
        k = k + 1;
    }
    k
}

fn ipa_end_at(cs: &Vec<char>, j: usize) -> (r: usize)
    requires
        j <= cs.len(),
    ensures
        r as int == ipa_run_end(cs@, j as int),
        j <= r <= cs.len(),
{
    let mut k = j;
    while k < cs.len() && (('a' <= cs[k] && cs[k] <= 'z') || (cs[k] as u32) >= 0xC0)
        invariant
            j <= k <= cs.len(),
            ipa_run_end(cs@, j as int) == ipa_run_end(cs@, k as int),
        decreases cs.len() - k,
    {
        k = k + 1;
    }
    k
}

proof fn lemma_digits_value_grows(s: Seq<char>, c: char)
    requires
        crate::data::all_digits(s),
        is_digit(c),
    ensures
        digits_value(s.push(c)) == digits_value(s) * 10 + (c as int - '0' as int),
        digits_value(s.push(c)) >= digits_value(s),
        digits_value(s) >= 0,
    decreases s.len(),
{
    assert(s.push(c).drop_last() =~= s);
    if s.len() > 0 {
        assert(crate::data::all_digits(s.drop_last()));
        lemma_digits_value_grows(s.drop_last(), s.last());
        assert(s.drop_last().push(s.last()) =~= s);
    }
}

fn parse_marker(cs: &Vec<char>, j: usize) -> (r: Option<(Option<u8>, usize)>)
    requires
        j <= cs.len(),
    ensures
        r is Some == spec_marker(cs@, j as int) is Some,
        r matches Some((m, e)) ==> spec_marker(cs@, j as int) == Some((m, e as int)) && j <= e <= cs.len(),
{
    if !(j < cs.len() && '0' <= cs[j] && cs[j] <= '9') {
        return Some((None, j));
    }
    let e = digits_end_at(cs, j);
    proof {
        lemma_digits_end(cs@, j as int);
        assert(cs@.subrange(j as int, j as int) =~= Seq::<char>::empty());
    }
    let mut v: u32 = 0;
    let mut over = false;
    let mut k = j;
    while k < e
        invariant
            j <= k <= e <= cs.len(),
            e == digits_end(cs@, j as int),
            forall|q: int| j <= q < e ==> is_digit(#[trigger] cs@[q]),
            !over ==> v as int == digits_value(cs@.subrange(j as int, k as int)) && v <= 255,
            over ==> digits_value(cs@.subrange(j as int, k as int)) > 255,
        decreases e - k,
    {
        proof {
            assert(crate::data::all_digits(cs@.subrange(j as int, k as int)));
            lemma_digits_value_grows(cs@.subrange(j as int, k as int), cs@[k as int]);
            assert(cs@.subrange(j as int, k + 1) =~= cs@.subrange(j as int, k as int).push(cs@[k as int]));
        }
        if !over {
            let d = (cs[k] as u32) - 48;
            let nv = v * 10 + d;
            if nv > 255 {
                over = true;
            } else {
                v = nv;
            }
        }
        k = k + 1;
    }
    if over {
        None
    } else {
        Some((Some(v as u8), e))
    }
}

proof fn lemma_digits_end(cs: Seq<char>, j: int)
    requires
        0 <= j <= cs.len(),
    ensures
        j <= digits_end(cs, j) <= cs.len(),
        forall|q: int| j <= q < digits_end(cs, j) ==> is_digit(#[trigger] cs[q]),
    decreases cs.len() - j,
{
    if 0 <= j < cs.len() && is_digit(cs[j]) {
        lemma_digits_end(cs, j + 1);
    }
}

fn parse_quantifier(cs: &Vec<char>, j: usize) -> (r: (Quantifier, usize))
    requires
        j <= cs.len(),
    ensures
        (r.0, r.1 as int) == spec_quantifier(cs@, j as int),
        j <= r.1 <= cs.len(),
{
    if j < cs.len() && cs[j] == '*' {
        (Quantifier::ZeroOrMore, j + 1)
    } else if j < cs.len() && cs[j] == '+' {
        (Quantifier::OneOrMore, j + 1)
    } else {
        (Quantifier::Once, j)
    }
}

fn parse_descriptors(cs: &Vec<char>, start: usize) -> (r: Option<(Vec<FeatureDescriptor>, usize)>)
    requires
        start <= cs.len(),
    ensures
        r is Some == spec_descriptors(cs@, start as int) is Some,
        r matches Some((ds, e)) ==> spec_descriptors(cs@, start as int) == Some((ds@, e as int)) && e <= cs.len(),
{
    let mut acc: Vec<FeatureDescriptor> = Vec::new();
    let mut j = start;
    proof {
        lemma_after_empty(spec_descriptors(cs@, start as int));
    }
    loop
        invariant
            start <= j <= cs.len(),
            spec_descriptors(cs@, start as int) == after_list(acc@, spec_descriptors(cs@, j as int)),
        decreases cs.len() - j,
    {
        let k = spaces_end_at(cs, j);
        if k >= cs.len() {
            return None;
        }
        if cs[k] == ']' {
            assert(acc@ + Seq::<FeatureDescriptor>::empty() =~= acc@);
            return Some((acc, k + 1));
        }
        if cs[k] != '+' && cs[k] != '-' {
            return None;
        }
        let e = name_end_at(cs, k + 1);
        if e <= k + 1 {
            return None;
        }
        let name = crate::text::string_range(cs.as_slice(), k + 1, e);
        match descriptor_feature_of(name.as_str()) {
            Some(f) => {
                let d = FeatureDescriptor { sign: cs[k] == '+', feature: f };
                proof {
                    lemma_after_cons(acc@, d, spec_descriptors(cs@, e as int));
                }
                acc.push(d);
                j = e;
            },
            None => {
                return None;
            },
        }
    }
}

fn parse_feature_class(cs: &Vec<char>, j: usize) -> (r: Option<(Option<SoundClassKey>, Option<u8>, Vec<FeatureDescriptor>, usize)>)
    requires
        j <= cs.len(),
    ensures
        r is Some == spec_feature_class(cs@, j as int) is Some,
        r matches Some((k, m, ds, e)) ==> spec_feature_class(cs@, j as int) == Some((crate::matcher::ast::key_letter(k), m, ds@, e as int))
            && e <= cs.len(),
{
    let k = spaces_end_at(cs, j);
    if k < cs.len() && 'A' <= cs[k] && cs[k] <= 'Z' {
        let key = SoundClassKey { letter: cs[k] };
        match parse_marker(cs, k + 1) {
            Some((m, e)) => match parse_descriptors(cs, e) {
                Some((ds, end)) => Some((Some(key), m, ds, end)),
                None => None,
            },
            None => None,
        }
    } else {
        match parse_descriptors(cs, k) {
            Some((ds, end)) => Some((None, None, ds, end)),
            None => None,
        }
    }
}

fn parse_set_member(system: &IpaSystem, cs: &Vec<char>, k: usize) -> (r: Option<(BaseElement, usize)>)
    requires
        k <= cs.len(),
    ensures
        r is Some == spec_set_member(system@, cs@, k as int) is Some,
        r matches Some((b, e)) ==> spec_set_member(system@, cs@, k as int) == Some((b@, e as int)),
{
    if k >= cs.len() {
        return None;
    }
    let c = cs[k];
    if 'A' <= c && c <= 'Z' {
        let b = BaseElement::SoundClass(SoundClassKey { letter: c });
        assert(b@ == BaseView::SoundClass(c));
        Some((b, k + 1))
    } else if ('a' <= c && c <= 'z') || (c as u32) >= 0xC0 {
        let e = ipa_end_at(cs, k);
        if e <= k {
            return None;
        }
        let text = crate::text::string_range(cs.as_slice(), k, e);
        match IpaString::parse(text.as_str(), system) {
            Ok(ipa) => {
                let ghost iv = ipa@;
                let b = BaseElement::IpaSequence(ipa);
                assert(b@ == BaseView::IpaSequence(iv));
                Some((b, e))
            },
            Err(_) => None,
        }
    } else {
        None
    }
}

fn parse_set(system: &IpaSystem, cs: &Vec<char>, start: usize) -> (r: Option<(Vec<BaseElement>, usize)>)
    requires
        start <= cs.len(),
    ensures
        r is Some == spec_set_members(system@, cs@, start as int) is Some,
        r matches Some((bs, e)) ==> spec_set_members(system@, cs@, start as int) == Some((bases_view(bs@), e as int))
            && e <= cs.len(),
{
    let mut acc: Vec<BaseElement> = Vec::new();
    let mut j = start;
    proof {
        lemma_after_empty(spec_set_members(system@, cs@, start as int));
    }
    loop
        invariant
            start <= j <= cs.len(),
            spec_set_members(system@, cs@, start as int) == after_list(bases_view(acc@), spec_set_members(system@, cs@, j as int)),
        decreases cs.len() - j,
    {
        let k = spaces_end_at(cs, j);
        match parse_set_member(system, cs, k) {
            Some((b, e)) => {
                let k2 = spaces_end_at(cs, e);
                if !(j < e && k2 < cs.len()) {
                    return None;
                }
                let ghost bv = b@;
                let ghost before = acc@;
                if cs[k2] == ',' {
                    proof {
                        lemma_after_cons(bases_view(acc@), bv, spec_set_members(system@, cs@, k2 + 1));
                    }
                    acc.push(b);
                    assert(acc@.drop_last() =~= before);
                    assert(bases_view(acc@) == bases_view(before).push(bv));
                    j = k2 + 1;
                } else if cs[k2] == '}' {
                    acc.push(b);
                    assert(acc@.drop_last() =~= before);
                    assert(bases_view(acc@) == bases_view(before).push(bv));
                    assert(bases_view(before) + seq![bv] =~= bases_view(acc@));
                    return Some((acc, k2 + 1));
                } else {
                    return None;
                }
            },
            None => {
                return None;
            },
        }
    }
}

proof fn lemma_elems_end(sys: IpaSystemView, cs: Seq<char>, i: int, nested: bool)
    requires
        0 <= i <= cs.len(),
        spec_match_elems(sys, cs, i, nested) is Some,
    ensures
        i <= spec_match_elems(sys, cs, i, nested).unwrap().1 <= cs.len(),
        nested ==> spec_match_elems(sys, cs, i, nested).unwrap().1 < cs.len(),
    decreases cs.len() - i,
{
    if i < cs.len() && cs[i] != ')' {
        let (e, next) = spec_element(sys, cs, i).unwrap();
        lemma_elems_end(sys, cs, next, nested);
    }
}

/// Parses the elements of `cs` from `start` on, up to the end of the text,
/// or, inside a group, up to its closing `)`.
fn parse_pattern(system: &IpaSystem, cs: &Vec<char>, start: usize, nested: bool) -> (r: Option<(Vec<PatternElement>, usize)>)
    requires
        start <= cs.len(),
    ensures
        r is Some == spec_match_elems(system@, cs@, start as int, nested) is Some,
        r matches Some((es, e)) ==> spec_match_elems(system@, cs@, start as int, nested) == Some((pattern_elements_view(es@), e as int))
            && e <= cs.len(),
    decreases cs.len() - start, 2int,
{
    let mut acc: Vec<PatternElement> = Vec::new();
    let mut i = start;
    proof {
        lemma_after_empty(spec_match_elems(system@, cs@, start as int, nested));
    }
    loop
        invariant
            start <= i <= cs.len(),
            spec_match_elems(system@, cs@, start as int, nested) == after_list(pattern_elements_view(acc@), spec_match_elems(system@, cs@, i as int, nested)),
        decreases cs.len() - i,
    {
        if i >= cs.len() {
            if nested {
                return None;
            }
            assert(pattern_elements_view(acc@) + Seq::<ElementView>::empty() =~= pattern_elements_view(acc@));
            return Some((acc, i));
        }
        if cs[i] == ')' {
            if nested {
                assert(pattern_elements_view(acc@) + Seq::<ElementView>::empty() =~= pattern_elements_view(acc@));
                return Some((acc, i));
            }
            return None;
        }
        match parse_pattern_element(system, cs, i) {
            Some((e, next)) => {
                if next <= i {
                    return None;
                }
                let ghost ev = e@;
                let ghost before = acc@;
                proof {
                    lemma_after_cons(pattern_elements_view(acc@), ev, spec_match_elems(system@, cs@, next as int, nested));
                }
                acc.push(e);
                assert(acc@.drop_last() =~= before);
                assert(pattern_elements_view(acc@) == pattern_elements_view(before).push(ev));
                i = next;
            },
            None => {
                return None;
            },
        }
    }
}

/// Parses the element at `i`.
fn parse_pattern_element(system: &IpaSystem, cs: &Vec<char>, i: usize) -> (r: Option<(PatternElement, usize)>)
    requires
        i <= cs.len(),
    ensures
        r is Some == spec_element(system@, cs@, i as int) is Some,
        r matches Some((e, end)) ==> spec_element(system@, cs@, i as int) == Some((e@, end as int)) && end <= cs.len(),
    decreases cs.len() - i, 1int,
{
    match parse_base_element(system, cs, i) {
        Some((b, m, j)) => {
            let (q, e) = parse_quantifier(cs, j);
            let ghost bv = b@;
            let el = PatternElement { base: b, quantifier: q, marker: m };
            assert(el@ == ElementView { base: bv, quantifier: q, marker: m });
            Some((el, e))
        },
        None => None,
    }
}

/// Parses the base at `i`.
fn parse_base_element(system: &IpaSystem, cs: &Vec<char>, i: usize) -> (r: Option<(BaseElement, Option<u8>, usize)>)
    requires
        i <= cs.len(),
    ensures
        r is Some == spec_base(system@, cs@, i as int) is Some,
        r matches Some((b, m, e)) ==> spec_base(system@, cs@, i as int) == Some((b@, m, e as int)) && e <= cs.len(),
    decreases cs.len() - i, 0int,
{
    if i >= cs.len() {
        return None;
    }
    let c = cs[i];
    if c == '#' {
        Some((BaseElement::WordBoundary, None, i + 1))
    } else if c == '$' {
        Some((BaseElement::SyllableBoundary, None, i + 1))
    } else if 'A' <= c && c <= 'Z' {
        match parse_marker(cs, i + 1) {
            Some((m, e)) => {
                let b = BaseElement::SoundClass(SoundClassKey { letter: c });
                assert(b@ == BaseView::SoundClass(c));
                Some((b, m, e))
            },
            None => None,
        }
    } else if ('a' <= c && c <= 'z') || (c as u32) >= 0xC0 {
        let e = ipa_end_at(cs, i);
        if e <= i {
            return None;
        }
        let text = crate::text::string_range(cs.as_slice(), i, e);
        match IpaString::parse(text.as_str(), system) {
            Ok(ipa) => {
                let ghost iv = ipa@;
                let b = BaseElement::IpaSequence(ipa);
                assert(b@ == BaseView::IpaSequence(iv));
                Some((b, None, e))
            },
            Err(_) => None,
        }
    } else if c == '[' {
        match parse_feature_class(cs, i + 1) {
            Some((k, m, ds, end)) => {
                let ghost dv = ds@;
                let b = BaseElement::FeatureClass(k, ds);
                assert(b@ == BaseView::FeatureClass(crate::matcher::ast::key_letter(k), dv));
                Some((b, m, end))
            },
            None => None,
        }
    } else if c == '{' {
        match parse_set(system, cs, i + 1) {
            Some((bs, end)) => {
                let ghost bv = bases_view(bs@);
                let b = BaseElement::SetOf(bs);
                assert(b@ == BaseView::SetOf(bv));
                Some((b, None, end))
            },
            None => None,
        }
    } else if c == '(' {
        match parse_pattern(system, cs, i + 1, true) {
            Some((ps, close)) => {
                proof {
                    lemma_elems_end(system@, cs@, i + 1, true);
                    crate::matcher::ast::lemma_elements_view(ps@);
                }
                if ps.len() == 0 {
                    return None;
                }
                let ghost pv = pattern_elements_view(ps@);
                let b = BaseElement::OptionalGroup(Box::new(SoundMatcherPattern { elements: ps }));
                assert(b@ == BaseView::OptionalGroup(Box::new(pv)));
                Some((b, None, close + 1))
            },
            None => None,
        }
    } else {
        None
    }
}

impl SoundMatcherPattern {
    /// Parses a sound pattern; IPA runs are read with the given system.
    pub fn parse(s: &str, system: &IpaSystem) -> (r: Result<SoundMatcherPattern, SoundMatcherError>)
        ensures
            r is Ok <==> spec_parse_matcher(system@, s@) is Some,
            r matches Ok(p) ==> spec_parse_matcher(system@, s@) == Some(p@),
    {
        let cs = crate::text::chars_of(s);
        match parse_pattern(system, &cs, 0, false) {
            Some((es, _)) => {
                if es.len() == 0 {
                    return Err(SoundMatcherError::ParseError(String::from_str("Empty pattern")));
                }
                proof {
                    crate::matcher::ast::lemma_elements_view(es@);
                }
                Ok(SoundMatcherPattern { elements: es })
            },
            None => Err(SoundMatcherError::ParseError(crate::text::concat2("invalid sound pattern: ", s))),
        }
    }
}

/// The hand-written parser of sound patterns.
pub struct SoundMatcherParser;

impl SoundMatcherParser {
    /// Parses a sound pattern; IPA runs are read with the given system.
    pub fn parse(s: &str, system: &IpaSystem) -> (r: Result<SoundMatcherPattern, SoundMatcherError>)
        ensures
            r is Ok <==> spec_parse_matcher(system@, s@) is Some,
            r matches Ok(p) ==> spec_parse_matcher(system@, s@) == Some(p@),
    {
        SoundMatcherPattern::parse(s, system)
    }
}

} // verus!
