//! Word generator patterns: their syntax tree, parser and text.
//!
//! The grammar, over the characters of the pattern (no whitespace):
//! - a pattern is one or more elements;
//! - an element is a sound class (one uppercase ASCII letter), a literal
//!   (a run of lowercase ASCII letters and characters from U+00C0 on, the
//!   stress mark excepted), a set `{a,b,...}` of one or more choices (runs of
//!   ASCII letters and characters from U+00C0 on), an optional group
//!   `(pattern)` with an optional probability (digits and `%`), a grammar
//!   reference `[primary]` or `[primary.secondary]` (runs of ASCII letters,
//!   digits and `_`), a syllable break `.`, or the stress mark `ˈ`.

use crate::data::{digits_value, is_digit};
use crate::sound_class::{is_class_letter, SoundClassKey};
use crate::text::decimal_text;
use vstd::prelude::*;

verus! {

/// Errors that can occur during pattern parsing.
pub enum GeneratorError {
    /// Failed to parse pattern syntax.
    ParseError(String),
}

impl GeneratorError {
    /// The error's message: `Failed to parse pattern: ` and the detail.
    pub fn message(&self) -> (r: String)
        ensures
            r@ == (match self {
                GeneratorError::ParseError(m) => "Failed to parse pattern: "@ + m@,
            }),
    {
        match self {
            GeneratorError::ParseError(m) => crate::text::concat2("Failed to parse pattern: ", m.as_str()),
        }
    }
}

/// The probability, in percent, of an optional group written without one.
pub const DEFAULT_OPTIONAL_PROBABILITY: u8 = 20;

/// A single element of a word generator pattern.
pub enum WordPatternElement {
    /// Reference to a sound class (e.g. C, V).
    SoundClass(SoundClassKey),
    /// A literal string (e.g. "k", "t").
    Literal(String),
    /// An equiprobable choice among strings (e.g. {p,t,k}).
    SetOf(Vec<String>),
    /// An optional group with a percent probability (e.g. (C)15%).
    Optional(Box<WordPattern>, u8),
    /// Reference to another grammatical type generator (e.g. [verb], [noun.masculine]).
    GrammarRef { primary: String, secondary: Option<String> },
    /// A syllable break marker (`.`).
    SyllableBreak,
    /// A primary stress marker (`ˈ`).
    StressMarker,
}

/// A parsed word generator pattern.
pub struct WordPattern {
    /// Ordered elements making up the pattern.
    pub elements: Vec<WordPatternElement>,
}

/// The model of a `WordPatternElement`.
pub enum GenElementView {
    SoundClass(char),
    Literal(Seq<char>),
    SetOf(Seq<Seq<char>>),
    Optional(Box<Seq<GenElementView>>, u8),
    GrammarRef { primary: Seq<char>, secondary: Option<Seq<char>> },
    SyllableBreak,
    StressMarker,
}

/// The model of an optional string.
pub open spec fn opt_text(o: Option<String>) -> Option<Seq<char>> {
    match o {
        Some(s) => Some(s@),
        None => None,
    }
}

/// The model of an element.
pub open spec fn gen_element_view(e: WordPatternElement) -> GenElementView
    decreases e,
{
    match e {
        WordPatternElement::SoundClass(k) => GenElementView::SoundClass(k.letter),
        WordPatternElement::Literal(s) => GenElementView::Literal(s@),
        WordPatternElement::SetOf(cs) => GenElementView::SetOf(crate::data::strings_view(cs@)),
        WordPatternElement::Optional(p, prob) => GenElementView::Optional(Box::new(gen_elements_view((*p).elements@)), prob),
        WordPatternElement::GrammarRef { primary, secondary } => GenElementView::GrammarRef {
            primary: primary@,
            secondary: opt_text(secondary),
        },
        WordPatternElement::SyllableBreak => GenElementView::SyllableBreak,
        WordPatternElement::StressMarker => GenElementView::StressMarker,
    }
}

/// The models of a list of elements.
pub open spec fn gen_elements_view(es: Seq<WordPatternElement>) -> Seq<GenElementView>
    decreases es,
{
    if es.len() == 0 {
        Seq::empty()
    } else {
        gen_elements_view(es.drop_last()).push(gen_element_view(es.last()))
    }
}

impl View for WordPatternElement {
    type V = GenElementView;

    open spec fn view(&self) -> GenElementView {
        gen_element_view(*self)
    }
}

impl View for WordPattern {
    type V = Seq<GenElementView>;

    open spec fn view(&self) -> Seq<GenElementView> {
        gen_elements_view(self.elements@)
    }
}

pub proof fn lemma_gen_elements_view(es: Seq<WordPatternElement>)
    ensures
        gen_elements_view(es).len() == es.len(),
        forall|k: int| 0 <= k < es.len() ==> #[trigger] gen_elements_view(es)[k] == gen_element_view(es[k]),
    decreases es.len(),
{
    if es.len() > 0 {
        lemma_gen_elements_view(es.drop_last());
    }
}

// ----- the grammar -----

/// Whether a character may stand in a literal.
pub open spec fn is_literal_char(c: char) -> bool {
    ('a' <= c <= 'z') || ((c as u32) >= 0xC0 && c != '\u{02C8}')
}

/// Whether a character may stand in a set choice.
pub open spec fn is_choice_char(c: char) -> bool {
    ('a' <= c <= 'z') || ('A' <= c <= 'Z') || ((c as u32) >= 0xC0 && c != '\u{02C8}')
}

/// Whether a character may stand in a grammatical type name.
pub open spec fn is_type_char(c: char) -> bool {
    ('a' <= c <= 'z') || ('A' <= c <= 'Z') || ('0' <= c <= '9') || c == '_'
}

/// The end of the run, from `j`, of characters of a class: 0 literal, 1 choice, 2 type, 3 digit.
pub open spec fn run_end(cs: Seq<char>, j: int, class: int) -> int
    decreases cs.len() - j,
{
    if 0 <= j < cs.len() && (if class == 0 {
        is_literal_char(cs[j])
    } else if class == 1 {
        is_choice_char(cs[j])
    } else if class == 2 {
        is_type_char(cs[j])
    } else {
        is_digit(cs[j])
    }) {
        run_end(cs, j + 1, class)
    } else {
        j
    }
}

/// `x` in front of a list result.
pub open spec fn gen_cons<A>(x: A, r: Option<(Seq<A>, int)>) -> Option<(Seq<A>, int)> {
    match r {
        Some((s, e)) => Some((seq![x] + s, e)),
        None => None,
    }
}

/// The choices of a set from `j` on, up to and past its `}`.
pub open spec fn spec_choices(cs: Seq<char>, j: int) -> Option<(Seq<Seq<char>>, int)>
    decreases cs.len() - j,
{
    let e = run_end(cs, j, 1);
    if !(0 <= j < e < cs.len()) {
        None
    } else if cs[e] == ',' {
        gen_cons(cs.subrange(j, e), spec_choices(cs, e + 1))
    } else if cs[e] == '}' {
        Some((seq![cs.subrange(j, e)], e + 1))
    } else {
        None
    }
}

/// The probability after a group's `)` at `j`, and where it ends: digits
/// and `%` denoting at most 255, or nothing (the default).
pub open spec fn spec_gen_probability(cs: Seq<char>, j: int) -> Option<(u8, int)> {
    if 0 <= j < cs.len() && is_digit(cs[j]) {
        let e = run_end(cs, j, 3);
        if e < cs.len() && cs[e] == '%' && digits_value(cs.subrange(j, e)) <= 255 {
            Some((digits_value(cs.subrange(j, e)) as u8, e + 1))
        } else {
            None
        }
    } else {
        Some((DEFAULT_OPTIONAL_PROBABILITY, j))
    }
}

/// A grammar reference from `j` (after its `[`) on, and where it ends.
pub open spec fn spec_grammar_ref(cs: Seq<char>, j: int) -> Option<(GenElementView, int)> {
    let e = run_end(cs, j, 2);
    if !(0 <= j < e < cs.len()) {
        None
    } else if cs[e] == ']' {
        Some((GenElementView::GrammarRef { primary: cs.subrange(j, e), secondary: None }, e + 1))
    } else if cs[e] == '.' {
        let e2 = run_end(cs, e + 1, 2);
        if e + 1 < e2 < cs.len() && cs[e2] == ']' {
            Some((GenElementView::GrammarRef { primary: cs.subrange(j, e), secondary: Some(cs.subrange(e + 1, e2)) }, e2 + 1))
        } else {
            None
        }
    } else {
        None
    }
}

/// The elements from `i` on, up to the end of the text, or, inside a group
/// (`nested`), up to its `)`.
pub open spec fn spec_gen_elems(cs: Seq<char>, i: int, nested: bool) -> Option<(Seq<GenElementView>, int)>
    decreases cs.len() - i,
{
    if i < 0 {
        None
    } else if i >= cs.len() {
        if nested {
            None
        } else {
            Some((Seq::empty(), i))
        }
    } else if cs[i] == ')' {
        if nested {
            Some((Seq::empty(), i))
        } else {
            None
        }
    } else if is_class_letter(cs[i]) {
        gen_cons(GenElementView::SoundClass(cs[i]), spec_gen_elems(cs, i + 1, nested))
    } else if cs[i] == '.' {
        gen_cons(GenElementView::SyllableBreak, spec_gen_elems(cs, i + 1, nested))
    } else if cs[i] == '\u{02C8}' {
        gen_cons(GenElementView::StressMarker, spec_gen_elems(cs, i + 1, nested))
    } else if is_literal_char(cs[i]) {
        let e = run_end(cs, i, 0);
        if i < e <= cs.len() {
            gen_cons(GenElementView::Literal(cs.subrange(i, e)), spec_gen_elems(cs, e, nested))
        } else {
            None
        }
    } else if cs[i] == '{' {
        match spec_choices(cs, i + 1) {
            Some((chs, end)) => if i < end <= cs.len() {
                gen_cons(GenElementView::SetOf(chs), spec_gen_elems(cs, end, nested))
            } else {
                None
            },
            None => None,
        }
    } else if cs[i] == '[' {
        match spec_grammar_ref(cs, i + 1) {
            Some((r, end)) => if i < end <= cs.len() {
                gen_cons(r, spec_gen_elems(cs, end, nested))
            } else {
                None
            },
            None => None,
        }
    } else if cs[i] == '(' {
        match spec_gen_elems(cs, i + 1, true) {
            Some((ps, close)) => if i < close < cs.len() && ps.len() > 0 {
                match spec_gen_probability(cs, close + 1) {
                    Some((prob, next)) => if close < next <= cs.len() {
                        gen_cons(GenElementView::Optional(Box::new(ps), prob), spec_gen_elems(cs, next, nested))
                    } else {
                        None
                    },
                    None => None,
                }
            } else {
                None
            },
            None => None,
        }
    } else {
        None
    }
}

/// The pattern that a text denotes, if it follows the grammar.
pub open spec fn spec_parse_word_pattern(s: Seq<char>) -> Option<Seq<GenElementView>> {
    match spec_gen_elems(s, 0, false) {
        Some((es, _)) => if es.len() > 0 {
            Some(es)
        } else {
            None
        },
        None => None,
    }
}

// ----- the text of a pattern -----

/// The choices' texts, separated by commas.
pub open spec fn choices_text(cs: Seq<Seq<char>>) -> Seq<char>
    decreases cs.len(),
{
    if cs.len() == 0 {
        Seq::empty()
    } else if cs.len() == 1 {
        cs[0]
    } else {
        choices_text(cs.drop_last()) + seq![','] + cs.last()
    }
}

/// The text of an element.
pub open spec fn gen_element_text(e: GenElementView) -> Seq<char>
    decreases e,
{
    match e {
        GenElementView::SoundClass(c) => seq![c],
        GenElementView::Literal(s) => s,
        GenElementView::SetOf(cs) => seq!['{'] + choices_text(cs) + seq!['}'],
        GenElementView::Optional(p, prob) => seq!['('] + gen_elements_text(*p) + seq![')'] + (if prob
            != DEFAULT_OPTIONAL_PROBABILITY {
            decimal_text(prob as nat) + seq!['%']
        } else {
            Seq::empty()
        }),
        GenElementView::GrammarRef { primary, secondary } => seq!['['] + primary + (match secondary {
            Some(s) => seq!['.'] + s,
            None => Seq::empty(),
        }) + seq![']'],
        GenElementView::SyllableBreak => seq!['.'],
        GenElementView::StressMarker => seq!['\u{02C8}'],
    }
}

/// The concatenated texts of elements.
pub open spec fn gen_elements_text(es: Seq<GenElementView>) -> Seq<char>
    decreases es,
{
    if es.len() == 0 {
        Seq::empty()
    } else {
        gen_elements_text(es.drop_last()) + gen_element_text(es.last())
    }
}

// ----- the parser -----

/// A list result with `prefix` in front.
pub open spec fn gen_after<A>(prefix: Seq<A>, r: Option<(Seq<A>, int)>) -> Option<(Seq<A>, int)> {
    match r {
        Some((s, e)) => Some((prefix + s, e)),
        None => None,
    }
}

proof fn lemma_after_cons<A>(acc: Seq<A>, x: A, r: Option<(Seq<A>, int)>)
    ensures
        gen_after(acc, gen_cons(x, r)) == gen_after(acc.push(x), r),
{
    if let Some((s, e)) = r {
        assert(acc + (seq![x] + s) =~= acc.push(x) + s);
    }
}

proof fn lemma_after_empty<A>(r: Option<(Seq<A>, int)>)
    ensures
        gen_after(Seq::<A>::empty(), r) == r,
{
    if let Some((s, e)) = r {
        assert(Seq::<A>::empty() + s =~= s);
    }
}

fn char_in_class(c: char, class: u8) -> (r: bool)
    ensures
        r == (if class == 0 {
            is_literal_char(c)
        } else if class == 1 {
            is_choice_char(c)
        } else if class == 2 {
            is_type_char(c)
        } else {
            is_digit(c)
        }),
{
    if class == 0 {
        ('a' <= c && c <= 'z') || ((c as u32) >= 0xC0 && c != '\u{02C8}')
    } else if class == 1 {
        ('a' <= c && c <= 'z') || ('A' <= c && c <= 'Z') || ((c as u32) >= 0xC0 && c != '\u{02C8}')
    } else if class == 2 {
        ('a' <= c && c <= 'z') || ('A' <= c && c <= 'Z') || ('0' <= c && c <= '9') || c == '_'
    } else {
        '0' <= c && c <= '9'
    }
}

fn run_end_at(cs: &Vec<char>, j: usize, class: u8) -> (r: usize)
    requires
        j <= cs.len(),
    ensures
        r as int == run_end(cs@, j as int, class as int),
        j <= r <= cs.len(),
{
    let mut k = j;
    while k < cs.len() && char_in_class(cs[k], class)
        invariant
            j <= k <= cs.len(),
            run_end(cs@, j as int, class as int) == run_end(cs@, k as int, class as int),
        decreases cs.len() - k,
    {
        k = k + 1;
    }
    k
}

proof fn lemma_run_end_digits(cs: Seq<char>, j: int)
    requires
        0 <= j <= cs.len(),
    ensures
        j <= run_end(cs, j, 3) <= cs.len(),
        forall|q: int| j <= q < run_end(cs, j, 3) ==> is_digit(#[trigger] cs[q]),
    decreases cs.len() - j,
{
    if 0 <= j < cs.len() && is_digit(cs[j]) {
        lemma_run_end_digits(cs, j + 1);
    }
}

proof fn lemma_digits_value_grows(s: Seq<char>, c: char)
    requires
        crate::data::all_digits(s),
        is_digit(c),
    ensures
        digits_value(s.push(c)) == digits_value(s) * 10 + (c as int - '0' as int),
        digits_value(s.push(c)) >= digits_value(s),
        digits_value(s) >= 0,
    decreases s.len(),
{
    assert(s.push(c).drop_last() =~= s);
    if s.len() > 0 {
        assert(crate::data::all_digits(s.drop_last()));
        lemma_digits_value_grows(s.drop_last(), s.last());
        assert(s.drop_last().push(s.last()) =~= s);
    }
}

fn parse_gen_probability(cs: &Vec<char>, j: usize) -> (r: Option<(u8, usize)>)
    requires
        j <= cs.len(),
    ensures
        r is Some == spec_gen_probability(cs@, j as int) is Some,
        r matches Some((p, e)) ==> spec_gen_probability(cs@, j as int) == Some((p, e as int)) && j <= e <= cs.len(),
{
    if !(j < cs.len() && '0' <= cs[j] && cs[j] <= '9') {
        return Some((DEFAULT_OPTIONAL_PROBABILITY, j));
    }
    let e = run_end_at(cs, j, 3);
    if !(e < cs.len() && cs[e] == '%') {
        return None;
    }
    proof {
        lemma_run_end_digits(cs@, j as int);
        assert(cs@.subrange(j as int, j as int) =~= Seq::<char>::empty());
    }
    let mut v: u32 = 0;
    let mut over = false;
    let mut k = j;
    while k < e
        invariant
            j <= k <= e < cs.len(),
            forall|q: int| j <= q < e ==> is_digit(#[trigger] cs@[q]),
            !over ==> v as int == digits_value(cs@.subrange(j as int, k as int)) && v <= 255,
            over ==> digits_value(cs@.subrange(j as int, k as int)) > 255,
        decreases e - k,
    {
        proof {
            assert(crate::data::all_digits(cs@.subrange(j as int, k as int)));
            lemma_digits_value_grows(cs@.subrange(j as int, k as int), cs@[k as int]);
            assert(cs@.subrange(j as int, k + 1) =~= cs@.subrange(j as int, k as int).push(cs@[k as int]));
        }
        if !over {
            let d = (cs[k] as u32) - 48;
            let nv = v * 10 + d;
            if nv > 255 {
                over = true;
            } else {
                v = nv;
            }
        }
        k = k + 1;
    }
    if over {
        None
    } else {
        Some((v as u8, e + 1))
    }
}

fn parse_choices(cs: &Vec<char>, start: usize) -> (r: Option<(Vec<String>, usize)>)
    requires
        start <= cs.len(),
    ensures
        r is Some == spec_choices(cs@, start as int) is Some,
        r matches Some((chs, e)) ==> spec_choices(cs@, start as int) == Some((crate::data::strings_view(chs@), e as int)) && start < e <= cs.len(),
{
    let mut acc: Vec<String> = Vec::new();
    let mut j = start;
    proof {
        lemma_after_empty(spec_choices(cs@, start as int));
    }
    loop
        invariant
            start <= j <= cs.len(),
            spec_choices(cs@, start as int) == gen_after(crate::data::strings_view(acc@), spec_choices(cs@, j as int)),
        decreases cs.len() - j,
    {
        let e = run_end_at(cs, j, 1);
        if !(j < e && e < cs.len()) {
            return None;
        }
        let choice = crate::text::string_range(cs.as_slice(), j, e);
        let ghost cv = choice@;
        let ghost before = acc@;
        if cs[e] == ',' {
            proof {
                lemma_after_cons(crate::data::strings_view(acc@), cv, spec_choices(cs@, e + 1));
            }
            acc.push(choice);
            assert(crate::data::strings_view(acc@) =~= crate::data::strings_view(before).push(cv));
            j = e + 1;
        } else if cs[e] == '}' {
            acc.push(choice);
            assert(crate::data::strings_view(acc@) =~= crate::data::strings_view(before) + seq![cv]);
            return Some((acc, e + 1));
        } else {
            return None;
        }
    }
}

fn parse_grammar_ref(cs: &Vec<char>, j: usize) -> (r: Option<(WordPatternElement, usize)>)
    requires
        j <= cs.len(),
    ensures
        r is Some == spec_grammar_ref(cs@, j as int) is Some,
        r matches Some((el, e)) ==> spec_grammar_ref(cs@, j as int) == Some((el@, e as int)) && j < e <= cs.len(),
{
    let e = run_end_at(cs, j, 2);
    if !(j < e && e < cs.len()) {
        return None;
    }
    let primary = crate::text::string_range(cs.as_slice(), j, e);
    if cs[e] == ']' {
        let el = WordPatternElement::GrammarRef { primary, secondary: None };
        return Some((el, e + 1));
    }
    if cs[e] != '.' {
        return None;
    }
    let e2 = run_end_at(cs, e + 1, 2);
    if !(e + 1 < e2 && e2 < cs.len() && cs[e2] == ']') {
        return None;
    }
    let secondary = crate::text::string_range(cs.as_slice(), e + 1, e2);
    let el = WordPatternElement::GrammarRef { primary, secondary: Some(secondary) };
    Some((el, e2 + 1))
}

proof fn lemma_gen_elems_end(cs: Seq<char>, i: int, nested: bool)
    requires
        0 <= i <= cs.len(),
        spec_gen_elems(cs, i, nested) is Some,
    ensures
        i <= spec_gen_elems(cs, i, nested).unwrap().1 <= cs.len(),
        nested ==> spec_gen_elems(cs, i, nested).unwrap().1 < cs.len(),
    decreases cs.len() - i,
{
    if i < cs.len() && cs[i] != ')' {
        if is_class_letter(cs[i]) || cs[i] == '.' || cs[i] == '\u{02C8}' {
            lemma_gen_elems_end(cs, i + 1, nested);
        } else if is_literal_char(cs[i]) {
            lemma_gen_elems_end(cs, run_end(cs, i, 0), nested);
        } else if cs[i] == '{' {
            lemma_gen_elems_end(cs, spec_choices(cs, i + 1).unwrap().1, nested);
        } else if cs[i] == '[' {
            lemma_gen_elems_end(cs, spec_grammar_ref(cs, i + 1).unwrap().1, nested);
        } else if cs[i] == '(' {
            let (ps, close) = spec_gen_elems(cs, i + 1, true).unwrap();
            let next = spec_gen_probability(cs, close + 1).unwrap().1;
            lemma_gen_elems_end(cs, next, nested);
        }
    }
}

fn push_element(acc: &mut Vec<WordPatternElement>, el: WordPatternElement)
    ensures
        gen_elements_view(final(acc)@) == gen_elements_view(old(acc)@).push(el@),
{
    let ghost before = acc@;
    acc.push(el);
    assert(acc@.drop_last() =~= before);
}

/// Parses the elements of `cs` from `start` on, up to the end of the text,
/// or, inside a group, up to its closing `)`.
fn parse_gen_elems(cs: &Vec<char>, start: usize, nested: bool) -> (r: Option<(Vec<WordPatternElement>, usize)>)
    requires
        start <= cs.len(),
    ensures
        r is Some == spec_gen_elems(cs@, start as int, nested) is Some,
        r matches Some((es, e)) ==> spec_gen_elems(cs@, start as int, nested) == Some((gen_elements_view(es@), e as int)) && e <= cs.len(),
    decreases cs.len() - start,
{
    let mut acc: Vec<WordPatternElement> = Vec::new();
    let mut i = start;
    proof {
        lemma_after_empty(spec_gen_elems(cs@, start as int, nested));
    }
    loop
        invariant
            start <= i <= cs.len(),
            spec_gen_elems(cs@, start as int, nested) == gen_after(gen_elements_view(acc@), spec_gen_elems(cs@, i as int, nested)),
        decreases cs.len() - i,
    {
        if i >= cs.len() {
            if nested {
                return None;
            }
            assert(gen_elements_view(acc@) + Seq::<GenElementView>::empty() =~= gen_elements_view(acc@));
            return Some((acc, i));
        }
        let c = cs[i];
        if c == ')' {
            if nested {
                assert(gen_elements_view(acc@) + Seq::<GenElementView>::empty() =~= gen_elements_view(acc@));
                return Some((acc, i));
            }
            return None;
        }
        if 'A' <= c && c <= 'Z' {
            let el = WordPatternElement::SoundClass(SoundClassKey { letter: c });
            proof {
                lemma_after_cons(gen_elements_view(acc@), el@, spec_gen_elems(cs@, i + 1, nested));
            }
            push_element(&mut acc, el);
            i = i + 1;
        } else if c == '.' {
            proof {
                lemma_after_cons(gen_elements_view(acc@), GenElementView::SyllableBreak, spec_gen_elems(cs@, i + 1, nested));
            }
            push_element(&mut acc, WordPatternElement::SyllableBreak);
            i = i + 1;
        } else if c == '\u{02C8}' {
            proof {
                lemma_after_cons(gen_elements_view(acc@), GenElementView::StressMarker, spec_gen_elems(cs@, i + 1, nested));
            }
            push_element(&mut acc, WordPatternElement::StressMarker);
            i = i + 1;
        } else if char_in_class(c, 0) {
            let e = run_end_at(cs, i, 0);
            if e <= i {
                return None;
            }
            let lit = crate::text::string_range(cs.as_slice(), i, e);
            let el = WordPatternElement::Literal(lit);
            proof {
                lemma_after_cons(gen_elements_view(acc@), el@, spec_gen_elems(cs@, e as int, nested));
            }
            push_element(&mut acc, el);
            i = e;
        } else if c == '{' {
            match parse_choices(cs, i + 1) {
                Some((chs, end)) => {
                    let el = WordPatternElement::SetOf(chs);
                    proof {
                        lemma_after_cons(gen_elements_view(acc@), el@, spec_gen_elems(cs@, end as int, nested));
                    }
                    push_element(&mut acc, el);
                    i = end;
                },
                None => {
                    return None;
                },
            }
        } else if c == '[' {
            match parse_grammar_ref(cs, i + 1) {
                Some((el, end)) => {
                    proof {
                        lemma_after_cons(gen_elements_view(acc@), el@, spec_gen_elems(cs@, end as int, nested));
                    }
                    push_element(&mut acc, el);
                    i = end;
                },
                None => {
                    return None;
                },
            }
        } else if c == '(' {
            match parse_gen_elems(cs, i + 1, true) {
                Some((inner, close)) => {
                    proof {
                        lemma_gen_elems_end(cs@, i + 1, true);
                        lemma_gen_elements_view(inner@);
                    }
                    if inner.len() == 0 {
                        return None;
                    }
                    match parse_gen_probability(cs, close + 1) {
                        Some((prob, next)) => {
                            let ghost iv = gen_elements_view(inner@);
                            let el = WordPatternElement::Optional(Box::new(WordPattern { elements: inner }), prob);
                            assert(el@ == GenElementView::Optional(Box::new(iv), prob));
                            proof {
                                lemma_after_cons(gen_elements_view(acc@), el@, spec_gen_elems(cs@, next as int, nested));
                            }
                            push_element(&mut acc, el);
                            i = next;
                        },
                        None => {
                            return None;
                        },
                    }
                },
                None => {
                    return None;
                },
            }
        } else {
            return None;
        }
    }
}

/// The hand-written parser of word generator patterns.
pub struct GeneratorPatternParser;

impl GeneratorPatternParser {
    /// Parses a word generator pattern.
    pub fn parse(s: &str) -> (r: Result<WordPattern, GeneratorError>)
        ensures
            r is Ok <==> spec_parse_word_pattern(s@) is Some,
            r matches Ok(p) ==> spec_parse_word_pattern(s@) == Some(p@),
    {
        WordPattern::parse(s)
    }
}

impl WordPattern {
    /// Parses a word generator pattern.
    pub fn parse(s: &str) -> (r: Result<WordPattern, GeneratorError>)
        ensures
            r is Ok <==> spec_parse_word_pattern(s@) is Some,
            r matches Ok(p) ==> spec_parse_word_pattern(s@) == Some(p@),
    {
        let cs = crate::text::chars_of(s);
        match parse_gen_elems(&cs, 0, false) {
            Some((es, _)) => {
                proof {
                    lemma_gen_elements_view(es@);
                }
                if es.len() == 0 {
                    return Err(GeneratorError::ParseError(String::from_str("Empty pattern")));
                }
                Ok(WordPattern { elements: es })
            },
            None => Err(GeneratorError::ParseError(crate::text::concat2("invalid word pattern: ", s))),
        }
    }
}

// ----- writing a pattern out -----

fn choices_to_text(cs: &Vec<String>) -> (r: String)
    ensures
        r@ == choices_text(crate::data::strings_view(cs@)),
{
    let ghost cv = crate::data::strings_view(cs@);
    let mut out = String::new();
    let mut i: usize = 0;
    while i < cs.len()
        invariant
            i <= cs.len(),
            cv == crate::data::strings_view(cs@),
            out@ == choices_text(cv.take(i as int)),
        decreases cs.len() - i,
    {
        assert(cv.take(i + 1).drop_last() =~= cv.take(i as int));
        assert(cv[i as int] == cs@[i as int]@);
        let ghost before = out@;
        if i > 0 {
            out.append(",");
        }
        out.append(cs[i].as_str());
        proof {
            reveal_strlit(",");
            if i == 0 {
                assert(out@ =~= cv.take(1)[0]);
            } else {
                assert(out@ =~= before + seq![','] + cv[i as int]);
            }
        }
        i = i + 1;
    }
    assert(cv.take(i as int) =~= cv);
    out
}

impl WordPatternElement {
    /// The element's text.
    pub fn to_text(&self) -> (r: String)
        ensures
            r@ == gen_element_text(self@),
        decreases self@,
    {
        match self {
            WordPatternElement::SoundClass(k) => k.to_text(),
            WordPatternElement::Literal(s) => s.clone(),
            WordPatternElement::SetOf(cs) => {
                let mut out = crate::text::char_string('{');
                let t = choices_to_text(cs);
                out.append(t.as_str());
                out.append("}");
                proof {
                    reveal_strlit("}");
                }
                assert(out@ =~= gen_element_text(self@));
                out
            },
            WordPatternElement::Optional(p, prob) => {
                proof {
                    assert(decreases_to!(self@ => (self@)->Optional_0));
                }
                let mut out = crate::text::char_string('(');
                let t = gen_elements_to_text(p.elements.as_slice());
                out.append(t.as_str());
                out.append(")");
                if *prob != DEFAULT_OPTIONAL_PROBABILITY {
                    let d = crate::text::decimal(*prob as usize);
                    out.append(d.as_str());
                    out.append("%");
                }
                proof {
                    reveal_strlit(")");
                    reveal_strlit("%");
                }
                assert(out@ =~= gen_element_text(self@));
                out
            },
            WordPatternElement::GrammarRef { primary, secondary } => {
                let mut out = crate::text::char_string('[');
                out.append(primary.as_str());
                match secondary {
                    Some(sec) => {
                        out.append(".");
                        out.append(sec.as_str());
                    },
                    None => {},
                }
                out.append("]");
                proof {
                    reveal_strlit(".");
                    reveal_strlit("]");
                }
                assert(out@ =~= gen_element_text(self@));
                out
            },
            WordPatternElement::SyllableBreak => crate::text::char_string('.'),
            WordPatternElement::StressMarker => crate::text::char_string('\u{02C8}'),
        }
    }
}

/// The concatenated texts of elements.
pub fn gen_elements_to_text(es: &[WordPatternElement]) -> (r: String)
    ensures
        r@ == gen_elements_text(gen_elements_view(es@)),
    decreases gen_elements_view(es@),
{
    proof {
        lemma_gen_elements_view(es@);
    }
    let ghost ev = gen_elements_view(es@);
    let mut out = String::new();
    let mut i: usize = 0;
    while i < es.len()
        invariant
            i <= es.len(),
            ev == gen_elements_view(es@),
            ev.len() == es@.len(),
            forall|k: int| 0 <= k < es@.len() ==> #[trigger] ev[k] == gen_element_view(es@[k]),
            out@ == gen_elements_text(ev.take(i as int)),
        decreases es.len() - i,
    {
        assert(ev.take(i + 1).drop_last() =~= ev.take(i as int));
        proof {
            assert(decreases_to!(ev => ev[i as int]));
        }
        let t = es[i].to_text();
        out.append(t.as_str());
        i = i + 1;
    }
    assert(ev.take(i as int) =~= ev);
    out
}

impl WordPattern {
    /// The pattern's text.
    pub fn to_text(&self) -> (r: String)
        ensures
            r@ == gen_elements_text(self@),
    {
        gen_elements_to_text(self.elements.as_slice())
    }
}

} // verus!
