//! Looking words up in a dictionary: a lookup text names a meaning followed
//! by derivations, and the results are shown with a color per derivation.

use crate::dictionary::{spec_type_matches, type_matches, Dictionary, DictionaryEntry};
use crate::generator::validation::{is_valid_derivation_name, spec_valid_derivation_name};
use crate::sequence::{element_text, ElementView, SequenceElement};
use crate::text::{chars_of, concat2, str_eq, string_from_chars};
use vstd::prelude::*;

verus! {

// ----- splitting and joining -----

/// The pieces of a text between the separators (`str::split`): one more
/// than the number of separators.
pub open spec fn split_on(s: Seq<char>, sep: char) -> Seq<Seq<char>>
    decreases s.len(),
{
    if s.len() == 0 {
        seq![Seq::empty()]
    } else if s.last() == sep {
        split_on(s.drop_last(), sep).push(Seq::empty())
    } else {
        let p = split_on(s.drop_last(), sep);
        p.drop_last().push(p.last().push(s.last()))
    }
}

/// Pieces joined with a separator between each two.
pub open spec fn join_with(parts: Seq<Seq<char>>, sep: char) -> Seq<char>
    decreases parts.len(),
{
    if parts.len() == 0 {
        Seq::empty()
    } else if parts.len() == 1 {
        parts[0]
    } else {
        join_with(parts.drop_last(), sep) + seq![sep] + parts.last()
    }
}

pub proof fn lemma_split_on_nonempty(s: Seq<char>, sep: char)
    ensures
        split_on(s, sep).len() >= 1,
    decreases s.len(),
{
    if s.len() > 0 {
        lemma_split_on_nonempty(s.drop_last(), sep);
    }
}

/// Joining the pieces of a text with the separator gives the text back.
pub proof fn lemma_join_split(s: Seq<char>, sep: char)
    ensures
        join_with(split_on(s, sep), sep) == s,
    decreases s.len(),
{
    if s.len() > 0 {
        lemma_join_split(s.drop_last(), sep);
        lemma_split_on_nonempty(s.drop_last(), sep);
        let p = split_on(s.drop_last(), sep);
        if s.last() == sep {
            let q = p.push(Seq::<char>::empty());
            assert(q.drop_last() =~= p);
            assert(s =~= join_with(p, sep) + seq![sep] + Seq::<char>::empty());
        } else {
            let q = p.drop_last().push(p.last().push(s.last()));
            assert(q.drop_last() =~= p.drop_last());
            assert(s =~= s.drop_last().push(s.last()));
            assert(s.drop_last() == join_with(p, sep));
            if p.len() == 1 {
                assert(s =~= p[0].push(s.last()));
            } else {
                assert(join_with(p, sep) == join_with(p.drop_last(), sep) + seq![sep] + p.last());
                assert(s =~= join_with(p.drop_last(), sep) + seq![sep] + p.last().push(s.last()));
            }
        }
    }
}

/// Joining a list whose first piece is itself joined gives the whole list joined.
proof fn lemma_join_prefix(a: Seq<Seq<char>>, b: Seq<Seq<char>>, sep: char)
    requires
        a.len() >= 1,
    ensures
        join_with(seq![join_with(a, sep)] + b, sep) == join_with(a + b, sep),
    decreases b.len(),
{
    if b.len() == 0 {
        assert(seq![join_with(a, sep)] + b =~= seq![join_with(a, sep)]);
        assert(a + b =~= a);
    } else {
        lemma_join_prefix(a, b.drop_last(), sep);
        assert((seq![join_with(a, sep)] + b).drop_last() =~= seq![join_with(a, sep)] + b.drop_last());
        assert((a + b).drop_last() =~= a + b.drop_last());
    }
}

/// Splits a text at a separator.
fn split_text(s: &str, sep: char) -> (r: Vec<String>)
    ensures
        crate::data::strings_view(r@) == split_on(s@, sep),
{
    let cs = chars_of(s);
    let mut parts: Vec<String> = Vec::new();
    let mut cur: Vec<char> = Vec::new();
    let mut i: usize = 0;
    assert(cs@.take(0) =~= Seq::<char>::empty());
    while i < cs.len()
        invariant
            cs@ == s@,
            i <= cs.len(),
            crate::data::strings_view(parts@).push(cur@) == split_on(cs@.take(i as int), sep),
        decreases cs.len() - i,
    {
        assert(cs@.take(i + 1).drop_last() =~= cs@.take(i as int));
        let ghost before = parts@;
        if cs[i] == sep {
            let piece = string_from_chars(cur.as_slice());
            parts.push(piece);
            cur = Vec::new();
            assert(crate::data::strings_view(parts@) =~= crate::data::strings_view(before).push(piece@));
        } else {
            let ghost c0 = cur@;
            cur.push(cs[i]);
            assert(crate::data::strings_view(parts@).push(cur@) =~= (crate::data::strings_view(before).push(c0)).drop_last().push(c0.push(cs@[i as int])));
        }
        i = i + 1;
    }
    assert(cs@.take(i as int) =~= cs@);
    let ghost before = parts@;
    let piece = string_from_chars(cur.as_slice());
    parts.push(piece);
    assert(crate::data::strings_view(parts@) =~= crate::data::strings_view(before).push(piece@));
    parts
}

/// Joins the first `m` pieces with `-` between each two.
fn join_dashes(parts: &Vec<String>, m: usize) -> (r: String)
    requires
        m <= parts.len(),
    ensures
        r@ == join_with(crate::data::strings_view(parts@).take(m as int), '-'),
{
    let ghost pv = crate::data::strings_view(parts@);
    let mut out = String::new();
    let mut i: usize = 0;
    proof {
        reveal_strlit("-");
    }
    assert(pv.take(0) =~= Seq::<Seq<char>>::empty());
    while i < m
        invariant
            pv == crate::data::strings_view(parts@),
            m <= parts.len(),
            i <= m,
            out@ == join_with(pv.take(i as int), '-'),
            "-"@ == seq!['-'],
        decreases m - i,
    {
        assert(pv.take(i + 1).drop_last() =~= pv.take(i as int));
        assert(pv[i as int] == parts@[i as int]@);
        if i > 0 {
            out.append("-");
        } else {
            assert(out@ =~= Seq::<char>::empty());
        }
        out.append(parts[i].as_str());
        i = i + 1;
    }
    out
}

// ----- lookup texts -----

/// How many of the pieces before `m`, from the end, are derivation names;
/// the first piece is never one.
pub open spec fn derivation_count(parts: Seq<Seq<char>>, m: int) -> int
    decreases m,
{
    if m <= 1 {
        0
    } else if spec_valid_derivation_name(parts[m - 1]) {
        1 + derivation_count(parts, m - 1)
    } else {
        0
    }
}

/// The meaning and derivations of a lookup text `meaning-D1-D2`: the
/// trailing pieces that are derivation names, and the rest joined back.
pub open spec fn spec_lookup_parts(s: Seq<char>) -> (Seq<char>, Seq<Seq<char>>) {
    let parts = split_on(s, '-');
    let n = parts.len() as int;
    let k = derivation_count(parts, n);
    if n <= 1 {
        (s, Seq::empty())
    } else {
        (join_with(parts.take(n - k), '-'), parts.subrange(n - k, n))
    }
}

proof fn lemma_derivation_count_bounds(parts: Seq<Seq<char>>, m: int)
    ensures
        0 <= derivation_count(parts, m),
        m >= 1 ==> derivation_count(parts, m) <= m - 1,
    decreases m,
{
    if m > 1 {
        lemma_derivation_count_bounds(parts, m - 1);
    }
}

/// Splits a lookup text into its meaning and its trailing derivation names.
pub fn parse_lookup_string(s: &str) -> (r: (String, Vec<String>))
    ensures
        r.0@ == spec_lookup_parts(s@).0,
        crate::data::strings_view(r.1@) == spec_lookup_parts(s@).1,
{
    let parts = split_text(s, '-');
    let ghost pv = crate::data::strings_view(parts@);
    if parts.len() <= 1 {
        let none: Vec<String> = Vec::new();
        assert(crate::data::strings_view(none@) =~= Seq::<Seq<char>>::empty());
        return (String::from_str(s), none);
    }
    let n = parts.len();
    let mut m = n;
    while m > 1 && is_valid_derivation_name(parts[m - 1].as_str())
        invariant
            pv == crate::data::strings_view(parts@),
            n == parts.len(),
            1 <= m <= n,
            derivation_count(pv, n as int) == (n - m) + derivation_count(pv, m as int),
        decreases m,
    {
        assert(pv[m - 1] == parts@[m - 1]@);
        m = m - 1;
    }
    proof {
        if m > 1 {
            assert(pv[m - 1] == parts@[m - 1]@);
        }
    }
    let mut names: Vec<String> = Vec::new();
    let mut i = m;
    while i < n
        invariant
            pv == crate::data::strings_view(parts@),
            n == parts.len(),
            m <= i <= n,
            crate::data::strings_view(names@) == pv.subrange(m as int, i as int),
        decreases n - i,
    {
        let ghost before = names@;
        names.push(parts[i].clone());
        assert(crate::data::strings_view(names@) =~= crate::data::strings_view(before).push(parts@[i as int]@));
        assert(pv.subrange(m as int, i + 1) =~= pv.subrange(m as int, i as int).push(pv[i as int]));
        i = i + 1;
    }
    let base = join_dashes(&parts, m);
    (base, names)
}

/// The meaning and derivations of a lookup text, joined back with `-`, are
/// the text.
pub proof fn lemma_lookup_parts_rejoin(s: Seq<char>)
    ensures
        join_with(seq![spec_lookup_parts(s).0] + spec_lookup_parts(s).1, '-') == s,
{
    let parts = split_on(s, '-');
    let n = parts.len() as int;
    let k = derivation_count(parts, n);
    lemma_join_split(s, '-');
    lemma_split_on_nonempty(s, '-');
    if n <= 1 {
        assert(seq![s] + Seq::<Seq<char>>::empty() =~= seq![s]);
    } else {
        lemma_derivation_count_bounds(parts, n);
        lemma_join_prefix(parts.take(n - k), parts.subrange(n - k, n), '-');
        assert(parts.take(n - k) + parts.subrange(n - k, n) =~= parts);
    }
}

// ----- finding entries -----

/// Whether an entry has a meaning and, where a filter is given, a type that
/// matches it.
pub open spec fn spec_entry_matches(e: DictionaryEntry, meaning: Seq<char>, filter: Option<Seq<char>>) -> bool {
    e.meaning@.raw == meaning && match filter {
        Some(f) => spec_type_matches(e.word_type@, f),
        None => true,
    }
}

/// The position of the first entry that matches, from `i` on.
pub open spec fn first_match_from(es: Seq<DictionaryEntry>, meaning: Seq<char>, filter: Option<Seq<char>>, i: int) -> Option<int>
    decreases es.len() - i,
{
    if i < 0 || i >= es.len() {
        None
    } else if spec_entry_matches(es[i], meaning, filter) {
        Some(i)
    } else {
        first_match_from(es, meaning, filter, i + 1)
    }
}

/// The message for a word that is not in the dictionary.
pub open spec fn lookup_error_text(meaning: Seq<char>, filter: Option<Seq<char>>) -> Seq<char> {
    match filter {
        Some(f) => "Word with meaning '"@ + meaning + "' and type '"@ + f + "' not found in dictionary"@,
        None => "Word with meaning '"@ + meaning + "' not found in dictionary"@,
    }
}

/// The view of an optional text.
pub open spec fn opt_str(f: Option<&str>) -> Option<Seq<char>> {
    match f {
        Some(t) => Some(t@),
        None => None,
    }
}

/// Whether an entry has a meaning and, where a filter is given, a type that
/// matches it.
pub fn entry_matches(entry: &DictionaryEntry, base_meaning: &str, filter_type: Option<&str>) -> (r: bool)
    ensures
        r == spec_entry_matches(*entry, base_meaning@, opt_str(filter_type)),
{
    if !str_eq(entry.meaning.as_str(), base_meaning) {
        return false;
    }
    match filter_type {
        Some(ft) => type_matches(entry.word_type.as_str(), ft),
        None => true,
    }
}

/// The message for a word that is not in the dictionary.
pub fn make_lookup_error(base_meaning: &str, filter_type: Option<&str>) -> (r: String)
    ensures
        r@ == lookup_error_text(base_meaning@, opt_str(filter_type)),
{
    proof {
        reveal_strlit("Word with meaning '");
        reveal_strlit("' and type '");
        reveal_strlit("' not found in dictionary");
    }
    match filter_type {
        Some(ft) => {
            let a = concat2("Word with meaning '", base_meaning);
            let b = concat2(a.as_str(), "' and type '");
            let c = concat2(b.as_str(), ft);
            concat2(c.as_str(), "' not found in dictionary")
        },
        None => {
            let a = concat2("Word with meaning '", base_meaning);
            concat2(a.as_str(), "' not found in dictionary")
        },
    }
}

/// The first entry with a meaning (and a type matching the filter, if any);
/// when there is none, the message saying so.
pub fn find_matching_entry<'a>(dict: &'a Dictionary, base_meaning: &str, filter_type: Option<&str>) -> (r: Result<&'a DictionaryEntry, String>)
    ensures
        r is Ok <==> first_match_from(dict.entries@, base_meaning@, opt_str(filter_type), 0) is Some,
        r matches Ok(e) ==> *e == dict.entries@[first_match_from(dict.entries@, base_meaning@, opt_str(filter_type), 0).unwrap()],
        r matches Err(m) ==> m@ == lookup_error_text(base_meaning@, opt_str(filter_type)),
{
    let mut i: usize = 0;
    while i < dict.entries.len()
        invariant
            i <= dict.entries.len(),
            first_match_from(dict.entries@, base_meaning@, opt_str(filter_type), 0)
                == first_match_from(dict.entries@, base_meaning@, opt_str(filter_type), i as int),
        decreases dict.entries.len() - i,
    {
        if entry_matches(&dict.entries[i], base_meaning, filter_type) {
            return Ok(&dict.entries[i]);
        }
        i = i + 1;
    }
    Err(make_lookup_error(base_meaning, filter_type))
}

// ----- colors -----

/// The color of the `idx`-th derivation: green, red and cyan in turn.
pub open spec fn spec_derivation_color(idx: int) -> Seq<char> {
    if idx % 3 == 1 {
        "\x1b[31m"@
    } else if idx % 3 == 2 {
        "\x1b[36m"@
    } else {
        "\x1b[32m"@
    }
}

/// The terminal color code of the `idx`-th derivation.
pub fn get_derivation_color(idx: usize) -> (r: &'static str)
    ensures
        r@ == spec_derivation_color(idx as int),
{
    let m = idx % 3;
    if m == 1 {
        "\x1b[31m"
    } else if m == 2 {
        "\x1b[36m"
    } else {
        "\x1b[32m"
    }
}

/// The text that resets the terminal color.
pub open spec fn reset_code() -> Seq<char> {
    "\x1b[0m"@
}

/// One derivation of a lookup line: its color, `-`, its name, `:` and the
/// type it produces if there is one, and the reset code.
pub open spec fn colored_step(i: int, name: Seq<char>, step_type: Option<Option<Seq<char>>>) -> Seq<char> {
    spec_derivation_color(i + 1) + seq!['-'] + name + (match step_type {
        Some(Some(t)) => seq![':'] + t,
        _ => Seq::empty(),
    }) + reset_code()
}

/// The type that the `i`-th step produces, as the list gives it.
pub open spec fn step_type_at(step_types: Seq<Option<String>>, i: int) -> Option<Option<Seq<char>>> {
    if 0 <= i < step_types.len() {
        Some(match step_types[i] {
            Some(t) => Some(t@),
            None => None,
        })
    } else {
        None
    }
}

/// A lookup line: the meaning, then each derivation in its color.
pub open spec fn colored_line(base: Seq<char>, names: Seq<Seq<char>>, step_types: Seq<Option<String>>) -> Seq<char>
    decreases names.len(),
{
    if names.len() == 0 {
        base
    } else {
        colored_line(base, names.drop_last(), step_types) + colored_step(
            names.len() - 1,
            names.last(),
            step_type_at(step_types, names.len() - 1),
        )
    }
}

/// The lookup line: the meaning, then each derivation in its color with the
/// type it produces.
pub fn format_colored_lookup_line(base_meaning: &str, derivation_names: &[String], step_types: &[Option<String>]) -> (r: String)
    requires
        derivation_names@.len() < usize::MAX,
    ensures
        r@ == colored_line(base_meaning@, crate::data::strings_view(derivation_names@), step_types@),
{
    let ghost nv = crate::data::strings_view(derivation_names@);
    let mut result = String::from_str(base_meaning);
    let mut i: usize = 0;
    proof {
        reveal_strlit("-");
        reveal_strlit(":");
    }
    assert(nv.take(0) =~= Seq::<Seq<char>>::empty());
    while i < derivation_names.len()
        invariant
            nv == crate::data::strings_view(derivation_names@),
            derivation_names@.len() < usize::MAX,
            i <= derivation_names.len(),
            result@ == colored_line(base_meaning@, nv.take(i as int), step_types@),
            "-"@ == seq!['-'],
            ":"@ == seq![':'],
        decreases derivation_names.len() - i,
    {
        assert(nv.take(i + 1).drop_last() =~= nv.take(i as int));
        assert(nv[i as int] == derivation_names@[i as int]@);
        let ghost before = result@;
        result.append(get_derivation_color(i + 1));
        result.append("-");
        result.append(derivation_names[i].as_str());
        let ghost named = result@;
        if i < step_types.len() {
            match &step_types[i] {
                Some(t) => {
                    result.append(":");
                    result.append(t.as_str());
                },
                None => {},
            }
        }
        result.append("\x1b[0m");
        assert(result@ =~= before + colored_step(i as int, nv[i as int], step_type_at(step_types@, i as int)));
        i = i + 1;
    }
    assert(nv.take(i as int) =~= nv);
    result
}

/// The phoneme tag at a position: the derivation that produced the phoneme.
pub open spec fn tag_at(tags: Seq<Option<usize>>, i: int) -> Option<usize> {
    if 0 <= i < tags.len() {
        tags[i]
    } else {
        None
    }
}

/// The number of phonemes among elements.
pub open spec fn phoneme_count(es: Seq<ElementView>) -> int
    decreases es.len(),
{
    if es.len() == 0 {
        0
    } else {
        phoneme_count(es.drop_last()) + (if es.last() is Phoneme {
            1int
        } else {
            0int
        })
    }
}

/// The text of an element, a phoneme in the color of its tag.
pub open spec fn colored_element(e: ElementView, tag: Option<usize>) -> Seq<char> {
    match (e, tag) {
        (ElementView::Phoneme(_), Some(t)) => spec_derivation_color(t as int) + element_text(e) + reset_code(),
        _ => element_text(e),
    }
}

/// The text of elements, each phoneme in the color of its tag.
pub open spec fn colored_elements(es: Seq<ElementView>, tags: Seq<Option<usize>>) -> Seq<char>
    decreases es.len(),
{
    if es.len() == 0 {
        Seq::empty()
    } else {
        colored_elements(es.drop_last(), tags) + colored_element(
            es.last(),
            if es.last() is Phoneme {
                tag_at(tags, phoneme_count(es.drop_last()))
            } else {
                None
            },
        )
    }
}

proof fn lemma_phoneme_count_bound(es: Seq<ElementView>)
    ensures
        0 <= phoneme_count(es) <= es.len(),
    decreases es.len(),
{
    if es.len() > 0 {
        lemma_phoneme_count_bound(es.drop_last());
    }
}

/// The text of a word, each phoneme in the color of the derivation that
/// produced it.
pub fn format_colored_word(word: &crate::syllable::IpaWord, tags: &[Option<usize>]) -> (r: String)
    ensures
        r@ == colored_elements(crate::syllable::word_elements(word@), tags@),
{
    let es = word.elements();
    let ghost ev = crate::sequence::elements_view(es@);
    let mut result = String::new();
    let mut idx: usize = 0;
    let mut i: usize = 0;
    assert(ev.take(0) =~= Seq::<ElementView>::empty());
    while i < es.len()
        invariant
            ev == crate::sequence::elements_view(es@),
            i <= es.len(),
            idx as int == phoneme_count(ev.take(i as int)),
            result@ == colored_elements(ev.take(i as int), tags@),
        decreases es.len() - i,
    {
        proof {
            lemma_phoneme_count_bound(ev.take(i as int));
        }
        assert(ev.take(i + 1).drop_last() =~= ev.take(i as int));
        assert(ev[i as int] == es@[i as int]@);
        let ghost before = result@;
        match &es[i] {
            SequenceElement::Phoneme(p) => {
                let tag = if idx < tags.len() {
                    tags[idx]
                } else {
                    None
                };
                match tag {
                    Some(t) => {
                        result.append(get_derivation_color(t));
                        result.append(p.to_text().as_str());
                        result.append("\x1b[0m");
                    },
                    None => {
                        result.append(p.to_text().as_str());
                    },
                }
                idx = idx + 1;
            },
            SequenceElement::SyllableBreak => {
                result.append(crate::text::char_string('.').as_str());
            },
            SequenceElement::Prosody(pm) => {
                result.append(pm.to_text().as_str());
            },
        }
        assert(result@ =~= before + colored_element(ev[i as int], if ev[i as int] is Phoneme {
            tag_at(tags@, phoneme_count(ev.take(i as int)))
        } else {
            None
        }));
        i = i + 1;
    }
    assert(ev.take(i as int) =~= ev);
    result
}

// ----- etymologies -----

/// Whether a character has the Unicode `White_Space` property
/// (`char::is_whitespace`).
pub open spec fn is_white(c: char) -> bool {
    ('\u{9}' <= c <= '\u{D}') || c == ' ' || c == '\u{85}' || c == '\u{A0}' || c == '\u{1680}' || ('\u{2000}' <= c
        <= '\u{200A}') || c == '\u{2028}' || c == '\u{2029}' || c == '\u{202F}' || c == '\u{205F}' || c == '\u{3000}'
}

/// A text without its leading white space.
pub open spec fn trim_start_text(s: Seq<char>) -> Seq<char>
    decreases s.len(),
{
    if s.len() > 0 && is_white(s[0]) {
        trim_start_text(s.drop_first())
    } else {
        s
    }
}

/// A text without its trailing white space.
pub open spec fn trim_end_text(s: Seq<char>) -> Seq<char>
    decreases s.len(),
{
    if s.len() > 0 && is_white(s.last()) {
        trim_end_text(s.drop_last())
    } else {
        s
    }
}

/// A text without its leading and trailing white space (`str::trim`).
pub open spec fn trim_text(s: Seq<char>) -> Seq<char> {
    trim_end_text(trim_start_text(s))
}

/// Whether a character has the Unicode `White_Space` property.
fn white(c: char) -> (r: bool)
    ensures
        r == is_white(c),
{
    ('\u{9}' <= c && c <= '\u{D}') || c == ' ' || c == '\u{85}' || c == '\u{A0}' || c == '\u{1680}' || ('\u{2000}' <= c
        && c <= '\u{200A}') || c == '\u{2028}' || c == '\u{2029}' || c == '\u{202F}' || c == '\u{205F}' || c == '\u{3000}'
}

/// The characters of a text without leading and trailing white space.
fn trim_chars(cs: &Vec<char>) -> (r: Vec<char>)
    ensures
        r@ == trim_text(cs@),
{
    let mut a: usize = 0;
    assert(cs@.skip(0) =~= cs@);
    while a < cs.len() && white(cs[a])
        invariant
            a <= cs.len(),
            trim_start_text(cs@) == trim_start_text(cs@.skip(a as int)),
        decreases cs.len() - a,
    {
        assert(cs@.skip(a as int).drop_first() =~= cs@.skip(a + 1));
        a = a + 1;
    }
    assert(trim_start_text(cs@.skip(a as int)) == cs@.skip(a as int));
    let mut b: usize = cs.len();
    assert(cs@.subrange(a as int, b as int) =~= cs@.skip(a as int));
    while b > a && white(cs[b - 1])
        invariant
            a <= b <= cs.len(),
            trim_text(cs@) == trim_end_text(cs@.subrange(a as int, b as int)),
        decreases b,
    {
        assert(cs@.subrange(a as int, b as int).drop_last() =~= cs@.subrange(a as int, b - 1));
        b = b - 1;
    }
    crate::text::chars_range(cs.as_slice(), a, b)
}

/// A text without leading and trailing white space.
pub fn trim(s: &str) -> (r: String)
    ensures
        r@ == trim_text(s@),
{
    let cs = chars_of(s);
    let t = trim_chars(&cs);
    string_from_chars(t.as_slice())
}

/// The number a text denotes as `u32::from_str` reads it: an optional `+`
/// then one or more decimal digits, with a value that fits.
pub open spec fn parse_u32_text(s: Seq<char>) -> Option<u32> {
    let ds = if s.len() > 0 && s[0] == '+' {
        s.drop_first()
    } else {
        s
    };
    if ds.len() > 0 && crate::data::all_digits(ds) && crate::data::digits_value(ds) <= u32::MAX {
        Some(crate::data::digits_value(ds) as u32)
    } else {
        None
    }
}

proof fn lemma_digits_value_grows(s: Seq<char>, k: int)
    requires
        crate::data::all_digits(s),
        0 <= k <= s.len(),
    ensures
        crate::data::digits_value(s.take(k)) <= crate::data::digits_value(s),
        0 <= crate::data::digits_value(s.take(k)),
    decreases s.len(),
{
    if s.len() > 0 {
        if k == s.len() {
            assert(s.take(k) =~= s);
            lemma_digits_value_grows(s.drop_last(), k - 1);
            assert(s.drop_last().take(k - 1) =~= s.drop_last());
        } else {
            assert(s.drop_last().take(k) =~= s.take(k));
            assert(crate::data::all_digits(s.drop_last())) by {
                assert forall|i: int| 0 <= i < s.drop_last().len() implies crate::data::is_digit(#[trigger] s.drop_last()[i]) by {
                    assert(s.drop_last()[i] == s[i]);
                }
            }
            lemma_digits_value_grows(s.drop_last(), k);
            assert(crate::data::is_digit(s[s.len() - 1]));
        }
    } else {
        assert(s.take(k) =~= s);
    }
}

/// Reads a number as `u32::from_str` does.
pub fn parse_u32(s: &str) -> (r: Option<u32>)
    ensures
        r == parse_u32_text(s@),
{
    let cs = chars_of(s);
    let start: usize = if cs.len() > 0 && cs[0] == '+' {
        1
    } else {
        0
    };
    let ghost ds = cs@.skip(start as int);
    assert(ds =~= (if cs@.len() > 0 && cs@[0] == '+' {
        cs@.drop_first()
    } else {
        cs@
    }));
    if start >= cs.len() {
        return None;
    }
    let mut value: u64 = 0;
    let mut i = start;
    assert(ds.take(0) =~= Seq::<char>::empty());
    while i < cs.len()
        invariant
            start <= i <= cs.len(),
            cs@ == s@,
            ds == cs@.skip(start as int),
            ds == (if cs@.len() > 0 && cs@[0] == '+' {
                cs@.drop_first()
            } else {
                cs@
            }),
            value as int == crate::data::digits_value(ds.take(i - start)),
            value <= u32::MAX,
            crate::data::all_digits(ds.take(i - start)),
        decreases cs.len() - i,
    {
        let c = cs[i];
        assert(ds[i - start] == c);
        if !('0' <= c && c <= '9') {
            assert(!crate::data::all_digits(ds)) by {
                assert(!crate::data::is_digit(ds[i - start]));
            }
            return None;
        }
        assert(ds.take(i - start + 1).drop_last() =~= ds.take(i - start));
        let next = value * 10 + (c as u64 - '0' as u64);
        assert(crate::data::all_digits(ds.take(i - start + 1))) by {
            assert forall|j: int| 0 <= j < ds.take(i - start + 1).len() implies crate::data::is_digit(#[trigger] ds.take(i - start + 1)[j]) by {
                if j < i - start {
                    assert(ds.take(i - start + 1)[j] == ds.take(i - start)[j]);
                }
            }
        }
        if next > 4294967295u64 {
            proof {
                if crate::data::all_digits(ds) {
                    lemma_digits_value_grows(ds, i - start + 1);
                }
            }
            return None;
        }
        value = next;
        i = i + 1;
    }
    assert(ds.take(i - start) =~= ds);
    Some(value as u32)
}

/// The words of an etymology list: the pieces between commas, trimmed, the
/// empty ones left out.
pub open spec fn etymology_words(pieces: Seq<Seq<char>>) -> Seq<Seq<char>>
    decreases pieces.len(),
{
    if pieces.len() == 0 {
        Seq::empty()
    } else {
        etymology_words(pieces.drop_last()) + (if trim_text(pieces.last()).len() > 0 {
            seq![trim_text(pieces.last())]
        } else {
            Seq::empty()
        })
    }
}

/// The first position, from `k` on, of a `:`.
pub open spec fn first_colon_from(s: Seq<char>, k: int) -> Option<int>
    decreases s.len() - k,
{
    if k < 0 || k >= s.len() {
        None
    } else if s[k] == ':' {
        Some(k)
    } else {
        first_colon_from(s, k + 1)
    }
}

/// What an etymology item `era:word1,word2` gives: its era and words, or the
/// message of its fault.
pub open spec fn etymology_item(item: Seq<char>) -> Result<(u32, Seq<Seq<char>>), Seq<char>> {
    match first_colon_from(item, 0) {
        None => Err("Invalid etymology format: '"@ + item + "'. Expected 'era:word1,word2,...'"@),
        Some(p) => {
            let era_text = item.subrange(0, p);
            match parse_u32_text(trim_text(era_text)) {
                None => Err("Invalid era number '"@ + era_text + "' in etymology"@),
                Some(era) => Ok((era, etymology_words(split_on(item.subrange(p + 1, item.len() as int), ',')))),
            }
        },
    }
}

/// Words added under an era: after its words if the era is recorded, else
/// as a new era in its place by number.
pub open spec fn merge_words(m: Seq<(u32, Seq<Seq<char>>)>, era: u32, ws: Seq<Seq<char>>) -> Seq<(u32, Seq<Seq<char>>)>
    decreases m.len(),
{
    if m.len() == 0 {
        seq![(era, ws)]
    } else if m[0].0 == era {
        seq![(era, m[0].1 + ws)] + m.drop_first()
    } else if era < m[0].0 {
        seq![(era, ws)] + m
    } else {
        seq![m[0]] + merge_words(m.drop_first(), era, ws)
    }
}

/// The etymology that items give, added in order to `m`; the first faulty
/// item's message otherwise.
pub open spec fn etymology_from(items: Seq<Seq<char>>, m: Seq<(u32, Seq<Seq<char>>)>) -> Result<Seq<(u32, Seq<Seq<char>>)>, Seq<char>>
    decreases items.len(),
{
    if items.len() == 0 {
        Ok(m)
    } else {
        match etymology_item(items[0]) {
            Err(e) => Err(e),
            Ok((era, ws)) => etymology_from(items.drop_first(), merge_words(m, era, ws)),
        }
    }
}

/// The model of an etymology.
pub open spec fn etymology_view(m: Seq<(u32, Vec<String>)>) -> Seq<(u32, Seq<Seq<char>>)> {
    m.map_values(|e: (u32, Vec<String>)| (e.0, crate::data::strings_view(e.1@)))
}

/// The model of an etymology result.
pub open spec fn etymology_result(r: Result<Vec<(u32, Vec<String>)>, String>) -> Result<Seq<(u32, Seq<Seq<char>>)>, Seq<char>> {
    match r {
        Ok(m) => Ok(etymology_view(m@)),
        Err(e) => Err(e@),
    }
}

/// The words of an etymology list.
fn words_of(text: &str) -> (r: Vec<String>)
    ensures
        crate::data::strings_view(r@) == etymology_words(split_on(text@, ',')),
{
    let pieces = split_text(text, ',');
    let ghost pv = crate::data::strings_view(pieces@);
    let mut out: Vec<String> = Vec::new();
    let mut i: usize = 0;
    assert(pv.take(0) =~= Seq::<Seq<char>>::empty());
    while i < pieces.len()
        invariant
            pv == crate::data::strings_view(pieces@),
            i <= pieces.len(),
            crate::data::strings_view(out@) == etymology_words(pv.take(i as int)),
        decreases pieces.len() - i,
    {
        assert(pv.take(i + 1).drop_last() =~= pv.take(i as int));
        assert(pv[i as int] == pieces@[i as int]@);
        let w = trim(pieces[i].as_str());
        let ghost before = out@;
        if w.as_str().unicode_len() > 0 {
            out.push(w);
            assert(crate::data::strings_view(out@) =~= crate::data::strings_view(before).push(w@));
        } else {
            assert(etymology_words(pv.take(i + 1)) =~= etymology_words(pv.take(i as int)));
        }
        i = i + 1;
    }
    assert(pv.take(i as int) =~= pv);
    out
}

/// Adds words under an era.
fn merge_words_exec(m: &mut Vec<(u32, Vec<String>)>, era: u32, ws: Vec<String>)
    ensures
        etymology_view(final(m)@) == merge_words(etymology_view(old(m)@), era, crate::data::strings_view(ws@)),
{
    let ghost m0 = etymology_view(m@);
    let ghost wv = crate::data::strings_view(ws@);
    let mut i: usize = 0;
    assert(m0.take(0) + merge_words(m0.skip(0), era, wv) =~= merge_words(m0, era, wv)) by {
        assert(m0.skip(0) =~= m0);
    }
    while i < m.len() && m[i].0 < era
        invariant
            etymology_view(m@) == m0,
            m0.len() == m@.len(),
            i <= m.len(),
            merge_words(m0, era, wv) == m0.take(i as int) + merge_words(m0.skip(i as int), era, wv),
        decreases m.len() - i,
    {
        let ghost rest = m0.skip(i as int);
        assert(rest[0].0 == m@[i as int].0);
        assert(rest.drop_first() =~= m0.skip(i + 1));
        assert(m0.take(i as int) + (seq![rest[0]] + merge_words(rest.drop_first(), era, wv)) =~= m0.take(i + 1) + merge_words(m0.skip(i + 1), era, wv));
        i = i + 1;
    }
    if i < m.len() && m[i].0 == era {
        let ghost rest = m0.skip(i as int);
        assert(rest[0].0 == era);
        let mut entry = m.remove(i);
        let ghost old_words = crate::data::strings_view(entry.1@);
        let mut ws = ws;
        entry.1.append(&mut ws);
        assert(crate::data::strings_view(entry.1@) =~= old_words + wv);
        m.insert(i, entry);
        assert(etymology_view(m@) =~= m0.take(i as int) + (seq![(era, rest[0].1 + wv)] + rest.drop_first()));
        return;
    }
    m.insert(i, (era, ws));
    proof {
        if i < m0.len() {
            assert(etymology_view(m@) =~= m0.take(i as int) + (seq![(era, wv)] + m0.skip(i as int)));
        } else {
            assert(m0.skip(i as int) =~= Seq::<(u32, Seq<Seq<char>>)>::empty());
            assert(etymology_view(m@) =~= m0.take(i as int) + seq![(era, wv)]);
        }
    }
}

/// The position of the first `:` of a text.
fn find_colon(cs: &Vec<char>) -> (r: Option<usize>)
    ensures
        r is Some == first_colon_from(cs@, 0) is Some,
        r matches Some(i) ==> first_colon_from(cs@, 0) == Some(i as int) && i < cs.len(),
{
    let mut k: usize = 0;
    while k < cs.len()
        invariant
            k <= cs.len(),
            first_colon_from(cs@, 0) == first_colon_from(cs@, k as int),
        decreases cs.len() - k,
    {
        if cs[k] == ':' {
            return Some(k);
        }
        k = k + 1;
    }
    None
}

/// Reads etymology items `era:word1,word2,...` into words by era, in era
/// order; words given under one era more than once are kept in turn.
pub fn parse_etymology(raw: &[String]) -> (r: Result<Vec<(u32, Vec<String>)>, String>)
    ensures
        etymology_result(r) == etymology_from(crate::data::strings_view(raw@), Seq::empty()),
{
    let ghost items = crate::data::strings_view(raw@);
    let mut map: Vec<(u32, Vec<String>)> = Vec::new();
    let mut i: usize = 0;
    assert(etymology_view(map@) =~= Seq::<(u32, Seq<Seq<char>>)>::empty());
    assert(items.skip(0) =~= items);
    proof {
        reveal_strlit("Invalid etymology format: '");
        reveal_strlit("'. Expected 'era:word1,word2,...'");
        reveal_strlit("Invalid era number '");
        reveal_strlit("' in etymology");
    }
    while i < raw.len()
        invariant
            items == crate::data::strings_view(raw@),
            i <= raw.len(),
            etymology_from(items, Seq::empty()) == etymology_from(items.skip(i as int), etymology_view(map@)),
        decreases raw.len() - i,
    {
        let item = &raw[i];
        assert(items[i as int] == item@);
        assert(items.skip(i as int)[0] == item@);
        assert(items.skip(i as int).drop_first() =~= items.skip(i + 1));
        let cs = chars_of(item.as_str());
        let p = match find_colon(&cs) {
            Some(p) => p,
            None => {
                let a = concat2("Invalid etymology format: '", item.as_str());
                return Err(concat2(a.as_str(), "'. Expected 'era:word1,word2,...'"));
            },
        };
        let era_text = crate::text::string_range(cs.as_slice(), 0, p);
        let era = match parse_u32(trim(era_text.as_str()).as_str()) {
            Some(e) => e,
            None => {
                let a = concat2("Invalid era number '", era_text.as_str());
                return Err(concat2(a.as_str(), "' in etymology"));
            },
        };
        let words_text = crate::text::string_range(cs.as_slice(), p + 1, cs.len());
        let words = words_of(words_text.as_str());
        merge_words_exec(&mut map, era, words);
        i = i + 1;
    }
    assert(items.skip(i as int) =~= Seq::<Seq<char>>::empty());
    Ok(map)
}

} // verus!
