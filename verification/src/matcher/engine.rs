//! The matching engine: words are split into tokens, and a pattern is
//! searched for at every token position, backtracking over the lengths that
//! each element can take. Marked elements bind the tokens they match, and a
//! later element with the same marker must match the same tokens again.

use crate::config::{class_values, SoundClassMap};
use crate::data::{IpaEntry, IpaEntryView, SpeFeature, SpeFeatureView};
use crate::feature::spec_feature_name;
use crate::ipa_system::{spec_get_entry, spec_phoneme_data, IpaSystem, IpaSystemView};
use crate::matcher::ast::{
    BaseElement, BaseView, ElementView, FeatureDescriptor, PatternElement, Quantifier,
    SoundMatcherPattern, Token, TokenView, tokens_view, bases_view, pattern_elements_view,
};
use vstd::prelude::*;

verus! {

/// Bindings of markers to the tokens they matched.
pub type BindingsView = Seq<(u8, Seq<TokenView>)>;

/// The tokens bound to a marker: the first binding recorded for it.
pub open spec fn lookup(bs: BindingsView, m: u8) -> Option<Seq<TokenView>>
    decreases bs.len(),
{
    if bs.len() == 0 {
        None
    } else if bs[0].0 == m {
        Some(bs[0].1)
    } else {
        lookup(bs.drop_first(), m)
    }
}

/// The bindings of markers other than `m`, in order.
pub open spec fn drop_marker(bs: BindingsView, m: u8) -> BindingsView
    decreases bs.len(),
{
    if bs.len() == 0 {
        bs
    } else if bs.last().0 == m {
        drop_marker(bs.drop_last(), m)
    } else {
        drop_marker(bs.drop_last(), m).push(bs.last())
    }
}

/// The bindings with the marker bound to `v` (replacing an earlier binding).
pub open spec fn bind(bs: BindingsView, m: u8, v: Seq<TokenView>) -> BindingsView {
    drop_marker(bs, m).push((m, v))
}

/// Whether a text is one of the plain vowel letters `a`, `e`, `i`, `o`, `u`.
pub open spec fn is_plain_vowel_letter(p: Seq<char>) -> bool {
    p == seq!['a'] || p == seq!['e'] || p == seq!['i'] || p == seq!['o'] || p == seq!['u']
}

/// Whether a phoneme text belongs to a class: `V` holds the vowel entries,
/// `C` the consonant entries (a text that the system does not know counts
/// as a vowel when it is a plain vowel letter, else as a consonant); other
/// letters name the language's classes.
pub open spec fn spec_in_class(sys: IpaSystemView, classes: Seq<(char, Seq<Seq<char>>)>, p: Seq<char>, key: char) -> bool {
    if key == 'V' {
        match spec_get_entry(sys, p) {
            Some(e) => e is Vowel,
            None => is_plain_vowel_letter(p),
        }
    } else if key == 'C' {
        match spec_get_entry(sys, p) {
            Some(e) => e is Consonant,
            None => !is_plain_vowel_letter(p),
        }
    } else {
        match class_values(classes, key) {
            Some(vs) => vs.contains(p),
            None => false,
        }
    }
}

/// The sign that a feature list gives a feature: that of its last mention,
/// minus when it is not mentioned.
pub open spec fn sign_of(fs: Seq<SpeFeatureView>, name: Seq<char>) -> bool
    decreases fs.len(),
{
    if fs.len() == 0 {
        false
    } else {
        match fs.last() {
            SpeFeatureView::Plus(n) => if n == name {
                true
            } else {
                sign_of(fs.drop_last(), name)
            },
            SpeFeatureView::Minus(n) => if n == name {
                false
            } else {
                sign_of(fs.drop_last(), name)
            },
        }
    }
}

/// Whether every descriptor has the sign that the feature list gives it.
pub open spec fn descriptors_hold(fs: Seq<SpeFeatureView>, ds: Seq<FeatureDescriptor>) -> bool {
    forall|k: int| 0 <= k < ds.len() ==> sign_of(fs, spec_feature_name(#[trigger] ds[k].feature)) == ds[k].sign
}

/// The position of the first token from `k` on that is no syllable
/// boundary, unless the base is itself a syllable boundary.
pub open spec fn skip_from(b: BaseView, ts: Seq<TokenView>, k: int) -> int
    decreases ts.len() - k,
{
    if !(b is SyllableBoundary) && 0 <= k < ts.len() && ts[k] == TokenView::Boundary(seq!['$']) {
        skip_from(b, ts, k + 1)
    } else {
        k
    }
}

/// How many tokens from `k` on spell `target`, the phonemes of the tokens
/// before `k` having spelled `acc`: syllable boundaries are passed over,
/// word boundaries end the attempt.
pub open spec fn ipa_match_from(ts: Seq<TokenView>, target: Seq<char>, k: int, acc: Seq<char>) -> Option<int>
    decreases ts.len() - k,
{
    if k < 0 || k >= ts.len() {
        None
    } else {
        match ts[k] {
            TokenView::Boundary(b) => if b == seq!['$'] {
                ipa_match_from(ts, target, k + 1, acc)
            } else {
                None
            },
            TokenView::Phoneme(p) => {
                let a = acc + p;
                if a == target {
                    Some(k + 1)
                } else if !(a.len() <= target.len() && target.take(a.len() as int) == a) {
                    None
                } else {
                    ipa_match_from(ts, target, k + 1, a)
                }
            },
        }
    }
}

/// The path of greatest length, the earliest among equals.
pub open spec fn best_path(paths: Seq<(int, BindingsView)>) -> Option<(int, BindingsView)>
    decreases paths.len(),
{
    if paths.len() == 0 {
        None
    } else {
        match best_path(paths.drop_first()) {
            None => Some(paths[0]),
            Some(r) => if paths[0].0 >= r.0 {
                Some(paths[0])
            } else {
                Some(r)
            },
        }
    }
}

/// How many tokens a base matches at the start of `ts`, with the bindings
/// after the match: leading syllable boundaries are passed over first.
pub open spec fn match_base(
    sys: IpaSystemView,
    classes: Seq<(char, Seq<Seq<char>>)>,
    b: BaseView,
    ts: Seq<TokenView>,
    bs: BindingsView,
) -> Option<(int, BindingsView)>
    decreases b, 0int,
{
    let sk = skip_from(b, ts, 0);
    if !(0 <= sk < ts.len()) {
        None
    } else {
        let rest = ts.subrange(sk, ts.len() as int);
        let t0 = ts[sk];
        match b {
            BaseView::WordBoundary => if t0 == TokenView::Boundary(seq!['#']) {
                Some((sk + 1, bs))
            } else {
                None
            },
            BaseView::SyllableBoundary => if t0 == TokenView::Boundary(seq!['$']) || t0 == TokenView::Boundary(seq!['#']) {
                Some((sk + 1, bs))
            } else {
                None
            },
            BaseView::SoundClass(c) => match t0 {
                TokenView::Phoneme(p) => if spec_in_class(sys, classes, p, c) {
                    Some((sk + 1, bs))
                } else {
                    None
                },
                _ => None,
            },
            BaseView::IpaSequence(ipa) => match ipa_match_from(rest, ipa.raw, 0, Seq::empty()) {
                Some(l) => Some((sk + l, bs)),
                None => None,
            },
            BaseView::FeatureClass(k, ds) => match t0 {
                TokenView::Phoneme(p) => if (k is None || spec_in_class(sys, classes, p, k.unwrap()))
                    && spec_phoneme_data(sys, p) is Some && descriptors_hold(spec_phoneme_data(sys, p).unwrap().features, ds) {
                    Some((sk + 1, bs))
                } else {
                    None
                },
                _ => None,
            },
            BaseView::SetOf(els) => match match_set(sys, classes, els, 0, rest, bs) {
                Some((l, b2)) => Some((sk + l, b2)),
                None => None,
            },
            BaseView::OptionalGroup(p) => match best_path(find_group_match_lengths(sys, classes, *p, rest, 0, bs)) {
                Some((l, b2)) => Some((sk + l, b2)),
                None => None,
            },
        }
    }
}

/// The match of the first member of a set, from the `k`-th on, that matches.
pub open spec fn match_set(
    sys: IpaSystemView,
    classes: Seq<(char, Seq<Seq<char>>)>,
    els: Seq<BaseView>,
    k: int,
    ts: Seq<TokenView>,
    bs: BindingsView,
) -> Option<(int, BindingsView)>
    decreases els, els.len() - k,
{
    if k < 0 || k >= els.len() {
        None
    } else {
        match match_base(sys, classes, els[k], ts, bs) {
            Some(r) => Some(r),
            None => match_set(sys, classes, els, k + 1, ts, bs),
        }
    }
}

/// Every way for the elements of a group to match the start of `ts`, as
/// (total length, bindings), in the order of the search: `cur` tokens have
/// been matched already.
pub open spec fn find_group_match_lengths(
    sys: IpaSystemView,
    classes: Seq<(char, Seq<Seq<char>>)>,
    p: Seq<ElementView>,
    ts: Seq<TokenView>,
    cur: int,
    bs: BindingsView,
) -> Seq<(int, BindingsView)>
    decreases p, 0int,
{
    if p.len() == 0 {
        seq![(cur, bs)]
    } else {
        paths_over(sys, classes, p.drop_first(), get_match_lengths(sys, classes, p[0], ts, bs), ts, cur)
    }
}

/// The paths of the remaining elements after each candidate match of the first.
pub open spec fn paths_over(
    sys: IpaSystemView,
    classes: Seq<(char, Seq<Seq<char>>)>,
    rest: Seq<ElementView>,
    cands: Seq<(int, BindingsView)>,
    ts: Seq<TokenView>,
    cur: int,
) -> Seq<(int, BindingsView)>
    decreases rest, cands.len() + 1,
{
    if cands.len() == 0 {
        Seq::empty()
    } else {
        let (len, b2) = cands[0];
        (if 0 <= len <= ts.len() {
            find_group_match_lengths(sys, classes, rest, ts.subrange(len, ts.len() as int), cur + len, b2)
        } else {
            Seq::empty()
        }) + paths_over(sys, classes, rest, cands.drop_first(), ts, cur)
    }
}

/// The candidate matches of an element at the start of `ts`: one at most
/// for an unquantified element, every number of repetitions otherwise.
pub open spec fn get_match_lengths(
    sys: IpaSystemView,
    classes: Seq<(char, Seq<Seq<char>>)>,
    e: ElementView,
    ts: Seq<TokenView>,
    bs: BindingsView,
) -> Seq<(int, BindingsView)>
    decreases e, 0int,
{
    match e.quantifier {
        Quantifier::Once => match match_marked_base(sys, classes, e.base, e.marker, ts, bs) {
            Some(r) => seq![r],
            None => Seq::empty(),
        },
        Quantifier::ZeroOrMore => find_repeated_matches(sys, classes, e.base, e.marker, ts, 0, 0, bs),
        Quantifier::OneOrMore => find_repeated_matches(sys, classes, e.base, e.marker, ts, 1, 0, bs),
    }
}

/// The matches of `min` or more repetitions of a base, `cur` tokens having
/// been matched by the repetitions so far; each repetition must match at
/// least one token.
pub open spec fn find_repeated_matches(
    sys: IpaSystemView,
    classes: Seq<(char, Seq<Seq<char>>)>,
    b: BaseView,
    marker: Option<u8>,
    ts: Seq<TokenView>,
    min: nat,
    cur: int,
    bs: BindingsView,
) -> Seq<(int, BindingsView)>
    decreases b, ts.len() - cur + 2,
{
    (if min == 0 {
        seq![(cur, bs)]
    } else {
        Seq::empty()
    }) + (if 0 <= cur <= ts.len() {
        match match_marked_base(sys, classes, b, marker, ts.subrange(cur, ts.len() as int), bs) {
            Some((l, b2)) => if l > 0 && cur + l <= ts.len() {
                find_repeated_matches(sys, classes, b, marker, ts, if min > 0 {
                    (min - 1) as nat
                } else {
                    0
                }, cur + l, b2)
            } else {
                Seq::empty()
            },
            None => Seq::empty(),
        }
    } else {
        Seq::empty()
    })
}

/// The match of a base with its marker: a marker that is bound must match
/// its bound tokens again; an unbound one binds the tokens matched.
pub open spec fn match_marked_base(
    sys: IpaSystemView,
    classes: Seq<(char, Seq<Seq<char>>)>,
    b: BaseView,
    marker: Option<u8>,
    ts: Seq<TokenView>,
    bs: BindingsView,
) -> Option<(int, BindingsView)>
    decreases b, 1int,
{
    let sk = skip_from(b, ts, 0);
    match marker {
        None => match_base(sys, classes, b, ts, bs),
        Some(m) => match lookup(bs, m) {
            Some(bound) => if 0 <= sk && sk + bound.len() <= ts.len() && ts.subrange(sk, sk + bound.len()) == bound {
                match match_base(sys, classes, b, bound, bs) {
                    Some((l, b2)) => if l == bound.len() {
                        Some((sk + bound.len(), b2))
                    } else {
                        None
                    },
                    None => None,
                }
            } else {
                None
            },
            None => match match_base(sys, classes, b, ts, bs) {
                Some((l, b2)) => if 0 <= sk <= l <= ts.len() {
                    Some((l, bind(b2, m, ts.subrange(sk, l))))
                } else {
                    None
                },
                None => None,
            },
        },
    }
}

/// Whether the elements match at the start of `ts`, trying every
/// candidate match of the first element.
pub open spec fn match_at(
    sys: IpaSystemView,
    classes: Seq<(char, Seq<Seq<char>>)>,
    ts: Seq<TokenView>,
    p: Seq<ElementView>,
    bs: BindingsView,
) -> bool
    decreases p.len(), 1int, 0nat,
{
    if p.len() == 0 {
        true
    } else {
        any_candidate(sys, classes, ts, p.drop_first(), get_match_lengths(sys, classes, p[0], ts, bs))
    }
}

/// Whether the remaining elements match after one of the candidates.
pub open spec fn any_candidate(
    sys: IpaSystemView,
    classes: Seq<(char, Seq<Seq<char>>)>,
    ts: Seq<TokenView>,
    rest: Seq<ElementView>,
    cands: Seq<(int, BindingsView)>,
) -> bool
    decreases rest.len() + 1, 0int, cands.len(),
{
    if cands.len() == 0 {
        false
    } else {
        (0 <= cands[0].0 <= ts.len() && match_at(sys, classes, ts.subrange(cands[0].0, ts.len() as int), rest, cands[0].1))
            || any_candidate(sys, classes, ts, rest, cands.drop_first())
    }
}

/// Whether a character marks a syllable boundary or a stress in a word.
pub open spec fn is_word_mark(c: char) -> bool {
    c == '.' || c == '\u{02CC}' || c == '\u{02C8}' || c == '\''
}

/// Where the phoneme that starts at `start` ends, having reached `j`: it
/// grows while the grown text is a known symbol, or the next character is a
/// modifier entry, and stops at word marks.
pub open spec fn phoneme_end(sys: IpaSystemView, cs: Seq<char>, start: int, j: int) -> int
    decreases cs.len() - j,
{
    if 0 <= start < j < cs.len() && !is_word_mark(cs[j]) && (spec_get_entry(sys, cs.subrange(start, j + 1)) is Some
        || spec_get_entry(sys, seq![cs[j]]) matches Some(IpaEntryView::Modifier(_))) {
        phoneme_end(sys, cs, start, j + 1)
    } else {
        j
    }
}

/// The tokens of `cs` from `i` on, ending with a word boundary.
pub open spec fn tokens_from(sys: IpaSystemView, cs: Seq<char>, i: int) -> Seq<TokenView>
    decreases cs.len() - i,
{
    if i < 0 || i >= cs.len() {
        seq![TokenView::Boundary(seq!['#'])]
    } else if is_word_mark(cs[i]) {
        seq![TokenView::Boundary(seq!['$'])] + tokens_from(sys, cs, i + 1)
    } else {
        let e = phoneme_end(sys, cs, i, i + 1);
        if i < e <= cs.len() {
            seq![TokenView::Phoneme(cs.subrange(i, e))] + tokens_from(sys, cs, e)
        } else {
            seq![TokenView::Boundary(seq!['#'])]
        }
    }
}

/// The tokens of a word: a word boundary, then its phonemes with a syllable
/// boundary for each mark, then a word boundary.
pub open spec fn spec_tokenize(sys: IpaSystemView, word: Seq<char>) -> Seq<TokenView> {
    seq![TokenView::Boundary(seq!['#'])] + tokens_from(sys, word, 0)
}

/// Whether a pattern matches a word: at some token position, with no
/// bindings to start with.
pub open spec fn spec_matches(
    sys: IpaSystemView,
    classes: Seq<(char, Seq<Seq<char>>)>,
    p: Seq<ElementView>,
    word: Seq<char>,
) -> bool {
    let ts = spec_tokenize(sys, word);
    exists|i: int| 0 <= i < ts.len() && #[trigger] match_at(sys, classes, ts.subrange(i, ts.len() as int), p, Seq::empty())
}

// ----- the executable engine -----

/// The IPA system and the language's sound classes that a match consults.
pub struct MatchContext<'a> {
    pub system: &'a IpaSystem,
    pub classes: &'a SoundClassMap,
}

/// Bindings of markers to the tokens they matched.
pub type Bindings = Vec<(u8, Vec<Token>)>;

/// The model of bindings.
pub open spec fn bindings_view(bs: Seq<(u8, Vec<Token>)>) -> BindingsView {
    bs.map_values(|e: (u8, Vec<Token>)| (e.0, tokens_view(e.1@)))
}

/// The model of candidate matches.
pub open spec fn paths_view(ps: Seq<(usize, Bindings)>) -> Seq<(int, BindingsView)> {
    ps.map_values(|e: (usize, Bindings)| (e.0 as int, bindings_view(e.1@)))
}

fn token_eq(a: &Token, b: &Token) -> (r: bool)
    ensures
        r == (a@ == b@),
{
    match (a, b) {
        (Token::Boundary(x), Token::Boundary(y)) => crate::text::str_eq(x.as_str(), y.as_str()),
        (Token::Phoneme(x), Token::Phoneme(y)) => crate::text::str_eq(x.as_str(), y.as_str()),
        _ => false,
    }
}

fn copy_token(t: &Token) -> (r: Token)
    ensures
        r@ == t@,
{
    match t {
        Token::Boundary(s) => Token::Boundary(s.clone()),
        Token::Phoneme(s) => Token::Phoneme(s.clone()),
    }
}

fn copy_tokens(ts: &[Token]) -> (r: Vec<Token>)
    ensures
        tokens_view(r@) == tokens_view(ts@),
{
    let mut out: Vec<Token> = Vec::new();
    let mut i: usize = 0;
    while i < ts.len()
        invariant
            i <= ts.len(),
            out@.len() == i,
            forall|k: int| 0 <= k < i ==> (#[trigger] out@[k])@ == ts@[k]@,
        decreases ts.len() - i,
    {
        out.push(copy_token(&ts[i]));
        i = i + 1;
    }
    assert(tokens_view(out@) =~= tokens_view(ts@));
    out
}

fn copy_bindings(bs: &Bindings) -> (r: Bindings)
    ensures
        bindings_view(r@) == bindings_view(bs@),
{
    let mut out: Bindings = Vec::new();
    let mut i: usize = 0;
    while i < bs.len()
        invariant
            i <= bs.len(),
            out@.len() == i,
            forall|k: int| 0 <= k < i ==> (#[trigger] out@[k]).0 == bs@[k].0 && tokens_view(out@[k].1@) == tokens_view(bs@[k].1@),
        decreases bs.len() - i,
    {
        out.push((bs[i].0, copy_tokens(bs[i].1.as_slice())));
        i = i + 1;
    }
    assert(bindings_view(out@) =~= bindings_view(bs@));
    out
}

/// Whether `bound` occurs in `ts` at `from`.
fn tokens_at(ts: &[Token], from: usize, bound: &[Token]) -> (r: bool)
    requires
        from <= ts.len(),
    ensures
        r == (from + bound.len() <= ts.len() && tokens_view(ts@).subrange(from as int, from + bound.len())
            == tokens_view(bound@)),
{
    if bound.len() > ts.len() - from {
        return false;
    }
    let mut i: usize = 0;
    while i < bound.len()
        invariant
            i <= bound.len(),
            from + bound.len() <= ts.len(),
            forall|k: int| 0 <= k < i ==> ts@[from + k]@ == (#[trigger] bound@[k])@,
        decreases bound.len() - i,
    {
        if !token_eq(&ts[from + i], &bound[i]) {
            assert(tokens_view(ts@).subrange(from as int, from + bound.len())[i as int] != tokens_view(bound@)[i as int]);
            return false;
        }
        i = i + 1;
    }
    assert(tokens_view(ts@).subrange(from as int, from + bound.len()) =~= tokens_view(bound@));
    true
}

/// The position of the binding of a marker.
fn find_binding(bs: &Bindings, m: u8) -> (r: Option<usize>)
    ensures
        r is None ==> lookup(bindings_view(bs@), m) is None,
        r matches Some(i) ==> i < bs.len() && lookup(bindings_view(bs@), m) == Some(tokens_view(bs@[i as int].1@)),
{
    let ghost v = bindings_view(bs@);
    let mut i: usize = 0;
    assert(v.skip(0) =~= v);
    while i < bs.len()
        invariant
            i <= bs.len(),
            v == bindings_view(bs@),
            lookup(v, m) == lookup(v.skip(i as int), m),
        decreases bs.len() - i,
    {
        assert(v.skip(i as int).drop_first() =~= v.skip(i + 1));
        assert(v[i as int] == (bs@[i as int].0, tokens_view(bs@[i as int].1@)));
        if bs[i].0 == m {
            return Some(i);
        }
        i = i + 1;
    }
    None
}

/// The bindings with `m` bound to `v`.
fn bind_tokens(bs: &Bindings, m: u8, v: Vec<Token>) -> (r: Bindings)
    ensures
        bindings_view(r@) == bind(bindings_view(bs@), m, tokens_view(v@)),
{
    let ghost bv = bindings_view(bs@);
    let mut out: Bindings = Vec::new();
    let mut i: usize = 0;
    while i < bs.len()
        invariant
            i <= bs.len(),
            bv == bindings_view(bs@),
            bindings_view(out@) =~= drop_marker(bv.take(i as int), m),
        decreases bs.len() - i,
    {
        assert(bv.take(i + 1).drop_last() =~= bv.take(i as int));
        assert(bv.take(i + 1).last() == (bs@[i as int].0, tokens_view(bs@[i as int].1@)));
        if bs[i].0 != m {
            let ghost before = out@;
            out.push((bs[i].0, copy_tokens(bs[i].1.as_slice())));
            assert(bindings_view(out@) =~= bindings_view(before).push((bs@[i as int].0, tokens_view(bs@[i as int].1@))));
        }
        i = i + 1;
    }
    assert(bv.take(i as int) =~= bv);
    let ghost before = out@;
    out.push((m, v));
    assert(bindings_view(out@) =~= bindings_view(before).push((m, tokens_view(v@))));
    out
}

/// Whether a list of texts holds a text.
fn has_text(vs: &Vec<String>, p: &str) -> (r: bool)
    ensures
        r == crate::data::strings_view(vs@).contains(p@),
{
    let ghost sv = crate::data::strings_view(vs@);
    let mut i: usize = 0;
    while i < vs.len()
        invariant
            i <= vs.len(),
            sv == crate::data::strings_view(vs@),
            forall|k: int| 0 <= k < i ==> sv[k] != p@,
        decreases vs.len() - i,
    {
        assert(sv[i as int] == vs@[i as int]@);
        if crate::text::str_eq(vs[i].as_str(), p) {
            return true;
        }
        i = i + 1;
    }
    false
}

/// The sign that a feature list gives a feature name.
fn sign_in(fs: &Vec<SpeFeature>, name: &str) -> (r: bool)
    ensures
        r == sign_of(crate::data::features_view(fs@), name@),
{
    let ghost fv = crate::data::features_view(fs@);
    let mut i: usize = fs.len();
    assert(fv.take(fv.len() as int) =~= fv);
    while i > 0
        invariant
            i <= fs.len(),
            fv == crate::data::features_view(fs@),
            sign_of(fv, name@) == sign_of(fv.take(i as int), name@),
        decreases i,
    {
        assert(fv.take(i as int).drop_last() =~= fv.take(i - 1));
        assert(fv.take(i as int).last() == fs@[i - 1]@);
        match &fs[i - 1] {
            SpeFeature::Plus(n) => {
                if crate::text::str_eq(n.as_str(), name) {
                    return true;
                }
            },
            SpeFeature::Minus(n) => {
                if crate::text::str_eq(n.as_str(), name) {
                    return false;
                }
            },
        }
        i = i - 1;
    }
    false
}

/// Whether every descriptor has the sign that the feature list gives it.
fn descriptors_ok(fs: &Vec<SpeFeature>, ds: &Vec<FeatureDescriptor>) -> (r: bool)
    ensures
        r == descriptors_hold(crate::data::features_view(fs@), ds@),
{
    let mut i: usize = 0;
    while i < ds.len()
        invariant
            i <= ds.len(),
            forall|k: int| 0 <= k < i ==> sign_of(crate::data::features_view(fs@), spec_feature_name(#[trigger] ds@[k].feature)) == ds@[k].sign,
        decreases ds.len() - i,
    {
        if sign_in(fs, ds[i].feature.name()) != ds[i].sign {
            return false;
        }
        i = i + 1;
    }
    true
}

/// Whether a text is one of the plain vowel letters.
fn plain_vowel_letter(p: &str) -> (r: bool)
    ensures
        r == is_plain_vowel_letter(p@),
{
    proof {
        reveal_strlit("a");
        reveal_strlit("e");
        reveal_strlit("i");
        reveal_strlit("o");
        reveal_strlit("u");
        assert("a"@ =~= seq!['a']);
        assert("e"@ =~= seq!['e']);
        assert("i"@ =~= seq!['i']);
        assert("o"@ =~= seq!['o']);
        assert("u"@ =~= seq!['u']);
    }
    crate::text::str_eq(p, "a") || crate::text::str_eq(p, "e") || crate::text::str_eq(p, "i")
        || crate::text::str_eq(p, "o") || crate::text::str_eq(p, "u")
}

impl<'a> MatchContext<'a> {
    /// Whether a phoneme text belongs to the class with the given letter.
    pub fn phoneme_in_class(&self, p: &str, key: char) -> (r: bool)
        ensures
            r == spec_in_class(self.system@, self.classes@, p@, key),
    {
        if key == 'V' {
            match self.system.get_entry(p) {
                Some(e) => matches!(e, IpaEntry::Vowel(_)),
                None => plain_vowel_letter(p),
            }
        } else if key == 'C' {
            match self.system.get_entry(p) {
                Some(e) => matches!(e, IpaEntry::Consonant(_)),
                None => !plain_vowel_letter(p),
            }
        } else {
            match self.classes.get(&crate::sound_class::SoundClassKey { letter: key }) {
                Some(c) => has_text(&c.values, p),
                None => false,
            }
        }
    }
}

proof fn lemma_skip_bounds(b: BaseView, ts: Seq<TokenView>, k: int)
    requires
        0 <= k <= ts.len(),
    ensures
        k <= skip_from(b, ts, k) <= ts.len(),
    decreases ts.len() - k,
{
    if !(b is SyllableBoundary) && 0 <= k < ts.len() && ts[k] == TokenView::Boundary(seq!['$']) {
        lemma_skip_bounds(b, ts, k + 1);
    }
}

/// Whether a token is the syllable boundary.
fn is_syllable_token(t: &Token) -> (r: bool)
    ensures
        r == (t@ == TokenView::Boundary(seq!['$'])),
{
    proof {
        reveal_strlit("$");
        assert("$"@ =~= seq!['$']);
    }
    match t {
        Token::Boundary(s) => crate::text::str_eq(s.as_str(), "$"),
        _ => false,
    }
}

/// Whether a token is the word boundary.
fn is_word_token(t: &Token) -> (r: bool)
    ensures
        r == (t@ == TokenView::Boundary(seq!['#'])),
{
    proof {
        reveal_strlit("#");
        assert("#"@ =~= seq!['#']);
    }
    match t {
        Token::Boundary(s) => crate::text::str_eq(s.as_str(), "#"),
        _ => false,
    }
}

/// How many syllable boundaries a base passes over at the start of `ts`.
fn calculate_skip(b: &BaseElement, ts: &[Token]) -> (r: usize)
    ensures
        r as int == skip_from(b@, tokens_view(ts@), 0),
        r <= ts.len(),
{
    let ghost tv = tokens_view(ts@);
    let syl = matches!(b, BaseElement::SyllableBoundary);
    assert(syl == (b@ is SyllableBoundary));
    let mut k: usize = 0;
    while k < ts.len() && !syl && is_syllable_token(&ts[k])
        invariant
            k <= ts.len(),
            tv == tokens_view(ts@),
            syl == (b@ is SyllableBoundary),
            skip_from(b@, tv, 0) == skip_from(b@, tv, k as int),
        decreases ts.len() - k,
    {
        assert(tv[k as int] == ts@[k as int]@);
        k = k + 1;
    }
    proof {
        if k < ts.len() {
            assert(tv[k as int] == ts@[k as int]@);
        }
    }
    k
}

/// Whether `a` is a prefix of `t`.
fn is_prefix(a: &str, t: &str) -> (r: bool)
    ensures
        r == (a@.len() <= t@.len() && t@.take(a@.len() as int) == a@),
{
    let ac = crate::text::chars_of(a);
    let tc = crate::text::chars_of(t);
    if ac.len() > tc.len() {
        return false;
    }
    let mut i: usize = 0;
    while i < ac.len()
        invariant
            i <= ac.len() <= tc.len(),
            ac@ == a@,
            tc@ == t@,
            forall|k: int| 0 <= k < i ==> ac@[k] == tc@[k],
        decreases ac.len() - i,
    {
        if ac[i] != tc[i] {
            assert(t@.take(a@.len() as int)[i as int] != a@[i as int]);
            return false;
        }
        i = i + 1;
    }
    assert(t@.take(a@.len() as int) =~= a@);
    true
}

/// How many tokens at the start of `ts` spell `target`.
fn match_ipa_sequence(ts: &[Token], target: &str) -> (r: Option<usize>)
    ensures
        r is Some == ipa_match_from(tokens_view(ts@), target@, 0, Seq::empty()) is Some,
        r matches Some(l) ==> l <= ts.len(),
        r matches Some(l) ==> ipa_match_from(tokens_view(ts@), target@, 0, Seq::empty()) == Some(l as int),
{
    let ghost tv = tokens_view(ts@);
    let mut acc = String::new();
    let mut k: usize = 0;
    while k < ts.len()
        invariant
            k <= ts.len(),
            tv == tokens_view(ts@),
            ipa_match_from(tv, target@, 0, Seq::empty()) == ipa_match_from(tv, target@, k as int, acc@),
        decreases ts.len() - k,
    {
        assert(tv[k as int] == ts@[k as int]@);
        match &ts[k] {
            Token::Boundary(b) => {
                if !is_syllable_token(&ts[k]) {
                    return None;
                }
            },
            Token::Phoneme(p) => {
                acc.append(p.as_str());
                if crate::text::str_eq(acc.as_str(), target) {
                    return Some(k + 1);
                }
                if !is_prefix(acc.as_str(), target) {
                    return None;
                }
            },
        }
        k = k + 1;
    }
    None
}

/// The path of greatest length, the earliest among equals.
fn choose_best(paths: &Vec<(usize, Bindings)>) -> (r: Option<(usize, Bindings)>)
    ensures
        r is Some == best_path(paths_view(paths@)) is Some,
        r matches Some((l, b)) ==> best_path(paths_view(paths@)) == Some((l as int, bindings_view(b@))),
{
    let ghost pv = paths_view(paths@);
    let mut best: Option<usize> = None;
    let mut i: usize = paths.len();
    assert(pv.skip(pv.len() as int) =~= Seq::<(int, BindingsView)>::empty());
    while i > 0
        invariant
            i <= paths.len(),
            pv == paths_view(paths@),
            best matches Some(j) ==> i <= j < paths.len(),
            best_path(pv.skip(i as int)) == (match best {
                Some(j) => Some(pv[j as int]),
                None => None,
            }),
        decreases i,
    {
        assert(pv.skip(i - 1).drop_first() =~= pv.skip(i as int));
        assert(pv.skip(i - 1)[0] == pv[i - 1]);
        match best {
            None => {
                best = Some(i - 1);
            },
            Some(j) => {
                if paths[i - 1].0 >= paths[j].0 {
                    best = Some(i - 1);
                }
            },
        }
        i = i - 1;
    }
    assert(pv.skip(0) =~= pv);
    match best {
        Some(j) => Some((paths[j].0, copy_bindings(&paths[j].1))),
        None => None,
    }
}

impl<'a> MatchContext<'a> {
    /// How many tokens a base matches at the start of `ts`, and the bindings after it.
    pub fn match_base(&self, b: &BaseElement, ts: &[Token], bs: &Bindings) -> (r: Option<(usize, Bindings)>)
        ensures
            r is Some == match_base(self.system@, self.classes@, b@, tokens_view(ts@), bindings_view(bs@)) is Some,
            r matches Some((l, b2)) ==> l <= ts.len() && match_base(self.system@, self.classes@, b@, tokens_view(ts@), bindings_view(bs@))
                == Some((l as int, bindings_view(b2@))),
        decreases b@, 0int,
    {
        let ghost tv = tokens_view(ts@);
        let sk = calculate_skip(b, ts);
        if sk >= ts.len() {
            return None;
        }
        let rest = vstd::slice::slice_subrange(ts, sk, ts.len());
        assert(tokens_view(rest@) =~= tv.subrange(sk as int, tv.len() as int));
        let t0 = &ts[sk];
        assert(tv[sk as int] == t0@);
        match b {
            BaseElement::WordBoundary => {
                if is_word_token(t0) {
                    Some((sk + 1, copy_bindings(bs)))
                } else {
                    None
                }
            },
            BaseElement::SyllableBoundary => {
                if is_syllable_token(t0) || is_word_token(t0) {
                    Some((sk + 1, copy_bindings(bs)))
                } else {
                    None
                }
            },
            BaseElement::SoundClass(k) => match t0 {
                Token::Phoneme(p) => {
                    if self.phoneme_in_class(p.as_str(), k.letter) {
                        Some((sk + 1, copy_bindings(bs)))
                    } else {
                        None
                    }
                },
                _ => None,
            },
            BaseElement::IpaSequence(ipa) => match match_ipa_sequence(rest, ipa.as_str()) {
                Some(l) => Some((sk + l, copy_bindings(bs))),
                None => None,
            },
            BaseElement::FeatureClass(k, ds) => match t0 {
                Token::Phoneme(p) => {
                    let in_cls = match k {
                        Some(key) => self.phoneme_in_class(p.as_str(), key.letter),
                        None => true,
                    };
                    if !in_cls {
                        return None;
                    }
                    match self.system.get_phoneme_data(p.as_str()) {
                        Some(d) => {
                            if descriptors_ok(&d.features, ds) {
                                Some((sk + 1, copy_bindings(bs)))
                            } else {
                                None
                            }
                        },
                        None => None,
                    }
                },
                _ => None,
            },
            BaseElement::SetOf(els) => {
                proof {
                    assert(decreases_to!(b@ => (b@)->SetOf_0));
                }
                match self.match_set(els.as_slice(), 0, rest, bs) {
                    Some((l, b2)) => Some((sk + l, b2)),
                    None => None,
                }
            },
            BaseElement::OptionalGroup(p) => {
                let mut paths: Vec<(usize, Bindings)> = Vec::new();
                proof {
                    assert(decreases_to!(b@ => (b@)->OptionalGroup_0));
                    assert(paths_view(paths@) =~= Seq::<(int, BindingsView)>::empty());
                }
                self.find_group_match_lengths(p.elements.as_slice(), rest, 0, bs, &mut paths);
                assert(paths_view(paths@) =~= find_group_match_lengths(self.system@, self.classes@, pattern_elements_view(p.elements@), tokens_view(rest@), 0, bindings_view(bs@)));
                match choose_best(&paths) {
                    Some((l, b2)) => {
                        proof {
                            lemma_best_in(paths_view(paths@));
                            let j = choose|j: int| 0 <= j < paths@.len() && paths_view(paths@)[j] == best_path(paths_view(paths@)).unwrap();
                            assert(paths_view(paths@)[j].0 == paths@[j].0);
                        }
                        Some((sk + l, b2))
                    },
                    None => None,
                }
            },
        }
    }

    /// The match of the first member of a set, from the `k`-th on, that matches.
    fn match_set(&self, els: &[BaseElement], k: usize, ts: &[Token], bs: &Bindings) -> (r: Option<(usize, Bindings)>)
        requires
            k <= els.len(),
        ensures
            r is Some == match_set(self.system@, self.classes@, bases_view(els@), k as int, tokens_view(ts@), bindings_view(bs@)) is Some,
            r matches Some((l, b2)) ==> l <= ts.len() && match_set(self.system@, self.classes@, bases_view(els@), k as int, tokens_view(ts@), bindings_view(bs@))
                == Some((l as int, bindings_view(b2@))),
        decreases bases_view(els@), els.len() - k,
    {
        proof {
            crate::matcher::ast::lemma_bases_view(els@);
        }
        if k >= els.len() {
            return None;
        }
        proof {
            assert(decreases_to!(bases_view(els@) => bases_view(els@)[k as int]));
        }
        match self.match_base(&els[k], ts, bs) {
            Some(r) => Some(r),
            None => self.match_set(els, k + 1, ts, bs),
        }
    }

    /// Appends to `out` every way for the elements to match the start of
    /// `ts`, `cur` tokens having been matched already.
    fn find_group_match_lengths(&self, p: &[PatternElement], ts: &[Token], cur: usize, bs: &Bindings, out: &mut Vec<(usize, Bindings)>)
        requires
            cur + ts.len() <= usize::MAX,
            forall|k: int| 0 <= k < old(out)@.len() ==> (#[trigger] old(out)@[k]).0 <= cur + ts.len(),
        ensures
            paths_view(final(out)@) == paths_view(old(out)@) + find_group_match_lengths(self.system@, self.classes@,
                pattern_elements_view(p@), tokens_view(ts@), cur as int, bindings_view(bs@)),
            forall|k: int| 0 <= k < final(out)@.len() ==> (#[trigger] final(out)@[k]).0 <= cur + ts.len(),
        decreases pattern_elements_view(p@), 0int,
    {
        proof {
            crate::matcher::ast::lemma_elements_view(p@);
        }
        if p.len() == 0 {
            let ghost before = out@;
            out.push((cur, copy_bindings(bs)));
            assert(paths_view(out@) =~= paths_view(before) + seq![(cur as int, bindings_view(bs@))]);
            return;
        }
        let ghost pv = pattern_elements_view(p@);
        proof {
            assert(decreases_to!(pv => pv[0]));
        }
        let cands = self.get_match_lengths(&p[0], ts, bs);
        let (_, rest) = p.split_at(1);
        proof {
            crate::matcher::ast::lemma_elements_view(rest@);
            assert(pattern_elements_view(rest@) =~= pv.subrange(1, pv.len() as int));
            assert(decreases_to!(pv => pv.subrange(1, pv.len() as int)));
            assert(paths_view(cands@).skip(0) =~= paths_view(cands@));
        }
        self.paths_over(rest, &cands, 0, ts, cur, out);
    }

    /// Appends to `out` the paths of the remaining elements after each
    /// candidate from the `k`-th on.
    fn paths_over(
        &self,
        rest: &[PatternElement],
        cands: &Vec<(usize, Bindings)>,
        k: usize,
        ts: &[Token],
        cur: usize,
        out: &mut Vec<(usize, Bindings)>,
    )
        requires
            k <= cands.len(),
            cur + ts.len() <= usize::MAX,
            forall|j: int| 0 <= j < old(out)@.len() ==> (#[trigger] old(out)@[j]).0 <= cur + ts.len(),
        ensures
            paths_view(final(out)@) == paths_view(old(out)@) + paths_over(self.system@, self.classes@,
                pattern_elements_view(rest@), paths_view(cands@).skip(k as int), tokens_view(ts@), cur as int),
            forall|j: int| 0 <= j < final(out)@.len() ==> (#[trigger] final(out)@[j]).0 <= cur + ts.len(),
        decreases pattern_elements_view(rest@), cands.len() - k + 1,
    {
        let ghost cv = paths_view(cands@).skip(k as int);
        if k >= cands.len() {
            assert(cv.len() == 0);
            assert(paths_view(out@) =~= paths_view(out@) + Seq::<(int, BindingsView)>::empty());
            return;
        }
        let len = cands[k].0;
        assert(cv.drop_first() =~= paths_view(cands@).skip(k + 1));
        assert(cv[0] == (len as int, bindings_view(cands@[k as int].1@)));
        let ghost before = paths_view(out@);
        let ghost tv = tokens_view(ts@);
        if len <= ts.len() {
            let sub = vstd::slice::slice_subrange(ts, len, ts.len());
            assert(tokens_view(sub@) =~= tv.subrange(len as int, tv.len() as int));
            self.find_group_match_lengths(rest, sub, cur + len, &cands[k].1, out);
        }
        let ghost mid = paths_view(out@);
        self.paths_over(rest, cands, k + 1, ts, cur, out);
        assert(paths_view(out@) =~= before + paths_over(self.system@, self.classes@, pattern_elements_view(rest@), cv, tv, cur as int));
    }

    /// The candidate matches of an element at the start of `ts`.
    fn get_match_lengths(&self, e: &PatternElement, ts: &[Token], bs: &Bindings) -> (r: Vec<(usize, Bindings)>)
        ensures
            paths_view(r@) == get_match_lengths(self.system@, self.classes@, e@, tokens_view(ts@), bindings_view(bs@)),
            forall|k: int| 0 <= k < r@.len() ==> (#[trigger] r@[k]).0 <= ts.len(),
        decreases e@, 0int,
    {
        proof {
            assert(decreases_to!(e@ => e@.base));
        }
        let mut out: Vec<(usize, Bindings)> = Vec::new();
        assert(paths_view(out@) =~= Seq::<(int, BindingsView)>::empty());
        match e.quantifier {
            Quantifier::Once => {
                match self.match_marked_base(&e.base, e.marker, ts, bs) {
                    Some(x) => {
                        let ghost xv = (x.0 as int, bindings_view(x.1@));
                        out.push(x);
                        assert(paths_view(out@) =~= seq![xv]);
                    },
                    None => {},
                }
            },
            Quantifier::ZeroOrMore => {
                self.find_repeated_matches(&e.base, e.marker, ts, 0, 0, bs, &mut out);
                assert(paths_view(out@) =~= Seq::<(int, BindingsView)>::empty() + find_repeated_matches(self.system@, self.classes@, e@.base, e.marker, tokens_view(ts@), 0, 0, bindings_view(bs@)));
            },
            Quantifier::OneOrMore => {
                self.find_repeated_matches(&e.base, e.marker, ts, 1, 0, bs, &mut out);
                assert(paths_view(out@) =~= Seq::<(int, BindingsView)>::empty() + find_repeated_matches(self.system@, self.classes@, e@.base, e.marker, tokens_view(ts@), 1, 0, bindings_view(bs@)));
            },
        }
        out
    }

    /// Appends to `out` the matches of `min` or more repetitions of a base,
    /// `cur` tokens having been matched so far.
    fn find_repeated_matches(
        &self,
        b: &BaseElement,
        marker: Option<u8>,
        ts: &[Token],
        min: usize,
        cur: usize,
        bs: &Bindings,
        out: &mut Vec<(usize, Bindings)>,
    )
        requires
            cur <= ts.len(),
            forall|j: int| 0 <= j < old(out)@.len() ==> (#[trigger] old(out)@[j]).0 <= ts.len(),
        ensures
            paths_view(final(out)@) == paths_view(old(out)@) + find_repeated_matches(self.system@, self.classes@, b@, marker,
                tokens_view(ts@), min as nat, cur as int, bindings_view(bs@)),
            forall|j: int| 0 <= j < final(out)@.len() ==> (#[trigger] final(out)@[j]).0 <= ts.len(),
        decreases b@, ts.len() - cur + 2,
    {
        let ghost tv = tokens_view(ts@);
        let ghost start = paths_view(out@);
        if min == 0 {
            out.push((cur, copy_bindings(bs)));
        }
        let ghost first = paths_view(out@);
        assert(first =~= start + (if min == 0 {
            seq![(cur as int, bindings_view(bs@))]
        } else {
            Seq::<(int, BindingsView)>::empty()
        }));
        let sub = vstd::slice::slice_subrange(ts, cur, ts.len());
        assert(tokens_view(sub@) =~= tv.subrange(cur as int, tv.len() as int));
        match self.match_marked_base(b, marker, sub, bs) {
            Some((l, b2)) => {
                if l > 0 && l <= ts.len() - cur {
                    let next_min: usize = if min > 0 {
                        min - 1
                    } else {
                        0
                    };
                    self.find_repeated_matches(b, marker, ts, next_min, cur + l, &b2, out);
                }
            },
            None => {},
        }
        assert(paths_view(out@) =~= start + find_repeated_matches(self.system@, self.classes@, b@, marker, tv, min as nat, cur as int, bindings_view(bs@)));
    }

    /// The match of a base with its marker.
    fn match_marked_base(&self, b: &BaseElement, marker: Option<u8>, ts: &[Token], bs: &Bindings) -> (r: Option<(usize, Bindings)>)
        ensures
            r is Some == match_marked_base(self.system@, self.classes@, b@, marker, tokens_view(ts@), bindings_view(bs@)) is Some,
            r matches Some((l, b2)) ==> l <= ts.len() && match_marked_base(self.system@, self.classes@, b@, marker, tokens_view(ts@), bindings_view(bs@))
                == Some((l as int, bindings_view(b2@))),
        decreases b@, 1int,
    {
        let ghost tv = tokens_view(ts@);
        let sk = calculate_skip(b, ts);
        match marker {
            None => self.match_base(b, ts, bs),
            Some(m) => match find_binding(bs, m) {
                Some(i) => {
                    let bound = &bs[i].1;
                    if tokens_at(ts, sk, bound.as_slice()) {
                        match self.match_base(b, bound.as_slice(), bs) {
                            Some((l, b2)) => {
                                if l == bound.len() {
                                    Some((sk + bound.len(), b2))
                                } else {
                                    None
                                }
                            },
                            None => None,
                        }
                    } else {
                        None
                    }
                },
                None => match self.match_base(b, ts, bs) {
                    Some((l, b2)) => {
                        if sk <= l {
                            let sub = vstd::slice::slice_subrange(ts, sk, l);
                            assert(tokens_view(sub@) =~= tv.subrange(sk as int, l as int));
                            let matched = copy_tokens(sub);
                            Some((l, bind_tokens(&b2, m, matched)))
                        } else {
                            None
                        }
                    },
                    None => None,
                },
            },
        }
    }

    /// Whether the elements match at the start of `ts`.
    pub fn match_at(&self, ts: &[Token], p: &[PatternElement], bs: &Bindings) -> (r: bool)
        ensures
            r == match_at(self.system@, self.classes@, tokens_view(ts@), pattern_elements_view(p@), bindings_view(bs@)),
        decreases p@.len(), 1int, 0nat,
    {
        proof {
            crate::matcher::ast::lemma_elements_view(p@);
        }
        if p.len() == 0 {
            return true;
        }
        let ghost pv = pattern_elements_view(p@);
        let cands = self.get_match_lengths(&p[0], ts, bs);
        let (_, rest) = p.split_at(1);
        proof {
            crate::matcher::ast::lemma_elements_view(rest@);
            assert(pattern_elements_view(rest@) =~= pv.drop_first());
            assert(paths_view(cands@).skip(0) =~= paths_view(cands@));
        }
        self.any_candidate(ts, rest, &cands, 0)
    }

    /// Whether the remaining elements match after one of the candidates from the `k`-th on.
    fn any_candidate(&self, ts: &[Token], rest: &[PatternElement], cands: &Vec<(usize, Bindings)>, k: usize) -> (r: bool)
        requires
            k <= cands.len(),
        ensures
            r == any_candidate(self.system@, self.classes@, tokens_view(ts@), pattern_elements_view(rest@), paths_view(cands@).skip(k as int)),
        decreases rest@.len() + 1, 0int, cands.len() - k,
    {
        proof {
            crate::matcher::ast::lemma_elements_view(rest@);
        }
        let ghost cv = paths_view(cands@).skip(k as int);
        let ghost tv = tokens_view(ts@);
        if k >= cands.len() {
            assert(cv.len() == 0);
            return false;
        }
        let len = cands[k].0;
        assert(cv.drop_first() =~= paths_view(cands@).skip(k + 1));
        assert(cv[0] == (len as int, bindings_view(cands@[k as int].1@)));
        if len <= ts.len() {
            let sub = vstd::slice::slice_subrange(ts, len, ts.len());
            assert(tokens_view(sub@) =~= tv.subrange(len as int, tv.len() as int));
            if self.match_at(sub, rest, &cands[k].1) {
                return true;
            }
        }
        self.any_candidate(ts, rest, cands, k + 1)
    }
}

proof fn lemma_best_in(paths: Seq<(int, BindingsView)>)
    ensures
        best_path(paths) is Some ==> exists|j: int| 0 <= j < paths.len() && paths[j] == best_path(paths).unwrap(),
    decreases paths.len(),
{
    if paths.len() > 0 {
        lemma_best_in(paths.drop_first());
        if best_path(paths.drop_first()) is Some {
            let j = choose|j: int| 0 <= j < paths.drop_first().len() && paths.drop_first()[j] == best_path(paths.drop_first()).unwrap();
            assert(paths[j + 1] == paths.drop_first()[j]);
        }
        assert(paths[0] == paths[0]);
    }
}

/// Whether a character marks a syllable boundary or a stress in a word.
fn word_mark(c: char) -> (r: bool)
    ensures
        r == is_word_mark(c),
{
    c == '.' || c == '\u{02CC}' || c == '\u{02C8}' || c == '\''
}

/// Where the phoneme that starts at `start` ends.
fn phoneme_end_at(system: &IpaSystem, cs: &Vec<char>, start: usize) -> (r: usize)
    requires
        start < cs.len(),
    ensures
        r as int == phoneme_end(system@, cs@, start as int, start + 1),
        start < r <= cs.len(),
{
    let mut j = start + 1;
    loop
        invariant
            start < j <= cs.len(),
            phoneme_end(system@, cs@, start as int, start + 1) == phoneme_end(system@, cs@, start as int, j as int),
        decreases cs.len() - j,
    {
        if j >= cs.len() || word_mark(cs[j]) {
            return j;
        }
        let grown = crate::text::string_range(cs.as_slice(), start, j + 1);
        let known = system.get_entry(grown.as_str()).is_some();
        let next = crate::text::char_string(cs[j]);
        let modifier = matches!(system.get_entry(next.as_str()), Some(IpaEntry::Modifier(_)));
        if known || modifier {
            j = j + 1;
        } else {
            return j;
        }
    }
}

/// Splits a word into tokens: a word boundary, its phonemes (the longest
/// known symbols, with the modifiers that follow) and a syllable boundary
/// for each syllable break or stress mark, then a word boundary.
pub fn tokenize(system: &IpaSystem, word: &str) -> (r: Vec<Token>)
    ensures
        tokens_view(r@) == spec_tokenize(system@, word@),
{
    proof {
        reveal_strlit("#");
        reveal_strlit("$");
        assert("#"@ =~= seq!['#']);
        assert("$"@ =~= seq!['$']);
    }
    let cs = crate::text::chars_of(word);
    let mut tokens: Vec<Token> = Vec::new();
    tokens.push(Token::Boundary(String::from_str("#")));
    let mut i: usize = 0;
    assert(tokens_view(tokens@) =~= seq![TokenView::Boundary(seq!['#'])]);
    while i < cs.len()
        invariant
            i <= cs.len(),
            cs@ == word@,
            spec_tokenize(system@, word@) == tokens_view(tokens@) + tokens_from(system@, cs@, i as int),
        decreases cs.len() - i,
    {
        let ghost before = tokens_view(tokens@);
        proof {
            reveal_strlit("$");
            assert("$"@ =~= seq!['$']);
        }
        if word_mark(cs[i]) {
            tokens.push(Token::Boundary(String::from_str("$")));
            assert(tokens_view(tokens@) =~= before.push(TokenView::Boundary(seq!['$'])));
            assert(before + tokens_from(system@, cs@, i as int) =~= tokens_view(tokens@) + tokens_from(system@, cs@, i + 1));
            i = i + 1;
        } else {
            let e = phoneme_end_at(system, &cs, i);
            let text = crate::text::string_range(cs.as_slice(), i, e);
            tokens.push(Token::Phoneme(text));
            assert(tokens_view(tokens@) =~= before.push(TokenView::Phoneme(cs@.subrange(i as int, e as int))));
            assert(before + tokens_from(system@, cs@, i as int) =~= tokens_view(tokens@) + tokens_from(system@, cs@, e as int));
            i = e;
        }
    }
    let ghost before = tokens_view(tokens@);
    proof {
        reveal_strlit("#");
        assert("#"@ =~= seq!['#']);
    }
    tokens.push(Token::Boundary(String::from_str("#")));
    assert(tokens_view(tokens@) =~= before + tokens_from(system@, cs@, i as int));
    tokens
}

impl SoundMatcherPattern {
    /// Whether the pattern matches the word at some token position.
    pub fn matches(&self, word: &str, system: &IpaSystem, classes: &SoundClassMap) -> (r: bool)
        ensures
            r == spec_matches(system@, classes@, self@, word@),
    {
        let ctx = MatchContext { system, classes };
        let tokens = tokenize(system, word);
        let ghost tv = tokens_view(tokens@);
        let empty: Bindings = Vec::new();
        assert(bindings_view(empty@) =~= Seq::<(u8, Seq<TokenView>)>::empty());
        let mut i: usize = 0;
        while i < tokens.len()
            invariant
                i <= tokens.len(),
                tv == tokens_view(tokens@),
                tv == spec_tokenize(system@, word@),
                bindings_view(empty@) == Seq::<(u8, Seq<TokenView>)>::empty(),
                ctx.system == system && ctx.classes == classes,
                forall|j: int| 0 <= j < i ==> !#[trigger] match_at(system@, classes@, tv.subrange(j, tv.len() as int), self@, Seq::empty()),
            decreases tokens.len() - i,
        {
            let sub = vstd::slice::slice_subrange(tokens.as_slice(), i, tokens.len());
            assert(tokens_view(sub@) =~= tv.subrange(i as int, tv.len() as int));
            let found = ctx.match_at(sub, self.elements.as_slice(), &empty);
            assert(found == match_at(system@, classes@, tv.subrange(i as int, tv.len() as int), self@, Seq::empty()));
            if found {
                return true;
            }
            i = i + 1;
        }
        false
    }
}

proof fn lemma_repeated_lengths(
    sys: IpaSystemView,
    classes: Seq<(char, Seq<Seq<char>>)>,
    b: BaseView,
    marker: Option<u8>,
    ts: Seq<TokenView>,
    min: nat,
    cur: int,
    bs: BindingsView,
)
    requires
        0 <= cur,
    ensures
        ({
            let r = find_repeated_matches(sys, classes, b, marker, ts, min, cur, bs);
            forall|k: int| 0 <= k < r.len() ==> (#[trigger] r[k]).0 >= cur && (min > 0 ==> r[k].0 > cur)
        }),
    decreases ts.len() - cur,
{
    let r = find_repeated_matches(sys, classes, b, marker, ts, min, cur, bs);
    let a: Seq<(int, BindingsView)> = if min == 0 { seq![(cur, bs)] } else { Seq::empty() };
    if 0 <= cur <= ts.len() {
        match match_marked_base(sys, classes, b, marker, ts.subrange(cur, ts.len() as int), bs) {
            Some((l, b2)) => if l > 0 && cur + l <= ts.len() {
                let m2: nat = if min > 0 { (min - 1) as nat } else { 0 };
                lemma_repeated_lengths(sys, classes, b, marker, ts, m2, cur + l, b2);
                let rest = find_repeated_matches(sys, classes, b, marker, ts, m2, cur + l, b2);
                assert(r == a + rest);
                assert forall|k: int| 0 <= k < r.len() implies (#[trigger] r[k]).0 >= cur && (min > 0 ==> r[k].0 > cur) by {
                    if k >= a.len() {
                        assert(r[k] == rest[k - a.len()]);
                    }
                }
            } else {
                assert(r =~= a + Seq::<(int, BindingsView)>::empty());
            },
            None => {
                assert(r =~= a + Seq::<(int, BindingsView)>::empty());
            },
        }
    } else {
        assert(r =~= a + Seq::<(int, BindingsView)>::empty());
    }
}

/// An element with the `+` quantifier never matches zero tokens: each of
/// its candidate matches covers at least one token, a candidate exists only
/// where its base matches at least one token, and its candidates are those
/// of the same element under `*` without the empty match in front.
pub proof fn lemma_one_or_more_nonempty(
    sys: IpaSystemView,
    classes: Seq<(char, Seq<Seq<char>>)>,
    e: ElementView,
    ts: Seq<TokenView>,
    bs: BindingsView,
)
    requires
        e.quantifier == Quantifier::OneOrMore,
    ensures
        ({
            let plus = get_match_lengths(sys, classes, e, ts, bs);
            let star = get_match_lengths(
                sys,
                classes,
                ElementView { base: e.base, quantifier: Quantifier::ZeroOrMore, marker: e.marker },
                ts,
                bs,
            );
            &&& forall|k: int| 0 <= k < plus.len() ==> (#[trigger] plus[k]).0 >= 1
            &&& star == seq![(0int, bs)] + plus
            &&& plus.len() > 0 ==> (match_marked_base(sys, classes, e.base, e.marker, ts, bs) matches Some((l, _)) && l >= 1)
        }),
{
    lemma_repeated_lengths(sys, classes, e.base, e.marker, ts, 1, 0, bs);
    let plus = get_match_lengths(sys, classes, e, ts, bs);
    let star = get_match_lengths(
        sys,
        classes,
        ElementView { base: e.base, quantifier: Quantifier::ZeroOrMore, marker: e.marker },
        ts,
        bs,
    );
    assert(plus == find_repeated_matches(sys, classes, e.base, e.marker, ts, 1, 0, bs));
    assert(star == find_repeated_matches(sys, classes, e.base, e.marker, ts, 0, 0, bs));
    assert(ts.subrange(0, ts.len() as int) =~= ts);
    assert(star =~= seq![(0int, bs)] + plus);
}

} // verus!
