//! Reading back the text of a word generator pattern: the text of a
//! well-formed pattern parses to that same pattern, and every pattern that
//! the parser yields is well-formed.

use crate::data::{all_digits, digits_value, is_digit};
use crate::generator::pattern::{
    choices_text, gen_after, gen_cons, gen_element_text, gen_elements_text, is_choice_char,
    is_literal_char, is_type_char, run_end, spec_choices, spec_gen_elems, spec_gen_probability,
    spec_grammar_ref, spec_parse_word_pattern, GenElementView, DEFAULT_OPTIONAL_PROBABILITY,
};
use crate::sound_class::is_class_letter;
use crate::text::decimal_text;
use vstd::prelude::*;

verus! {

/// Whether a character belongs to a run class: 0 literal, 1 choice, 2 type,
/// 3 digit.
pub open spec fn class_char(c: char, class: int) -> bool {
    if class == 0 {
        is_literal_char(c)
    } else if class == 1 {
        is_choice_char(c)
    } else if class == 2 {
        is_type_char(c)
    } else {
        is_digit(c)
    }
}

/// Whether a text is a non-empty run of characters of a class.
pub open spec fn is_run_of(s: Seq<char>, class: int) -> bool {
    s.len() > 0 && forall|k: int| 0 <= k < s.len() ==> #[trigger] class_char(s[k], class)
}

/// Whether an element can be written out and read back: its names and
/// choices are non-empty runs of the characters the grammar allows, and a
/// group holds a well-formed pattern.
pub open spec fn element_wf(e: GenElementView) -> bool
    decreases e,
{
    match e {
        GenElementView::SoundClass(c) => is_class_letter(c),
        GenElementView::Literal(s) => is_run_of(s, 0),
        GenElementView::SetOf(cs) => cs.len() > 0 && forall|k: int| 0 <= k < cs.len() ==> is_run_of(#[trigger] cs[k], 1),
        GenElementView::Optional(p, _) => p.len() > 0 && elements_wf(*p),
        GenElementView::GrammarRef { primary, secondary } => is_run_of(primary, 2) && match secondary {
            Some(s) => is_run_of(s, 2),
            None => true,
        },
        GenElementView::SyllableBreak => true,
        GenElementView::StressMarker => true,
    }
}

/// Whether every element is well-formed and no literal directly follows
/// another (their texts would run together).
pub open spec fn elements_wf(es: Seq<GenElementView>) -> bool
    decreases es,
{
    if es.len() == 0 {
        true
    } else {
        &&& element_wf(es[0])
        &&& (es.len() >= 2 && es[0] is Literal ==> !(es[1] is Literal))
        &&& elements_wf(es.drop_first())
    }
}

/// Whether `t` stands in `cs` from `j` on.
pub open spec fn text_at(cs: Seq<char>, j: int, t: Seq<char>) -> bool {
    &&& 0 <= j
    &&& j + t.len() <= cs.len()
    &&& forall|k: int| 0 <= k < t.len() ==> cs[j + k] == #[trigger] t[k]
}

proof fn lemma_text_at_split(cs: Seq<char>, j: int, a: Seq<char>, b: Seq<char>)
    requires
        text_at(cs, j, a + b),
    ensures
        text_at(cs, j, a),
        text_at(cs, j + a.len(), b),
{
    assert forall|k: int| 0 <= k < a.len() implies cs[j + k] == #[trigger] a[k] by {
        assert((a + b)[k] == a[k]);
    }
    assert forall|k: int| 0 <= k < b.len() implies cs[j + a.len() + k] == #[trigger] b[k] by {
        assert((a + b)[a.len() + k] == b[k]);
        assert(cs[j + (a.len() + k)] == (a + b)[a.len() + k]);
    }
}

proof fn lemma_run_end_exact(cs: Seq<char>, j: int, e: int, class: int)
    requires
        0 <= j <= e <= cs.len(),
        forall|k: int| j <= k < e ==> #[trigger] class_char(cs[k], class),
        e < cs.len() ==> !class_char(cs[e], class),
    ensures
        run_end(cs, j, class) == e,
    decreases e - j,
{
    if j < e {
        assert(class_char(cs[j], class));
        lemma_run_end_exact(cs, j + 1, e, class);
    }
}

proof fn lemma_run_at(cs: Seq<char>, j: int, s: Seq<char>, class: int)
    requires
        text_at(cs, j, s),
        is_run_of(s, class),
        j + s.len() < cs.len() ==> !class_char(cs[j + s.len()], class),
    ensures
        run_end(cs, j, class) == j + s.len(),
        cs.subrange(j, j + s.len()) == s,
{
    assert forall|k: int| j <= k < j + s.len() implies #[trigger] class_char(cs[k], class) by {
        assert(cs[j + (k - j)] == s[k - j]);
        assert(class_char(s[k - j], class));
    }
    lemma_run_end_exact(cs, j, j + s.len(), class);
    assert(cs.subrange(j, j + s.len()) =~= s);
}

proof fn lemma_decimal_digits(n: nat)
    ensures
        decimal_text(n).len() > 0,
        all_digits(decimal_text(n)),
        digits_value(decimal_text(n)) == n,
    decreases n,
{
    if n >= 10 {
        lemma_decimal_digits(n / 10);
        let d = decimal_text(n / 10);
        let c = (('0' as int) + (n % 10)) as char;
        assert(decimal_text(n) == d + seq![c]);
        assert((d + seq![c]).drop_last() =~= d);
        assert((d + seq![c]).last() == c);
        assert(c as int == ('0' as int) + (n % 10));
        assert(digits_value(d + seq![c]) == digits_value(d) * 10 + ((c as int) - ('0' as int)));
        assert((n / 10) * 10 + n % 10 == n);
        assert forall|k: int| 0 <= k < (d + seq![c]).len() implies is_digit(#[trigger] (d + seq![c])[k]) by {
            if k < d.len() {
                assert((d + seq![c])[k] == d[k]);
            }
        }
    } else {
        let c = (('0' as int) + n) as char;
        assert(decimal_text(n) == seq![c]);
        assert(seq![c].drop_last() =~= Seq::<char>::empty());
        assert(c as int == ('0' as int) + n);
        assert(digits_value(seq![c]) == digits_value(Seq::<char>::empty()) * 10 + ((c as int) - ('0' as int)));
    }
}

proof fn lemma_text_cons(x: GenElementView, rest: Seq<GenElementView>)
    ensures
        gen_elements_text(seq![x] + rest) == gen_element_text(x) + gen_elements_text(rest),
    decreases rest.len(),
{
    if rest.len() == 0 {
        assert(seq![x] + rest =~= seq![x]);
        assert(seq![x].drop_last() =~= Seq::<GenElementView>::empty());
        assert(gen_elements_text(Seq::<GenElementView>::empty()) == Seq::<char>::empty());
        assert(gen_elements_text(seq![x]) == gen_elements_text(seq![x].drop_last()) + gen_element_text(seq![x].last()));
        assert(gen_elements_text(rest) == Seq::<char>::empty());
        assert(gen_element_text(x) + Seq::<char>::empty() =~= gen_element_text(x));
    } else {
        lemma_text_cons(x, rest.drop_last());
        assert((seq![x] + rest).drop_last() =~= seq![x] + rest.drop_last());
        assert((seq![x] + rest).last() == rest.last());
        assert(gen_element_text(x) + gen_elements_text(rest.drop_last()) + gen_element_text(rest.last())
            =~= gen_element_text(x) + (gen_elements_text(rest.drop_last()) + gen_element_text(rest.last())));
    }
}

proof fn lemma_choices_cons(c: Seq<char>, rest: Seq<Seq<char>>)
    requires
        rest.len() > 0,
    ensures
        choices_text(seq![c] + rest) == c + seq![','] + choices_text(rest),
    decreases rest.len(),
{
    let all = seq![c] + rest;
    assert(choices_text(all) == choices_text(all.drop_last()) + seq![','] + all.last());
    if rest.len() == 1 {
        assert(all.drop_last() =~= seq![c]);
        assert(all.last() == rest[0]);
        assert(choices_text(seq![c]) == c);
        assert(choices_text(rest) == rest[0]);
    } else {
        lemma_choices_cons(c, rest.drop_last());
        assert(all.drop_last() =~= seq![c] + rest.drop_last());
        assert(all.last() == rest.last());
        assert(choices_text(rest) == choices_text(rest.drop_last()) + seq![','] + rest.last());
        assert(c + seq![','] + choices_text(rest.drop_last()) + seq![','] + rest.last()
            =~= c + seq![','] + (choices_text(rest.drop_last()) + seq![','] + rest.last()));
    }
}

proof fn lemma_after_nothing<A>(r: Option<(Seq<A>, int)>)
    ensures
        gen_after(Seq::<A>::empty(), r) == r,
{
    if let Some((s, e)) = r {
        assert(Seq::<A>::empty() + s =~= s);
    }
}

proof fn lemma_cons_after<A>(x: A, rest: Seq<A>, r: Option<(Seq<A>, int)>)
    ensures
        gen_cons(x, gen_after(rest, r)) == gen_after(seq![x] + rest, r),
{
    if let Some((s, e)) = r {
        assert(seq![x] + (rest + s) =~= (seq![x] + rest) + s);
    }
}

/// Whether the text that ends at `j` is followed by the end of `cs` or by a
/// character that neither continues a number nor, after a literal,
/// continues the literal.
pub open spec fn ends_cleanly(cs: Seq<char>, j: int, literal: bool) -> bool {
    j == cs.len() || (0 <= j < cs.len() && !is_digit(cs[j]) && (literal ==> !is_literal_char(cs[j])))
}

proof fn lemma_text_head(y: GenElementView)
    requires
        element_wf(y),
    ensures
        gen_element_text(y).len() > 0,
        !is_digit(gen_element_text(y)[0]),
        gen_element_text(y)[0] != ')',
        !(y is Literal) ==> !is_literal_char(gen_element_text(y)[0]),
        y is Literal ==> is_literal_char(gen_element_text(y)[0]),
{
    match y {
        GenElementView::Literal(s) => {
            assert(class_char(s[0], 0));
        },
        GenElementView::SetOf(chs) => {
            assert((seq!['{'] + choices_text(chs) + seq!['}'])[0] == '{');
        },
        GenElementView::Optional(p, prob) => {
            let probt = if prob != DEFAULT_OPTIONAL_PROBABILITY {
                decimal_text(prob as nat) + seq!['%']
            } else {
                Seq::<char>::empty()
            };
            assert((seq!['('] + gen_elements_text(*p) + seq![')'] + probt)[0] == '(');
        },
        GenElementView::GrammarRef { primary, secondary } => {
            let st = match secondary {
                Some(s) => seq!['.'] + s,
                None => Seq::<char>::empty(),
            };
            assert((seq!['['] + primary + st + seq![']'])[0] == '[');
        },
        _ => {},
    }
}

proof fn lemma_read_choices(cs: Seq<char>, j: int, chs: Seq<Seq<char>>)
    requires
        chs.len() > 0,
        forall|k: int| 0 <= k < chs.len() ==> is_run_of(#[trigger] chs[k], 1),
        text_at(cs, j, choices_text(chs) + seq!['}']),
    ensures
        spec_choices(cs, j) == Some((chs, j + choices_text(chs).len() + 1)),
    decreases chs.len(),
{
    let c0 = chs[0];
    assert(is_run_of(chs[0], 1));
    if chs.len() == 1 {
        assert(choices_text(chs) == chs[0]);
        lemma_text_at_split(cs, j, c0, seq!['}']);
        assert(seq!['}'][0] == '}');
        assert(cs[j + c0.len()] == '}');
        lemma_run_at(cs, j, c0, 1);
        assert(seq![c0] =~= chs);
    } else {
        let rest = chs.drop_first();
        assert(seq![c0] + rest =~= chs);
        lemma_choices_cons(c0, rest);
        assert(choices_text(chs) + seq!['}'] =~= c0 + (seq![','] + (choices_text(rest) + seq!['}'])));
        lemma_text_at_split(cs, j, c0, seq![','] + (choices_text(rest) + seq!['}']));
        lemma_text_at_split(cs, j + c0.len(), seq![','], choices_text(rest) + seq!['}']);
        assert(seq![','][0] == ',');
        assert(cs[j + c0.len()] == ',');
        lemma_run_at(cs, j, c0, 1);
        assert forall|k: int| 0 <= k < rest.len() implies is_run_of(#[trigger] rest[k], 1) by {
            assert(rest[k] == chs[k + 1]);
        }
        lemma_read_choices(cs, j + c0.len() + 1, rest);
    }
}

/// The text of a grammar reference's names and closing `]`.
pub open spec fn grammar_ref_tail(primary: Seq<char>, secondary: Option<Seq<char>>) -> Seq<char> {
    primary + (match secondary {
        Some(s) => seq!['.'] + s,
        None => Seq::<char>::empty(),
    }) + seq![']']
}

proof fn lemma_read_grammar_ref(cs: Seq<char>, j: int, primary: Seq<char>, secondary: Option<Seq<char>>)
    requires
        is_run_of(primary, 2),
        secondary matches Some(s) ==> is_run_of(s, 2),
        text_at(cs, j, grammar_ref_tail(primary, secondary)),
    ensures
        spec_grammar_ref(cs, j) == Some((
            GenElementView::GrammarRef { primary, secondary },
            j + grammar_ref_tail(primary, secondary).len(),
        )),
{
    match secondary {
        Some(s) => {
            assert(grammar_ref_tail(primary, secondary) =~= primary + (seq!['.'] + (s + seq![']'])));
            lemma_text_at_split(cs, j, primary, seq!['.'] + (s + seq![']']));
            lemma_text_at_split(cs, j + primary.len(), seq!['.'], s + seq![']']);
            lemma_text_at_split(cs, j + primary.len() + 1, s, seq![']']);
            assert(seq!['.'][0] == '.');
            assert(seq![']'][0] == ']');
            assert(cs[j + primary.len()] == '.');
            assert(cs[j + primary.len() + 1 + s.len()] == ']');
            lemma_run_at(cs, j, primary, 2);
            lemma_run_at(cs, j + primary.len() + 1, s, 2);
        },
        None => {
            assert(grammar_ref_tail(primary, secondary) =~= primary + seq![']']);
            lemma_text_at_split(cs, j, primary, seq![']']);
            assert(seq![']'][0] == ']');
            assert(cs[j + primary.len()] == ']');
            lemma_run_at(cs, j, primary, 2);
        },
    }
}

proof fn lemma_read_element(cs: Seq<char>, i: int, x: GenElementView, nested: bool)
    requires
        element_wf(x),
        text_at(cs, i, gen_element_text(x)),
        ends_cleanly(cs, i + gen_element_text(x).len(), x is Literal),
    ensures
        spec_gen_elems(cs, i, nested) == gen_cons(x, spec_gen_elems(cs, i + gen_element_text(x).len(), nested)),
    decreases x,
{
    let t = gen_element_text(x);
    lemma_text_head(x);
    assert(cs[i + 0] == t[0]);
    match x {
        GenElementView::SoundClass(c) => {
            assert(t == seq![c]);
        },
        GenElementView::Literal(s) => {
            lemma_run_at(cs, i, s, 0);
        },
        GenElementView::SetOf(chs) => {
            assert(t =~= seq!['{'] + (choices_text(chs) + seq!['}']));
            lemma_text_at_split(cs, i, seq!['{'], choices_text(chs) + seq!['}']);
            lemma_read_choices(cs, i + 1, chs);
        },
        GenElementView::GrammarRef { primary, secondary } => {
            assert(t =~= seq!['['] + grammar_ref_tail(primary, secondary));
            lemma_text_at_split(cs, i, seq!['['], grammar_ref_tail(primary, secondary));
            lemma_read_grammar_ref(cs, i + 1, primary, secondary);
        },
        GenElementView::Optional(p, prob) => {
            let pt = gen_elements_text(*p);
            let probt = if prob != DEFAULT_OPTIONAL_PROBABILITY {
                decimal_text(prob as nat) + seq!['%']
            } else {
                Seq::<char>::empty()
            };
            assert(t =~= seq!['('] + (pt + (seq![')'] + probt)));
            lemma_text_at_split(cs, i, seq!['('], pt + (seq![')'] + probt));
            lemma_text_at_split(cs, i + 1, pt, seq![')'] + probt);
            lemma_text_at_split(cs, i + 1 + pt.len(), seq![')'], probt);
            let close = i + 1 + pt.len();
            assert(seq![')'][0] == ')');
            assert(cs[close] == ')');
            lemma_read_elements(cs, i + 1, *p, true);
            assert(spec_gen_elems(cs, close, true) == Some((Seq::<GenElementView>::empty(), close)));
            assert(*p + Seq::<GenElementView>::empty() =~= *p);
            assert(spec_gen_elems(cs, i + 1, true) == Some((*p, close)));
            if prob != DEFAULT_OPTIONAL_PROBABILITY {
                lemma_decimal_digits(prob as nat);
                let dt = decimal_text(prob as nat);
                lemma_text_at_split(cs, close + 1, dt, seq!['%']);
                assert(seq!['%'][0] == '%');
                assert(cs[close + 1 + dt.len()] == '%');
                assert forall|k: int| 0 <= k < dt.len() implies #[trigger] class_char(dt[k], 3) by {
                    assert(is_digit(dt[k]));
                }
                lemma_run_at(cs, close + 1, dt, 3);
                assert(cs[close + 1 + 0] == dt[0]);
                assert(class_char(dt[0], 3));
                assert(spec_gen_probability(cs, close + 1) == Some((prob, close + 1 + dt.len() + 1)));
            } else {
                assert(probt.len() == 0);
                assert(spec_gen_probability(cs, close + 1) == Some((prob, close + 1)));
            }
        },
        _ => {},
    }
}

proof fn lemma_read_elements(cs: Seq<char>, i: int, es: Seq<GenElementView>, nested: bool)
    requires
        elements_wf(es),
        text_at(cs, i, gen_elements_text(es)),
        ends_cleanly(cs, i + gen_elements_text(es).len(), true),
    ensures
        spec_gen_elems(cs, i, nested) == gen_after(es, spec_gen_elems(cs, i + gen_elements_text(es).len(), nested)),
    decreases es,
{
    if es.len() == 0 {
        assert(gen_elements_text(es) == Seq::<char>::empty());
        lemma_after_nothing(spec_gen_elems(cs, i, nested));
    } else {
        let x = es[0];
        let rest = es.drop_first();
        assert(seq![x] + rest =~= es);
        lemma_text_cons(x, rest);
        let tx = gen_element_text(x);
        let tr = gen_elements_text(rest);
        lemma_text_at_split(cs, i, tx, tr);
        if rest.len() > 0 {
            let y = rest[0];
            assert(y == es[1]);
            assert(elements_wf(rest));
            assert(element_wf(y));
            lemma_text_head(y);
            assert(seq![y] + rest.drop_first() =~= rest);
            lemma_text_cons(y, rest.drop_first());
            assert(tr[0] == gen_element_text(y)[0]);
            assert(cs[i + tx.len() + 0] == tr[0]);
        } else {
            assert(tr == Seq::<char>::empty());
        }
        assert(decreases_to!(es => rest));
        lemma_read_element(cs, i, x, nested);
        lemma_read_elements(cs, i + tx.len(), rest, nested);
        lemma_cons_after(x, rest, spec_gen_elems(cs, i + tx.len() + tr.len(), nested));
    }
}

/// The text of a well-formed pattern reads back as the same pattern.
pub proof fn lemma_pattern_text_reads_back(es: Seq<GenElementView>)
    requires
        es.len() > 0,
        elements_wf(es),
    ensures
        spec_parse_word_pattern(gen_elements_text(es)) == Some(es),
{
    let t = gen_elements_text(es);
    assert(text_at(t, 0, t));
    lemma_read_elements(t, 0, es, false);
    assert(spec_gen_elems(t, t.len() as int, false) == Some((Seq::<GenElementView>::empty(), t.len() as int)));
    assert(es + Seq::<GenElementView>::empty() =~= es);
}

proof fn lemma_run_end_chars(cs: Seq<char>, j: int, class: int)
    requires
        0 <= j <= cs.len(),
    ensures
        j <= run_end(cs, j, class) <= cs.len(),
        forall|k: int| j <= k < run_end(cs, j, class) ==> #[trigger] class_char(cs[k], class),
        run_end(cs, j, class) < cs.len() ==> !class_char(cs[run_end(cs, j, class)], class),
    decreases cs.len() - j,
{
    if j < cs.len() && class_char(cs[j], class) {
        lemma_run_end_chars(cs, j + 1, class);
    }
}

proof fn lemma_run_is_run(cs: Seq<char>, j: int, class: int)
    requires
        0 <= j < run_end(cs, j, class),
        j <= cs.len(),
    ensures
        is_run_of(cs.subrange(j, run_end(cs, j, class)), class),
{
    lemma_run_end_chars(cs, j, class);
    let e = run_end(cs, j, class);
    assert forall|k: int| 0 <= k < e - j implies #[trigger] class_char(cs.subrange(j, e)[k], class) by {
        assert(cs.subrange(j, e)[k] == cs[j + k]);
    }
}

proof fn lemma_choices_wf(cs: Seq<char>, j: int)
    requires
        spec_choices(cs, j) is Some,
    ensures
        spec_choices(cs, j).unwrap().0.len() > 0,
        forall|k: int| 0 <= k < spec_choices(cs, j).unwrap().0.len() ==> is_run_of(#[trigger] spec_choices(cs, j).unwrap().0[k], 1),
    decreases cs.len() - j,
{
    let e = run_end(cs, j, 1);
    lemma_run_is_run(cs, j, 1);
    let c0 = cs.subrange(j, e);
    if cs[e] == ',' {
        lemma_choices_wf(cs, e + 1);
        let rest = spec_choices(cs, e + 1).unwrap().0;
        let chs = spec_choices(cs, j).unwrap().0;
        assert(chs =~= seq![c0] + rest);
        assert forall|k: int| 0 <= k < chs.len() implies is_run_of(#[trigger] chs[k], 1) by {
            if k > 0 {
                assert(chs[k] == rest[k - 1]);
            }
        }
    }
}

/// Whether a parse result is well-formed and starts with a literal only
/// where the text does.
pub open spec fn parsed_wf(cs: Seq<char>, i: int, r: Option<(Seq<GenElementView>, int)>) -> bool {
    match r {
        Some((es, _)) => elements_wf(es) && (es.len() > 0 && es[0] is Literal ==> 0 <= i < cs.len() && is_literal_char(cs[i])),
        None => true,
    }
}

proof fn lemma_cons_wf(cs: Seq<char>, i: int, x: GenElementView, j: int, nested: bool)
    requires
        element_wf(x),
        parsed_wf(cs, j, spec_gen_elems(cs, j, nested)),
        x is Literal ==> (j < cs.len() ==> !is_literal_char(cs[j])),
        x is Literal ==> 0 <= i < cs.len() && is_literal_char(cs[i]),
    ensures
        parsed_wf(cs, i, gen_cons(x, spec_gen_elems(cs, j, nested))),
{
    if let Some((rest, e)) = spec_gen_elems(cs, j, nested) {
        let es = seq![x] + rest;
        assert(es.drop_first() =~= rest);
        assert(es[0] == x);
        if rest.len() > 0 {
            assert(es[1] == rest[0]);
        }
    }
}

proof fn lemma_parsed_wf(cs: Seq<char>, i: int, nested: bool)
    requires
        0 <= i,
    ensures
        parsed_wf(cs, i, spec_gen_elems(cs, i, nested)),
    decreases cs.len() - i,
{
    if i >= cs.len() || cs[i] == ')' {
    } else if is_class_letter(cs[i]) {
        lemma_parsed_wf(cs, i + 1, nested);
        lemma_cons_wf(cs, i, GenElementView::SoundClass(cs[i]), i + 1, nested);
    } else if cs[i] == '.' {
        lemma_parsed_wf(cs, i + 1, nested);
        lemma_cons_wf(cs, i, GenElementView::SyllableBreak, i + 1, nested);
    } else if cs[i] == '\u{02C8}' {
        lemma_parsed_wf(cs, i + 1, nested);
        lemma_cons_wf(cs, i, GenElementView::StressMarker, i + 1, nested);
    } else if is_literal_char(cs[i]) {
        let e = run_end(cs, i, 0);
        lemma_run_end_chars(cs, i, 0);
        assert(class_char(cs[i], 0));
        if i < e {
            lemma_run_is_run(cs, i, 0);
            lemma_parsed_wf(cs, e, nested);
            lemma_cons_wf(cs, i, GenElementView::Literal(cs.subrange(i, e)), e, nested);
        }
    } else if cs[i] == '{' {
        if let Some((chs, end)) = spec_choices(cs, i + 1) {
            if i < end <= cs.len() {
                lemma_choices_wf(cs, i + 1);
                lemma_parsed_wf(cs, end, nested);
                lemma_cons_wf(cs, i, GenElementView::SetOf(chs), end, nested);
            }
        }
    } else if cs[i] == '[' {
        if let Some((r, end)) = spec_grammar_ref(cs, i + 1) {
            if i < end <= cs.len() {
                let j = i + 1;
                let e = run_end(cs, j, 2);
                lemma_run_is_run(cs, j, 2);
                if cs[e] == '.' {
                    lemma_run_end_chars(cs, e + 1, 2);
                    lemma_run_is_run(cs, e + 1, 2);
                }
                lemma_parsed_wf(cs, end, nested);
                lemma_cons_wf(cs, i, r, end, nested);
            }
        }
    } else if cs[i] == '(' {
        lemma_parsed_wf(cs, i + 1, true);
        if let Some((ps, close)) = spec_gen_elems(cs, i + 1, true) {
            if i < close < cs.len() && ps.len() > 0 {
                if let Some((prob, next)) = spec_gen_probability(cs, close + 1) {
                    if close < next <= cs.len() {
                        lemma_parsed_wf(cs, next, nested);
                        lemma_cons_wf(cs, i, GenElementView::Optional(Box::new(ps), prob), next, nested);
                    }
                }
            }
        }
    }
}

/// Every pattern that the parser reads is well-formed, so writing it out
/// and reading the text again gives the same pattern.
pub proof fn lemma_parsed_pattern_reads_back(s: Seq<char>)
    requires
        spec_parse_word_pattern(s) is Some,
    ensures
        elements_wf(spec_parse_word_pattern(s).unwrap()),
        spec_parse_word_pattern(gen_elements_text(spec_parse_word_pattern(s).unwrap())) == spec_parse_word_pattern(s),
{
    lemma_parsed_wf(s, 0, false);
    lemma_pattern_text_reads_back(spec_parse_word_pattern(s).unwrap());
}

} // verus!
