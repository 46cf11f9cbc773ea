//! The printed listing of a dictionary: a header, its eras, then each entry
//! with its definition, meaning, type, era, etymology and notes.

use crate::dictionary::{type_parts, Dictionary, DictionaryEntry, Era};
use crate::data::strings_view;
use crate::text::{concat2, decimal, decimal_text};
use vstd::prelude::*;

verus! {

/// The line that frames the header and the eras.
pub open spec fn border_text() -> Seq<char> {
    "================================================================================"@
}

/// The line that closes an entry.
pub open spec fn rule_text() -> Seq<char> {
    "--------------------------------------------------------------------------------"@
}

/// What follows an era's number: ` /name/` if it has a name, then
/// ` - description` if it has a description.
pub open spec fn era_suffix_text(e: Era) -> Seq<char> {
    (match e.name {
        Some(n) => " /"@ + n@.raw + "/"@,
        None => Seq::empty(),
    }) + (match e.description {
        Some(d) => " - "@ + d@,
        None => Seq::empty(),
    })
}

/// The era recorded first under a number.
pub open spec fn era_of(eras: Seq<(u32, Era)>, n: u32) -> Option<Era>
    decreases eras.len(),
{
    if eras.len() == 0 {
        None
    } else if eras[0].0 == n {
        Some(eras[0].1)
    } else {
        era_of(eras.drop_first(), n)
    }
}

/// Texts joined with `, ` between each two.
pub open spec fn comma_joined(ws: Seq<Seq<char>>) -> Seq<char>
    decreases ws.len(),
{
    if ws.len() == 0 {
        Seq::empty()
    } else if ws.len() == 1 {
        ws[0]
    } else {
        comma_joined(ws.drop_last()) + ", "@ + ws.last()
    }
}

/// The etymology lines of an entry: a heading, then one line per era.
pub open spec fn etymology_lines(ety: Seq<(u32, Vec<String>)>) -> Seq<Seq<char>> {
    seq!["   Etymology  :"@] + Seq::new(ety.len(), |i: int|
        "     Era "@ + decimal_text(ety[i].0 as nat) + ": "@ + comma_joined(strings_view(ety[i].1@)))
}

/// The lines of the `idx`-th entry.
pub open spec fn entry_lines_text(idx: nat, e: DictionaryEntry, eras: Seq<(u32, Era)>) -> Seq<Seq<char>> {
    let parts = type_parts(e.word_type@);
    seq![
        decimal_text(idx) + ". ["@ + e.id@ + "]"@,
        "   Definition : /"@ + e.definition@.raw + "/"@,
        "   Meaning    : /"@ + e.meaning@.raw + "/"@,
        if parts.1.len() == 0 {
            "   Type       : "@ + parts.0
        } else {
            "   Type       : "@ + parts.0 + " ("@ + parts.1 + ")"@
        },
        "   Era        : "@ + decimal_text(e.era as nat) + match era_of(eras, e.era) {
            Some(era) => era_suffix_text(era),
            None => Seq::empty(),
        },
    ] + (match e.etymology {
        Some(ety) => if ety@.len() > 0 {
            etymology_lines(ety@)
        } else {
            Seq::empty()
        },
        None => Seq::empty(),
    }) + (if e.usage_notes@.len() > 0 {
        seq!["   Usage Notes: "@ + e.usage_notes@]
    } else {
        Seq::empty()
    }) + seq![rule_text()]
}

/// What follows an era's number in a listing.
pub fn era_suffix(era: &Era) -> (r: String)
    ensures
        r@ == era_suffix_text(*era),
{
    proof {
        reveal_strlit(" /");
        reveal_strlit("/");
        reveal_strlit(" - ");
    }
    let mut out = String::new();
    match &era.name {
        Some(n) => {
            out.append(" /");
            out.append(n.as_str());
            out.append("/");
        },
        None => {},
    }
    match &era.description {
        Some(d) => {
            out.append(" - ");
            out.append(d.as_str());
        },
        None => {},
    }
    out
}

/// The era recorded first under a number.
fn find_era(eras: &Vec<(u32, Era)>, n: u32) -> (r: Option<&Era>)
    ensures
        r is Some == era_of(eras@, n) is Some,
        r matches Some(e) ==> era_of(eras@, n) == Some(*e),
{
    let mut i: usize = 0;
    assert(eras@.skip(0) =~= eras@);
    while i < eras.len()
        invariant
            i <= eras.len(),
            era_of(eras@, n) == era_of(eras@.skip(i as int), n),
        decreases eras.len() - i,
    {
        assert(eras@.skip(i as int).drop_first() =~= eras@.skip(i + 1));
        if eras[i].0 == n {
            return Some(&eras[i].1);
        }
        i = i + 1;
    }
    None
}

/// Texts joined with `, `.
fn join_commas(ws: &Vec<String>) -> (r: String)
    ensures
        r@ == comma_joined(strings_view(ws@)),
{
    let ghost wv = strings_view(ws@);
    let mut out = String::new();
    let mut i: usize = 0;
    proof {
        reveal_strlit(", ");
    }
    assert(wv.take(0) =~= Seq::<Seq<char>>::empty());
    while i < ws.len()
        invariant
            wv == strings_view(ws@),
            i <= ws.len(),
            out@ == comma_joined(wv.take(i as int)),
        decreases ws.len() - i,
    {
        assert(wv.take(i + 1).drop_last() =~= wv.take(i as int));
        assert(wv[i as int] == ws@[i as int]@);
        if i > 0 {
            out.append(", ");
        } else {
            assert(out@ =~= Seq::<char>::empty());
        }
        out.append(ws[i].as_str());
        i = i + 1;
    }
    assert(wv.take(i as int) =~= wv);
    out
}

/// Appends a line.
fn push_line(lines: &mut Vec<String>, l: String)
    ensures
        strings_view(final(lines)@) == strings_view(old(lines)@).push(l@),
{
    let ghost before = lines@;
    lines.push(l);
    assert(strings_view(lines@) =~= strings_view(before).push(l@));
}

/// The lines that list the `idx`-th entry of a dictionary.
pub fn entry_lines(idx: usize, entry: &DictionaryEntry, eras: &Vec<(u32, Era)>) -> (r: Vec<String>)
    ensures
        strings_view(r@) == entry_lines_text(idx as nat, *entry, eras@),
{
    proof {
        reveal_strlit(". [");
        reveal_strlit("]");
        reveal_strlit("   Definition : /");
        reveal_strlit("   Meaning    : /");
        reveal_strlit("/");
        reveal_strlit("   Type       : ");
        reveal_strlit(" (");
        reveal_strlit(")");
        reveal_strlit("   Era        : ");
        reveal_strlit("   Etymology  :");
        reveal_strlit("     Era ");
        reveal_strlit(": ");
        reveal_strlit("   Usage Notes: ");
        reveal_strlit("--------------------------------------------------------------------------------");
    }
    let mut lines: Vec<String> = Vec::new();
    let l1 = concat2(concat2(concat2(decimal(idx).as_str(), ". [").as_str(), entry.id.as_str()).as_str(), "]");
    push_line(&mut lines, l1);
    let l2 = concat2(concat2("   Definition : /", entry.definition.as_str()).as_str(), "/");
    push_line(&mut lines, l2);
    let l3 = concat2(concat2("   Meaning    : /", entry.meaning.as_str()).as_str(), "/");
    push_line(&mut lines, l3);
    let (base, sub) = crate::dictionary::split_type(entry.word_type.as_str());
    let base_text = crate::text::string_from_chars(base.as_slice());
    let l4 = if sub.len() == 0 {
        concat2("   Type       : ", base_text.as_str())
    } else {
        let sub_text = crate::text::string_from_chars(sub.as_slice());
        concat2(concat2(concat2(concat2("   Type       : ", base_text.as_str()).as_str(), " (").as_str(), sub_text.as_str()).as_str(), ")")
    };
    push_line(&mut lines, l4);
    let era_head = concat2("   Era        : ", decimal(entry.era as usize).as_str());
    let l5 = match find_era(eras, entry.era) {
        Some(era) => concat2(era_head.as_str(), era_suffix(era).as_str()),
        None => {
            assert(era_head@ =~= era_head@ + Seq::<char>::empty());
            era_head
        },
    };
    push_line(&mut lines, l5);
    let ghost head = strings_view(lines@);
    match &entry.etymology {
        Some(ety) => {
            if ety.len() > 0 {
                push_line(&mut lines, String::from_str("   Etymology  :"));
                let mut i: usize = 0;
                let ghost ev = ety@;
                while i < ety.len()
                    invariant
                        ev == ety@,
                        i <= ety.len(),
                        strings_view(lines@) == head + etymology_lines(ev).take(i as int + 1),
                    decreases ety.len() - i,
                {
                    let l = concat2(
                        concat2(concat2("     Era ", decimal(ety[i].0 as usize).as_str()).as_str(), ": ").as_str(),
                        join_commas(&ety[i].1).as_str(),
                    );
                    push_line(&mut lines, l);
                    assert(etymology_lines(ev).take(i as int + 2) =~= etymology_lines(ev).take(i as int + 1).push(etymology_lines(ev)[i as int + 1]));
                    i = i + 1;
                }
                assert(etymology_lines(ev).take(i as int + 1) =~= etymology_lines(ev));
            } else {
                assert(head =~= head + Seq::<Seq<char>>::empty());
            }
        },
        None => {
            assert(head =~= head + Seq::<Seq<char>>::empty());
        },
    }
    let ghost mid = strings_view(lines@);
    if entry.usage_notes.as_str().unicode_len() > 0 {
        push_line(&mut lines, concat2("   Usage Notes: ", entry.usage_notes.as_str()));
    } else {
        assert(mid =~= mid + Seq::<Seq<char>>::empty());
    }
    push_line(&mut lines, String::from_str("--------------------------------------------------------------------------------"));
    assert(strings_view(lines@) =~= entry_lines_text(idx as nat, *entry, eras@));
    lines
}

/// The line that lists an era in the header.
pub open spec fn era_line_text(n: u32, e: Era) -> Seq<char> {
    "  * Era "@ + decimal_text(n as nat) + " (ID: "@ + e.id@ + ")"@ + era_suffix_text(e)
}

/// The header of a listing: the dictionary's identifier as the caller
/// writes it, the number of eras (when there are any) and of entries, then
/// the eras, each framed by borders.
pub open spec fn header_lines_text(id_text: Seq<char>, eras: Seq<(u32, Era)>, n_entries: nat) -> Seq<Seq<char>> {
    seq![border_text(), "Dictionary ID: "@ + id_text] + (if eras.len() > 0 {
        seq!["Total Eras   : "@ + decimal_text(eras.len())]
    } else {
        Seq::empty()
    }) + seq!["Total Entries: "@ + decimal_text(n_entries), border_text()] + (if eras.len() > 0 {
        seq!["Eras:"@] + Seq::new(eras.len(), |k: int| era_line_text(eras[k].0, eras[k].1)) + seq![border_text()]
    } else {
        Seq::empty()
    })
}

/// The lines of the entries, numbered from 1.
pub open spec fn entries_lines_text(es: Seq<DictionaryEntry>, eras: Seq<(u32, Era)>) -> Seq<Seq<char>>
    decreases es.len(),
{
    if es.len() == 0 {
        Seq::empty()
    } else {
        entries_lines_text(es.drop_last(), eras) + entry_lines_text(es.len(), es.last(), eras)
    }
}

/// The line that lists an era in the header.
fn era_line(n: u32, era: &Era) -> (r: String)
    ensures
        r@ == era_line_text(n, *era),
{
    proof {
        reveal_strlit("  * Era ");
        reveal_strlit(" (ID: ");
        reveal_strlit(")");
    }
    let a = concat2("  * Era ", decimal(n as usize).as_str());
    let b = concat2(concat2(concat2(a.as_str(), " (ID: ").as_str(), era.id.as_str()).as_str(), ")");
    concat2(b.as_str(), era_suffix(era).as_str())
}

/// The header of a dictionary's listing; `id_text` is how the dictionary's
/// identifier is written.
pub fn header_lines(dict: &Dictionary, id_text: &str) -> (r: Vec<String>)
    ensures
        strings_view(r@) == header_lines_text(id_text@, dict.eras@, dict.entries@.len()),
{
    proof {
        reveal_strlit("================================================================================");
        reveal_strlit("Dictionary ID: ");
        reveal_strlit("Total Eras   : ");
        reveal_strlit("Total Entries: ");
        reveal_strlit("Eras:");
    }
    let border = "================================================================================";
    let mut lines: Vec<String> = Vec::new();
    push_line(&mut lines, String::from_str(border));
    push_line(&mut lines, concat2("Dictionary ID: ", id_text));
    let ghost top = strings_view(lines@);
    if dict.eras.len() > 0 {
        push_line(&mut lines, concat2("Total Eras   : ", decimal(dict.eras.len()).as_str()));
    } else {
        assert(top =~= top + Seq::<Seq<char>>::empty());
    }
    push_line(&mut lines, concat2("Total Entries: ", decimal(dict.entries.len()).as_str()));
    push_line(&mut lines, String::from_str(border));
    let ghost counts = strings_view(lines@);
    if dict.eras.len() > 0 {
        push_line(&mut lines, String::from_str("Eras:"));
        let ghost eras_v = dict.eras@;
        let ghost era_lines = Seq::new(eras_v.len(), |k: int| era_line_text(eras_v[k].0, eras_v[k].1));
        let mut i: usize = 0;
        while i < dict.eras.len()
            invariant
                eras_v == dict.eras@,
                era_lines == Seq::new(eras_v.len(), |k: int| era_line_text(eras_v[k].0, eras_v[k].1)),
                i <= dict.eras.len(),
                strings_view(lines@) == counts + seq!["Eras:"@] + era_lines.take(i as int),
            decreases dict.eras.len() - i,
        {
            let l = era_line(dict.eras[i].0, &dict.eras[i].1);
            push_line(&mut lines, l);
            assert(era_lines.take(i + 1) =~= era_lines.take(i as int).push(era_lines[i as int]));
            i = i + 1;
        }
        assert(era_lines.take(i as int) =~= era_lines);
        push_line(&mut lines, String::from_str(border));
        assert(strings_view(lines@) =~= counts + (seq!["Eras:"@] + era_lines + seq![border_text()]));
    } else {
        assert(counts =~= counts + Seq::<Seq<char>>::empty());
    }
    assert(strings_view(lines@) =~= header_lines_text(id_text@, dict.eras@, dict.entries@.len()));
    lines
}

/// The whole listing of a dictionary: its header, then each entry, numbered
/// from 1; `id_text` is how the dictionary's identifier is written.
pub fn dictionary_lines(dict: &Dictionary, id_text: &str) -> (r: Vec<String>)
    requires
        dict.entries@.len() < usize::MAX,
    ensures
        strings_view(r@) == header_lines_text(id_text@, dict.eras@, dict.entries@.len()) + entries_lines_text(dict.entries@, dict.eras@),
{
    let mut lines = header_lines(dict, id_text);
    let ghost head = strings_view(lines@);
    let ghost es = dict.entries@;
    let mut i: usize = 0;
    assert(es.take(0) =~= Seq::<DictionaryEntry>::empty());
    assert(head =~= head + entries_lines_text(es.take(0), dict.eras@));
    while i < dict.entries.len()
        invariant
            es == dict.entries@,
            es.len() < usize::MAX,
            i <= es.len(),
            strings_view(lines@) == head + entries_lines_text(es.take(i as int), dict.eras@),
        decreases dict.entries.len() - i,
    {
        let mut more = entry_lines(i + 1, &dict.entries[i], &dict.eras);
        let ghost before = lines@;
        lines.append(&mut more);
        assert(es.take(i + 1).drop_last() =~= es.take(i as int));
        assert(es.take(i + 1).last() == es[i as int]);
        assert(strings_view(lines@) =~= strings_view(before) + entry_lines_text((i + 1) as nat, es[i as int], dict.eras@));
        i = i + 1;
    }
    assert(es.take(i as int) =~= es);
    lines
}

} // verus!
