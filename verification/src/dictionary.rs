//! A language's dictionary: its eras and its word entries, with identifiers
//! made of a version-7 UUID written in base62.

use crate::generator::validation::{find_dot, first_dot_from, split_key};
use crate::ipa_string::IpaString;
use crate::text::{concat2, decimal, decimal_text, str_eq};
use vstd::prelude::*;

verus! {

// ----- base62 -----

/// The base62 digit of a value below 62: `0`-`9`, then `A`-`Z`, then `a`-`z`.
pub open spec fn base62_digit(d: int) -> char {
    if d < 10 {
        (('0' as int) + d) as char
    } else if d < 36 {
        (('A' as int) + d - 10) as char
    } else {
        (('a' as int) + d - 36) as char
    }
}

/// The base62 digits of a number, most significant first; `0` for zero.
pub open spec fn base62_text(n: nat) -> Seq<char>
    decreases n,
{
    if n < 62 {
        seq![base62_digit(n as int)]
    } else {
        base62_text(n / 62) + seq![base62_digit((n % 62) as int)]
    }
}

/// The value of a base62 digit.
pub open spec fn base62_digit_value(c: char) -> Option<int> {
    if '0' <= c <= '9' {
        Some(c as int - '0' as int)
    } else if 'A' <= c <= 'Z' {
        Some(c as int - 'A' as int + 10)
    } else if 'a' <= c <= 'z' {
        Some(c as int - 'a' as int + 36)
    } else {
        None
    }
}

/// Whether every character of a text is a base62 digit.
pub open spec fn base62_valid(s: Seq<char>) -> bool {
    forall|i: int| 0 <= i < s.len() ==> (#[trigger] base62_digit_value(s[i])) is Some
}

/// The number that base62 digits denote.
pub open spec fn base62_value(s: Seq<char>) -> nat
    decreases s.len(),
{
    if s.len() == 0 {
        0
    } else {
        base62_value(s.drop_last()) * 62 + base62_digit_value(s.last()).unwrap() as nat
    }
}

/// `base62::encode`: the number in base62, with the standard digits
/// (`0`-`9`, `A`-`Z`, `a`-`z`), as its documentation gives it.
#[verifier::external_body]
fn base62_encode(n: u128) -> (r: String)
    ensures
        r@ == base62_text(n as nat),
{
    base62::encode(n)
}

/// `base62::decode`: as its documentation and error variants give it, the
/// number that a non-empty text of standard base62 digits denotes, when it
/// fits in a `u128`; the failure is described by the error's own text.
#[verifier::external_body]
fn base62_decode(s: &str) -> (r: Result<u128, String>)
    ensures
        r is Ok <==> (s@.len() > 0 && base62_valid(s@) && base62_value(s@) <= u128::MAX),
        r matches Ok(v) ==> v as nat == base62_value(s@),
{
    match base62::decode(s) {
        Ok(v) => Ok(v),
        Err(e) => Err(e.to_string()),
    }
}

/// Whether 128 bits carry the marks of a version 7 UUID: version nibble 7
/// (bits 76 to 79) and variant `0b10` (bits 62 and 63).
pub open spec fn is_v7_bits(n: u128) -> bool {
    (n >> 76u32) & 0xfu128 == 7u128 && (n >> 62u32) & 0x3u128 == 2u128
}

/// Whether a text is the base62 form of a version 7 UUID.
pub open spec fn is_uuid_id(t: Seq<char>) -> bool {
    exists|n: u128| t == #[trigger] base62_text(n as nat) && is_v7_bits(n)
}

/// `uuid::Uuid::now_v7`, as its 128 bits. The time and the random bits
/// depend on the clock and on chance; every outcome carries the version
/// nibble 7 and the variant bits `0b10`, which is all that is stated.
#[verifier::external_body]
fn new_uuid_v7_bits() -> (r: u128)
    ensures
        is_v7_bits(r),
{
    uuid::Uuid::now_v7().as_u128()
}

proof fn lemma_base62_digit(d: int)
    requires
        0 <= d < 62,
    ensures
        base62_digit_value(base62_digit(d)) == Some(d),
{
}

/// Base62 digits read back give the number they were written from.
pub proof fn lemma_base62_round_trip(n: nat)
    ensures
        base62_text(n).len() > 0,
        base62_valid(base62_text(n)),
        base62_value(base62_text(n)) == n,
    decreases n,
{
    if n < 62 {
        lemma_base62_digit(n as int);
        let t = base62_text(n);
        assert(t.drop_last() =~= Seq::<char>::empty());
        assert(base62_value(t.drop_last()) == 0);
        assert(t.last() == base62_digit(n as int));
        assert(base62_value(t) == base62_value(t.drop_last()) * 62 + base62_digit_value(t.last()).unwrap() as nat);
    } else {
        lemma_base62_round_trip(n / 62);
        lemma_base62_digit((n % 62) as int);
        let t = base62_text(n);
        let h = base62_text(n / 62);
        assert(t.drop_last() =~= h);
        assert forall|i: int| 0 <= i < t.len() implies (#[trigger] base62_digit_value(t[i])) is Some by {
            if i < h.len() {
                assert(t[i] == h[i]);
            }
        }
        assert(n == (n / 62) * 62 + n % 62) by (nonlinear_arith);
        assert(t.last() == base62_digit((n % 62) as int));
        assert(base62_value(t) == base62_value(h) * 62 + (n % 62));
    }
}

/// A new identifier: a fresh version-7 UUID written in base62.
pub fn generate_base62_uuid() -> (r: String)
    ensures
        is_uuid_id(r@),
{
    let n = new_uuid_v7_bits();
    let r = base62_encode(n);
    assert(r@ == base62_text(n as nat));
    r
}

/// The UUID, as its 128 bits, that a base62 identifier denotes.
pub fn parse_base62_uuid(s: &str) -> (r: Result<u128, String>)
    ensures
        r is Ok <==> (s@.len() > 0 && base62_valid(s@) && base62_value(s@) <= u128::MAX),
        r matches Ok(v) ==> v as nat == base62_value(s@),
        r matches Err(m) ==> "Invalid Base62 UUID: "@.is_prefix_of(m@),
{
    match base62_decode(s) {
        Ok(v) => Ok(v),
        Err(e) => {
            let m = concat2("Invalid Base62 UUID: ", e.as_str());
            assert("Invalid Base62 UUID: "@.is_prefix_of(m@)) by {
                assert(m@.subrange(0, "Invalid Base62 UUID: "@.len() as int) =~= "Invalid Base62 UUID: "@);
            }
            Err(m)
        },
    }
}

// ----- entries and eras -----

/// A word of the dictionary.
pub struct DictionaryEntry {
    pub id: String,
    pub meaning: IpaString,
    pub definition: IpaString,
    /// The grammatical type, such as `noun.masculine`.
    pub word_type: String,
    pub era: u32,
    /// Ancestor forms, by era.
    pub etymology: Option<Vec<(u32, Vec<String>)>>,
    pub usage_notes: String,
}

/// The data of a word to be added.
pub struct NewEntry {
    pub meaning: IpaString,
    pub definition: IpaString,
    pub word_type: String,
    pub era: Option<u32>,
    pub etymology: Option<Vec<(u32, Vec<String>)>>,
    pub usage_notes: String,
}

/// An era of the language's history.
pub struct Era {
    pub id: String,
    pub name: Option<IpaString>,
    pub description: Option<String>,
}

/// A dictionary: the UUID of its language (as its 128 bits), its eras by
/// number in ascending order, and its entries.
pub struct Dictionary {
    pub id: u128,
    pub eras: Vec<(u32, Era)>,
    pub entries: Vec<DictionaryEntry>,
}

/// The numbers of eras.
pub open spec fn era_numbers(es: Seq<(u32, Era)>) -> Seq<u32> {
    es.map_values(|e: (u32, Era)| e.0)
}

/// Whether era numbers ascend strictly.
pub open spec fn eras_ascending(es: Seq<(u32, Era)>) -> bool {
    forall|a: int, b: int| 0 <= a < b < es.len() ==> #[trigger] es[a].0 < #[trigger] es[b].0
}

/// The greatest era of entries; 0 for none.
pub open spec fn max_entry_era(es: Seq<DictionaryEntry>) -> int
    decreases es.len(),
{
    if es.len() == 0 {
        0
    } else if max_entry_era(es.drop_last()) < es.last().era {
        es.last().era as int
    } else {
        max_entry_era(es.drop_last())
    }
}

/// The most recent era: the last era recorded, else the greatest era of an
/// entry, else none.
pub open spec fn latest_era(eras: Seq<(u32, Era)>, entries: Seq<DictionaryEntry>) -> Option<int> {
    if eras.len() > 0 {
        Some(eras.last().0 as int)
    } else if entries.len() > 0 {
        Some(max_entry_era(entries))
    } else {
        None
    }
}

/// The era that a new era gets by default: one after the most recent, or 0.
pub open spec fn next_era(eras: Seq<(u32, Era)>, entries: Seq<DictionaryEntry>) -> int {
    match latest_era(eras, entries) {
        Some(k) => k + 1,
        None => 0,
    }
}

/// The era that a new entry gets by default: the most recent, or 0.
pub open spec fn current_era(eras: Seq<(u32, Era)>, entries: Seq<DictionaryEntry>) -> int {
    match latest_era(eras, entries) {
        Some(k) => k,
        None => 0,
    }
}

/// Eras with one more put in its place by number.
pub open spec fn insert_era(es: Seq<(u32, Era)>, n: u32, e: Era) -> Seq<(u32, Era)>
    decreases es.len(),
{
    if es.len() == 0 {
        seq![(n, e)]
    } else if n < es[0].0 {
        seq![(n, e)] + es
    } else {
        seq![es[0]] + insert_era(es.drop_first(), n, e)
    }
}

/// The entries whose identifier is not `id`, in order.
pub open spec fn without_id(es: Seq<DictionaryEntry>, id: Seq<char>) -> Seq<DictionaryEntry>
    decreases es.len(),
{
    if es.len() == 0 {
        Seq::empty()
    } else if es.last().id@ == id {
        without_id(es.drop_last(), id)
    } else {
        without_id(es.drop_last(), id).push(es.last())
    }
}

/// The message of a refused era number.
pub open spec fn era_exists_message(n: u32) -> Seq<char> {
    "Era number "@ + decimal_text(n as nat) + " already exists in the dictionary"@
}

proof fn lemma_insert_era(es: Seq<(u32, Era)>, n: u32, e: Era)
    requires
        eras_ascending(es),
        !era_numbers(es).contains(n),
    ensures
        eras_ascending(insert_era(es, n, e)),
        forall|i: int| 0 <= i < insert_era(es, n, e).len() ==> (#[trigger] insert_era(es, n, e)[i]).0 == n
            || exists|j: int| 0 <= j < es.len() && es[j].0 == insert_era(es, n, e)[i].0,
    decreases es.len(),
{
    let r = insert_era(es, n, e);
    if es.len() == 0 {
    } else if n < es[0].0 {
        assert forall|a: int, b: int| 0 <= a < b < r.len() implies #[trigger] r[a].0 < #[trigger] r[b].0 by {
            if a > 0 {
                assert(r[a] == es[a - 1] && r[b] == es[b - 1]);
            } else {
                assert(r[b] == es[b - 1]);
                if b - 1 > 0 {
                    assert(es[0].0 < es[b - 1].0);
                }
            }
        }
        assert forall|i: int| 0 <= i < r.len() implies (#[trigger] r[i]).0 == n
            || exists|j: int| 0 <= j < es.len() && es[j].0 == r[i].0 by {
            if i > 0 {
                assert(r[i] == es[i - 1]);
            }
        }
    } else {
        let t = es.drop_first();
        assert(n != es[0].0) by {
            assert(era_numbers(es)[0] == es[0].0);
        }
        assert(eras_ascending(t)) by {
            assert forall|a: int, b: int| 0 <= a < b < t.len() implies #[trigger] t[a].0 < #[trigger] t[b].0 by {
                assert(t[a] == es[a + 1] && t[b] == es[b + 1]);
            }
        }
        assert(!era_numbers(t).contains(n)) by {
            if era_numbers(t).contains(n) {
                let i = choose|i: int| 0 <= i < era_numbers(t).len() && era_numbers(t)[i] == n;
                assert(era_numbers(es)[i + 1] == n);
            }
        }
        lemma_insert_era(t, n, e);
        let rt = insert_era(t, n, e);
        assert(r =~= seq![es[0]] + rt);
        assert forall|a: int, b: int| 0 <= a < b < r.len() implies #[trigger] r[a].0 < #[trigger] r[b].0 by {
            if a > 0 {
                assert(r[a] == rt[a - 1] && r[b] == rt[b - 1]);
            } else {
                assert(r[b] == rt[b - 1]);
                if rt[b - 1].0 != n {
                    let j = choose|j: int| 0 <= j < t.len() && t[j].0 == rt[b - 1].0;
                    assert(t[j] == es[j + 1]);
                    assert(es[0].0 < es[j + 1].0);
                }
            }
        }
        assert forall|i: int| 0 <= i < r.len() implies (#[trigger] r[i]).0 == n
            || exists|j: int| 0 <= j < es.len() && es[j].0 == r[i].0 by {
            if i == 0 {
                assert(es[0].0 == r[0].0);
            } else {
                assert(r[i] == rt[i - 1]);
                if rt[i - 1].0 != n {
                    let j = choose|j: int| 0 <= j < t.len() && t[j].0 == rt[i - 1].0;
                    assert(es[j + 1].0 == r[i].0);
                }
            }
        }
    }
}

impl Dictionary {
    /// Whether the eras ascend by number.
    pub open spec fn wf(&self) -> bool {
        eras_ascending(self.eras@)
    }

    /// A blank dictionary for a language.
    pub fn new(id: u128) -> (r: Dictionary)
        ensures
            r.id == id,
            r.eras@.len() == 0,
            r.entries@.len() == 0,
            r.wf(),
    {
        Dictionary { id, eras: Vec::new(), entries: Vec::new() }
    }

    /// The most recent era, if any.
    fn latest(&self) -> (r: Option<u32>)
        ensures
            r is Some == latest_era(self.eras@, self.entries@) is Some,
            r matches Some(k) ==> latest_era(self.eras@, self.entries@) == Some(k as int),
    {
        if self.eras.len() > 0 {
            return Some(self.eras[self.eras.len() - 1].0);
        }
        if self.entries.len() == 0 {
            return None;
        }
        let mut best: u32 = 0;
        let mut i: usize = 0;
        assert(self.entries@.take(0) =~= Seq::<DictionaryEntry>::empty());
        while i < self.entries.len()
            invariant
                i <= self.entries.len(),
                best as int == max_entry_era(self.entries@.take(i as int)),
            decreases self.entries.len() - i,
        {
            assert(self.entries@.take(i + 1).drop_last() =~= self.entries@.take(i as int));
            if best < self.entries[i].era {
                best = self.entries[i].era;
            }
            i = i + 1;
        }
        assert(self.entries@.take(i as int) =~= self.entries@);
        Some(best)
    }

    /// Whether an era is recorded under a number.
    fn has_era(&self, n: u32) -> (r: bool)
        ensures
            r == era_numbers(self.eras@).contains(n),
    {
        let mut i: usize = 0;
        while i < self.eras.len()
            invariant
                i <= self.eras.len(),
                forall|j: int| 0 <= j < i ==> self.eras@[j].0 != n,
            decreases self.eras.len() - i,
        {
            if self.eras[i].0 == n {
                assert(era_numbers(self.eras@)[i as int] == n);
                return true;
            }
            i = i + 1;
        }
        proof {
            if era_numbers(self.eras@).contains(n) {
                let j = choose|j: int| 0 <= j < era_numbers(self.eras@).len() && era_numbers(self.eras@)[j] == n;
                assert(self.eras@[j].0 == n);
            }
        }
        false
    }

    /// Records an era in its place by number.
    fn put_era(&mut self, n: u32, e: Era)
        ensures
            final(self).eras@ == insert_era(old(self).eras@, n, e),
            final(self).entries == old(self).entries,
            final(self).id == old(self).id,
    {
        let ghost s0 = self.eras@;
        let mut i: usize = 0;
        assert(s0.take(0) + insert_era(s0.skip(0), n, e) =~= insert_era(s0, n, e)) by {
            assert(s0.skip(0) =~= s0);
        }
        while i < self.eras.len() && self.eras[i].0 <= n
            invariant
                self.eras@ == s0,
                i <= self.eras.len(),
                insert_era(s0, n, e) == s0.take(i as int) + insert_era(s0.skip(i as int), n, e),
            decreases self.eras.len() - i,
        {
            let ghost rest = s0.skip(i as int);
            assert(rest.drop_first() =~= s0.skip(i + 1));
            assert(s0.take(i as int) + (seq![rest[0]] + insert_era(rest.drop_first(), n, e)) =~= s0.take(i + 1) + insert_era(s0.skip(i + 1), n, e));
            i = i + 1;
        }
        self.eras.insert(i, (n, e));
        proof {
            if i < s0.len() {
                assert(self.eras@ =~= s0.take(i as int) + (seq![(n, e)] + s0.skip(i as int)));
            } else {
                assert(s0.skip(i as int) =~= Seq::<(u32, Era)>::empty());
                assert(self.eras@ =~= s0.take(i as int) + seq![(n, e)]);
            }
        }
    }

    /// Adds an era under `era_num`, or by default one after the most recent
    /// era; returns its number and its new identifier. A number already in
    /// use is refused.
    pub fn add_era(&mut self, era_num: Option<u32>, name: Option<IpaString>, description: Option<String>) -> (r: Result<(u32, String), String>)
        requires
            old(self).wf(),
            era_num is None ==> next_era(old(self).eras@, old(self).entries@) <= u32::MAX,
        ensures
            final(self).wf(),
            ({
                let n = match era_num {
                    Some(k) => k as int,
                    None => next_era(old(self).eras@, old(self).entries@),
                };
                &&& (r is Err <==> era_numbers(old(self).eras@).contains(n as u32))
                &&& (r matches Err(m) ==> m@ == era_exists_message(n as u32) && *final(self) == *old(self))
                &&& (r matches Ok(p) ==> p.0 == n && is_uuid_id(p.1@)
                    && final(self).id == old(self).id && final(self).entries == old(self).entries
                    && final(self).eras@ == insert_era(old(self).eras@, p.0, Era { id: p.1, name, description }))
            }),
    {
        let num = match era_num {
            Some(k) => k,
            None => match self.latest() {
                Some(k) => k + 1,
                None => 0,
            },
        };
        if self.has_era(num) {
            let m = concat2(concat2("Era number ", decimal(num as usize).as_str()).as_str(), " already exists in the dictionary");
            proof {
                reveal_strlit("Era number ");
                reveal_strlit(" already exists in the dictionary");
            }
            assert(m@ =~= era_exists_message(num));
            return Err(m);
        }
        let id = generate_base62_uuid();
        let ghost e = Era { id: id, name: name, description: description };
        proof {
            lemma_insert_era(self.eras@, num, e);
        }
        let id_copy = id.clone();
        self.put_era(num, Era { id, name, description });
        Ok((num, id_copy))
    }

    /// Adds a word, in its given era or by default the most recent one (0 in
    /// a blank dictionary); an era not yet recorded is recorded with a new
    /// identifier. Returns the word's new identifier.
    pub fn add_entry(&mut self, entry: NewEntry) -> (r: String)
        requires
            old(self).wf(),
        ensures
            final(self).wf(),
            is_uuid_id(r@),
            ({
                let era = match entry.era {
                    Some(k) => k as int,
                    None => current_era(old(self).eras@, old(self).entries@),
                };
                &&& final(self).id == old(self).id
                &&& final(self).entries@ == old(self).entries@.push(DictionaryEntry {
                    id: r,
                    meaning: entry.meaning,
                    definition: entry.definition,
                    word_type: entry.word_type,
                    era: era as u32,
                    etymology: entry.etymology,
                    usage_notes: entry.usage_notes,
                })
                &&& (era_numbers(old(self).eras@).contains(era as u32) ==> final(self).eras@ == old(self).eras@)
                &&& (!era_numbers(old(self).eras@).contains(era as u32) ==> exists|eid: String|
                    is_uuid_id(eid@) && final(self).eras@ == insert_era(old(self).eras@, era as u32, Era { id: eid, name: None, description: None }))
            }),
    {
        let id = generate_base62_uuid();
        let era = match entry.era {
            Some(k) => k,
            None => match self.latest() {
                Some(k) => k,
                None => 0,
            },
        };
        if !self.has_era(era) {
            let eid = generate_base62_uuid();
            let ghost e = Era { id: eid, name: None, description: None };
            proof {
                lemma_insert_era(self.eras@, era, e);
            }
            self.put_era(era, Era { id: eid, name: None, description: None });
            assert(self.eras@ == insert_era(old(self).eras@, era, e));
        }
        let id_copy = id.clone();
        self.entries.push(DictionaryEntry {
            id,
            meaning: entry.meaning,
            definition: entry.definition,
            word_type: entry.word_type,
            era,
            etymology: entry.etymology,
            usage_notes: entry.usage_notes,
        });
        id_copy
    }

    /// Removes the words with an identifier; returns whether there was one.
    pub fn remove_entry(&mut self, id: &str) -> (r: bool)
        ensures
            final(self).entries@ == without_id(old(self).entries@, id@),
            final(self).eras == old(self).eras,
            final(self).id == old(self).id,
            r <==> exists|i: int| 0 <= i < old(self).entries@.len() && (#[trigger] old(self).entries@[i]).id@ == id@,
    {
        let ghost s0 = self.entries@;
        let mut i: usize = 0;
        let ghost mut j: int = 0;
        let mut removed = false;
        assert(s0.take(0) =~= Seq::<DictionaryEntry>::empty());
        assert(self.entries@ =~= without_id(s0.take(0), id@) + s0.skip(0));
        while i < self.entries.len()
            invariant
                0 <= j <= s0.len(),
                i as int == without_id(s0.take(j), id@).len(),
                self.entries@ == without_id(s0.take(j), id@) + s0.skip(j),
                self.eras == old(self).eras,
                self.id == old(self).id,
                s0 == old(self).entries@,
                removed <==> exists|q: int| 0 <= q < j && (#[trigger] s0[q]).id@ == id@,
            decreases self.entries.len() - i,
        {
            assert(s0.take(j + 1).drop_last() =~= s0.take(j));
            assert(self.entries@[i as int] == s0[j]);
            if str_eq(self.entries[i].id.as_str(), id) {
                let ghost before = self.entries@;
                self.entries.remove(i);
                assert(self.entries@ =~= without_id(s0.take(j + 1), id@) + s0.skip(j + 1));
                removed = true;
            } else {
                assert(without_id(s0.take(j + 1), id@) + s0.skip(j + 1) =~= self.entries@);
                i = i + 1;
            }
            proof {
                j = j + 1;
            }
        }
        proof {
            lemma_without_id_len(s0.take(j), id@);
            assert(j == s0.len()) by {
                if j < s0.len() {
                    assert(self.entries@.len() == without_id(s0.take(j), id@).len() + s0.len() - j);
                }
            }
            assert(s0.take(j) =~= s0);
            assert(s0.skip(j) =~= Seq::<DictionaryEntry>::empty());
            assert(self.entries@ =~= without_id(s0, id@));
        }
        removed
    }
}

/// After removal no entry has the identifier, and every other entry stays,
/// in order.
pub proof fn lemma_without_id_removes(es: Seq<DictionaryEntry>, id: Seq<char>)
    ensures
        forall|i: int| 0 <= i < without_id(es, id).len() ==> (#[trigger] without_id(es, id)[i]).id@ != id,
        forall|i: int| 0 <= i < es.len() && (#[trigger] es[i]).id@ != id ==> without_id(es, id).contains(es[i]),
    decreases es.len(),
{
    if es.len() > 0 {
        lemma_without_id_removes(es.drop_last(), id);
        let w = without_id(es.drop_last(), id);
        assert forall|i: int| 0 <= i < es.len() && (#[trigger] es[i]).id@ != id implies without_id(es, id).contains(es[i]) by {
            if i < es.len() - 1 {
                assert(es.drop_last()[i] == es[i]);
                assert(w.contains(es[i]));
                let j = choose|j: int| 0 <= j < w.len() && w[j] == es[i];
                assert(without_id(es, id)[j] == es[i]);
            } else {
                assert(without_id(es, id)[w.len() as int] == es[i]);
            }
        }
    }
}

/// Removing an identifier that no entry has leaves the entries as they are.
proof fn lemma_without_absent_id(es: Seq<DictionaryEntry>, id: Seq<char>)
    requires
        forall|i: int| 0 <= i < es.len() ==> (#[trigger] es[i]).id@ != id,
    ensures
        without_id(es, id) == es,
    decreases es.len(),
{
    if es.len() > 0 {
        assert forall|i: int| 0 <= i < es.drop_last().len() implies (#[trigger] es.drop_last()[i]).id@ != id by {
            assert(es.drop_last()[i] == es[i]);
        }
        lemma_without_absent_id(es.drop_last(), id);
        assert(es.last().id@ != id);
        assert(es.drop_last().push(es.last()) =~= es);
    }
}

/// Removing the word just added, under an identifier that no earlier entry
/// had, gives back the earlier entries.
pub proof fn lemma_remove_undoes_add(es: Seq<DictionaryEntry>, e: DictionaryEntry)
    requires
        forall|i: int| 0 <= i < es.len() ==> (#[trigger] es[i]).id@ != e.id@,
    ensures
        without_id(es.push(e), e.id@) == es,
{
    assert(es.push(e).drop_last() =~= es);
    lemma_without_absent_id(es, e.id@);
}

proof fn lemma_without_id_len(es: Seq<DictionaryEntry>, id: Seq<char>)
    ensures
        without_id(es, id).len() <= es.len(),
    decreases es.len(),
{
    if es.len() > 0 {
        lemma_without_id_len(es.drop_last(), id);
    }
}

// ----- types -----

/// A type split at its first `.`: its base and its subtype, empty when there
/// is no `.`.
pub open spec fn type_parts(t: Seq<char>) -> (Seq<char>, Seq<char>) {
    match split_key(t).1 {
        Some(sub) => (split_key(t).0, sub),
        None => (t, Seq::empty()),
    }
}

/// Whether an entry's type matches a filter: the same base, and the same
/// subtype where the filter names one.
pub open spec fn spec_type_matches(entry_type: Seq<char>, filter_type: Seq<char>) -> bool {
    type_parts(entry_type).0 == type_parts(filter_type).0 && (type_parts(filter_type).1.len() == 0
        || type_parts(entry_type).1 == type_parts(filter_type).1)
}

/// A type's base and subtype.
pub(crate) fn split_type(t: &str) -> (r: (Vec<char>, Vec<char>))
    ensures
        r.0@ == type_parts(t@).0,
        r.1@ == type_parts(t@).1,
{
    let cs = crate::text::chars_of(t);
    match find_dot(&cs) {
        Some(i) => (crate::text::chars_range(cs.as_slice(), 0, i), crate::text::chars_range(cs.as_slice(), i + 1, cs.len())),
        None => {
            let none: Vec<char> = Vec::new();
            (cs, none)
        },
    }
}

/// Whether a dictionary entry's type matches a filter type.
pub fn type_matches(entry_type: &str, filter_type: &str) -> (r: bool)
    ensures
        r == spec_type_matches(entry_type@, filter_type@),
{
    let (w_base, w_sub) = split_type(entry_type);
    let (f_base, f_sub) = split_type(filter_type);
    if !crate::text::chars_eq(w_base.as_slice(), f_base.as_slice()) {
        return false;
    }
    if f_sub.len() > 0 && !crate::text::chars_eq(w_sub.as_slice(), f_sub.as_slice()) {
        return false;
    }
    true
}

} // verus!

verus! {

proof fn lemma_first_dot(s: Seq<char>, k: int)
    requires
        0 <= k <= s.len(),
        forall|j: int| 0 <= j < k ==> s[j] != '.',
    ensures
        first_dot_from(s, k) matches Some(i) ==> k <= i < s.len() && s[i] == '.' && forall|j: int| 0 <= j < i ==> s[j] != '.',
        first_dot_from(s, k) is None ==> forall|j: int| 0 <= j < s.len() ==> s[j] != '.',
    decreases s.len() - k,
{
    if k < s.len() && s[k] != '.' {
        lemma_first_dot(s, k + 1);
    }
}

/// A type splits at its first dot: with no dot it is all base and no
/// subtype; otherwise the base is what precedes the first dot, holds no
/// dot, and the subtype is all that follows it.
pub proof fn lemma_type_parts_split(t: Seq<char>)
    ensures
        !t.contains('.') ==> type_parts(t) == (t, Seq::<char>::empty()),
        t.contains('.') ==> {
            let (base, sub) = type_parts(t);
            &&& t == base + seq!['.'] + sub
            &&& !base.contains('.')
        },
{
    lemma_first_dot(t, 0);
    match first_dot_from(t, 0) {
        Some(i) => {
            let base = t.subrange(0, i);
            let sub = t.subrange(i + 1, t.len() as int);
            assert(t =~= base + seq!['.'] + sub);
            assert(!base.contains('.')) by {
                if base.contains('.') {
                    let j = choose|j: int| 0 <= j < base.len() && base[j] == '.';
                    assert(t[j] == '.');
                }
            }
        },
        None => {
            if t.contains('.') {
                let j = choose|j: int| 0 <= j < t.len() && t[j] == '.';
            }
        },
    }
}

} // verus!
