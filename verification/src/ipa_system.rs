//! The IPA system: the dataset of phonemes and modifiers with alias lookup.

use crate::data::{
    dataset_view, features_view, IpaEntry, IpaEntryView, PhonemeData, PhonemeDataView, SpeFeature,
    SpeFeatureView,
};
use vstd::prelude::*;

verus! {

/// Errors of the IPA system.
pub enum IpaError {
    NotFound(String),
    ParseError(String),
}

/// A loaded IPA dataset together with the map from aliases to the symbols
/// that they stand for.
pub struct IpaSystem {
    dataset: Vec<(String, IpaEntry)>,
    alias_map: Vec<(String, String)>,
}

/// The model of an `IpaSystem`: its named entries, and its (alias, symbol)
/// pairs in the order in which they were recorded.
pub struct IpaSystemView {
    pub dataset: Seq<(Seq<char>, IpaEntryView)>,
    pub aliases: Seq<(Seq<char>, Seq<char>)>,
}

impl View for IpaSystem {
    type V = IpaSystemView;

    closed spec fn view(&self) -> IpaSystemView {
        IpaSystemView {
            dataset: dataset_view(self.dataset@),
            aliases: self.alias_map@.map_values(|p: (String, String)| (p.0@, p.1@)),
        }
    }
}

/// The aliases that an entry declares.
pub open spec fn entry_aliases(e: IpaEntryView) -> Seq<Seq<char>> {
    match e {
        IpaEntryView::Phoneme(d) => d.aliases,
        IpaEntryView::Vowel(d) => d.aliases,
        IpaEntryView::Consonant(d) => d.aliases,
        IpaEntryView::Modifier(d) => d.aliases,
    }
}

/// The (alias, symbol) pairs of a dataset, entry by entry in order.
pub open spec fn spec_alias_pairs(d: Seq<(Seq<char>, IpaEntryView)>) -> Seq<(Seq<char>, Seq<char>)>
    decreases d.len(),
{
    if d.len() == 0 {
        Seq::empty()
    } else {
        spec_alias_pairs(d.drop_last()) + entry_aliases(d.last().1).map_values(
            |a: Seq<char>| (a, d.last().0),
        )
    }
}

/// The entry recorded first under `key`.
pub open spec fn spec_find(d: Seq<(Seq<char>, IpaEntryView)>, key: Seq<char>) -> Option<IpaEntryView>
    decreases d.len(),
{
    if d.len() == 0 {
        None
    } else if d[0].0 == key {
        Some(d[0].1)
    } else {
        spec_find(d.drop_first(), key)
    }
}

/// The symbol that an alias was recorded for last (a later alias replaces an earlier one).
pub open spec fn spec_alias_lookup(pairs: Seq<(Seq<char>, Seq<char>)>, key: Seq<char>) -> Option<Seq<char>>
    decreases pairs.len(),
{
    if pairs.len() == 0 {
        None
    } else if pairs.last().0 == key {
        Some(pairs.last().1)
    } else {
        spec_alias_lookup(pairs.drop_last(), key)
    }
}

/// A symbol or alias resolved to the symbol of its entry.
pub open spec fn spec_resolve(s: IpaSystemView, symbol: Seq<char>) -> Option<Seq<char>> {
    if spec_find(s.dataset, symbol) is Some {
        Some(symbol)
    } else {
        spec_alias_lookup(s.aliases, symbol)
    }
}

/// The entry of a symbol or alias.
pub open spec fn spec_get_entry(s: IpaSystemView, symbol: Seq<char>) -> Option<IpaEntryView> {
    match spec_find(s.dataset, symbol) {
        Some(e) => Some(e),
        None => match spec_alias_lookup(s.aliases, symbol) {
            Some(c) => spec_find(s.dataset, c),
            None => None,
        },
    }
}

/// The phoneme data of an entry that is no modifier.
pub open spec fn entry_phoneme_data(e: Option<IpaEntryView>) -> Option<PhonemeDataView> {
    match e {
        Some(IpaEntryView::Phoneme(d)) => Some(d),
        Some(IpaEntryView::Vowel(d)) => Some(d),
        Some(IpaEntryView::Consonant(d)) => Some(d),
        _ => None,
    }
}

/// The phoneme data of a symbol or alias.
pub open spec fn spec_phoneme_data(s: IpaSystemView, symbol: Seq<char>) -> Option<PhonemeDataView> {
    entry_phoneme_data(spec_get_entry(s, symbol))
}

/// The features of `fs` that do not occur in `removed`, in order.
pub open spec fn keep_not_in(fs: Seq<SpeFeatureView>, removed: Seq<SpeFeatureView>) -> Seq<SpeFeatureView>
    decreases fs.len(),
{
    if fs.len() == 0 {
        Seq::empty()
    } else if removed.contains(fs.last()) {
        keep_not_in(fs.drop_last(), removed)
    } else {
        keep_not_in(fs.drop_last(), removed).push(fs.last())
    }
}

/// `acc` followed by each feature of `added` that is not yet present, in order.
pub open spec fn add_missing(acc: Seq<SpeFeatureView>, added: Seq<SpeFeatureView>) -> Seq<SpeFeatureView>
    decreases added.len(),
{
    if added.len() == 0 {
        acc
    } else {
        let a = add_missing(acc, added.drop_last());
        if a.contains(added.last()) {
            a
        } else {
            a.push(added.last())
        }
    }
}

/// The features of a base phoneme once a modifier has been applied:
/// the removed features go, then each added feature joins unless present.
pub open spec fn spec_combine(base: Seq<SpeFeatureView>, removed: Seq<SpeFeatureView>, added: Seq<SpeFeatureView>) -> Seq<SpeFeatureView> {
    add_missing(keep_not_in(base, removed), added)
}

/// The combination of a base phoneme with a modifier, where the base has
/// phoneme data and the modifier is a modifier entry.
pub open spec fn spec_combine_with_modifier(s: IpaSystemView, base: Seq<char>, modifier: Seq<char>) -> Option<Seq<SpeFeatureView>> {
    match spec_phoneme_data(s, base) {
        Some(b) => match spec_get_entry(s, modifier) {
            Some(IpaEntryView::Modifier(m)) => Some(spec_combine(b.features, m.removed_features, m.added_features)),
            _ => None,
        },
        None => None,
    }
}

/// Whether a feature occurs in a list.
pub fn contains_feature(fs: &Vec<SpeFeature>, f: &SpeFeature) -> (r: bool)
    ensures
        r == features_view(fs@).contains(f@),
{
    let mut i: usize = 0;
    while i < fs.len()
        invariant
            i <= fs.len(),
            forall|j: int| 0 <= j < i ==> fs@[j]@ != f@,
        decreases fs.len() - i,
    {
        if fs[i].same(f) {
            assert(features_view(fs@)[i as int] == f@);
            return true;
        }
        i = i + 1;
    }
    assert forall|j: int| 0 <= j < features_view(fs@).len() implies features_view(fs@)[j] != f@ by {
        assert(features_view(fs@)[j] == fs@[j]@);
    }
    false
}

impl IpaSystem {
    /// Creates a system from a JSON text that maps symbols to entries.
    pub fn new(json_data: &str) -> (r: Result<IpaSystem, IpaError>)
        ensures
            r is Ok <==> crate::data::spec_dataset_of_text(json_data@) is Some,
            r matches Ok(sys) ==> Some(sys@.dataset) == crate::data::spec_dataset_of_text(json_data@)
                && sys@.aliases == spec_alias_pairs(sys@.dataset),
            r matches Err(e) ==> e is ParseError,
            r matches Err(IpaError::ParseError(m)) ==> crate::data::dataset_text_error(json_data@, m@),
    {
        let dataset = match crate::data::parse_and_validate(json_data) {
            Ok(d) => d,
            Err(e) => return Err(IpaError::ParseError(e)),
        };
        let mut alias_map: Vec<(String, String)> = Vec::new();
        let mut i: usize = 0;
        while i < dataset.len()
            invariant
                i <= dataset.len(),
                alias_map@.map_values(|p: (String, String)| (p.0@, p.1@))
                    =~= spec_alias_pairs(dataset_view(dataset@).take(i as int)),
            decreases dataset.len() - i,
        {
            let aliases = match &dataset[i].1 {
                IpaEntry::Phoneme(d) => &d.aliases,
                IpaEntry::Vowel(d) => &d.aliases,
                IpaEntry::Consonant(d) => &d.aliases,
                IpaEntry::Modifier(d) => &d.aliases,
            };
            let ghost dv = dataset_view(dataset@);
            let ghost start = alias_map@.map_values(|p: (String, String)| (p.0@, p.1@));
            assert(dv.take(i + 1).drop_last() =~= dv.take(i as int));
            assert(dv.take(i + 1).last() == dv[i as int]);
            assert(crate::data::strings_view(aliases@) == entry_aliases(dv[i as int].1));
            let mut k: usize = 0;
            while k < aliases.len()
                invariant
                    k <= aliases.len(),
                    i < dataset.len(),
                    dv == dataset_view(dataset@),
                    crate::data::strings_view(aliases@) == entry_aliases(dv[i as int].1),
                    alias_map@.map_values(|p: (String, String)| (p.0@, p.1@))
                        =~= start + entry_aliases(dv[i as int].1).take(k as int).map_values(
                            |a: Seq<char>| (a, dv[i as int].0),
                        ),
                decreases aliases.len() - k,
            {
                let ghost before = alias_map@;
                let a = aliases[k].clone();
                let c = dataset[i].0.clone();
                assert(dv[i as int].0 == dataset@[i as int].0@);
                alias_map.push((a, c));
                assert(alias_map@.map_values(|p: (String, String)| (p.0@, p.1@)) =~= before.map_values(|p: (String, String)| (p.0@, p.1@)).push((aliases@[k as int]@, dv[i as int].0)));
                assert(entry_aliases(dv[i as int].1).take(k + 1) =~= entry_aliases(dv[i as int].1).take(k as int).push(aliases@[k as int]@));
                k = k + 1;
            }
            assert(entry_aliases(dv[i as int].1).take(k as int) =~= entry_aliases(dv[i as int].1));
            i = i + 1;
        }
        assert(dataset_view(dataset@).take(dataset.len() as int) =~= dataset_view(dataset@));
        Ok(IpaSystem { dataset, alias_map })
    }
}

impl IpaSystem {
    /// The position of the entry recorded first under `key`.
    fn find_index(&self, key: &str) -> (r: Option<usize>)
        ensures
            r is None ==> spec_find(self@.dataset, key@) is None,
            r matches Some(i) ==> i < self.dataset@.len() && self.dataset@[i as int].0@ == key@
                && spec_find(self@.dataset, key@) == Some(self.dataset@[i as int].1@),
    {
        let ghost d = self@.dataset;
        let mut i: usize = 0;
        assert(d.skip(0) =~= d);
        while i < self.dataset.len()
            invariant
                i <= self.dataset.len(),
                d == self@.dataset,
                d.len() == self.dataset@.len(),
                spec_find(d, key@) == spec_find(d.skip(i as int), key@),
            decreases self.dataset.len() - i,
        {
            assert(d.skip(i as int).drop_first() =~= d.skip(i + 1));
            assert(d[i as int].0 == self.dataset@[i as int].0@);
            if crate::text::str_eq(self.dataset[i].0.as_str(), key) {
                return Some(i);
            }
            i = i + 1;
        }
        None
    }

    /// The position of the alias pair recorded last for `key`.
    fn alias_index(&self, key: &str) -> (r: Option<usize>)
        ensures
            r is None ==> spec_alias_lookup(self@.aliases, key@) is None,
            r matches Some(i) ==> i < self.alias_map@.len()
                && spec_alias_lookup(self@.aliases, key@) == Some(self.alias_map@[i as int].1@),
    {
        let ghost a = self@.aliases;
        let mut i: usize = self.alias_map.len();
        assert(a.take(a.len() as int) =~= a);
        while i > 0
            invariant
                i <= self.alias_map.len(),
                a == self@.aliases,
                a.len() == self.alias_map@.len(),
                spec_alias_lookup(a, key@) == spec_alias_lookup(a.take(i as int), key@),
            decreases i,
        {
            assert(a.take(i as int).drop_last() =~= a.take(i - 1));
            assert(a[i - 1] == (self.alias_map@[i - 1].0@, self.alias_map@[i - 1].1@));
            if crate::text::str_eq(self.alias_map[i - 1].0.as_str(), key) {
                return Some(i - 1);
            }
            i = i - 1;
        }
        None
    }

    /// Resolves a symbol or alias to the symbol of its entry.
    pub fn resolve_alias(&self, symbol: &str) -> (r: Option<&str>)
        ensures
            r is Some == spec_resolve(self@, symbol@) is Some,
            r matches Some(s) ==> spec_resolve(self@, symbol@) == Some(s@),
    {
        match self.find_index(symbol) {
            Some(i) => Some(self.dataset[i].0.as_str()),
            None => match self.alias_index(symbol) {
                Some(j) => Some(self.alias_map[j].1.as_str()),
                None => None,
            },
        }
    }

    /// The entry of a symbol, resolving aliases.
    pub fn get_entry(&self, symbol: &str) -> (r: Option<&IpaEntry>)
        ensures
            r is Some == spec_get_entry(self@, symbol@) is Some,
            r matches Some(e) ==> spec_get_entry(self@, symbol@) == Some(e@),
    {
        match self.find_index(symbol) {
            Some(i) => Some(&self.dataset[i].1),
            None => match self.alias_index(symbol) {
                Some(j) => match self.find_index(self.alias_map[j].1.as_str()) {
                    Some(k) => Some(&self.dataset[k].1),
                    None => None,
                },
                None => None,
            },
        }
    }

    /// The features, place and manner of a phoneme; `None` for a modifier
    /// or an unknown symbol.
    pub fn get_phoneme_data(&self, symbol: &str) -> (r: Option<&PhonemeData>)
        ensures
            r is Some == spec_phoneme_data(self@, symbol@) is Some,
            r matches Some(d) ==> spec_phoneme_data(self@, symbol@) == Some(d@),
    {
        match self.get_entry(symbol) {
            Some(IpaEntry::Phoneme(d)) => Some(d),
            Some(IpaEntry::Vowel(d)) => Some(d),
            Some(IpaEntry::Consonant(d)) => Some(d),
            _ => None,
        }
    }

    /// The features of a base phoneme combined with a modifier; `None` when
    /// the base has no phoneme data or the modifier is no modifier entry.
    pub fn combine_with_modifier(&self, base: &str, modifier: &str) -> (r: Option<Vec<SpeFeature>>)
        ensures
            r is Some == spec_combine_with_modifier(self@, base@, modifier@) is Some,
            r matches Some(fs) ==> spec_combine_with_modifier(self@, base@, modifier@) == Some(features_view(fs@)),
    {
        let base_data = self.get_phoneme_data(base)?;
        let mod_data = match self.get_entry(modifier) {
            Some(IpaEntry::Modifier(m)) => m,
            _ => return None,
        };
        let kept = keep_features_not_in(&base_data.features, &mod_data.removed_features);
        Some(add_missing_features(kept, &mod_data.added_features))
    }
}

/// The features of `fs` that do not occur in `removed`, in order.
pub fn keep_features_not_in(fs: &Vec<SpeFeature>, removed: &Vec<SpeFeature>) -> (r: Vec<SpeFeature>)
    ensures
        features_view(r@) == keep_not_in(features_view(fs@), features_view(removed@)),
{
    let ghost fv = features_view(fs@);
    let ghost rv = features_view(removed@);
    let mut out: Vec<SpeFeature> = Vec::new();
    let mut i: usize = 0;
    while i < fs.len()
        invariant
            i <= fs.len(),
            fv == features_view(fs@),
            rv == features_view(removed@),
            features_view(out@) =~= keep_not_in(fv.take(i as int), rv),
        decreases fs.len() - i,
    {
        assert(fv.take(i + 1).drop_last() =~= fv.take(i as int));
        assert(fv.take(i + 1).last() == fs@[i as int]@);
        if !contains_feature(removed, &fs[i]) {
            let ghost before = out@;
            out.push(fs[i].copy());
            assert(features_view(out@) =~= features_view(before).push(fs@[i as int]@));
        }
        i = i + 1;
    }
    assert(fv.take(fs.len() as int) =~= fv);
    out
}

/// `acc` followed by each feature of `added` that is not yet present, in order.
pub fn add_missing_features(acc: Vec<SpeFeature>, added: &Vec<SpeFeature>) -> (r: Vec<SpeFeature>)
    ensures
        features_view(r@) == add_missing(features_view(acc@), features_view(added@)),
{
    let ghost av = features_view(added@);
    let ghost start = features_view(acc@);
    let mut out = acc;
    let mut i: usize = 0;
    while i < added.len()
        invariant
            i <= added.len(),
            av == features_view(added@),
            features_view(out@) == add_missing(start, av.take(i as int)),
        decreases added.len() - i,
    {
        assert(av.take(i + 1).drop_last() =~= av.take(i as int));
        assert(av.take(i + 1).last() == added@[i as int]@);
        if !contains_feature(&out, &added[i]) {
            let ghost before = out@;
            out.push(added[i].copy());
            assert(features_view(out@) =~= features_view(before).push(added@[i as int]@));
        }
        i = i + 1;
    }
    assert(av.take(added.len() as int) =~= av);
    out
}

} // verus!

verus! {

proof fn lemma_find_at(d: Seq<(Seq<char>, IpaEntryView)>, key: Seq<char>, i: int)
    requires
        0 <= i < d.len(),
        d[i].0 == key,
    ensures
        spec_find(d, key) is Some,
    decreases d.len(),
{
    if d[0].0 != key {
        assert(d.drop_first()[i - 1] == d[i]);
        lemma_find_at(d.drop_first(), key, i - 1);
    }
}

proof fn lemma_lookup_some_at(pairs: Seq<(Seq<char>, Seq<char>)>, key: Seq<char>, k: int)
    requires
        0 <= k < pairs.len(),
        pairs[k].0 == key,
    ensures
        spec_alias_lookup(pairs, key) is Some,
    decreases pairs.len(),
{
    if pairs.last().0 != key {
        assert(pairs.drop_last()[k] == pairs[k]);
        lemma_lookup_some_at(pairs.drop_last(), key, k);
    }
}

proof fn lemma_lookup_found(pairs: Seq<(Seq<char>, Seq<char>)>, key: Seq<char>)
    requires
        spec_alias_lookup(pairs, key) is Some,
    ensures
        exists|k: int| 0 <= k < pairs.len() && #[trigger] pairs[k] == (key, spec_alias_lookup(pairs, key).unwrap()),
    decreases pairs.len(),
{
    if pairs.last().0 != key {
        lemma_lookup_found(pairs.drop_last(), key);
        let k = choose|k: int| 0 <= k < pairs.drop_last().len() && #[trigger] pairs.drop_last()[k] == (key, spec_alias_lookup(pairs.drop_last(), key).unwrap());
        assert(pairs[k] == pairs.drop_last()[k]);
    } else {
        assert(pairs[pairs.len() - 1] == pairs.last());
    }
}

proof fn lemma_pairs_point_to_keys(d: Seq<(Seq<char>, IpaEntryView)>, k: int)
    requires
        0 <= k < spec_alias_pairs(d).len(),
    ensures
        spec_find(d, spec_alias_pairs(d)[k].1) is Some,
    decreases d.len(),
{
    let pre = spec_alias_pairs(d.drop_last());
    let tail = entry_aliases(d.last().1).map_values(|a: Seq<char>| (a, d.last().0));
    assert(spec_alias_pairs(d) == pre + tail);
    if k < pre.len() {
        assert(spec_alias_pairs(d)[k] == pre[k]);
        lemma_pairs_point_to_keys(d.drop_last(), k);
        let c = pre[k].1;
        let i = choose_key_index(d.drop_last(), c);
        assert(d[i] == d.drop_last()[i]);
        lemma_find_at(d, c, i);
    } else {
        assert(spec_alias_pairs(d)[k] == tail[k - pre.len()]);
        lemma_find_at(d, d.last().0, d.len() - 1);
    }
}

/// The position of a key that the dataset has.
proof fn choose_key_index(d: Seq<(Seq<char>, IpaEntryView)>, key: Seq<char>) -> (i: int)
    requires
        spec_find(d, key) is Some,
    ensures
        0 <= i < d.len(),
        d[i].0 == key,
    decreases d.len(),
{
    if d[0].0 == key {
        0
    } else {
        let j = choose_key_index(d.drop_first(), key);
        assert(d[j + 1] == d.drop_first()[j]);
        j + 1
    }
}

proof fn lemma_alias_listed(d: Seq<(Seq<char>, IpaEntryView)>, i: int, j: int)
    requires
        0 <= i < d.len(),
        0 <= j < entry_aliases(d[i].1).len(),
    ensures
        exists|k: int| 0 <= k < spec_alias_pairs(d).len() && (#[trigger] spec_alias_pairs(d)[k]).0 == entry_aliases(d[i].1)[j],
    decreases d.len(),
{
    let pre = spec_alias_pairs(d.drop_last());
    let tail = entry_aliases(d.last().1).map_values(|a: Seq<char>| (a, d.last().0));
    assert(spec_alias_pairs(d) == pre + tail);
    if i < d.len() - 1 {
        assert(d.drop_last()[i] == d[i]);
        lemma_alias_listed(d.drop_last(), i, j);
        let k = choose|k: int| 0 <= k < pre.len() && (#[trigger] pre[k]).0 == entry_aliases(d[i].1)[j];
        assert(spec_alias_pairs(d)[k] == pre[k]);
    } else {
        let k = pre.len() + j;
        assert(spec_alias_pairs(d)[k] == tail[j]);
    }
}

proof fn lemma_pair_listed(d: Seq<(Seq<char>, IpaEntryView)>, k: int)
    requires
        0 <= k < spec_alias_pairs(d).len(),
    ensures
        exists|i: int| 0 <= i < d.len() && (#[trigger] d[i]).0 == spec_alias_pairs(d)[k].1
            && entry_aliases(d[i].1).contains(spec_alias_pairs(d)[k].0),
    decreases d.len(),
{
    let pre = spec_alias_pairs(d.drop_last());
    let tail = entry_aliases(d.last().1).map_values(|a: Seq<char>| (a, d.last().0));
    assert(spec_alias_pairs(d) == pre + tail);
    if k < pre.len() {
        assert(spec_alias_pairs(d)[k] == pre[k]);
        lemma_pair_listed(d.drop_last(), k);
        let i = choose|i: int| 0 <= i < d.drop_last().len() && (#[trigger] d.drop_last()[i]).0 == pre[k].1
            && entry_aliases(d.drop_last()[i].1).contains(pre[k].0);
        assert(d[i] == d.drop_last()[i]);
    } else {
        let j = k - pre.len();
        assert(spec_alias_pairs(d)[k] == tail[j]);
        assert(entry_aliases(d.last().1)[j] == tail[j].0);
        assert(d[d.len() - 1] == d.last());
    }
}

/// In a system whose aliases are those its dataset declares, a symbol that
/// is no key resolves to a key whose entry lists the symbol among its
/// aliases; and it resolves to nothing exactly when it is neither a key nor
/// an alias that some entry lists.
pub proof fn lemma_alias_resolves_to_its_entry(s: IpaSystemView, symbol: Seq<char>)
    requires
        s.aliases == spec_alias_pairs(s.dataset),
    ensures
        spec_find(s.dataset, symbol) is None && spec_resolve(s, symbol) is Some ==> exists|i: int|
            0 <= i < s.dataset.len() && (#[trigger] s.dataset[i]).0 == spec_resolve(s, symbol).unwrap()
                && entry_aliases(s.dataset[i].1).contains(symbol),
        spec_resolve(s, symbol) is None <==> (spec_find(s.dataset, symbol) is None && forall|i: int|
            0 <= i < s.dataset.len() ==> !entry_aliases(#[trigger] s.dataset[i].1).contains(symbol)),
{
    if spec_find(s.dataset, symbol) is None {
        if spec_alias_lookup(s.aliases, symbol) is Some {
            lemma_lookup_found(s.aliases, symbol);
            let k = choose|k: int| 0 <= k < s.aliases.len() && #[trigger] s.aliases[k] == (symbol, spec_alias_lookup(s.aliases, symbol).unwrap());
            lemma_pair_listed(s.dataset, k);
        } else {
            assert forall|i: int| 0 <= i < s.dataset.len() implies !entry_aliases(#[trigger] s.dataset[i].1).contains(symbol) by {
                if entry_aliases(s.dataset[i].1).contains(symbol) {
                    let j = choose|j: int| 0 <= j < entry_aliases(s.dataset[i].1).len() && entry_aliases(s.dataset[i].1)[j] == symbol;
                    lemma_declared_aliases_resolve(s, i, j);
                }
            }
        }
    }
}

/// In a system whose aliases are those its dataset declares: a symbol or
/// alias resolves to a key of the dataset; it has an entry exactly when it
/// resolves, and that entry is the entry of the key it resolves to; a key
/// resolves to itself.
pub proof fn lemma_aliases_resolve_to_keys(s: IpaSystemView, symbol: Seq<char>)
    requires
        s.aliases == spec_alias_pairs(s.dataset),
    ensures
        spec_resolve(s, symbol) matches Some(c) ==> spec_find(s.dataset, c) is Some
            && spec_get_entry(s, symbol) == spec_get_entry(s, c),
        spec_get_entry(s, symbol) is Some <==> spec_resolve(s, symbol) is Some,
        spec_find(s.dataset, symbol) is Some ==> spec_resolve(s, symbol) == Some(symbol),
{
    if spec_find(s.dataset, symbol) is None {
        if spec_alias_lookup(s.aliases, symbol) is Some {
            lemma_lookup_found(s.aliases, symbol);
            let k = choose|k: int| 0 <= k < s.aliases.len() && #[trigger] s.aliases[k] == (symbol, spec_alias_lookup(s.aliases, symbol).unwrap());
            lemma_pairs_point_to_keys(s.dataset, k);
        }
    }
}

/// Every alias that an entry of the dataset declares resolves.
pub proof fn lemma_declared_aliases_resolve(s: IpaSystemView, i: int, j: int)
    requires
        s.aliases == spec_alias_pairs(s.dataset),
        0 <= i < s.dataset.len(),
        0 <= j < entry_aliases(s.dataset[i].1).len(),
    ensures
        spec_resolve(s, entry_aliases(s.dataset[i].1)[j]) is Some,
{
    let a = entry_aliases(s.dataset[i].1)[j];
    if spec_find(s.dataset, a) is None {
        lemma_alias_listed(s.dataset, i, j);
        let k = choose|k: int| 0 <= k < spec_alias_pairs(s.dataset).len() && (#[trigger] spec_alias_pairs(s.dataset)[k]).0 == a;
        lemma_lookup_some_at(s.aliases, a, k);
    }
}

} // verus!

verus! {

proof fn lemma_push_contains<A>(s: Seq<A>, v: A, x: A)
    ensures
        s.push(v).contains(x) <==> (s.contains(x) || x == v),
{
    if s.contains(x) {
        let i = choose|i: int| 0 <= i < s.len() && s[i] == x;
        assert(s.push(v)[i] == x);
    }
    if x == v {
        assert(s.push(v)[s.len() as int] == v);
    }
    if s.push(v).contains(x) {
        let i = choose|i: int| 0 <= i < s.push(v).len() && s.push(v)[i] == x;
        if i < s.len() {
            assert(s[i] == x);
        }
    }
}

proof fn lemma_drop_last_contains<A>(s: Seq<A>, x: A)
    requires
        s.len() > 0,
    ensures
        s.contains(x) <==> (s.drop_last().contains(x) || x == s.last()),
{
    assert(s.drop_last().push(s.last()) =~= s);
    lemma_push_contains(s.drop_last(), s.last(), x);
}

proof fn lemma_add_missing(acc: Seq<SpeFeatureView>, added: Seq<SpeFeatureView>)
    ensures
        forall|x: SpeFeatureView| #[trigger] add_missing(acc, added).contains(x) <==> (acc.contains(x) || added.contains(x)),
        acc.no_duplicates() ==> add_missing(acc, added).no_duplicates(),
    decreases added.len(),
{
    if added.len() > 0 {
        let a = add_missing(acc, added.drop_last());
        lemma_add_missing(acc, added.drop_last());
        assert forall|x: SpeFeatureView| #[trigger] add_missing(acc, added).contains(x) <==> (acc.contains(x) || added.contains(x)) by {
            lemma_drop_last_contains(added, x);
            lemma_push_contains(a, added.last(), x);
        }
        if !a.contains(added.last()) && a.no_duplicates() {
            assert forall|i: int, j: int| 0 <= i < a.push(added.last()).len() && 0 <= j < a.push(added.last()).len() && i != j
                implies a.push(added.last())[i] != a.push(added.last())[j] by {
                if i < a.len() && j < a.len() {
                } else if i < a.len() {
                    assert(a.contains(a[i]));
                } else if j < a.len() {
                    assert(a.contains(a[j]));
                }
            }
        }
    }
}

proof fn lemma_keep_not_in(fs: Seq<SpeFeatureView>, removed: Seq<SpeFeatureView>)
    ensures
        forall|x: SpeFeatureView| #[trigger] keep_not_in(fs, removed).contains(x) <==> (fs.contains(x) && !removed.contains(x)),
        fs.no_duplicates() ==> keep_not_in(fs, removed).no_duplicates(),
    decreases fs.len(),
{
    if fs.len() > 0 {
        let k = keep_not_in(fs.drop_last(), removed);
        lemma_keep_not_in(fs.drop_last(), removed);
        assert forall|x: SpeFeatureView| #[trigger] keep_not_in(fs, removed).contains(x) <==> (fs.contains(x) && !removed.contains(x)) by {
            lemma_drop_last_contains(fs, x);
            lemma_push_contains(k, fs.last(), x);
        }
        if fs.no_duplicates() {
            assert(fs.drop_last().no_duplicates()) by {
                assert forall|i: int, j: int| 0 <= i < fs.drop_last().len() && 0 <= j < fs.drop_last().len() && i != j
                    implies fs.drop_last()[i] != fs.drop_last()[j] by {
                    assert(fs.drop_last()[i] == fs[i] && fs.drop_last()[j] == fs[j]);
                }
            }
            if !removed.contains(fs.last()) {
                assert(!fs.drop_last().contains(fs.last())) by {
                    if fs.drop_last().contains(fs.last()) {
                        let i = choose|i: int| 0 <= i < fs.drop_last().len() && fs.drop_last()[i] == fs.last();
                        assert(fs[i] == fs[fs.len() - 1]);
                    }
                }
                assert(!k.contains(fs.last()));
                assert forall|i: int, j: int| 0 <= i < k.push(fs.last()).len() && 0 <= j < k.push(fs.last()).len() && i != j
                    implies k.push(fs.last())[i] != k.push(fs.last())[j] by {
                    if i < k.len() && j < k.len() {
                    } else if i < k.len() {
                        assert(k.contains(k[i]));
                    } else if j < k.len() {
                        assert(k.contains(k[j]));
                    }
                }
            }
        }
    }
}

/// Combining a base with a modifier: every added feature is present; every
/// feature present is an added one or a feature of the base that was not
/// removed; and a base without repeated features gives none.
pub proof fn lemma_combine_laws(base: Seq<SpeFeatureView>, removed: Seq<SpeFeatureView>, added: Seq<SpeFeatureView>)
    ensures
        forall|a: SpeFeatureView| added.contains(a) ==> #[trigger] spec_combine(base, removed, added).contains(a),
        forall|f: SpeFeatureView| #[trigger] spec_combine(base, removed, added).contains(f) ==> added.contains(f)
            || (base.contains(f) && !removed.contains(f)),
        base.no_duplicates() ==> spec_combine(base, removed, added).no_duplicates(),
{
    lemma_keep_not_in(base, removed);
    lemma_add_missing(keep_not_in(base, removed), added);
}

} // verus!
