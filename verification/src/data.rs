//! The IPA dataset: SPE features, phoneme and modifier entries, and how a
//! JSON document is read into them.

use crate::json::{find_member, json_member, JsonValue};
use crate::text::chars_of;
use vstd::prelude::*;

verus! {

/// A binary SPE feature with its value, such as `+voice` or `-round`.
pub enum SpeFeature {
    Plus(String),
    Minus(String),
}

/// The mathematical model of a `SpeFeature`.
pub enum SpeFeatureView {
    Plus(Seq<char>),
    Minus(Seq<char>),
}

impl View for SpeFeature {
    type V = SpeFeatureView;

    open spec fn view(&self) -> SpeFeatureView {
        match self {
            SpeFeature::Plus(s) => SpeFeatureView::Plus(s@),
            SpeFeature::Minus(s) => SpeFeatureView::Minus(s@),
        }
    }
}

/// The models of a list of features.
pub open spec fn features_view(fs: Seq<SpeFeature>) -> Seq<SpeFeatureView> {
    fs.map_values(|f: SpeFeature| f@)
}

/// The models of a list of strings.
pub open spec fn strings_view(ss: Seq<String>) -> Seq<Seq<char>> {
    ss.map_values(|s: String| s@)
}

/// What `+name` or `-name` denotes; any other text denotes no feature.
pub open spec fn spec_parse_feature(s: Seq<char>) -> Option<SpeFeatureView> {
    if s.len() > 0 && s[0] == '+' {
        Some(SpeFeatureView::Plus(s.drop_first()))
    } else if s.len() > 0 && s[0] == '-' {
        Some(SpeFeatureView::Minus(s.drop_first()))
    } else {
        None
    }
}

/// The text of a feature: its sign followed by its name.
pub open spec fn spec_feature_text(f: SpeFeatureView) -> Seq<char> {
    match f {
        SpeFeatureView::Plus(n) => seq!['+'] + n,
        SpeFeatureView::Minus(n) => seq!['-'] + n,
    }
}

impl SpeFeature {
    /// Parses `+name` or `-name`.
    pub fn parse(s: &str) -> (r: Result<SpeFeature, String>)
        ensures
            r is Ok <==> spec_parse_feature(s@) is Some,
            r matches Ok(f) ==> Some(f@) == spec_parse_feature(s@),
            r matches Err(m) ==> m@ == feature_parse_error(s@),
    {
        let cs = chars_of(s);
        if cs.len() > 0 && (cs[0] == '+' || cs[0] == '-') {
            let rest = crate::text::string_range(cs.as_slice(), 1, cs.len());
            assert(cs@.subrange(1, cs@.len() as int) =~= s@.drop_first());
            if cs[0] == '+' {
                Ok(SpeFeature::Plus(rest))
            } else {
                Ok(SpeFeature::Minus(rest))
            }
        } else {
            let head = crate::text::concat2("Feature ", s);
            Err(crate::text::concat2(head.as_str(), " must start with '+' or '-'"))
        }
    }

    /// The feature's text, such as `+voice`.
    pub fn to_text(&self) -> (r: String)
        ensures
            r@ == spec_feature_text(self@),
    {
        match self {
            SpeFeature::Plus(n) => crate::text::prefixed('+', n.as_str()),
            SpeFeature::Minus(n) => crate::text::prefixed('-', n.as_str()),
        }
    }

    /// A copy of the feature.
    pub fn copy(&self) -> (r: SpeFeature)
        ensures
            r@ == self@,
    {
        match self {
            SpeFeature::Plus(n) => SpeFeature::Plus(n.clone()),
            SpeFeature::Minus(n) => SpeFeature::Minus(n.clone()),
        }
    }

    /// Whether two features have the same sign and name.
    pub fn same(&self, other: &SpeFeature) -> (r: bool)
        ensures
            r == (self@ == other@),
    {
        match (self, other) {
            (SpeFeature::Plus(a), SpeFeature::Plus(b)) => crate::text::str_eq(a.as_str(), b.as_str()),
            (SpeFeature::Minus(a), SpeFeature::Minus(b)) => crate::text::str_eq(a.as_str(), b.as_str()),
            _ => false,
        }
    }
}

} // verus!

verus! {

/// Features, place, manner and aliases of a phoneme, with its sonority rank.
pub struct PhonemeData {
    pub features: Vec<SpeFeature>,
    pub place: Vec<String>,
    pub manner: Vec<String>,
    pub aliases: Vec<String>,
    pub sonority: i32,
}

/// The model of a `PhonemeData`.
pub struct PhonemeDataView {
    pub features: Seq<SpeFeatureView>,
    pub place: Seq<Seq<char>>,
    pub manner: Seq<Seq<char>>,
    pub aliases: Seq<Seq<char>>,
    pub sonority: int,
}

impl View for PhonemeData {
    type V = PhonemeDataView;

    open spec fn view(&self) -> PhonemeDataView {
        PhonemeDataView {
            features: features_view(self.features@),
            place: strings_view(self.place@),
            manner: strings_view(self.manner@),
            aliases: strings_view(self.aliases@),
            sonority: self.sonority as int,
        }
    }
}

/// The features that a modifier adds to and removes from a base phoneme.
pub struct ModifierData {
    pub added_features: Vec<SpeFeature>,
    pub removed_features: Vec<SpeFeature>,
    pub aliases: Vec<String>,
}

/// The model of a `ModifierData`.
pub struct ModifierDataView {
    pub added_features: Seq<SpeFeatureView>,
    pub removed_features: Seq<SpeFeatureView>,
    pub aliases: Seq<Seq<char>>,
}

impl View for ModifierData {
    type V = ModifierDataView;

    open spec fn view(&self) -> ModifierDataView {
        ModifierDataView {
            added_features: features_view(self.added_features@),
            removed_features: features_view(self.removed_features@),
            aliases: strings_view(self.aliases@),
        }
    }
}

/// One entry of the IPA dataset.
pub enum IpaEntry {
    Phoneme(PhonemeData),
    Vowel(PhonemeData),
    Consonant(PhonemeData),
    Modifier(ModifierData),
}

/// The model of an `IpaEntry`.
pub enum IpaEntryView {
    Phoneme(PhonemeDataView),
    Vowel(PhonemeDataView),
    Consonant(PhonemeDataView),
    Modifier(ModifierDataView),
}

impl View for IpaEntry {
    type V = IpaEntryView;

    open spec fn view(&self) -> IpaEntryView {
        match self {
            IpaEntry::Phoneme(d) => IpaEntryView::Phoneme(d@),
            IpaEntry::Vowel(d) => IpaEntryView::Vowel(d@),
            IpaEntry::Consonant(d) => IpaEntryView::Consonant(d@),
            IpaEntry::Modifier(d) => IpaEntryView::Modifier(d@),
        }
    }
}

/// The models of the named entries of a dataset.
pub open spec fn dataset_view(d: Seq<(String, IpaEntry)>) -> Seq<(Seq<char>, IpaEntryView)> {
    d.map_values(|p: (String, IpaEntry)| (p.0@, p.1@))
}

// ----- reading the dataset out of a JSON document -----

/// Whether a JSON value is a string.
pub open spec fn is_json_text(v: JsonValue) -> bool {
    v is Str
}

/// The text of a JSON value that is a string.
pub open spec fn json_text(v: JsonValue) -> Seq<char> {
    match v {
        JsonValue::Str(s) => s@,
        _ => Seq::empty(),
    }
}

/// The texts of a list of JSON values, where each is a string.
pub open spec fn spec_texts_of(items: Seq<JsonValue>) -> Option<Seq<Seq<char>>> {
    if forall|i: int| 0 <= i < items.len() ==> is_json_text(#[trigger] items[i]) {
        Some(items.map_values(|x: JsonValue| json_text(x)))
    } else {
        None
    }
}

/// Whether a JSON value is a string in `+name` or `-name` form.
pub open spec fn is_json_feature(v: JsonValue) -> bool {
    v is Str && spec_parse_feature(json_text(v)) is Some
}

/// The feature that a JSON string denotes.
pub open spec fn json_feature(v: JsonValue) -> SpeFeatureView {
    spec_parse_feature(json_text(v)).unwrap()
}

/// The features of a list of JSON values, where each is a string in
/// `+name` or `-name` form.
pub open spec fn spec_features_of(items: Seq<JsonValue>) -> Option<Seq<SpeFeatureView>> {
    if forall|i: int| 0 <= i < items.len() ==> is_json_feature(#[trigger] items[i]) {
        Some(items.map_values(|x: JsonValue| json_feature(x)))
    } else {
        None
    }
}

/// A list-of-strings field: absent means empty.
pub open spec fn spec_text_list(v: Option<JsonValue>) -> Option<Seq<Seq<char>>> {
    match v {
        None => Some(Seq::empty()),
        Some(JsonValue::Array(items)) => spec_texts_of(items@),
        Some(_) => None,
    }
}

/// A list-of-features field: absent means empty.
pub open spec fn spec_feature_list(v: Option<JsonValue>) -> Option<Seq<SpeFeatureView>> {
    match v {
        None => Some(Seq::empty()),
        Some(JsonValue::Array(items)) => spec_features_of(items@),
        Some(_) => None,
    }
}

/// Whether a character is an ASCII digit.
pub open spec fn is_digit(c: char) -> bool {
    '0' <= c && c <= '9'
}

/// The value of a non-empty run of decimal digits.
pub open spec fn digits_value(s: Seq<char>) -> int
    decreases s.len(),
{
    if s.len() == 0 {
        0
    } else {
        digits_value(s.drop_last()) * 10 + ((s.last() as int) - ('0' as int))
    }
}

/// Whether every character of a text is a decimal digit.
pub open spec fn all_digits(s: Seq<char>) -> bool {
    forall|i: int| 0 <= i < s.len() ==> is_digit(#[trigger] s[i])
}

/// Whether a number's text starts with a minus sign.
pub open spec fn is_negative_text(t: Seq<char>) -> bool {
    t.len() > 0 && t[0] == '-'
}

/// The digits of a number's text, after its sign.
pub open spec fn digits_part(t: Seq<char>) -> Seq<char> {
    if is_negative_text(t) {
        t.drop_first()
    } else {
        t
    }
}

/// The integer that a JSON number's text denotes, where it is an integer
/// that fits in `i32`.
pub open spec fn spec_parse_int(t: Seq<char>) -> Option<int> {
    if digits_part(t).len() == 0 || !all_digits(digits_part(t)) {
        None
    } else {
        let v = if is_negative_text(t) {
            -digits_value(digits_part(t))
        } else {
            digits_value(digits_part(t))
        };
        if i32::MIN <= v <= i32::MAX {
            Some(v)
        } else {
            None
        }
    }
}

/// An integer field: absent means zero.
pub open spec fn spec_int_field(v: Option<JsonValue>) -> Option<int> {
    match v {
        None => Some(0),
        Some(JsonValue::Number(t)) => spec_parse_int(t@),
        Some(_) => None,
    }
}

/// The phoneme data that an entry's members describe.
pub open spec fn spec_phoneme_data(ms: Seq<(String, JsonValue)>) -> Option<PhonemeDataView> {
    match (
        spec_feature_list(json_member(ms, "features"@)),
        spec_text_list(json_member(ms, "place"@)),
        spec_text_list(json_member(ms, "manner"@)),
        spec_text_list(json_member(ms, "aliases"@)),
        spec_int_field(json_member(ms, "sonority"@)),
    ) {
        (Some(f), Some(p), Some(m), Some(a), Some(s)) => Some(
            PhonemeDataView { features: f, place: p, manner: m, aliases: a, sonority: s },
        ),
        _ => None,
    }
}

/// The modifier data that an entry's members describe.
pub open spec fn spec_modifier_data(ms: Seq<(String, JsonValue)>) -> Option<ModifierDataView> {
    match (
        spec_feature_list(json_member(ms, "added_features"@)),
        spec_feature_list(json_member(ms, "removed_features"@)),
        spec_text_list(json_member(ms, "aliases"@)),
    ) {
        (Some(ad), Some(rm), Some(a)) => Some(
            ModifierDataView { added_features: ad, removed_features: rm, aliases: a },
        ),
        _ => None,
    }
}

/// The entry that a JSON object describes: its `type` member names the
/// kind of entry, and the other members fill its data.
pub open spec fn spec_entry_of(v: JsonValue) -> Option<IpaEntryView> {
    match v {
        JsonValue::Object(ms) => match json_member(ms@, "type"@) {
            Some(JsonValue::Str(t)) => if t@ == "phoneme"@ {
                match spec_phoneme_data(ms@) {
                    Some(d) => Some(IpaEntryView::Phoneme(d)),
                    None => None,
                }
            } else if t@ == "vowel"@ {
                match spec_phoneme_data(ms@) {
                    Some(d) => Some(IpaEntryView::Vowel(d)),
                    None => None,
                }
            } else if t@ == "consonant"@ {
                match spec_phoneme_data(ms@) {
                    Some(d) => Some(IpaEntryView::Consonant(d)),
                    None => None,
                }
            } else if t@ == "modifier"@ {
                match spec_modifier_data(ms@) {
                    Some(d) => Some(IpaEntryView::Modifier(d)),
                    None => None,
                }
            } else {
                None
            },
            _ => None,
        },
        _ => None,
    }
}

/// The named entries that the members of the dataset object describe.
pub open spec fn spec_entries_of(ms: Seq<(String, JsonValue)>) -> Option<Seq<(Seq<char>, IpaEntryView)>> {
    if forall|i: int| 0 <= i < ms.len() ==> (#[trigger] spec_entry_of(ms[i].1)) is Some {
        Some(ms.map_values(|m: (String, JsonValue)| (m.0@, spec_entry_of(m.1).unwrap())))
    } else {
        None
    }
}

/// The dataset that a JSON document describes: an object mapping symbols to entries.
pub open spec fn spec_dataset_of(v: JsonValue) -> Option<Seq<(Seq<char>, IpaEntryView)>> {
    match v {
        JsonValue::Object(ms) => spec_entries_of(ms@),
        _ => None,
    }
}

/// The dataset that a JSON text describes.
pub open spec fn spec_dataset_of_text(text: Seq<char>) -> Option<Seq<(Seq<char>, IpaEntryView)>> {
    match crate::json::json_parse(text) {
        Some(v) => spec_dataset_of(v),
        None => None,
    }
}

// ----- the messages of a dataset that cannot be read -----

/// The message for a feature text without a sign.
pub open spec fn feature_parse_error(s: Seq<char>) -> Seq<char> {
    "Feature "@ + s + " must start with '+' or '-'"@
}

/// The message for an item of a feature list that is no feature.
pub open spec fn feature_item_error(v: JsonValue) -> Seq<char> {
    match v {
        JsonValue::Str(s) => feature_parse_error(s@),
        _ => "expected a list of features"@,
    }
}

/// The message for the first item, from `i` on, that is no feature.
pub open spec fn features_error_from(items: Seq<JsonValue>, i: int) -> Seq<char>
    decreases items.len() - i,
{
    if i < 0 || i >= items.len() {
        Seq::empty()
    } else if is_json_feature(items[i]) {
        features_error_from(items, i + 1)
    } else {
        feature_item_error(items[i])
    }
}

/// The message for a list-of-features field that cannot be read.
pub open spec fn feature_list_error(v: Option<JsonValue>) -> Seq<char> {
    match v {
        Some(JsonValue::Array(items)) => features_error_from(items@, 0),
        _ => "expected a list of features"@,
    }
}

/// The message for an integer field that cannot be read.
pub open spec fn int_field_error(v: Option<JsonValue>) -> Seq<char> {
    match v {
        Some(JsonValue::Number(t)) => if digits_part(t@).len() == 0 || !all_digits(digits_part(t@)) {
            "expected an integer"@
        } else {
            "integer out of range"@
        },
        _ => "expected an integer"@,
    }
}

/// The message for the first field of a phoneme entry that cannot be read.
pub open spec fn phoneme_data_error(ms: Seq<(String, JsonValue)>) -> Seq<char> {
    if spec_feature_list(json_member(ms, "features"@)) is None {
        feature_list_error(json_member(ms, "features"@))
    } else if spec_text_list(json_member(ms, "place"@)) is None
        || spec_text_list(json_member(ms, "manner"@)) is None
        || spec_text_list(json_member(ms, "aliases"@)) is None {
        "expected a list of strings"@
    } else {
        int_field_error(json_member(ms, "sonority"@))
    }
}

/// The message for the first field of a modifier entry that cannot be read.
pub open spec fn modifier_data_error(ms: Seq<(String, JsonValue)>) -> Seq<char> {
    if spec_feature_list(json_member(ms, "added_features"@)) is None {
        feature_list_error(json_member(ms, "added_features"@))
    } else if spec_feature_list(json_member(ms, "removed_features"@)) is None {
        feature_list_error(json_member(ms, "removed_features"@))
    } else {
        "expected a list of strings"@
    }
}

/// The message for a JSON value that is no entry.
pub open spec fn entry_error(v: JsonValue) -> Seq<char> {
    match v {
        JsonValue::Object(ms) => match json_member(ms@, "type"@) {
            Some(JsonValue::Str(t)) => if t@ == "phoneme"@ || t@ == "vowel"@ || t@ == "consonant"@ {
                phoneme_data_error(ms@)
            } else if t@ == "modifier"@ {
                modifier_data_error(ms@)
            } else {
                "unknown entry type "@ + t@
            },
            _ => "missing entry type"@,
        },
        _ => "an entry must be an object"@,
    }
}

/// The message for the first member, from `i` on, that is no entry.
pub open spec fn entries_error_from(ms: Seq<(String, JsonValue)>, i: int) -> Seq<char>
    decreases ms.len() - i,
{
    if i < 0 || i >= ms.len() {
        Seq::empty()
    } else if spec_entry_of(ms[i].1) is Some {
        entries_error_from(ms, i + 1)
    } else {
        entry_error(ms[i].1)
    }
}

/// The message for a JSON document that is no dataset.
pub open spec fn dataset_error(v: JsonValue) -> Seq<char> {
    match v {
        JsonValue::Object(ms) => entries_error_from(ms@, 0),
        _ => "the dataset must be an object"@,
    }
}

/// What reading a dataset out of a text fails with: for a JSON document,
/// `Deserialization error: ` and the message of the first part that cannot
/// be read; for a text that is no JSON document, `JSON parsing error: ` and
/// the parser's own message, of which the first part is stated.
pub open spec fn dataset_text_error(text: Seq<char>, m: Seq<char>) -> bool {
    match crate::json::json_parse(text) {
        Some(v) => m == "Deserialization error: "@ + dataset_error(v),
        None => "JSON parsing error: "@.is_prefix_of(m),
    }
}

} // verus!

verus! {

/// The value behind an optional reference.
pub open spec fn deref_opt(v: Option<&JsonValue>) -> Option<JsonValue> {
    match v {
        Some(x) => Some(*x),
        None => None,
    }
}

/// Reads a list-of-strings field.
fn read_text_list(v: Option<&JsonValue>) -> (r: Result<Vec<String>, String>)
    ensures
        r is Ok <==> spec_text_list(deref_opt(v)) is Some,
        r matches Ok(l) ==> Some(strings_view(l@)) == spec_text_list(deref_opt(v)),
        r matches Err(m) ==> m@ == "expected a list of strings"@,
{
    match v {
        None => {
            let out: Vec<String> = Vec::new();
            assert(strings_view(out@) =~= Seq::<Seq<char>>::empty());
            Ok(out)
        },
        Some(JsonValue::Array(items)) => {
            let mut out: Vec<String> = Vec::new();
            let mut i: usize = 0;
            while i < items.len()
                invariant
                    i <= items.len(),
                    deref_opt(v) == Some(JsonValue::Array(*items)),
                    forall|j: int| 0 <= j < i ==> is_json_text(#[trigger] items@[j]),
                    strings_view(out@) =~= items@.take(i as int).map_values(|x: JsonValue| json_text(x)),
                decreases items.len() - i,
            {
                match &items[i] {
                    JsonValue::Str(s) => {
                        let ghost before = out@;
                        out.push(s.clone());
                        assert(strings_view(out@) =~= strings_view(before).push(s@));
                        assert(items@.take(i + 1) =~= items@.take(i as int).push(items@[i as int]));
                    },
                    _ => {
                        assert(!is_json_text(items@[i as int]));
                        assert(spec_texts_of(items@) is None);
                        return Err(String::from_str("expected a list of strings"));
                    },
                }
                i = i + 1;
            }
            assert(items@.take(items.len() as int) =~= items@);
            Ok(out)
        },
        Some(_) => Err(String::from_str("expected a list of strings")),
    }
}

/// Reads a list-of-features field.
fn read_feature_list(v: Option<&JsonValue>) -> (r: Result<Vec<SpeFeature>, String>)
    ensures
        r is Ok <==> spec_feature_list(deref_opt(v)) is Some,
        r matches Ok(l) ==> Some(features_view(l@)) == spec_feature_list(deref_opt(v)),
        r matches Err(m) ==> m@ == feature_list_error(deref_opt(v)),
{
    match v {
        None => {
            let out: Vec<SpeFeature> = Vec::new();
            assert(features_view(out@) =~= Seq::<SpeFeatureView>::empty());
            Ok(out)
        },
        Some(JsonValue::Array(items)) => {
            let mut out: Vec<SpeFeature> = Vec::new();
            let mut i: usize = 0;
            while i < items.len()
                invariant
                    i <= items.len(),
                    deref_opt(v) == Some(JsonValue::Array(*items)),
                    forall|j: int| 0 <= j < i ==> is_json_feature(#[trigger] items@[j]),
                    features_error_from(items@, 0) == features_error_from(items@, i as int),
                    features_view(out@) =~= items@.take(i as int).map_values(|x: JsonValue| json_feature(x)),
                decreases items.len() - i,
            {
                match &items[i] {
                    JsonValue::Str(s) => {
                        match SpeFeature::parse(s.as_str()) {
                            Ok(f) => {
                                let ghost before = out@;
                                out.push(f);
                                assert(features_view(out@) =~= features_view(before).push(f@));
                                assert(items@.take(i + 1) =~= items@.take(i as int).push(items@[i as int]));
                            },
                            Err(e) => {
                                assert(!is_json_feature(items@[i as int]));
                                assert(spec_features_of(items@) is None);
                                return Err(e);
                            },
                        }
                    },
                    _ => {
                        assert(!is_json_feature(items@[i as int]));
                        assert(spec_features_of(items@) is None);
                        return Err(String::from_str("expected a list of features"));
                    },
                }
                i = i + 1;
            }
            assert(items@.take(items.len() as int) =~= items@);
            Ok(out)
        },
        Some(_) => Err(String::from_str("expected a list of features")),
    }
}

/// A value capped just above the range of `i32`, so that overflow stays visible.
pub open spec fn capped(v: int) -> int {
    if v < 2147483649 {
        v
    } else {
        2147483649
    }
}

proof fn lemma_digits_value_nonneg(s: Seq<char>)
    requires
        forall|i: int| 0 <= i < s.len() ==> is_digit(#[trigger] s[i]),
    ensures
        digits_value(s) >= 0,
    decreases s.len(),
{
    if s.len() > 0 {
        assert(forall|i: int| 0 <= i < s.drop_last().len() ==> s.drop_last()[i] == s[i]);
        lemma_digits_value_nonneg(s.drop_last());
        assert(is_digit(s[s.len() - 1]));
    }
}

/// Reads an integer field that must fit in `i32`.
fn read_int_field(v: Option<&JsonValue>) -> (r: Result<i32, String>)
    ensures
        r is Ok <==> spec_int_field(deref_opt(v)) is Some,
        r matches Ok(n) ==> Some(n as int) == spec_int_field(deref_opt(v)),
        r matches Err(m) ==> m@ == int_field_error(deref_opt(v)),
{
    match v {
        None => Ok(0),
        Some(JsonValue::Number(t)) => {
            let cs = chars_of(t.as_str());
            let neg = cs.len() > 0 && cs[0] == '-';
            let start: usize = if neg { 1 } else { 0 };
            let ghost digits = digits_part(t@);
            assert(digits =~= cs@.subrange(start as int, cs@.len() as int));
            if start == cs.len() {
                return Err(String::from_str("expected an integer"));
            }
            let mut acc: i64 = 0;
            let mut k = start;
            while k < cs.len()
                invariant
                    start <= k <= cs.len(),
                    deref_opt(v) == Some(JsonValue::Number(*t)),
                    cs@ == t@,
                    neg == is_negative_text(t@),
                    start == (if neg { 1usize } else { 0usize }),
                    digits == digits_part(t@),
                    digits == cs@.subrange(start as int, cs@.len() as int),
                    forall|j: int| start <= j < k ==> is_digit(#[trigger] cs@[j]),
                    acc == capped(digits_value(cs@.subrange(start as int, k as int))),
                    0 <= acc <= 2147483649,
                decreases cs.len() - k,
            {
                let c = cs[k];
                if !('0' <= c && c <= '9') {
                    assert(digits[k - start] == c);
                    assert(!is_digit(digits[k - start]));
                    assert(!all_digits(digits));
                    return Err(String::from_str("expected an integer"));
                }
                let ghost prev = cs@.subrange(start as int, k as int);
                proof {
                    assert(forall|i: int| 0 <= i < prev.len() ==> is_digit(#[trigger] prev[i]) ) by {
                        assert forall|i: int| 0 <= i < prev.len() implies is_digit(#[trigger] prev[i]) by {
                            assert(prev[i] == cs@[start + i]);
                        }
                    }
                    lemma_digits_value_nonneg(prev);
                    assert(cs@.subrange(start as int, k + 1).drop_last() =~= prev);
                }
                let d = (c as u32 - '0' as u32) as i64;
                let next = acc * 10 + d;
                acc = if next < 2147483649 { next } else { 2147483649 };
                k = k + 1;
            }
            assert(all_digits(digits)) by {
                assert forall|i: int| 0 <= i < digits.len() implies is_digit(#[trigger] digits[i]) by {
                    assert(digits[i] == cs@[start + i]);
                }
            }
            if neg {
                if acc <= 2147483648 {
                    Ok((0 - acc) as i32)
                } else {
                    Err(String::from_str("integer out of range"))
                }
            } else {
                if acc <= 2147483647 {
                    Ok(acc as i32)
                } else {
                    Err(String::from_str("integer out of range"))
                }
            }
        },
        Some(_) => Err(String::from_str("expected an integer")),
    }
}

/// Reads the data of a phoneme entry out of its members.
fn read_phoneme_data(ms: &Vec<(String, JsonValue)>) -> (r: Result<PhonemeData, String>)
    ensures
        r is Ok <==> spec_phoneme_data(ms@) is Some,
        r matches Ok(d) ==> Some(d@) == spec_phoneme_data(ms@),
        r matches Err(m) ==> m@ == phoneme_data_error(ms@),
{
    let features = read_feature_list(find_member(ms, "features"))?;
    let place = read_text_list(find_member(ms, "place"))?;
    let manner = read_text_list(find_member(ms, "manner"))?;
    let aliases = read_text_list(find_member(ms, "aliases"))?;
    let sonority = read_int_field(find_member(ms, "sonority"))?;
    Ok(PhonemeData { features, place, manner, aliases, sonority })
}

/// Reads the data of a modifier entry out of its members.
fn read_modifier_data(ms: &Vec<(String, JsonValue)>) -> (r: Result<ModifierData, String>)
    ensures
        r is Ok <==> spec_modifier_data(ms@) is Some,
        r matches Ok(d) ==> Some(d@) == spec_modifier_data(ms@),
        r matches Err(m) ==> m@ == modifier_data_error(ms@),
{
    let added_features = read_feature_list(find_member(ms, "added_features"))?;
    let removed_features = read_feature_list(find_member(ms, "removed_features"))?;
    let aliases = read_text_list(find_member(ms, "aliases"))?;
    Ok(ModifierData { added_features, removed_features, aliases })
}

impl IpaEntry {
    /// Reads an entry out of a JSON object whose `type` member is one of
    /// `phoneme`, `vowel`, `consonant` or `modifier`.
    pub fn from_json(v: &JsonValue) -> (r: Result<IpaEntry, String>)
        ensures
            r is Ok <==> spec_entry_of(*v) is Some,
            r matches Ok(e) ==> Some(e@) == spec_entry_of(*v),
            r matches Err(m) ==> m@ == entry_error(*v),
    {
        match v {
            JsonValue::Object(ms) => match find_member(ms, "type") {
                Some(JsonValue::Str(t)) => {
                    if crate::text::str_eq(t.as_str(), "phoneme") {
                        Ok(IpaEntry::Phoneme(read_phoneme_data(ms)?))
                    } else if crate::text::str_eq(t.as_str(), "vowel") {
                        Ok(IpaEntry::Vowel(read_phoneme_data(ms)?))
                    } else if crate::text::str_eq(t.as_str(), "consonant") {
                        Ok(IpaEntry::Consonant(read_phoneme_data(ms)?))
                    } else if crate::text::str_eq(t.as_str(), "modifier") {
                        Ok(IpaEntry::Modifier(read_modifier_data(ms)?))
                    } else {
                        Err(crate::text::concat2("unknown entry type ", t.as_str()))
                    }
                },
                _ => Err(String::from_str("missing entry type")),
            },
            _ => Err(String::from_str("an entry must be an object")),
        }
    }
}

/// Reads the named entries out of the members of the dataset object.
fn read_entries(ms: &Vec<(String, JsonValue)>) -> (r: Result<Vec<(String, IpaEntry)>, String>)
    ensures
        r is Ok <==> spec_entries_of(ms@) is Some,
        r matches Ok(d) ==> Some(dataset_view(d@)) == spec_entries_of(ms@),
        r matches Err(m) ==> m@ == entries_error_from(ms@, 0),
{
    let mut out: Vec<(String, IpaEntry)> = Vec::new();
    let mut i: usize = 0;
    while i < ms.len()
        invariant
            i <= ms.len(),
            forall|j: int| 0 <= j < i ==> (#[trigger] spec_entry_of(ms@[j].1)) is Some,
            entries_error_from(ms@, 0) == entries_error_from(ms@, i as int),
            dataset_view(out@) =~= ms@.take(i as int).map_values(
                |m: (String, JsonValue)| (m.0@, spec_entry_of(m.1).unwrap()),
            ),
        decreases ms.len() - i,
    {
        let e = IpaEntry::from_json(&ms[i].1);
        match e {
            Ok(entry) => {
                let ghost before = out@;
                out.push((ms[i].0.clone(), entry));
                assert(dataset_view(out@) =~= dataset_view(before).push((ms@[i as int].0@, entry@)));
                assert(ms@.take(i + 1) =~= ms@.take(i as int).push(ms@[i as int]));
            },
            Err(msg) => {
                assert(spec_entry_of(ms@[i as int].1) is None);
                return Err(msg);
            },
        }
        i = i + 1;
    }
    assert(ms@.take(ms.len() as int) =~= ms@);
    Ok(out)
}

/// Reads the dataset out of a JSON document: an object that maps each
/// symbol to its entry.
pub fn dataset_from_json(v: &JsonValue) -> (r: Result<Vec<(String, IpaEntry)>, String>)
    ensures
        r is Ok <==> spec_dataset_of(*v) is Some,
        r matches Ok(d) ==> Some(dataset_view(d@)) == spec_dataset_of(*v),
        r matches Err(m) ==> m@ == dataset_error(*v),
{
    match v {
        JsonValue::Object(ms) => read_entries(ms),
        _ => Err(String::from_str("the dataset must be an object")),
    }
}

/// Parses a JSON text and reads the IPA dataset out of it. A text that is
/// no JSON document gives `JSON parsing error: ` followed by the parser's
/// own message; a document that is no dataset gives `Deserialization error: `
/// followed by what could not be read.
pub fn parse_and_validate(json_str: &str) -> (r: Result<Vec<(String, IpaEntry)>, String>)
    ensures
        r is Ok <==> spec_dataset_of_text(json_str@) is Some,
        r matches Ok(d) ==> Some(dataset_view(d@)) == spec_dataset_of_text(json_str@),
        r matches Err(m) ==> dataset_text_error(json_str@, m@),
{
    match crate::json::parse_json(json_str) {
        Ok(v) => match dataset_from_json(&v) {
            Ok(d) => Ok(d),
            Err(detail) => Err(crate::text::concat2("Deserialization error: ", detail.as_str())),
        },
        Err(detail) => {
            let m = crate::text::concat2("JSON parsing error: ", detail.as_str());
            proof {
                reveal_strlit("JSON parsing error: ");
                assert(m@.subrange(0, "JSON parsing error: "@.len() as int) =~= "JSON parsing error: "@);
            }
            Err(m)
        },
    }
}

} // verus!
