//! Distinctive features, named as in the IPA dataset (`snake_case`).

use vstd::prelude::*;

verus! {

/// A distinctive feature.
#[derive(PartialEq, Eq, Structural, Clone, Copy, Debug, Hash)]
pub enum Feature {
    Syllabic,
    Consonantal,
    Approximant,
    Sonorant,
    Continuant,
    DelayedRelease,
    Trill,
    Tap,
    Lateral,
    Nasal,
    Voice,
    SpreadGlottis,
    ConstrictedGlottis,
    Labial,
    Round,
    Labiodental,
    Coronal,
    Anterior,
    Distributed,
    Strident,
    Dorsal,
    High,
    Low,
    Front,
    Back,
    Tense,
    Pharyngeal,
    Radical,
    Aspirated,
    Bilabial,
    Stop,
    Nasalized,
    Liquid,
    Glide,
    Long,
    Rhotic,
}

/// The name of a feature, as the dataset writes it.
pub open spec fn spec_feature_name(f: Feature) -> Seq<char> {
    match f {
        Feature::Syllabic => "syllabic"@,
        Feature::Consonantal => "consonantal"@,
        Feature::Approximant => "approximant"@,
        Feature::Sonorant => "sonorant"@,
        Feature::Continuant => "continuant"@,
        Feature::DelayedRelease => "delayed_release"@,
        Feature::Trill => "trill"@,
        Feature::Tap => "tap"@,
        Feature::Lateral => "lateral"@,
        Feature::Nasal => "nasal"@,
        Feature::Voice => "voice"@,
        Feature::SpreadGlottis => "spread_glottis"@,
        Feature::ConstrictedGlottis => "constricted_glottis"@,
        Feature::Labial => "labial"@,
        Feature::Round => "round"@,
        Feature::Labiodental => "labiodental"@,
        Feature::Coronal => "coronal"@,
        Feature::Anterior => "anterior"@,
        Feature::Distributed => "distributed"@,
        Feature::Strident => "strident"@,
        Feature::Dorsal => "dorsal"@,
        Feature::High => "high"@,
        Feature::Low => "low"@,
        Feature::Front => "front"@,
        Feature::Back => "back"@,
        Feature::Tense => "tense"@,
        Feature::Pharyngeal => "pharyngeal"@,
        Feature::Radical => "radical"@,
        Feature::Aspirated => "aspirated"@,
        Feature::Bilabial => "bilabial"@,
        Feature::Stop => "stop"@,
        Feature::Nasalized => "nasalized"@,
        Feature::Liquid => "liquid"@,
        Feature::Glide => "glide"@,
        Feature::Long => "long"@,
        Feature::Rhotic => "rhotic"@,
    }
}

/// Every feature, in declaration order.
pub open spec fn spec_all_features() -> Seq<Feature> {
    seq![
        Feature::Syllabic,
        Feature::Consonantal,
        Feature::Approximant,
        Feature::Sonorant,
        Feature::Continuant,
        Feature::DelayedRelease,
        Feature::Trill,
        Feature::Tap,
        Feature::Lateral,
        Feature::Nasal,
        Feature::Voice,
        Feature::SpreadGlottis,
        Feature::ConstrictedGlottis,
        Feature::Labial,
        Feature::Round,
        Feature::Labiodental,
        Feature::Coronal,
        Feature::Anterior,
        Feature::Distributed,
        Feature::Strident,
        Feature::Dorsal,
        Feature::High,
        Feature::Low,
        Feature::Front,
        Feature::Back,
        Feature::Tense,
        Feature::Pharyngeal,
        Feature::Radical,
        Feature::Aspirated,
        Feature::Bilabial,
        Feature::Stop,
        Feature::Nasalized,
        Feature::Liquid,
        Feature::Glide,
        Feature::Long,
        Feature::Rhotic,
    ]
}

/// The first feature from the `k`-th on whose name is `s`.
pub open spec fn feature_named_from(s: Seq<char>, k: int) -> Option<Feature>
    decreases spec_all_features().len() - k,
{
    if k < 0 || k >= spec_all_features().len() {
        None
    } else if spec_feature_name(spec_all_features()[k]) == s {
        Some(spec_all_features()[k])
    } else {
        feature_named_from(s, k + 1)
    }
}

/// The feature named `s`, if any.
pub open spec fn feature_named(s: Seq<char>) -> Option<Feature> {
    feature_named_from(s, 0)
}

/// Every feature, in declaration order.
pub fn all_features() -> (r: Vec<Feature>)
    ensures
        forall|f: Feature| r@.contains(f),
        r@ == spec_all_features(),
{
    let r = vec![
        Feature::Syllabic,
        Feature::Consonantal,
        Feature::Approximant,
        Feature::Sonorant,
        Feature::Continuant,
        Feature::DelayedRelease,
        Feature::Trill,
        Feature::Tap,
        Feature::Lateral,
        Feature::Nasal,
        Feature::Voice,
        Feature::SpreadGlottis,
        Feature::ConstrictedGlottis,
        Feature::Labial,
        Feature::Round,
        Feature::Labiodental,
        Feature::Coronal,
        Feature::Anterior,
        Feature::Distributed,
        Feature::Strident,
        Feature::Dorsal,
        Feature::High,
        Feature::Low,
        Feature::Front,
        Feature::Back,
        Feature::Tense,
        Feature::Pharyngeal,
        Feature::Radical,
        Feature::Aspirated,
        Feature::Bilabial,
        Feature::Stop,
        Feature::Nasalized,
        Feature::Liquid,
        Feature::Glide,
        Feature::Long,
        Feature::Rhotic,
    ];
    assert forall|f: Feature| r@.contains(f) by {
        match f {
            Feature::Syllabic => assert(r@[0] == f),
            Feature::Consonantal => assert(r@[1] == f),
            Feature::Approximant => assert(r@[2] == f),
            Feature::Sonorant => assert(r@[3] == f),
            Feature::Continuant => assert(r@[4] == f),
            Feature::DelayedRelease => assert(r@[5] == f),
            Feature::Trill => assert(r@[6] == f),
            Feature::Tap => assert(r@[7] == f),
            Feature::Lateral => assert(r@[8] == f),
            Feature::Nasal => assert(r@[9] == f),
            Feature::Voice => assert(r@[10] == f),
            Feature::SpreadGlottis => assert(r@[11] == f),
            Feature::ConstrictedGlottis => assert(r@[12] == f),
            Feature::Labial => assert(r@[13] == f),
            Feature::Round => assert(r@[14] == f),
            Feature::Labiodental => assert(r@[15] == f),
            Feature::Coronal => assert(r@[16] == f),
            Feature::Anterior => assert(r@[17] == f),
            Feature::Distributed => assert(r@[18] == f),
            Feature::Strident => assert(r@[19] == f),
            Feature::Dorsal => assert(r@[20] == f),
            Feature::High => assert(r@[21] == f),
            Feature::Low => assert(r@[22] == f),
            Feature::Front => assert(r@[23] == f),
            Feature::Back => assert(r@[24] == f),
            Feature::Tense => assert(r@[25] == f),
            Feature::Pharyngeal => assert(r@[26] == f),
            Feature::Radical => assert(r@[27] == f),
            Feature::Aspirated => assert(r@[28] == f),
            Feature::Bilabial => assert(r@[29] == f),
            Feature::Stop => assert(r@[30] == f),
            Feature::Nasalized => assert(r@[31] == f),
            Feature::Liquid => assert(r@[32] == f),
            Feature::Glide => assert(r@[33] == f),
            Feature::Long => assert(r@[34] == f),
            Feature::Rhotic => assert(r@[35] == f),
        }
    }
    r
}

impl Feature {
    /// The feature's name, as the dataset writes it.
    pub fn name(&self) -> (r: &'static str)
        ensures
            r@ == spec_feature_name(*self),
    {
        match self {
            Feature::Syllabic => "syllabic",
            Feature::Consonantal => "consonantal",
            Feature::Approximant => "approximant",
            Feature::Sonorant => "sonorant",
            Feature::Continuant => "continuant",
            Feature::DelayedRelease => "delayed_release",
            Feature::Trill => "trill",
            Feature::Tap => "tap",
            Feature::Lateral => "lateral",
            Feature::Nasal => "nasal",
            Feature::Voice => "voice",
            Feature::SpreadGlottis => "spread_glottis",
            Feature::ConstrictedGlottis => "constricted_glottis",
            Feature::Labial => "labial",
            Feature::Round => "round",
            Feature::Labiodental => "labiodental",
            Feature::Coronal => "coronal",
            Feature::Anterior => "anterior",
            Feature::Distributed => "distributed",
            Feature::Strident => "strident",
            Feature::Dorsal => "dorsal",
            Feature::High => "high",
            Feature::Low => "low",
            Feature::Front => "front",
            Feature::Back => "back",
            Feature::Tense => "tense",
            Feature::Pharyngeal => "pharyngeal",
            Feature::Radical => "radical",
            Feature::Aspirated => "aspirated",
            Feature::Bilabial => "bilabial",
            Feature::Stop => "stop",
            Feature::Nasalized => "nasalized",
            Feature::Liquid => "liquid",
            Feature::Glide => "glide",
            Feature::Long => "long",
            Feature::Rhotic => "rhotic",
        }
    }

    /// The feature with the given name, if there is one.
    pub fn from_name(s: &str) -> (r: Option<Feature>)
        ensures
            r matches Some(f) ==> spec_feature_name(f) == s@,
            r is None ==> forall|f: Feature| spec_feature_name(f) != s@,
            r == feature_named(s@),
    {
        let all = all_features();
        let mut i: usize = 0;
        while i < all.len()
            invariant
                i <= all.len(),
                forall|f: Feature| all@.contains(f),
                all@ == spec_all_features(),
                feature_named(s@) == feature_named_from(s@, i as int),
                forall|k: int| 0 <= k < i ==> spec_feature_name(#[trigger] all@[k]) != s@,
            decreases all.len() - i,
        {
            if crate::text::str_eq(all[i].name(), s) {
                return Some(all[i]);
            }
            i = i + 1;
        }
        assert forall|f: Feature| spec_feature_name(f) != s@ by {
            assert(all@.contains(f));
            let k = choose|k: int| 0 <= k < all@.len() && all@[k] == f;
            assert(spec_feature_name(all@[k]) != s@);
        }
        None
    }
}

} // verus!
