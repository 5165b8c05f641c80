//! Source profiles: how much each source of evidence may weigh.
//!
//! A profile is a band of weights with a base weight. Evidence that asks for
//! weight zero gets the base weight; any other request is clamped into the
//! band. A source without a profile gets a low-trust band.

use vstd::prelude::*;
use crate::evidence::{ArbiterEvidenceView, Evidence};
use crate::idmap::IdMap;
use crate::scalar::{lemma_clamped_in_band, Scalar};

verus! {

/// The trust band of one source.
#[derive(Clone, Copy, Debug)]
pub struct SourceProfile {
    /// The weight of evidence that asks for weight zero.
    pub base_weight: Scalar,
    /// The least weight the source may have.
    pub min_weight: Scalar,
    /// The greatest weight the source may have.
    pub max_weight: Scalar,
}

impl SourceProfile {
    pub fn new(base_weight: Scalar, min_weight: Scalar, max_weight: Scalar) -> (r: SourceProfile)
        ensures
            r == (SourceProfile { base_weight, min_weight, max_weight }),
    {
        SourceProfile { base_weight, min_weight, max_weight }
    }

    /// The bounds are numbers and the lower one is not above the upper one.
    pub open spec fn is_band(self) -> bool {
        self.min_weight.at_most(self.max_weight)
    }

    /// The weight that is clamped: the base weight where zero was requested.
    pub open spec fn resolved(self, requested: Scalar) -> Scalar {
        if requested.zero_valued() {
            self.base_weight
        } else {
            requested
        }
    }

    /// The weight that the profile grants to a request.
    pub open spec fn granted(self, requested: Scalar) -> Scalar {
        self.resolved(requested).clamped(self.min_weight, self.max_weight)
    }

    /// Whether the profile is a band.
    pub fn is_valid(&self) -> (r: bool)
        ensures
            r == self.is_band(),
    {
        self.min_weight.le(self.max_weight)
    }

    /// Grants a weight to a request: the base weight clamped into the band
    /// where zero was requested, else the request clamped into the band.
    pub fn clamp(&self, requested: Scalar) -> (r: Scalar)
        requires
            self.is_band(),
        ensures
            r == self.granted(requested),
    {
        let w = if requested.is_zero() { self.base_weight } else { requested };
        w.clamp(self.min_weight, self.max_weight)
    }
}

/// Every weight that a profile grants lies in its band, unless the weight to
/// clamp is a NaN; and a request of zero is a request for the base weight.
pub proof fn lemma_granted_weight_in_band(p: SourceProfile, requested: Scalar)
    requires
        p.is_band(),
        !p.resolved(requested).nan(),
    ensures
        p.min_weight.at_most(p.granted(requested)),
        p.granted(requested).at_most(p.max_weight),
        requested.zero_valued() ==> p.granted(requested) == p.base_weight.clamped(p.min_weight, p.max_weight),
{
    lemma_clamped_in_band(p.resolved(requested), p.min_weight, p.max_weight);
}

/// Profiles by source identifier.
pub type SourceProfiles = IdMap<SourceProfile>;

/// The band of a source that has no profile: base 0.2, from 0.1 to 0.4.
pub open spec fn fallback_profile() -> SourceProfile {
    SourceProfile {
        base_weight: Scalar { bits: 0x3e4c_cccd },
        min_weight: Scalar { bits: 0x3dcc_cccd },
        max_weight: Scalar { bits: 0x3ecc_cccd },
    }
}

/// The profile that applies to `source`.
pub open spec fn profile_for(profiles: Map<Seq<char>, SourceProfile>, source: Seq<char>) -> SourceProfile {
    if profiles.contains_key(source) {
        profiles[source]
    } else {
        fallback_profile()
    }
}

/// Every profile is a band.
pub open spec fn all_bands(profiles: Map<Seq<char>, SourceProfile>) -> bool {
    forall|k: Seq<char>| profiles.contains_key(k) ==> (#[trigger] profiles[k]).is_band()
}

/// `ev` with the weight that its source's profile grants it.
pub open spec fn reweighted(ev: Evidence, profiles: Map<Seq<char>, SourceProfile>) -> Evidence {
    Evidence { weight: profile_for(profiles, ev.source_id@).granted(ev.weight), ..ev }
}

/// Whether every profile is a band.
pub fn profiles_valid(profiles: &SourceProfiles) -> (r: bool)
    ensures
        r == all_bands(profiles@),
{
    let n = profiles.len();
    let mut i: usize = 0;
    while i < n
        invariant
            n == profiles.ids().len(),
            i <= n,
            profiles.in_order(),
            forall|j: int| 0 <= j < i ==> (#[trigger] profiles.vals()[j]).is_band(),
        decreases n - i,
    {
        let p = profiles.value_at(i);
        if !p.is_valid() {
            return false;
        }
        i += 1;
    }
    proof {
        assert forall|k: Seq<char>| profiles@.contains_key(k) implies (#[trigger] profiles@[k]).is_band() by {
            let j = crate::idmap::slot_of(profiles.ids(), k);
            assert(crate::idmap::listed(profiles.ids(), k));
            crate::idmap::lemma_assoc_at(profiles.ids(), profiles.vals(), j);
        }
    }
    true
}

/// Rewrites the weight of every measurement in `view` to what its source's
/// profile grants. Nothing else changes.
pub fn apply_source_profiles(view: &mut ArbiterEvidenceView, profiles: &SourceProfiles)
    requires
        all_bands(profiles@),
    ensures
        final(view).intent_id == old(view).intent_id,
        final(view).evidence@.len() == old(view).evidence@.len(),
        forall|i: int| 0 <= i < old(view).evidence@.len() ==> #[trigger] final(view).evidence@[i] == reweighted(old(view).evidence@[i], profiles@),
{
    let n = view.evidence.len();
    let mut i: usize = 0;
    while i < n
        invariant
            all_bands(profiles@),
            view.intent_id == old(view).intent_id,
            n == old(view).evidence@.len(),
            view.evidence@.len() == n,
            i <= n,
            forall|j: int| 0 <= j < i ==> #[trigger] view.evidence@[j] == reweighted(old(view).evidence@[j], profiles@),
            forall|j: int| i <= j < n ==> #[trigger] view.evidence@[j] == old(view).evidence@[j],
        decreases n - i,
    {
        let requested = view.evidence[i].weight;
        let granted = match profiles.get(view.evidence[i].source_id.as_str()) {
            Some(p) => p.clamp(requested),
            None => fallback().clamp(requested),
        };
        view.evidence[i].weight = granted;
        i += 1;
    }
}

/// The band of a source that has no profile.
pub fn fallback() -> (r: SourceProfile)
    ensures
        r == fallback_profile(),
        r.is_band(),
{
    SourceProfile {
        base_weight: Scalar::from_bits(0x3e4c_cccd),
        min_weight: Scalar::from_bits(0x3dcc_cccd),
        max_weight: Scalar::from_bits(0x3ecc_cccd),
    }
}

/// A profile from three bit patterns.
pub open spec fn profile_of_bits(base: u32, min: u32, max: u32) -> SourceProfile {
    SourceProfile {
        base_weight: Scalar { bits: base },
        min_weight: Scalar { bits: min },
        max_weight: Scalar { bits: max },
    }
}

/// The profiles that `default_source_profiles` builds.
///
/// | source      | base | min | max |
/// |-------------|------|-----|-----|
/// | `llm`       | 1.0  | 0.5 | 1.0 |
/// | `stt`       | 0.8  | 0.3 | 0.9 |
/// | `health`    | 0.7  | 0.2 | 0.9 |
/// | `meta_onnx` | 0.7  | 0.3 | 0.9 |
/// | `video_gen` | 0.6  | 0.2 | 0.8 |
/// | `audio_gen` | 0.6  | 0.2 | 0.8 |
/// | `vendor`    | 0.4  | 0.1 | 0.6 |
pub open spec fn standard_profiles() -> Map<Seq<char>, SourceProfile> {
    Map::<Seq<char>, SourceProfile>::empty().insert("llm"@, profile_of_bits(0x3f80_0000, 0x3f00_0000, 0x3f80_0000)).insert(
        "stt"@,
        profile_of_bits(0x3f4c_cccd, 0x3e99_999a, 0x3f66_6666),
    ).insert("health"@, profile_of_bits(0x3f33_3333, 0x3e4c_cccd, 0x3f66_6666)).insert(
        "meta_onnx"@,
        profile_of_bits(0x3f33_3333, 0x3e99_999a, 0x3f66_6666),
    ).insert("video_gen"@, profile_of_bits(0x3f19_999a, 0x3e4c_cccd, 0x3f4c_cccd)).insert(
        "audio_gen"@,
        profile_of_bits(0x3f19_999a, 0x3e4c_cccd, 0x3f4c_cccd),
    ).insert("vendor"@, profile_of_bits(0x3ecc_cccd, 0x3dcc_cccd, 0x3f19_999a))
}

fn profile_from_bits(base: u32, min: u32, max: u32) -> (r: SourceProfile)
    ensures
        r == profile_of_bits(base, min, max),
{
    SourceProfile::new(Scalar::from_bits(base), Scalar::from_bits(min), Scalar::from_bits(max))
}

/// A small set of profiles to start from: relative trust of the common
/// sources, to be overridden per deployment.
pub fn default_source_profiles() -> (r: SourceProfiles)
    ensures
        r@ == standard_profiles(),
        all_bands(r@),
{
    let mut m: SourceProfiles = IdMap::new();
    m.insert("llm".to_owned(), profile_from_bits(0x3f80_0000, 0x3f00_0000, 0x3f80_0000));
    m.insert("stt".to_owned(), profile_from_bits(0x3f4c_cccd, 0x3e99_999a, 0x3f66_6666));
    m.insert("health".to_owned(), profile_from_bits(0x3f33_3333, 0x3e4c_cccd, 0x3f66_6666));
    m.insert("meta_onnx".to_owned(), profile_from_bits(0x3f33_3333, 0x3e99_999a, 0x3f66_6666));
    m.insert("video_gen".to_owned(), profile_from_bits(0x3f19_999a, 0x3e4c_cccd, 0x3f4c_cccd));
    m.insert("audio_gen".to_owned(), profile_from_bits(0x3f19_999a, 0x3e4c_cccd, 0x3f4c_cccd));
    m.insert("vendor".to_owned(), profile_from_bits(0x3ecc_cccd, 0x3dcc_cccd, 0x3f19_999a));
    m
}

} // verus!
