//! From outside signals to evidence.
//!
//! A `SignalEvent` is what a queue, a sensor or a feed reports. An
//! `EvidenceBuilder` turns one event into the evidence it stands for. The
//! `BasicEvidenceBuilder` reads four named scalars and normalizes them.

use vstd::prelude::*;
use crate::evidence::Evidence;
use crate::idmap::IdMap;
use crate::scalar::Scalar;

verus! {

/// One raw event.
#[derive(Clone, Debug)]
pub struct SignalEvent {
    /// The supervised entity.
    pub intent_id: String,
    /// Who measured.
    pub source_id: String,
    /// The subsystem the event came from.
    pub origin: String,
    /// A text payload, if the event has one.
    pub text: Option<String>,
    /// Named numbers, raw.
    pub scalars: IdMap<Scalar>,
    /// Guardrail trips.
    pub rule_hits: u32,
}

impl SignalEvent {
    /// An event without text, scalars or rule hits.
    pub fn new(intent_id: &str, source_id: &str, origin: &str) -> (r: SignalEvent)
        ensures
            r.intent_id@ == intent_id@,
            r.source_id@ == source_id@,
            r.origin@ == origin@,
            r.text is None,
            r.scalars@ == Map::<Seq<char>, Scalar>::empty(),
            r.rule_hits == 0,
    {
        SignalEvent {
            intent_id: intent_id.to_owned(),
            source_id: source_id.to_owned(),
            origin: origin.to_owned(),
            text: None,
            scalars: IdMap::new(),
            rule_hits: 0,
        }
    }

    /// The event with the scalar `key` set to `value`.
    pub fn with_scalar(self, key: &str, value: Scalar) -> (r: SignalEvent)
        ensures
            r.scalars@ == self.scalars@.insert(key@, value),
            r.intent_id == self.intent_id,
            r.source_id == self.source_id,
            r.origin == self.origin,
            r.text == self.text,
            r.rule_hits == self.rule_hits,
    {
        let mut ev = self;
        ev.scalars.insert(key.to_owned(), value);
        ev
    }

    /// The event with `text` as its payload.
    pub fn with_text(self, text: &str) -> (r: SignalEvent)
        ensures
            r.text matches Some(t) && t@ == text@,
            r.intent_id == self.intent_id,
            r.source_id == self.source_id,
            r.origin == self.origin,
            r.scalars == self.scalars,
            r.rule_hits == self.rule_hits,
    {
        let mut ev = self;
        ev.text = Some(text.to_owned());
        ev
    }

    /// The event with `hits` rule hits.
    pub fn with_rule_hits(self, hits: u32) -> (r: SignalEvent)
        ensures
            r == (SignalEvent { rule_hits: hits, ..self }),
    {
        let mut ev = self;
        ev.rule_hits = hits;
        ev
    }
}

/// Bits of 10.0.
pub const DEFAULT_MAX_BITS: u32 = 0x4120_0000;

/// Clamps raw scalars into comparable ranges.
#[derive(Clone, Copy, Debug)]
pub struct Normalizer {
    /// Entropy above this is cut to it.
    pub entropy_max: Scalar,
    /// Gate shift above this is cut to it.
    pub gate_shift_max: Scalar,
    /// Cut the cosine similarity to the range from minus one to one.
    pub clamp_cosine: bool,
}

/// `x` cut to the range from zero to `max`; zero where `x` is infinite or a NaN.
pub open spec fn cut_to_range(x: Scalar, max: Scalar) -> Scalar {
    if !x.finite() {
        Scalar { bits: 0 }
    } else if x.below(Scalar { bits: 0 }) {
        Scalar { bits: 0 }
    } else if x.above(max) {
        max
    } else {
        x
    }
}

/// `x` cut to the range from minus one to one; zero where `x` is infinite or a NaN.
pub open spec fn cut_to_cosine(x: Scalar) -> Scalar {
    if !x.finite() {
        Scalar { bits: 0 }
    } else if x.below(Scalar { bits: 0xbf80_0000 }) {
        Scalar { bits: 0xbf80_0000 }
    } else if x.above(Scalar { bits: 0x3f80_0000 }) {
        Scalar { bits: 0x3f80_0000 }
    } else {
        x
    }
}

/// The weight, or one where the weight is infinite, a NaN, zero or negative.
pub open spec fn usable_weight(w: Scalar) -> Scalar {
    if !w.finite() || w.at_most(Scalar { bits: 0 }) {
        Scalar { bits: 0x3f80_0000 }
    } else {
        w
    }
}

impl Normalizer {
    /// The normalizer used when none is given: entropy and gate shift up to
    /// ten, cosine similarity cut.
    pub open spec fn standard() -> Normalizer {
        Normalizer {
            entropy_max: Scalar { bits: DEFAULT_MAX_BITS },
            gate_shift_max: Scalar { bits: DEFAULT_MAX_BITS },
            clamp_cosine: true,
        }
    }

    /// What `normalize` returns: entropy, cosine similarity, gate shift and
    /// weight, in this order.
    pub open spec fn normalized(self, entropy: Scalar, cosine: Scalar, gate_shift: Scalar, weight: Scalar) -> (
        Scalar,
        Scalar,
        Scalar,
        Scalar,
    ) {
        (
            cut_to_range(entropy, self.entropy_max),
            if self.clamp_cosine {
                cut_to_cosine(cosine)
            } else {
                cosine
            },
            cut_to_range(gate_shift, self.gate_shift_max),
            usable_weight(weight),
        )
    }

    fn clamp01(x: Scalar, max: Scalar) -> (r: Scalar)
        ensures
            r == cut_to_range(x, max),
    {
        if !x.is_finite() {
            return Scalar::zero();
        }
        if x.lt(Scalar::zero()) {
            Scalar::zero()
        } else if x.gt(max) {
            max
        } else {
            x
        }
    }

    fn clamp_cos(x: Scalar) -> (r: Scalar)
        ensures
            r == cut_to_cosine(x),
    {
        if !x.is_finite() {
            return Scalar::zero();
        }
        if x.lt(Scalar::minus_one()) {
            Scalar::minus_one()
        } else if x.gt(Scalar::one()) {
            Scalar::one()
        } else {
            x
        }
    }

    /// Normalizes the four scalars of one measurement.
    pub fn normalize(&self, entropy: Scalar, cosine: Scalar, gate_shift: Scalar, weight: Scalar) -> (r: (
        Scalar,
        Scalar,
        Scalar,
        Scalar,
    ))
        ensures
            r == self.normalized(entropy, cosine, gate_shift, weight),
    {
        let entropy = Normalizer::clamp01(entropy, self.entropy_max);
        let gate_shift = Normalizer::clamp01(gate_shift, self.gate_shift_max);
        let cosine = if self.clamp_cosine {
            Normalizer::clamp_cos(cosine)
        } else {
            cosine
        };
        let weight = if !weight.is_finite() || weight.le(Scalar::zero()) {
            Scalar::one()
        } else {
            weight
        };
        (entropy, cosine, gate_shift, weight)
    }
}

impl Default for Normalizer {
    fn default() -> (r: Normalizer)
        ensures
            r == Normalizer::standard(),
    {
        Normalizer {
            entropy_max: Scalar::from_bits(DEFAULT_MAX_BITS),
            gate_shift_max: Scalar::from_bits(DEFAULT_MAX_BITS),
            clamp_cosine: true,
        }
    }
}

/// Turns one event into the evidence it stands for.
///
/// Nothing is asked of a builder but that it can be called on any event, as
/// often as needed. What the library does with the evidence is stated for
/// whatever the builder returns.
pub trait EvidenceBuilder {
    /// Makes evidence of one event: none, one or several measurements.
    fn build(&self, ev: &SignalEvent) -> Vec<Evidence>;
}

/// The measurements of `parts`, part after part.
pub open spec fn joined(parts: Seq<Vec<Evidence>>) -> Seq<Evidence>
    decreases parts.len(),
{
    if parts.len() == 0 {
        Seq::empty()
    } else {
        joined(parts.drop_last()) + parts.last()@
    }
}

/// `parts` holds, for each event of `events` in turn, evidence that
/// `builder` may make of it.
pub open spec fn built_by<B: EvidenceBuilder>(builder: &B, events: Seq<SignalEvent>, parts: Seq<Vec<Evidence>>) -> bool {
    &&& parts.len() == events.len()
    &&& forall|i: int| 0 <= i < events.len() ==> call_ensures(B::build, (builder, &events[i]), #[trigger] parts[i])
}

/// `evidence` is what `builder` may make of `events`, event after event.
pub open spec fn may_build<B: EvidenceBuilder>(builder: &B, events: Seq<SignalEvent>, evidence: Seq<Evidence>) -> bool {
    exists|parts: Seq<Vec<Evidence>>| #[trigger] built_by(builder, events, parts) && evidence == joined(parts)
}

/// The names under which `BasicEvidenceBuilder` finds its scalars.
#[derive(Clone, Debug)]
pub struct BasicKeys {
    pub entropy: &'static str,
    pub cosine: &'static str,
    pub gate_shift: &'static str,
    pub weight: &'static str,
}

impl Default for BasicKeys {
    fn default() -> (r: BasicKeys)
        ensures
            r.entropy@ == "entropy"@,
            r.cosine@ == "cosine"@,
            r.gate_shift@ == "gate_shift"@,
            r.weight@ == "weight"@,
    {
        BasicKeys { entropy: "entropy", cosine: "cosine", gate_shift: "gate_shift", weight: "weight" }
    }
}

/// A builder that makes one measurement of each event, from the scalars
/// named by `keys`, normalized. A missing scalar counts as zero, a missing
/// weight as one.
#[derive(Clone, Debug)]
pub struct BasicEvidenceBuilder {
    pub normalizer: Normalizer,
    pub keys: BasicKeys,
}

/// The scalar under `key`, or `otherwise` where there is none.
pub open spec fn scalar_or(scalars: Map<Seq<char>, Scalar>, key: Seq<char>, otherwise: Scalar) -> Scalar {
    if scalars.contains_key(key) {
        scalars[key]
    } else {
        otherwise
    }
}

fn read_scalar(scalars: &IdMap<Scalar>, key: &str, otherwise: Scalar) -> (r: Scalar)
    ensures
        r == scalar_or(scalars@, key@, otherwise),
{
    match scalars.get(key) {
        Some(v) => *v,
        None => otherwise,
    }
}

impl BasicEvidenceBuilder {
    /// The one measurement that the builder makes of `ev`.
    pub open spec fn measurement(&self, ev: &SignalEvent) -> Evidence {
        let n = self.normalizer.normalized(
            scalar_or(ev.scalars@, self.keys.entropy@, Scalar { bits: 0 }),
            scalar_or(ev.scalars@, self.keys.cosine@, Scalar { bits: 0 }),
            scalar_or(ev.scalars@, self.keys.gate_shift@, Scalar { bits: 0 }),
            scalar_or(ev.scalars@, self.keys.weight@, Scalar { bits: 0x3f80_0000 }),
        );
        Evidence {
            source_id: ev.source_id,
            intent_id: ev.intent_id,
            origin: ev.origin,
            gate_shift: n.2,
            avg_entropy: n.0,
            cosine_sim: n.1,
            rule_hits: ev.rule_hits,
            weight: n.3,
        }
    }
}

impl EvidenceBuilder for BasicEvidenceBuilder {
    /// Makes one measurement of `ev`, from its scalars, normalized.
    fn build(&self, ev: &SignalEvent) -> (r: Vec<Evidence>)
        ensures
            r@ == seq![self.measurement(ev)],
    {
        let entropy = read_scalar(&ev.scalars, self.keys.entropy, Scalar::zero());
        let cosine = read_scalar(&ev.scalars, self.keys.cosine, Scalar::zero());
        let gate_shift = read_scalar(&ev.scalars, self.keys.gate_shift, Scalar::zero());
        let weight = read_scalar(&ev.scalars, self.keys.weight, Scalar::one());
        let (entropy, cosine, gate_shift, weight) = self.normalizer.normalize(entropy, cosine, gate_shift, weight);
        let mut out: Vec<Evidence> = Vec::new();
        out.push(
            Evidence {
                source_id: ev.source_id.clone(),
                intent_id: ev.intent_id.clone(),
                origin: ev.origin.clone(),
                gate_shift,
                avg_entropy: entropy,
                cosine_sim: cosine,
                rule_hits: ev.rule_hits,
                weight,
            },
        );
        assert(out@ =~= seq![self.measurement(ev)]);
        out
    }
}

impl Default for BasicEvidenceBuilder {
    fn default() -> (r: BasicEvidenceBuilder)
        ensures
            r.normalizer == Normalizer::standard(),
            r.keys.entropy@ == "entropy"@,
            r.keys.cosine@ == "cosine"@,
            r.keys.gate_shift@ == "gate_shift"@,
            r.keys.weight@ == "weight"@,
    {
        BasicEvidenceBuilder { normalizer: Normalizer::default(), keys: BasicKeys::default() }
    }
}

/// The measurements that the basic builder makes of `events`, one of each.
pub open spec fn measurements(builder: &BasicEvidenceBuilder, events: Seq<SignalEvent>) -> Seq<Evidence> {
    Seq::new(events.len(), |i: int| builder.measurement(&events[i]))
}

proof fn lemma_joined_singles(builder: &BasicEvidenceBuilder, events: Seq<SignalEvent>, parts: Seq<Vec<Evidence>>)
    requires
        parts.len() == events.len(),
        forall|i: int| 0 <= i < events.len() ==> (#[trigger] parts[i])@ == seq![builder.measurement(&events[i])],
    ensures
        joined(parts) == measurements(builder, events),
    decreases parts.len(),
{
    if parts.len() == 0 {
        assert(joined(parts) =~= measurements(builder, events));
    } else {
        let n = parts.len() - 1;
        lemma_joined_singles(builder, events.drop_last(), parts.drop_last());
        assert(parts.last()@ == seq![builder.measurement(&events[n])]);
        assert(joined(parts) =~= measurements(builder, events)) by {
            assert(joined(parts.drop_last()).len() == n);
            assert forall|i: int| 0 <= i < events.len() implies joined(parts)[i] == measurements(builder, events)[i] by {
                if i < n {
                    assert(joined(parts.drop_last())[i] == measurements(builder, events.drop_last())[i]);
                }
            }
        }
    }
}

/// With the basic builder the evidence of a batch is determined by the
/// events: one measurement of each, in their order.
pub proof fn lemma_basic_builder_determined(builder: &BasicEvidenceBuilder, events: Seq<SignalEvent>, evidence: Seq<Evidence>)
    requires
        may_build(builder, events, evidence),
    ensures
        evidence == measurements(builder, events),
{
    let parts = choose|parts: Seq<Vec<Evidence>>| #[trigger] built_by(builder, events, parts) && evidence == joined(parts);
    assert forall|i: int| 0 <= i < events.len() implies (#[trigger] parts[i])@ == seq![builder.measurement(&events[i])] by {
        assert(call_ensures(BasicEvidenceBuilder::build, (builder, &events[i]), parts[i]));
    }
    lemma_joined_singles(builder, events, parts);
}

/// Builds the evidence of a batch of events: what the builder makes of the
/// first event, then what it makes of the second, and so on.
pub fn build_evidence_batch<B: EvidenceBuilder>(builder: &B, events: &[SignalEvent]) -> (r: Vec<Evidence>)
    ensures
        may_build(builder, events@, r@),
{
    let mut out: Vec<Evidence> = Vec::new();
    let ghost parts: Seq<Vec<Evidence>> = Seq::empty();
    let mut i: usize = 0;
    while i < events.len()
        invariant
            i <= events@.len(),
            built_by(builder, events@.take(i as int), parts),
            out@ == joined(parts),
        decreases events.len() - i,
    {
        let mut built = builder.build(&events[i]);
        proof {
            let before = parts;
            parts = parts.push(built);
            assert(parts.drop_last() =~= before);
            assert forall|j: int| 0 <= j < i + 1 implies call_ensures(B::build, (builder, &events@.take(i + 1)[j]), #[trigger] parts[j]) by {
                if j < i {
                    assert(parts[j] == before[j]);
                    assert(events@.take(i + 1)[j] == events@.take(i as int)[j]);
                }
            }
        }
        out.append(&mut built);
        i += 1;
    }
    assert(events@.take(events@.len() as int) =~= events@);
    out
}

} // verus!
