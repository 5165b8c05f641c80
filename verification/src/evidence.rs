//! Evidence: one source's measurement, and the views that collect them.

use vstd::prelude::*;
use crate::scalar::Scalar;

verus! {

/// The aggregated uncertainty of one intent: what the decision engine reads.
#[derive(Clone, Copy, Debug)]
pub struct Uncertainty {
    pub avg_entropy: Scalar,
    pub cosine_sim: Scalar,
    pub rule_hits: u32,
    pub gate_shift: Scalar,
}

impl Uncertainty {
    /// The uncertainty of an intent without evidence: no entropy, no rule
    /// hits, no gate shift, and a cosine similarity of one.
    pub open spec fn neutral_value() -> Uncertainty {
        Uncertainty {
            avg_entropy: Scalar { bits: 0 },
            cosine_sim: Scalar { bits: 0x3f80_0000 },
            rule_hits: 0,
            gate_shift: Scalar { bits: 0 },
        }
    }

    /// Every field at zero: what is left when no evidence carries weight.
    pub open spec fn zero_value() -> Uncertainty {
        Uncertainty {
            avg_entropy: Scalar { bits: 0 },
            cosine_sim: Scalar { bits: 0 },
            rule_hits: 0,
            gate_shift: Scalar { bits: 0 },
        }
    }

    /// The uncertainty of an intent without evidence.
    pub fn neutral() -> (r: Uncertainty)
        ensures
            r == Uncertainty::neutral_value(),
    {
        Uncertainty {
            avg_entropy: Scalar::zero(),
            cosine_sim: Scalar::one(),
            rule_hits: 0,
            gate_shift: Scalar::zero(),
        }
    }
}

impl Default for Uncertainty {
    fn default() -> (r: Uncertainty)
        ensures
            r == Uncertainty::zero_value(),
    {
        Uncertainty {
            avg_entropy: Scalar::zero(),
            cosine_sim: Scalar::zero(),
            rule_hits: 0,
            gate_shift: Scalar::zero(),
        }
    }
}

/// One measurement of one intent by one source.
#[derive(Clone, Debug)]
pub struct Evidence {
    pub source_id: String,
    pub intent_id: String,
    pub origin: String,
    pub gate_shift: Scalar,
    pub avg_entropy: Scalar,
    pub cosine_sim: Scalar,
    pub rule_hits: u32,
    /// How much this measurement counts. Advisory: a source profile may
    /// rewrite it, and only a weight above zero counts at all.
    pub weight: Scalar,
}

impl Evidence {
    /// The measurement takes part in the aggregate: its weight is above zero.
    /// A weight that is zero, negative or a NaN leaves it out altogether.
    pub open spec fn carries_weight(self) -> bool {
        self.weight.above(Scalar { bits: 0 })
    }

    /// Whether the measurement takes part in the aggregate.
    pub fn contributes(&self) -> (r: bool)
        ensures
            r == self.carries_weight(),
    {
        self.weight.gt(Scalar::zero())
    }
}

/// What one measurement that carries weight puts into the aggregate.
#[derive(Clone, Copy, Debug)]
pub struct WeightedTerm {
    /// Above zero.
    pub weight: Scalar,
    pub avg_entropy: Scalar,
    pub cosine_sim: Scalar,
    pub rule_hits: u32,
    pub gate_shift: Scalar,
}

impl Evidence {
    /// What the measurement puts into the aggregate.
    pub open spec fn term(self) -> WeightedTerm {
        WeightedTerm {
            weight: self.weight,
            avg_entropy: self.avg_entropy,
            cosine_sim: self.cosine_sim,
            rule_hits: self.rule_hits,
            gate_shift: self.gate_shift,
        }
    }
}

/// The terms of the measurements that carry weight, in their order.
pub open spec fn terms_of(evidence: Seq<Evidence>) -> Seq<WeightedTerm> {
    evidence.filter(|e: Evidence| e.carries_weight()).map_values(|e: Evidence| e.term())
}

/// `u` is an aggregate of `evidence` under `mean`: the neutral uncertainty
/// where there is no evidence, all zero where no measurement carries weight,
/// and else what `mean` may give for the terms of those that do.
pub open spec fn is_aggregate_of<M: Fn(&[WeightedTerm]) -> Uncertainty>(u: Uncertainty, evidence: Seq<Evidence>, mean: M) -> bool {
    if evidence.len() == 0 {
        u == Uncertainty::neutral_value()
    } else if terms_of(evidence).len() == 0 {
        u == Uncertainty::zero_value()
    } else {
        exists|terms: &[WeightedTerm]| #[trigger] terms@ == terms_of(evidence) && call_ensures(mean, (terms,), u)
    }
}

/// The evidence of one intent within one batch, in the order it came.
#[derive(Clone, Debug)]
pub struct ArbiterEvidenceView {
    pub intent_id: String,
    pub evidence: Vec<Evidence>,
}

impl ArbiterEvidenceView {
    /// A view of `intent_id` without evidence.
    pub fn new(intent_id: &str) -> (r: ArbiterEvidenceView)
        ensures
            r.intent_id@ == intent_id@,
            r.evidence@.len() == 0,
    {
        ArbiterEvidenceView { intent_id: intent_id.to_owned(), evidence: Vec::new() }
    }

    /// Appends one measurement.
    pub fn push(&mut self, ev: Evidence)
        ensures
            final(self).intent_id == old(self).intent_id,
            final(self).evidence@ == old(self).evidence@.push(ev),
    {
        self.evidence.push(ev);
    }
}

impl ArbiterEvidenceView {
    /// The terms of the measurements that carry weight, in their order.
    pub fn weighted_terms(&self) -> (r: Vec<WeightedTerm>)
        ensures
            r@ == terms_of(self.evidence@),
    {
        let mut out: Vec<WeightedTerm> = Vec::new();
        let ghost all = self.evidence@;
        let ghost carries = |e: Evidence| e.carries_weight();
        let ghost term = |e: Evidence| e.term();
        let mut i: usize = 0;
        proof {
            reveal(Seq::filter);
            assert(all.take(0).filter(carries).map_values(term) =~= Seq::<WeightedTerm>::empty());
        }
        while i < self.evidence.len()
            invariant
                i <= all.len(),
                all == self.evidence@,
                carries == |e: Evidence| e.carries_weight(),
                term == |e: Evidence| e.term(),
                out@ == all.take(i as int).filter(carries).map_values(term),
            decreases self.evidence.len() - i,
        {
            let ev = &self.evidence[i];
            proof {
                reveal(Seq::filter);
                assert(all.take(i + 1).drop_last() =~= all.take(i as int));
                assert(all.take(i + 1).last() == all[i as int]);
                let before = all.take(i as int).filter(carries);
                if carries(all[i as int]) {
                    assert(all.take(i + 1).filter(carries) == before.push(all[i as int]));
                    assert(before.push(all[i as int]).map_values(term) =~= before.map_values(term).push(term(all[i as int])));
                } else {
                    assert(all.take(i + 1).filter(carries) == before);
                }
            }
            if ev.contributes() {
                out.push(
                    WeightedTerm {
                        weight: ev.weight,
                        avg_entropy: ev.avg_entropy,
                        cosine_sim: ev.cosine_sim,
                        rule_hits: ev.rule_hits,
                        gate_shift: ev.gate_shift,
                    },
                );
            }
            i += 1;
        }
        assert(all.take(all.len() as int) =~= all);
        out
    }

    /// Aggregates the evidence into one uncertainty.
    ///
    /// A view without evidence is neutral: no entropy, no rule hits, no gate
    /// shift and a cosine similarity of one. Measurements whose weight is
    /// not above zero are left out altogether; where none is left, every
    /// field is zero. Else the result is what `mean` makes of the terms that
    /// are left; `mean` is meant to be the weighted mean, with the rule hits
    /// rounded half away from zero.
    pub fn to_uncertainty<M: Fn(&[WeightedTerm]) -> Uncertainty>(&self, mean: M) -> (r: Uncertainty)
        requires
            forall|terms: &[WeightedTerm]| call_requires(mean, (terms,)),
        ensures
            is_aggregate_of(r, self.evidence@, mean),
    {
        if self.evidence.len() == 0 {
            return Uncertainty::neutral();
        }
        let terms = self.weighted_terms();
        if terms.len() == 0 {
            return Uncertainty::default();
        }
        mean(terms.as_slice())
    }
}

impl Default for ArbiterEvidenceView {
    fn default() -> (r: ArbiterEvidenceView)
        ensures
            r.intent_id@.len() == 0,
            r.evidence@.len() == 0,
    {
        ArbiterEvidenceView { intent_id: String::new(), evidence: Vec::new() }
    }
}

} // verus!
