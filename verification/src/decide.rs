//! The decision engine: thresholds and hysteresis.

use vstd::prelude::*;
use crate::cfg::ArbiterCfg;
use crate::evidence::{is_aggregate_of, ArbiterEvidenceView, Uncertainty, WeightedTerm};
use crate::freeze::FreezeFlags;
use crate::state::ArbiterState;

verus! {

/// What the arbiter asks for.
#[derive(Clone, Copy, Debug, PartialEq, Eq, Structural)]
pub enum Escalation {
    /// Stay: let the output pass.
    Stay,
    /// Run a critique pass over the output.
    CritiquePass,
    /// Ask a second model. No rule produces this tier yet.
    SecondLLM,
}

/// The four alarms of one tick.
#[derive(Clone, Copy, Debug, PartialEq, Eq, Structural)]
pub struct Alarms {
    pub hi_entropy: bool,
    pub low_sim: bool,
    pub rules_bad: bool,
    pub gate_bad: bool,
}

impl Alarms {
    pub open spec fn any(self) -> bool {
        self.hi_entropy || self.low_sim || self.rules_bad || self.gate_bad
    }

    pub fn fired(&self) -> (r: bool)
        ensures
            r == self.any(),
    {
        self.hi_entropy || self.low_sim || self.rules_bad || self.gate_bad
    }
}

/// The rule hits that count: the forced ones when the thresholds force any.
pub open spec fn effective_rule_hits(u: Uncertainty, cfg: ArbiterCfg) -> u32 {
    match cfg.forced_rule_hits {
        Some(h) => h,
        None => u.rule_hits,
    }
}

/// The alarms that `u` raises under `cfg`. A measurement that is infinite or
/// a NaN raises none.
pub open spec fn alarms_of(u: Uncertainty, cfg: ArbiterCfg) -> Alarms {
    Alarms {
        hi_entropy: u.avg_entropy.finite() && u.avg_entropy.above(cfg.tau_e),
        low_sim: u.cosine_sim.finite() && u.cosine_sim.below(cfg.tau_s),
        rules_bad: effective_rule_hits(u, cfg) > 0,
        gate_bad: u.gate_shift.finite() && u.gate_shift.above(cfg.tau_gate),
    }
}

/// Evaluates the four alarms.
pub fn evaluate_alarms(u: Uncertainty, cfg: &ArbiterCfg) -> (r: Alarms)
    ensures
        r == alarms_of(u, *cfg),
{
    let hits: u32 = match cfg.forced_rule_hits {
        Some(h) => h,
        None => u.rule_hits,
    };
    Alarms {
        hi_entropy: u.avg_entropy.is_finite() && u.avg_entropy.gt(cfg.tau_e),
        low_sim: u.cosine_sim.is_finite() && u.cosine_sim.lt(cfg.tau_s),
        rules_bad: hits > 0,
        gate_bad: u.gate_shift.is_finite() && u.gate_shift.gt(cfg.tau_gate),
    }
}

/// The counter that the thresholds see: zero when hysteresis is disabled.
pub open spec fn effective_count(stored: u32, cfg: ArbiterCfg) -> u32 {
    if cfg.hyst_disable {
        0
    } else {
        stored
    }
}

/// The tier for a tick on which some alarm fired or hysteresis is consulted.
pub open spec fn tier_of(alarms: Alarms, cfg: ArbiterCfg, state: ArbiterState) -> Escalation {
    if alarms.any() || effective_count(state.hyst_rep, cfg) >= cfg.tau_rep || effective_count(
        state.hyst_stall,
        cfg,
    ) >= cfg.tau_stall {
        Escalation::CritiquePass
    } else {
        Escalation::Stay
    }
}

/// The tier that `u` gets under `cfg` with counters `state`.
pub open spec fn decision_of(u: Uncertainty, cfg: ArbiterCfg, state: ArbiterState) -> Escalation {
    if alarms_of(u, cfg).any() {
        tier_of(alarms_of(u, cfg), cfg, state)
    } else {
        Escalation::Stay
    }
}

/// The counters after `u` was judged under `cfg`: cleared by a clean tick,
/// untouched otherwise.
pub open spec fn state_after_decision(u: Uncertainty, cfg: ArbiterCfg, state: ArbiterState) -> ArbiterState {
    if alarms_of(u, cfg).any() {
        state
    } else {
        ArbiterState::cleared()
    }
}

/// Judges one aggregated measurement.
///
/// A tick without any alarm clears the counters and asks for nothing. On any
/// other tick the counters stay as they are and the tier is a critique pass.
pub fn decide_escalation_cfg(u: Uncertainty, cfg: &ArbiterCfg, state: &mut ArbiterState) -> (r: Escalation)
    ensures
        r == decision_of(u, *cfg, *old(state)),
        *final(state) == state_after_decision(u, *cfg, *old(state)),
        r == (if alarms_of(u, *cfg).any() { Escalation::CritiquePass } else { Escalation::Stay }),
{
    let alarms = evaluate_alarms(u, cfg);
    if !alarms.fired() {
        state.reset();
        return Escalation::Stay;
    }
    let rep_cnt: u32 = if cfg.hyst_disable { 0 } else { state.hyst_rep };
    let stall_cnt: u32 = if cfg.hyst_disable { 0 } else { state.hyst_stall };
    if alarms.fired() || rep_cnt >= cfg.tau_rep || stall_cnt >= cfg.tau_stall {
        Escalation::CritiquePass
    } else {
        Escalation::Stay
    }
}

/// The counters that one tick starts its decision from: bumped where flags
/// came with the tick.
pub open spec fn state_before_decision(ff: Option<FreezeFlags>, cfg: ArbiterCfg, state: ArbiterState) -> ArbiterState {
    match ff {
        Some(flags) => state.bumped(flags, cfg.hyst_disable),
        None => state,
    }
}

/// The tier of one whole tick.
pub open spec fn tick_decision(u: Uncertainty, ff: Option<FreezeFlags>, cfg: ArbiterCfg, state: ArbiterState) -> Escalation {
    decision_of(u, cfg, state_before_decision(ff, cfg, state))
}

/// The counters after one whole tick.
pub open spec fn tick_state(u: Uncertainty, ff: Option<FreezeFlags>, cfg: ArbiterCfg, state: ArbiterState) -> ArbiterState {
    state_after_decision(u, cfg, state_before_decision(ff, cfg, state))
}

/// One tick for one intent on its aggregated measurement: counts the freeze
/// flags, if any came, then judges `u` against the counters as just counted.
pub fn arbiter_tick(u: Uncertainty, ff: Option<FreezeFlags>, cfg: &ArbiterCfg, state: &mut ArbiterState) -> (r: Escalation)
    ensures
        r == tick_decision(u, ff, *cfg, *old(state)),
        *final(state) == tick_state(u, ff, *cfg, *old(state)),
{
    if let Some(flags) = ff {
        state.bump(flags, cfg.hyst_disable);
    }
    decide_escalation_cfg(u, cfg, state)
}

/// One tick for one intent on its evidence: counts the freeze flags, if any
/// came, aggregates the evidence with `mean`, then judges the aggregate
/// against the counters as just counted.
pub fn arbiter_idle_tick<M: Fn(&[WeightedTerm]) -> Uncertainty>(
    view: &ArbiterEvidenceView,
    ff: Option<FreezeFlags>,
    cfg: &ArbiterCfg,
    state: &mut ArbiterState,
    mean: M,
) -> (r: Escalation)
    requires
        forall|terms: &[WeightedTerm]| call_requires(mean, (terms,)),
    ensures
        exists|u: Uncertainty|
            {
                &&& #[trigger] is_aggregate_of(u, view.evidence@, mean)
                &&& r == tick_decision(u, ff, *cfg, *old(state))
                &&& *final(state) == tick_state(u, ff, *cfg, *old(state))
            },
{
    if let Some(flags) = ff {
        state.bump(flags, cfg.hyst_disable);
    }
    let u = view.to_uncertainty(mean);
    let r = decide_escalation_cfg(u, cfg, state);
    assert(is_aggregate_of(u, view.evidence@, mean));
    r
}

/// The tier of a view by itself: under the standard thresholds and without
/// any hysteresis.
pub fn decide_escalation_from_view<M: Fn(&[WeightedTerm]) -> Uncertainty>(view: &ArbiterEvidenceView, mean: M) -> (r: Escalation)
    requires
        forall|terms: &[WeightedTerm]| call_requires(mean, (terms,)),
    ensures
        exists|u: Uncertainty| #[trigger]
            is_aggregate_of(u, view.evidence@, mean) && r == decision_of(u, ArbiterCfg::standard(), ArbiterState::cleared()),
{
    let u = view.to_uncertainty(mean);
    let cfg = ArbiterCfg::default();
    let mut state = ArbiterState::default();
    let r = decide_escalation_cfg(u, &cfg, &mut state);
    assert(is_aggregate_of(u, view.evidence@, mean));
    r
}

/// The counters never decide: they are looked at only on a tick with an
/// alarm, and there the alarm has decided already. So under any thresholds
/// the tier depends on the measurement alone.
pub proof fn lemma_counters_never_decide(u: Uncertainty, cfg: ArbiterCfg, state: ArbiterState, other: ArbiterState)
    ensures
        decision_of(u, cfg, state) == decision_of(u, cfg, other),
        decision_of(u, cfg, state) == (if alarms_of(u, cfg).any() {
            Escalation::CritiquePass
        } else {
            Escalation::Stay
        }),
{
}

/// No tick asks for a second model.
pub proof fn lemma_second_opinion_unreachable(u: Uncertainty, ff: Option<FreezeFlags>, cfg: ArbiterCfg, state: ArbiterState)
    ensures
        tick_decision(u, ff, cfg, state) != Escalation::SecondLLM,
        decision_of(u, cfg, state) != Escalation::SecondLLM,
{
}

/// A tick on which no alarm fires clears both counters, whatever they were
/// and whatever flags came with it.
pub proof fn lemma_clean_tick_resets(u: Uncertainty, ff: Option<FreezeFlags>, cfg: ArbiterCfg, state: ArbiterState)
    requires
        !alarms_of(u, cfg).any(),
    ensures
        tick_state(u, ff, cfg, state) == ArbiterState::cleared(),
        tick_decision(u, ff, cfg, state) == Escalation::Stay,
{
}

/// A tick that carries the repetition flag and raises an alarm leaves the
/// repetition counter exactly one higher, unless hysteresis is disabled or
/// the counter is at its largest value.
pub proof fn lemma_tick_counts_repetition(u: Uncertainty, flags: FreezeFlags, cfg: ArbiterCfg, state: ArbiterState)
    requires
        flags.rep_3p,
        !cfg.hyst_disable,
        state.hyst_rep < u32::MAX,
        alarms_of(u, cfg).any(),
    ensures
        tick_state(u, Some(flags), cfg, state).hyst_rep == state.hyst_rep + 1,
{
}

} // verus!
