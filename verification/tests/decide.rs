use nsc_arbiter::cfg::ArbiterCfg;
use nsc_arbiter::decide::{arbiter_idle_tick, arbiter_tick, decide_escalation_cfg, decide_escalation_from_view, evaluate_alarms, Escalation};
use nsc_arbiter::evidence::{ArbiterEvidenceView, Evidence, Uncertainty, WeightedTerm};
use nsc_arbiter::freeze::FreezeFlags;
use nsc_arbiter::scalar::Scalar;
use nsc_arbiter::state::{hyst_bump, hyst_reset, ArbiterState};

fn num(x: f32) -> Scalar {
    Scalar::from_bits(x.to_bits())
}

fn measured(entropy: f32, cosine: f32, hits: u32, gate: f32) -> Uncertainty {
    Uncertainty { avg_entropy: num(entropy), cosine_sim: num(cosine), rule_hits: hits, gate_shift: num(gate) }
}

#[test]
fn by_entropy() {
    let u = Uncertainty { avg_entropy: num(3.0), cosine_sim: num(0.9), rule_hits: 0, gate_shift: num(0.0) };
    let mut state = ArbiterState::default();
    let cfg = ArbiterCfg::default();
    assert_eq!(decide_escalation_cfg(u, &cfg, &mut state), Escalation::CritiquePass);
}

#[test]
fn clean() {
    let u = Uncertainty { avg_entropy: num(1.1), cosine_sim: num(0.9), rule_hits: 0, gate_shift: num(0.0) };
    let mut state = ArbiterState::default();
    let cfg = ArbiterCfg::default();
    assert_eq!(decide_escalation_cfg(u, &cfg, &mut state), Escalation::Stay);
}

#[test]
fn default_thresholds() {
    let cfg = ArbiterCfg::default();
    assert_eq!(cfg.tau_e.to_bits(), 2.2f32.to_bits());
    assert_eq!(cfg.tau_s.to_bits(), 0.76f32.to_bits());
    assert_eq!(cfg.tau_gate.to_bits(), 2.0f32.to_bits());
    assert_eq!(cfg.tau_rep, 1);
    assert_eq!(cfg.tau_stall, 1);
    assert!(!cfg.hyst_disable);
    assert_eq!(cfg.forced_rule_hits, None);
}

#[test]
fn each_alarm_alone_escalates() {
    let cfg = ArbiterCfg::default();
    let cases = [
        measured(2.3, 0.9, 0, 0.0),
        measured(1.0, 0.75, 0, 0.0),
        measured(1.0, 0.9, 1, 0.0),
        measured(1.0, 0.9, 0, 2.5),
    ];
    for (i, u) in cases.into_iter().enumerate() {
        let alarms = evaluate_alarms(u, &cfg);
        assert_eq!(alarms.hi_entropy, i == 0);
        assert_eq!(alarms.low_sim, i == 1);
        assert_eq!(alarms.rules_bad, i == 2);
        assert_eq!(alarms.gate_bad, i == 3);
        assert!(alarms.fired());
        let mut state = ArbiterState::default();
        assert_eq!(decide_escalation_cfg(u, &cfg, &mut state), Escalation::CritiquePass);
    }
}

#[test]
fn a_measurement_at_the_threshold_is_no_alarm() {
    let cfg = ArbiterCfg::default();
    let u = measured(2.2, 0.76, 0, 2.0);
    let alarms = evaluate_alarms(u, &cfg);
    assert!(!alarms.fired());
    let mut state = ArbiterState { hyst_rep: 4, hyst_stall: 9 };
    assert_eq!(decide_escalation_cfg(u, &cfg, &mut state), Escalation::Stay);
    assert_eq!(state, ArbiterState { hyst_rep: 0, hyst_stall: 0 });
}

#[test]
fn measurements_that_are_not_finite_raise_no_alarm() {
    let cfg = ArbiterCfg::default();
    for bad in [f32::NAN, f32::INFINITY, f32::NEG_INFINITY] {
        let u = measured(bad, bad, 0, bad);
        assert!(!evaluate_alarms(u, &cfg).fired());
        let mut state = ArbiterState { hyst_rep: 3, hyst_stall: 3 };
        assert_eq!(decide_escalation_cfg(u, &cfg, &mut state), Escalation::Stay);
        assert_eq!(state, ArbiterState::default());
    }
}

#[test]
fn a_threshold_that_is_a_nan_never_fires() {
    let mut cfg = ArbiterCfg::default();
    cfg.tau_e = num(f32::NAN);
    cfg.tau_s = num(f32::NAN);
    cfg.tau_gate = num(f32::NAN);
    let u = measured(100.0, -1.0, 0, 100.0);
    assert!(!evaluate_alarms(u, &cfg).fired());
}

#[test]
fn forced_rule_hits_stand_in_for_the_measured_ones() {
    let mut cfg = ArbiterCfg::default();
    cfg.forced_rule_hits = Some(0);
    let mut state = ArbiterState::default();
    assert_eq!(decide_escalation_cfg(measured(1.0, 0.9, 7, 0.0), &cfg, &mut state), Escalation::Stay);
    cfg.forced_rule_hits = Some(2);
    assert_eq!(decide_escalation_cfg(measured(1.0, 0.9, 0, 0.0), &cfg, &mut state), Escalation::CritiquePass);
}

#[test]
fn a_clean_tick_resets_both_counters() {
    let cfg = ArbiterCfg::default();
    let mut state = ArbiterState { hyst_rep: u32::MAX, hyst_stall: 17 };
    let flags = FreezeFlags { rep_3p: true, stall: true, ai_tell: true };
    let esc = arbiter_tick(measured(1.1, 0.9, 0, 0.0), Some(flags), &cfg, &mut state);
    assert_eq!(esc, Escalation::Stay);
    assert_eq!(state, ArbiterState { hyst_rep: 0, hyst_stall: 0 });
}

#[test]
fn an_alarm_tick_keeps_the_counters_as_bumped() {
    let cfg = ArbiterCfg::default();
    let mut state = ArbiterState { hyst_rep: 2, hyst_stall: 5 };
    let flags = FreezeFlags { rep_3p: true, stall: false, ai_tell: false };
    let esc = arbiter_tick(measured(3.0, 0.9, 0, 0.0), Some(flags), &cfg, &mut state);
    assert_eq!(esc, Escalation::CritiquePass);
    assert_eq!(state, ArbiterState { hyst_rep: 3, hyst_stall: 5 });
    let esc = arbiter_tick(measured(3.0, 0.9, 0, 0.0), None, &cfg, &mut state);
    assert_eq!(esc, Escalation::CritiquePass);
    assert_eq!(state, ArbiterState { hyst_rep: 3, hyst_stall: 5 });
}

#[test]
fn bump_counts_each_flag_once() {
    let mut state = ArbiterState::default();
    state.bump(FreezeFlags { rep_3p: true, stall: false, ai_tell: false }, false);
    assert_eq!(state, ArbiterState { hyst_rep: 1, hyst_stall: 0 });
    state.bump(FreezeFlags { rep_3p: true, stall: true, ai_tell: false }, false);
    assert_eq!(state, ArbiterState { hyst_rep: 2, hyst_stall: 1 });
    state.bump(FreezeFlags { rep_3p: false, stall: false, ai_tell: true }, false);
    assert_eq!(state, ArbiterState { hyst_rep: 2, hyst_stall: 1 });
}

#[test]
fn bump_does_nothing_when_disabled() {
    let mut state = ArbiterState { hyst_rep: 2, hyst_stall: 1 };
    state.bump(FreezeFlags { rep_3p: true, stall: true, ai_tell: true }, true);
    assert_eq!(state, ArbiterState { hyst_rep: 2, hyst_stall: 1 });
}

#[test]
fn bump_stops_at_the_largest_count() {
    let mut state = ArbiterState { hyst_rep: u32::MAX, hyst_stall: u32::MAX - 1 };
    state.bump(FreezeFlags { rep_3p: true, stall: true, ai_tell: false }, false);
    assert_eq!(state, ArbiterState { hyst_rep: u32::MAX, hyst_stall: u32::MAX });
}

#[test]
fn reset_clears() {
    let mut state = ArbiterState { hyst_rep: 9, hyst_stall: 9 };
    state.reset();
    assert_eq!(state, ArbiterState::default());
    assert_eq!(state.hyst_rep, 0);
    assert_eq!(state.hyst_stall, 0);
}

#[test]
fn the_shims_do_nothing() {
    hyst_reset();
    hyst_bump(FreezeFlags { rep_3p: true, stall: true, ai_tell: true });
}

#[test]
fn no_tick_asks_for_a_second_model() {
    let cfgs = [ArbiterCfg::default(), ArbiterCfg { hyst_disable: true, tau_rep: 0, tau_stall: 0, ..ArbiterCfg::default() }];
    let flags = [None, Some(FreezeFlags { rep_3p: true, stall: true, ai_tell: true })];
    for cfg in cfgs {
        for ff in flags {
            for u in [measured(3.0, 0.1, 3, 9.0), measured(0.0, 1.0, 0, 0.0), measured(f32::NAN, 0.9, 0, 0.0)] {
                let mut state = ArbiterState { hyst_rep: 5, hyst_stall: 5 };
                assert_ne!(arbiter_tick(u, ff, &cfg, &mut state), Escalation::SecondLLM);
            }
        }
    }
}

#[test]
fn counters_alone_do_not_escalate_a_clean_tick() {
    let cfg = ArbiterCfg { tau_rep: 1, tau_stall: 1, ..ArbiterCfg::default() };
    let mut state = ArbiterState { hyst_rep: 10, hyst_stall: 10 };
    let flags = FreezeFlags { rep_3p: true, stall: true, ai_tell: false };
    assert_eq!(arbiter_tick(measured(1.0, 0.9, 0, 0.0), Some(flags), &cfg, &mut state), Escalation::Stay);
    assert_eq!(state, ArbiterState::default());
}

fn first_term(terms: &[WeightedTerm]) -> Uncertainty {
    let t = terms[0];
    Uncertainty { avg_entropy: t.avg_entropy, cosine_sim: t.cosine_sim, rule_hits: t.rule_hits, gate_shift: t.gate_shift }
}

fn view_of(entropy: f32, weight: f32) -> ArbiterEvidenceView {
    let mut view = ArbiterEvidenceView::new("i");
    view.push(Evidence {
        source_id: "s".to_string(),
        intent_id: "i".to_string(),
        origin: "o".to_string(),
        gate_shift: num(0.0),
        avg_entropy: num(entropy),
        cosine_sim: num(0.9),
        rule_hits: 0,
        weight: num(weight),
    });
    view
}

#[test]
fn a_tick_on_a_view_counts_then_aggregates_then_judges() {
    let cfg = ArbiterCfg::default();
    let rep = Some(FreezeFlags { rep_3p: true, stall: false, ai_tell: false });
    let mut state = ArbiterState::default();
    assert_eq!(arbiter_idle_tick(&view_of(3.0, 1.0), rep, &cfg, &mut state, first_term), Escalation::CritiquePass);
    assert_eq!(state, ArbiterState { hyst_rep: 1, hyst_stall: 0 });
    assert_eq!(arbiter_idle_tick(&view_of(1.0, 1.0), rep, &cfg, &mut state, first_term), Escalation::Stay);
    assert_eq!(state, ArbiterState::default());
}

#[test]
fn a_tick_on_a_view_without_weight_is_clean() {
    let cfg = ArbiterCfg::default();
    let mut state = ArbiterState { hyst_rep: 3, hyst_stall: 3 };
    // The measurement would be an alarm, but it carries no weight: all zero, and
    // a cosine similarity of zero is below the threshold.
    assert_eq!(arbiter_idle_tick(&view_of(9.0, 0.0), None, &cfg, &mut state, first_term), Escalation::CritiquePass);
    // Without any evidence the aggregate is neutral: a clean tick.
    assert_eq!(arbiter_idle_tick(&ArbiterEvidenceView::new("i"), None, &cfg, &mut state, first_term), Escalation::Stay);
    assert_eq!(state, ArbiterState::default());
}

#[test]
fn the_tier_of_a_view_by_itself() {
    assert_eq!(decide_escalation_from_view(&view_of(3.0, 1.0), first_term), Escalation::CritiquePass);
    assert_eq!(decide_escalation_from_view(&view_of(1.0, 1.0), first_term), Escalation::Stay);
    assert_eq!(decide_escalation_from_view(&ArbiterEvidenceView::new("i"), first_term), Escalation::Stay);
}

#[test]
fn the_alarms_agree_with_the_hardware() {
    let values = [
        0.0f32, -0.0, 0.5, 0.75, 0.76, 0.77, 1.0, 1.1, 2.0, 2.1999998, 2.2, 2.2000003, 3.0, -1.0, 1e-40, 1e30, f32::MAX, f32::INFINITY,
        f32::NEG_INFINITY, f32::NAN,
    ];
    for tau_e in values {
        for tau_s in [0.76f32, f32::NAN, f32::INFINITY, -1.0] {
            let cfg = ArbiterCfg { tau_e: num(tau_e), tau_s: num(tau_s), tau_gate: num(tau_e), ..ArbiterCfg::default() };
            for x in values {
                let u = measured(x, x, 0, x);
                let alarms = evaluate_alarms(u, &cfg);
                assert_eq!(alarms.hi_entropy, x.is_finite() && x > tau_e, "{:?} > {:?}", x, tau_e);
                assert_eq!(alarms.low_sim, x.is_finite() && x < tau_s, "{:?} < {:?}", x, tau_s);
                assert_eq!(alarms.gate_bad, x.is_finite() && x > tau_e);
                assert!(!alarms.rules_bad);
                let mut state = ArbiterState { hyst_rep: 1, hyst_stall: 1 };
                let want = if alarms.fired() { Escalation::CritiquePass } else { Escalation::Stay };
                assert_eq!(decide_escalation_cfg(u, &cfg, &mut state), want);
                assert_eq!(state, if alarms.fired() { ArbiterState { hyst_rep: 1, hyst_stall: 1 } } else { ArbiterState::default() });
            }
        }
    }
}
