use nsc_arbiter::adapter::{BasicEvidenceBuilder, EvidenceBuilder, SignalEvent};
use nsc_arbiter::cfg::ArbiterCfg;
use nsc_arbiter::decide::Escalation;
use nsc_arbiter::evidence::{Evidence, Uncertainty, WeightedTerm};
use nsc_arbiter::freeze::FreezeFlags;
use nsc_arbiter::scalar::Scalar;
use nsc_arbiter::snapshot::{RestoreStats, SupervisorSnapshot};
use nsc_arbiter::sources::default_source_profiles;
use nsc_arbiter::state::ArbiterState;
use nsc_arbiter::supervisor::{ActionEvent, ArbiterSupervisor, IntentTick};

fn num(x: f32) -> Scalar {
    Scalar::from_bits(x.to_bits())
}

fn val(s: Scalar) -> f32 {
    f32::from_bits(s.to_bits())
}

/// The weighted mean of the terms, rule hits rounded half away from zero.
fn mean(terms: &[WeightedTerm]) -> Uncertainty {
    let (mut entropy, mut cosine, mut hits, mut gate, mut total) = (0.0f32, 0.0f32, 0.0f32, 0.0f32, 0.0f32);
    for t in terms {
        let w = val(t.weight);
        entropy += val(t.avg_entropy) * w;
        cosine += val(t.cosine_sim) * w;
        hits += t.rule_hits as f32 * w;
        gate += val(t.gate_shift) * w;
        total += w;
    }
    if total > 0.0 {
        entropy /= total;
        cosine /= total;
        hits /= total;
        gate /= total;
    }
    Uncertainty { avg_entropy: num(entropy), cosine_sim: num(cosine), rule_hits: hits.round() as u32, gate_shift: num(gate) }
}

fn event(intent: &str, entropy: f32) -> SignalEvent {
    SignalEvent::new(intent, "source:probe", "test").with_scalar("entropy", num(entropy)).with_scalar("cosine", num(0.9))
}

fn state(rep: u32, stall: u32) -> ArbiterState {
    ArbiterState { hyst_rep: rep, hyst_stall: stall }
}

fn ids(actions: &[ActionEvent]) -> Vec<&str> {
    actions.iter().map(|a| a.intent_id.as_str()).collect()
}

fn listing(snap: &SupervisorSnapshot) -> Vec<(&str, u32, u32)> {
    snap.states.iter().map(|(k, s)| (k.as_str(), s.hyst_rep, s.hyst_stall)).collect()
}

fn summary(actions: &[ActionEvent]) -> Vec<(String, Escalation, Option<(u32, u32, u32, u32)>, Option<FreezeFlags>)> {
    actions
        .iter()
        .map(|a| {
            (
                a.intent_id.clone(),
                a.escalation,
                a.uncertainty.map(|u| (u.avg_entropy.to_bits(), u.cosine_sim.to_bits(), u.rule_hits, u.gate_shift.to_bits())),
                a.freeze_flags,
            )
        })
        .collect()
}

#[test]
fn a_new_supervisor_holds_nothing() {
    for shards in [0usize, 1, 2, 16] {
        let sup = ArbiterSupervisor::new(shards, ArbiterCfg::default());
        assert!(sup.snapshot().states.is_empty());
        assert!(sup.export_state().states.is_empty());
        assert_eq!(sup.state_for("anything"), None);
        assert_eq!(sup.cfg_for("anything").tau_rep, 1);
    }
}

#[test]
fn ingest_gives_one_action_per_intent_in_order() {
    let builder = BasicEvidenceBuilder::default();
    let events = vec![event("zeta", 3.0), event("alpha", 1.0), event("mid", 3.0), event("alpha", 1.0), event("Zeta", 1.0), event("", 5.0)];
    for shards in [1usize, 2, 3, 8] {
        let mut sup = ArbiterSupervisor::new(shards, ArbiterCfg::default());
        let actions = sup.ingest(&builder, &events, mean);
        assert_eq!(ids(&actions), vec!["", "Zeta", "alpha", "mid", "zeta"]);
        let escalations: Vec<Escalation> = actions.iter().map(|a| a.escalation).collect();
        assert_eq!(
            escalations,
            vec![Escalation::CritiquePass, Escalation::Stay, Escalation::Stay, Escalation::CritiquePass, Escalation::CritiquePass]
        );
        for a in &actions {
            assert!(a.uncertainty.is_some());
            assert_eq!(a.freeze_flags, None);
        }
    }
}

#[test]
fn ingest_is_the_same_on_every_run_and_for_every_shard_count() {
    let builder = BasicEvidenceBuilder::default();
    let events = vec![
        event("b", 3.0).with_text("abcabc"),
        event("a", 1.0).with_text("as an ai"),
        event("c", 2.5),
        event("a", 4.0),
        event("b", 0.5).with_text(""),
        event("d", 0.1).with_rule_hits(1),
    ];
    let mut first = ArbiterSupervisor::new(4, ArbiterCfg::default());
    let want = summary(&first.ingest(&builder, &events, mean));
    let want_state = listing(&first.snapshot()).iter().map(|(k, r, s)| (k.to_string(), *r, *s)).collect::<Vec<_>>();
    for shards in [4usize, 4, 1, 2, 3, 7, 64] {
        let mut sup = ArbiterSupervisor::new(shards, ArbiterCfg::default());
        assert_eq!(summary(&sup.ingest(&builder, &events, mean)), want);
        let got_state = listing(&sup.snapshot()).iter().map(|(k, r, s)| (k.to_string(), *r, *s)).collect::<Vec<_>>();
        assert_eq!(got_state, want_state);
    }
    let mut sorted = want.iter().map(|w| w.0.clone()).collect::<Vec<_>>();
    sorted.sort();
    assert_eq!(want.iter().map(|w| w.0.clone()).collect::<Vec<_>>(), sorted);
}

#[test]
fn ingest_aggregates_each_intent_once() {
    let builder = BasicEvidenceBuilder::default();
    let events = vec![
        SignalEvent::new("i", "llm", "decoder")
            .with_scalar("entropy", num(1.0))
            .with_scalar("cosine", num(1.0))
            .with_scalar("gate_shift", num(1.0))
            .with_scalar("weight", num(1.0)),
        SignalEvent::new("i", "stt", "prosody")
            .with_scalar("entropy", num(3.0))
            .with_scalar("cosine", num(0.0))
            .with_scalar("gate_shift", num(3.0))
            .with_scalar("weight", num(1.0))
            .with_rule_hits(2),
    ];
    let mut sup = ArbiterSupervisor::new(1, ArbiterCfg::default());
    let actions = sup.ingest(&builder, &events, mean);
    assert_eq!(actions.len(), 1);
    let u = actions[0].uncertainty.expect("telemetry");
    assert!((val(u.avg_entropy) - 2.0).abs() < 1e-6);
    assert!((val(u.cosine_sim) - 0.5).abs() < 1e-6);
    assert!((val(u.gate_shift) - 2.0).abs() < 1e-6);
    assert_eq!(u.rule_hits, 1);
    assert_eq!(actions[0].escalation, Escalation::CritiquePass);
}

#[test]
fn ingest_counts_the_flags_of_the_texts_once_per_batch() {
    let builder = BasicEvidenceBuilder::default();
    let mut sup = ArbiterSupervisor::new(2, ArbiterCfg::default());
    // Two texts for one intent in one batch: flags are combined, the tick runs once.
    let events = vec![event("i", 3.0).with_text("abcabc"), event("i", 3.0).with_text("aaaaaaaaaaaaaaaaaaaa")];
    let actions = sup.ingest(&builder, &events, mean);
    assert_eq!(actions.len(), 1);
    assert_eq!(actions[0].freeze_flags, Some(FreezeFlags { rep_3p: true, stall: true, ai_tell: false }));
    assert_eq!(actions[0].escalation, Escalation::CritiquePass);
    assert_eq!(sup.state_for("i"), Some(state(1, 1)));
    // A second batch with an alarm and the repetition flag counts one more.
    let actions = sup.ingest(&builder, &[event("i", 3.0).with_text("abcabc")], mean);
    assert_eq!(actions[0].freeze_flags, Some(FreezeFlags { rep_3p: true, stall: false, ai_tell: false }));
    assert_eq!(sup.state_for("i"), Some(state(2, 1)));
    // A clean batch clears.
    let actions = sup.ingest(&builder, &[event("i", 1.0).with_text("abcabc")], mean);
    assert_eq!(actions[0].escalation, Escalation::Stay);
    assert_eq!(sup.state_for("i"), Some(state(0, 0)));
}

#[test]
fn flags_of_an_intent_without_evidence_are_dropped() {
    struct OnlyA;
    impl EvidenceBuilder for OnlyA {
        fn build(&self, ev: &SignalEvent) -> Vec<Evidence> {
            if ev.intent_id == "a" {
                BasicEvidenceBuilder::default().build(ev)
            } else {
                Vec::new()
            }
        }
    }
    let mut sup = ArbiterSupervisor::new(3, ArbiterCfg::default());
    let events = vec![event("a", 3.0), event("b", 3.0).with_text("abcabc")];
    let actions = sup.ingest(&OnlyA, &events, mean);
    assert_eq!(ids(&actions), vec!["a"]);
    assert_eq!(actions[0].freeze_flags, None);
    assert_eq!(sup.state_for("b"), None);
    assert_eq!(sup.state_for("a"), Some(state(0, 0)));
}

#[test]
fn the_first_touch_creates_a_state_at_zero() {
    let mut sup = ArbiterSupervisor::new(2, ArbiterCfg::default());
    sup.ingest(&BasicEvidenceBuilder::default(), &[event("quiet", 0.5)], mean);
    assert_eq!(listing(&sup.snapshot()), vec![("quiet", 0, 0)]);
}

#[test]
fn an_empty_batch_does_nothing() {
    let mut sup = ArbiterSupervisor::new(2, ArbiterCfg::default());
    assert!(sup.ingest(&BasicEvidenceBuilder::default(), &[], mean).is_empty());
    assert!(sup.snapshot().states.is_empty());
    assert!(sup.run_ticks(Vec::new()).is_empty());
}

#[test]
fn overrides_apply_to_their_intent_only() {
    let builder = BasicEvidenceBuilder::default();
    let mut sup = ArbiterSupervisor::new(2, ArbiterCfg::default());
    let strict = ArbiterCfg { tau_e: num(0.5), ..ArbiterCfg::default() };
    sup.set_cfg_override("a", strict);
    assert_eq!(val(sup.cfg_for("a").tau_e), 0.5);
    assert_eq!(val(sup.cfg_for("b").tau_e), 2.2);
    let events = vec![event("a", 1.0), event("b", 1.0)];
    let actions = sup.ingest(&builder, &events, mean);
    assert_eq!(actions[0].escalation, Escalation::CritiquePass);
    assert_eq!(actions[1].escalation, Escalation::Stay);
    sup.clear_cfg_override("a");
    assert_eq!(val(sup.cfg_for("a").tau_e), 2.2);
    let actions = sup.ingest(&builder, &events, mean);
    assert_eq!(actions[0].escalation, Escalation::Stay);
    sup.clear_cfg_override("never set");
}

#[test]
fn a_disabled_hysteresis_does_not_count() {
    let builder = BasicEvidenceBuilder::default();
    let mut sup = ArbiterSupervisor::new(1, ArbiterCfg { hyst_disable: true, ..ArbiterCfg::default() });
    sup.ingest(&builder, &[event("i", 3.0).with_text("abcabc")], mean);
    assert_eq!(sup.state_for("i"), Some(state(0, 0)));
}

#[test]
fn source_profiles_weigh_the_evidence() {
    let builder = BasicEvidenceBuilder::default();
    let events = vec![
        SignalEvent::new("i", "llm", "o").with_scalar("entropy", num(4.0)).with_scalar("weight", num(0.25)),
        SignalEvent::new("i", "vendor", "o").with_scalar("entropy", num(1.0)).with_scalar("weight", num(3.0)),
    ];
    let mut sup = ArbiterSupervisor::new(1, ArbiterCfg::default());
    let plain = sup.ingest(&builder, &events, mean);
    let u = plain[0].uncertainty.expect("telemetry");
    assert!((val(u.avg_entropy) - (4.0 * 0.25 + 1.0 * 3.0) / 3.25).abs() < 1e-6);
    sup.set_source_profiles(default_source_profiles());
    let weighed = sup.ingest(&builder, &events, mean);
    let u = weighed[0].uncertainty.expect("telemetry");
    assert!((val(u.avg_entropy) - (4.0 * 0.5 + 1.0 * 0.6) / 1.1).abs() < 1e-6);
    let shares = sup.prepare(&builder, &events);
    assert_eq!(shares.len(), 1);
    let weights: Vec<f32> = shares[0].view.evidence.iter().map(|e| val(e.weight)).collect();
    assert_eq!(weights, vec![0.5, 0.6]);
    sup.clear_source_profiles();
    let shares = sup.prepare(&builder, &events);
    let weights: Vec<f32> = shares[0].view.evidence.iter().map(|e| val(e.weight)).collect();
    assert_eq!(weights, vec![0.25, 3.0]);
}

#[test]
fn run_ticks_follows_the_order_given() {
    let mut sup = ArbiterSupervisor::new(3, ArbiterCfg::default());
    let hot = Uncertainty { avg_entropy: num(3.0), cosine_sim: num(0.9), rule_hits: 0, gate_shift: num(0.0) };
    let cold = Uncertainty { avg_entropy: num(1.0), cosine_sim: num(0.9), rule_hits: 0, gate_shift: num(0.0) };
    let rep = Some(FreezeFlags { rep_3p: true, stall: false, ai_tell: false });
    let ticks = vec![
        IntentTick { intent_id: "b".to_string(), uncertainty: hot, freeze_flags: rep },
        IntentTick { intent_id: "a".to_string(), uncertainty: cold, freeze_flags: None },
        IntentTick { intent_id: "b".to_string(), uncertainty: hot, freeze_flags: rep },
    ];
    let actions = sup.run_ticks(ticks);
    assert_eq!(ids(&actions), vec!["b", "a", "b"]);
    assert_eq!(sup.state_for("b"), Some(state(2, 0)));
    assert_eq!(sup.state_for("a"), Some(state(0, 0)));
    let one = sup.tick_intent(IntentTick { intent_id: "b".to_string(), uncertainty: cold, freeze_flags: rep });
    assert_eq!(one.intent_id, "b");
    assert_eq!(one.escalation, Escalation::Stay);
    assert_eq!(one.freeze_flags, rep);
    assert_eq!(one.uncertainty.map(|u| u.avg_entropy.to_bits()), Some(1.0f32.to_bits()));
    assert_eq!(sup.state_for("b"), Some(state(0, 0)));
}

fn filled(shards: usize) -> ArbiterSupervisor {
    let mut sup = ArbiterSupervisor::new(shards, ArbiterCfg::default());
    let stats = sup.import_state(vec![
        ("delta".to_string(), state(4, 0)),
        ("alpha".to_string(), state(1, 2)),
        ("charlie".to_string(), state(0, 3)),
        ("bravo".to_string(), state(7, 7)),
    ]);
    assert_eq!(stats, RestoreStats { applied: 4, overwritten: 0 });
    sup
}

#[test]
fn export_is_sorted_by_intent() {
    for shards in [1usize, 2, 5, 32] {
        let sup = filled(shards);
        let want = vec![("alpha", 1, 2), ("bravo", 7, 7), ("charlie", 0, 3), ("delta", 4, 0)];
        assert_eq!(listing(&sup.export_state()), want);
        assert_eq!(listing(&sup.snapshot()), want);
    }
}

#[test]
fn the_order_is_the_order_of_the_bytes() {
    let mut sup = ArbiterSupervisor::new(3, ArbiterCfg::default());
    let names = ["b", "a", "B", "", "ab", "é", "z", "~", "a\u{10000}", "a\u{ffff}", "10", "9"];
    sup.import_state(names.iter().map(|n| (n.to_string(), state(0, 0))).collect());
    let mut want: Vec<&str> = names.to_vec();
    want.sort();
    let snap = sup.export_state();
    assert_eq!(snap.states.iter().map(|(k, _)| k.as_str()).collect::<Vec<_>>(), want);
}

#[test]
fn import_of_an_export_changes_nothing() {
    for shards in [1usize, 4] {
        let mut sup = filled(shards);
        let before = sup.export_state();
        let stats = sup.import_state(before.states.clone());
        assert_eq!(stats, RestoreStats { applied: 4, overwritten: 0 });
        assert_eq!(listing(&sup.export_state()), listing(&before));
        // Into a supervisor with another number of shards.
        let mut other = ArbiterSupervisor::new(shards + 3, ArbiterCfg::default());
        other.restore(before.clone());
        assert_eq!(listing(&other.export_state()), listing(&before));
    }
}

#[test]
fn restore_drops_what_the_snapshot_does_not_list() {
    let mut sup = filled(4);
    let snap = sup.snapshot();
    sup.import_state_merge(vec![("extra".to_string(), state(9, 9))]);
    assert_eq!(sup.state_for("extra"), Some(state(9, 9)));
    let stats = sup.restore(snap.clone());
    assert_eq!(stats, RestoreStats { applied: 4, overwritten: 0 });
    assert_eq!(sup.state_for("extra"), None);
    assert_eq!(listing(&sup.snapshot()), listing(&snap));
}

#[test]
fn restore_merge_keeps_what_the_snapshot_does_not_list() {
    let mut sup = filled(4);
    let snap = SupervisorSnapshot { states: vec![("alpha".to_string(), state(5, 5)), ("echo".to_string(), state(6, 6))] };
    sup.import_state_merge(vec![("extra".to_string(), state(9, 9))]);
    let stats = sup.restore_merge(snap);
    assert_eq!(stats, RestoreStats { applied: 2, overwritten: 1 });
    assert_eq!(
        listing(&sup.snapshot()),
        vec![("alpha", 5, 5), ("bravo", 7, 7), ("charlie", 0, 3), ("delta", 4, 0), ("echo", 6, 6), ("extra", 9, 9)]
    );
}

#[test]
fn an_identifier_twice_in_an_import_counts_as_overwritten() {
    let mut sup = ArbiterSupervisor::new(2, ArbiterCfg::default());
    let stats = sup.import_state(vec![
        ("a".to_string(), state(1, 1)),
        ("b".to_string(), state(2, 2)),
        ("a".to_string(), state(3, 3)),
        ("a".to_string(), state(4, 4)),
    ]);
    assert_eq!(stats, RestoreStats { applied: 4, overwritten: 2 });
    assert_eq!(listing(&sup.snapshot()), vec![("a", 4, 4), ("b", 2, 2)]);
    let stats = sup.import_state(Vec::new());
    assert_eq!(stats, RestoreStats { applied: 0, overwritten: 0 });
    assert_eq!(stats, RestoreStats::default());
    assert!(sup.snapshot().states.is_empty());
}

#[test]
fn clear_intent_forgets_one_intent() {
    let mut sup = filled(3);
    sup.clear_intent("bravo");
    sup.clear_intent("not there");
    assert_eq!(listing(&sup.snapshot()), vec![("alpha", 1, 2), ("charlie", 0, 3), ("delta", 4, 0)]);
    assert_eq!(sup.state_for("bravo"), None);
    assert_eq!(sup.state_for("alpha"), Some(state(1, 2)));
}

#[test]
fn a_filtered_snapshot_holds_what_the_predicate_accepts() {
    let sup = filled(3);
    let active = sup.snapshot_filtered(|_id, st| st.hyst_rep > 0);
    assert_eq!(listing(&active), vec![("alpha", 1, 2), ("bravo", 7, 7), ("delta", 4, 0)]);
    let by_name = sup.snapshot_filtered(|id, _st| id.starts_with('c') || id.starts_with('d'));
    assert_eq!(listing(&by_name), vec![("charlie", 0, 3), ("delta", 4, 0)]);
    assert!(sup.snapshot_filtered(|_, _| false).states.is_empty());
    assert_eq!(listing(&sup.snapshot_filtered(|_, _| true)), listing(&sup.snapshot()));
}

#[test]
fn a_snapshot_of_named_intents() {
    let sup = filled(5);
    let snap = sup.snapshot_intents(&["delta", "nobody", "alpha", "delta"]);
    assert_eq!(listing(&snap), vec![("alpha", 1, 2), ("delta", 4, 0)]);
    let owned = vec!["charlie".to_string(), "bravo".to_string(), "ghost".to_string()];
    let snap = sup.snapshot_intents_owned(&owned);
    assert_eq!(listing(&snap), vec![("bravo", 7, 7), ("charlie", 0, 3)]);
    assert!(sup.snapshot_intents(&[]).states.is_empty());
    assert!(sup.snapshot_intents_owned(&[]).states.is_empty());
}

#[test]
fn snapshot_default_is_empty() {
    assert!(SupervisorSnapshot::default().states.is_empty());
}

#[test]
fn a_large_state_comes_out_in_order() {
    for shards in [1usize, 7, 64] {
        let mut sup = ArbiterSupervisor::new(shards, ArbiterCfg::default());
        let entries: Vec<(String, ArbiterState)> =
            (0..3000u32).map(|i| (format!("intent-{}", i.wrapping_mul(2_654_435_761) % 100_000), state(i, i / 2))).collect();
        let stats = sup.import_state(entries.clone());
        assert_eq!(stats.applied, 3000);
        let mut want: std::collections::BTreeMap<String, ArbiterState> = std::collections::BTreeMap::new();
        for (k, v) in entries {
            want.insert(k, v);
        }
        assert_eq!(stats.overwritten, 3000 - want.len());
        let snap = sup.export_state();
        let got: Vec<(String, ArbiterState)> = snap.states;
        let want: Vec<(String, ArbiterState)> = want.into_iter().collect();
        assert_eq!(got, want);
        let odd = sup.snapshot_filtered(|_, st| st.hyst_rep % 2 == 1);
        let want_odd: Vec<(String, ArbiterState)> = want.iter().filter(|(_, st)| st.hyst_rep % 2 == 1).cloned().collect();
        assert_eq!(odd.states, want_odd);
    }
}
