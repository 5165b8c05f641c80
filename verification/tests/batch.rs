use nsc_arbiter::adapter::{BasicEvidenceBuilder, SignalEvent};
use nsc_arbiter::batch::{collect_freeze_flags, group_evidence, prepare_batch, prepare_evidence};
use nsc_arbiter::evidence::Evidence;
use nsc_arbiter::freeze::FreezeFlags;
use nsc_arbiter::scalar::Scalar;
use nsc_arbiter::sources::default_source_profiles;

fn num(x: f32) -> Scalar {
    Scalar::from_bits(x.to_bits())
}

fn evidence(intent: &str, source: &str, hits: u32) -> Evidence {
    Evidence {
        source_id: source.to_string(),
        intent_id: intent.to_string(),
        origin: "o".to_string(),
        gate_shift: num(0.0),
        avg_entropy: num(1.0),
        cosine_sim: num(1.0),
        rule_hits: hits,
        weight: num(1.0),
    }
}

#[test]
fn evidence_is_grouped_by_intent_in_the_order_it_came() {
    let all = vec![
        evidence("b", "s", 0),
        evidence("a", "s", 1),
        evidence("b", "s", 2),
        evidence("c", "s", 3),
        evidence("a", "s", 4),
        evidence("b", "s", 5),
    ];
    let groups = group_evidence(all);
    assert_eq!(groups.len(), 3);
    let hits = |k: &str| groups.get(k).expect("group").evidence.iter().map(|e| e.rule_hits).collect::<Vec<_>>();
    assert_eq!(hits("a"), vec![1, 4]);
    assert_eq!(hits("b"), vec![0, 2, 5]);
    assert_eq!(hits("c"), vec![3]);
    for k in ["a", "b", "c"] {
        assert_eq!(groups.get(k).expect("group").intent_id, k);
    }
    assert!(groups.get("d").is_none());
    assert_eq!(group_evidence(Vec::new()).len(), 0);
}

#[test]
fn flags_are_combined_per_intent() {
    let events = vec![
        SignalEvent::new("a", "s", "o").with_text("abcabc"),
        SignalEvent::new("b", "s", "o"),
        SignalEvent::new("a", "s", "o").with_text("as an ai"),
        SignalEvent::new("c", "s", "o").with_text(""),
        SignalEvent::new("a", "s", "o").with_text("plain words here"),
        SignalEvent::new("d", "s", "o").with_text("plain words here"),
    ];
    let flags = collect_freeze_flags(&events);
    assert_eq!(flags.get("a"), Some(&FreezeFlags { rep_3p: true, stall: false, ai_tell: true }));
    assert_eq!(flags.get("b"), None);
    assert_eq!(flags.get("c"), Some(&FreezeFlags { rep_3p: false, stall: true, ai_tell: false }));
    assert_eq!(flags.get("d"), Some(&FreezeFlags { rep_3p: false, stall: false, ai_tell: false }));
    assert_eq!(flags.len(), 3);
}

#[test]
fn a_batch_is_prepared_in_order_of_the_intents() {
    let builder = BasicEvidenceBuilder::default();
    let events = vec![
        SignalEvent::new("m", "llm", "o").with_scalar("weight", num(0.25)).with_text("abcabc"),
        SignalEvent::new("a", "unknown", "o").with_scalar("weight", num(9.0)),
        SignalEvent::new("m", "stt", "o"),
        SignalEvent::new("z", "vendor", "o").with_scalar("weight", num(0.5)).with_text("x"),
    ];
    let plain = prepare_batch(&builder, &events, None);
    let ids: Vec<&str> = plain.iter().map(|b| b.view.intent_id.as_str()).collect();
    assert_eq!(ids, vec!["a", "m", "z"]);
    let weights: Vec<Vec<f32>> = plain.iter().map(|b| b.view.evidence.iter().map(|e| f32::from_bits(e.weight.to_bits())).collect()).collect();
    assert_eq!(weights, vec![vec![9.0], vec![0.25, 1.0], vec![0.5]]);
    assert_eq!(plain[0].freeze_flags, None);
    assert_eq!(plain[1].freeze_flags, Some(FreezeFlags { rep_3p: true, stall: false, ai_tell: false }));
    assert_eq!(plain[2].freeze_flags, Some(FreezeFlags { rep_3p: false, stall: false, ai_tell: false }));

    let profiles = default_source_profiles();
    let weighed = prepare_batch(&builder, &events, Some(&profiles));
    let weights: Vec<Vec<f32>> =
        weighed.iter().map(|b| b.view.evidence.iter().map(|e| f32::from_bits(e.weight.to_bits())).collect()).collect();
    assert_eq!(weights, vec![vec![0.4], vec![0.5, 0.9], vec![0.5]]);
    let sources: Vec<Vec<&str>> = weighed.iter().map(|b| b.view.evidence.iter().map(|e| e.source_id.as_str()).collect()).collect();
    assert_eq!(sources, vec![vec!["unknown"], vec!["llm", "stt"], vec!["vendor"]]);
}

#[test]
fn a_batch_from_evidence_that_is_built_already() {
    let events = vec![SignalEvent::new("b", "s", "o").with_text("abcabc"), SignalEvent::new("q", "s", "o").with_text("")];
    let shares = prepare_evidence(vec![evidence("b", "s", 1), evidence("a", "s", 2), evidence("b", "s", 3)], &events, None);
    let got: Vec<(&str, Vec<u32>, Option<FreezeFlags>)> =
        shares.iter().map(|b| (b.view.intent_id.as_str(), b.view.evidence.iter().map(|e| e.rule_hits).collect(), b.freeze_flags)).collect();
    assert_eq!(
        got,
        vec![("a", vec![2], None), ("b", vec![1, 3], Some(FreezeFlags { rep_3p: true, stall: false, ai_tell: false }))]
    );
    assert!(prepare_evidence(Vec::new(), &events, None).is_empty());
}
