//! From a batch of events to one tick per intent.
//!
//! The evidence of a batch is grouped by intent, the freeze flags of the
//! texts are combined per intent, and the source profiles are applied. What
//! comes out is, per intent and in ascending order of the identifiers, the
//! evidence to aggregate and the flags to count.

use vstd::prelude::*;
use crate::adapter::{build_evidence_batch, may_build, EvidenceBuilder, SignalEvent};
use crate::evidence::{ArbiterEvidenceView, Evidence};
use crate::freeze::{flags_of, freeze_flags, FreezeFlags};
use crate::idmap::{ascending, lemma_assoc_at, listed, slot_of, IdMap};
use crate::sources::{all_bands, apply_source_profiles, reweighted, SourceProfile, SourceProfiles};

verus! {

/// One intent's share of a batch: its evidence, with the weights that count,
/// and the freeze flags of its texts, if it had any text.
#[derive(Clone, Debug)]
pub struct IntentBatch {
    pub view: ArbiterEvidenceView,
    pub freeze_flags: Option<FreezeFlags>,
}

/// Some measurement of `evidence` is about `id`.
pub open spec fn touched(evidence: Seq<Evidence>, id: Seq<char>) -> bool {
    exists|i: int| 0 <= i < evidence.len() && (#[trigger] evidence[i]).intent_id@ == id
}

/// The measurements of `evidence` that are about `id`, in their order.
pub open spec fn evidence_for(evidence: Seq<Evidence>, id: Seq<char>) -> Seq<Evidence> {
    evidence.filter(|e: Evidence| e.intent_id@ == id)
}

/// The freeze flags of the texts that `events` carry for `id`, combined;
/// nothing where no event for `id` carries a text.
pub open spec fn flags_for(events: Seq<SignalEvent>, id: Seq<char>) -> Option<FreezeFlags>
    decreases events.len(),
{
    if events.len() == 0 {
        None
    } else {
        let before = flags_for(events.drop_last(), id);
        let e = events.last();
        if e.intent_id@ == id && e.text is Some {
            let so_far = match before {
                Some(f) => f,
                None => FreezeFlags::clear(),
            };
            Some(so_far.merged(flags_of(e.text->0@)))
        } else {
            before
        }
    }
}

/// The measurements with the weights that the profiles grant, where there
/// are profiles; as they are, where there are none.
pub open spec fn weighed(evidence: Seq<Evidence>, profiles: Option<Map<Seq<char>, SourceProfile>>) -> Seq<Evidence> {
    match profiles {
        Some(p) => Seq::new(evidence.len(), |i: int| reweighted(evidence[i], p)),
        None => evidence,
    }
}

/// The evidence that `groups` holds for `id`.
pub open spec fn grouped(groups: Map<Seq<char>, ArbiterEvidenceView>, id: Seq<char>) -> Seq<Evidence> {
    if groups.contains_key(id) {
        groups[id].evidence@
    } else {
        Seq::empty()
    }
}

/// Groups evidence by intent: one view per intent that any measurement is
/// about, with the measurements about it in the order they came.
pub fn group_evidence(evidence: Vec<Evidence>) -> (r: IdMap<ArbiterEvidenceView>)
    ensures
        forall|id: Seq<char>| #[trigger] r@.contains_key(id) <==> touched(evidence@, id),
        forall|id: Seq<char>| #[trigger] r@.contains_key(id) ==> r@[id].intent_id@ == id,
        forall|id: Seq<char>| #[trigger] grouped(r@, id) == evidence_for(evidence@, id),
{
    let mut groups: IdMap<ArbiterEvidenceView> = IdMap::new();
    let ghost all = evidence@;
    proof {
        reveal(Seq::filter);
        assert forall|id: Seq<char>| #[trigger] grouped(groups@, id) == evidence_for(all.take(0), id) by {
            assert(all.take(0).len() == 0);
        }
    }
    for ev in it: evidence
        invariant
            it.seq() == all,
            forall|id: Seq<char>| #[trigger] groups@.contains_key(id) <==> touched(all.take(it.index() as int), id),
            forall|id: Seq<char>| #[trigger] groups@.contains_key(id) ==> groups@[id].intent_id@ == id,
            forall|id: Seq<char>| #[trigger] grouped(groups@, id) == evidence_for(all.take(it.index() as int), id),
    {
        let ghost k = it.index() as int;
        let ghost before = groups@;
        let ghost key = ev.intent_id@;
        proof {
            assert(all.take(k + 1).drop_last() =~= all.take(k));
            assert(all.take(k + 1).last() == ev);
            reveal(Seq::filter);
            assert forall|id: Seq<char>| touched(all.take(k + 1), id) <==> (id == key || touched(all.take(k), id)) by {
                if touched(all.take(k + 1), id) {
                    let i = choose|i: int| 0 <= i < k + 1 && (#[trigger] all.take(k + 1)[i]).intent_id@ == id;
                    if i < k {
                        assert(all.take(k)[i].intent_id@ == id);
                    }
                }
                if touched(all.take(k), id) {
                    let i = choose|i: int| 0 <= i < k && (#[trigger] all.take(k)[i]).intent_id@ == id;
                    assert(all.take(k + 1)[i].intent_id@ == id);
                }
                if id == key {
                    assert(all.take(k + 1)[k].intent_id@ == id);
                }
            }
        }
        match groups.position(ev.intent_id.as_str()) {
            Some(i) => {
                proof {
                    lemma_assoc_at(groups.ids(), groups.vals(), i as int);
                }
                let mut view = ArbiterEvidenceView::default();
                groups.swap_value_at(i, &mut view);
                view.push(ev);
                groups.swap_value_at(i, &mut view);
                proof {
                    assert(groups@ =~= before.insert(key, groups@[key]));
                }
            },
            None => {
                let mut view = ArbiterEvidenceView { intent_id: ev.intent_id.clone(), evidence: Vec::new() };
                let id = ev.intent_id.clone();
                view.push(ev);
                groups.insert(id, view);
            },
        }
        proof {
            assert forall|id: Seq<char>| #[trigger] grouped(groups@, id) == evidence_for(all.take(k + 1), id) by {
                assert(grouped(before, id) == evidence_for(all.take(k), id));
                if id == key {
                    assert(grouped(groups@, id) =~= grouped(before, id).push(ev));
                } else {
                    assert(grouped(groups@, id) == grouped(before, id));
                }
            }
        }
    }
    assert(all.take(all.len() as int) =~= all);
    groups
}

/// The flags that `flags` holds for `id`.
pub open spec fn flags_in(flags: Map<Seq<char>, FreezeFlags>, id: Seq<char>) -> Option<FreezeFlags> {
    if flags.contains_key(id) {
        Some(flags[id])
    } else {
        None
    }
}

/// Reads the freeze flags of every text in the batch and combines them per
/// intent: a flag that any text of an intent sets is set for the intent.
pub fn collect_freeze_flags(events: &[SignalEvent]) -> (r: IdMap<FreezeFlags>)
    ensures
        forall|id: Seq<char>| #[trigger] flags_in(r@, id) == flags_for(events@, id),
{
    let mut flags: IdMap<FreezeFlags> = IdMap::new();
    let mut i: usize = 0;
    while i < events.len()
        invariant
            i <= events@.len(),
            forall|id: Seq<char>| #[trigger] flags_in(flags@, id) == flags_for(events@.take(i as int), id),
        decreases events.len() - i,
    {
        let ghost before = flags@;
        proof {
            assert(events@.take(i + 1).drop_last() =~= events@.take(i as int));
            assert(events@.take(i + 1).last() == events@[i as int]);
        }
        let event = &events[i];
        match &event.text {
            Some(text) => {
                let found = freeze_flags(text.as_str());
                let so_far = match flags.get(event.intent_id.as_str()) {
                    Some(f) => *f,
                    None => FreezeFlags::default(),
                };
                flags.insert(event.intent_id.clone(), so_far.merge(found));
            },
            None => {},
        }
        proof {
            assert forall|id: Seq<char>| #[trigger] flags_in(flags@, id) == flags_for(events@.take(i + 1), id) by {
                assert(flags_in(before, id) == flags_for(events@.take(i as int), id));
            }
        }
        i += 1;
    }
    assert(events@.take(events@.len() as int) =~= events@);
    flags
}

/// The intents of the shares, in their order.
pub open spec fn batch_ids(batch: Seq<IntentBatch>) -> Seq<Seq<char>> {
    Seq::new(batch.len(), |i: int| batch[i].view.intent_id@)
}

/// The profiles as a map, where there are any.
pub open spec fn profiles_view(profiles: Option<&SourceProfiles>) -> Option<Map<Seq<char>, SourceProfile>> {
    match profiles {
        Some(p) => Some(p@),
        None => None,
    }
}

/// Whether `batch` is what `evidence` and the texts of `events` come to
/// under `profiles`: one share per intent that the evidence is about, in
/// ascending order of the identifiers, each with the intent's evidence in
/// the order it came, weighed by the profiles, and with the intent's
/// combined flags.
pub open spec fn is_batch_of(
    batch: Seq<IntentBatch>,
    evidence: Seq<Evidence>,
    events: Seq<SignalEvent>,
    profiles: Option<Map<Seq<char>, SourceProfile>>,
) -> bool {
    &&& ascending(batch_ids(batch))
    &&& forall|id: Seq<char>| #[trigger] listed(batch_ids(batch), id) <==> touched(evidence, id)
    &&& forall|i: int|
        0 <= i < batch.len() ==> {
            let id = (#[trigger] batch[i]).view.intent_id@;
            &&& batch[i].view.evidence@ == weighed(evidence_for(evidence, id), profiles)
            &&& batch[i].freeze_flags == flags_for(events, id)
        }
}

/// What a batch comes to is determined by the evidence, the events and the
/// profiles: two batches of the same three list the same intents in the
/// same order, each with the same evidence and the same flags.
pub proof fn lemma_batch_determined(
    first: Seq<IntentBatch>,
    second: Seq<IntentBatch>,
    evidence: Seq<Evidence>,
    events: Seq<SignalEvent>,
    profiles: Option<Map<Seq<char>, SourceProfile>>,
)
    requires
        is_batch_of(first, evidence, events, profiles),
        is_batch_of(second, evidence, events, profiles),
    ensures
        batch_ids(first) == batch_ids(second),
        first.len() == second.len(),
        forall|i: int|
            0 <= i < first.len() ==> (#[trigger] first[i]).view.evidence@ == second[i].view.evidence@ && first[i].freeze_flags
                == second[i].freeze_flags,
{
    let ids1 = batch_ids(first);
    let ids2 = batch_ids(second);
    let marks1 = Seq::new(ids1.len(), |i: int| true);
    let marks2 = Seq::new(ids2.len(), |i: int| true);
    assert(crate::idmap::assoc(ids1, marks1) =~= crate::idmap::assoc(ids2, marks2)) by {
        assert forall|k: Seq<char>| listed(ids1, k) <==> listed(ids2, k) by {
            assert(listed(ids1, k) <==> touched(evidence, k));
            assert(listed(ids2, k) <==> touched(evidence, k));
        }
        assert forall|k: Seq<char>| listed(ids1, k) implies marks1[slot_of(ids1, k)] == marks2[slot_of(ids2, k)] by {
            assert(listed(ids2, k));
        }
    }
    crate::idmap::lemma_ascending_unique(ids1, marks1, ids2, marks2);
    assert forall|i: int| 0 <= i < first.len() implies (#[trigger] first[i]).view.evidence@ == second[i].view.evidence@
        && first[i].freeze_flags == second[i].freeze_flags by {
        assert(ids1[i] == first[i].view.intent_id@);
        assert(ids2[i] == second[i].view.intent_id@);
    }
}

/// Prepares one batch for its ticks: builds the evidence of the events,
/// groups it by intent, combines the freeze flags of the texts per intent
/// and applies the source profiles.
pub fn prepare_batch<B: EvidenceBuilder>(builder: &B, events: &[SignalEvent], profiles: Option<&SourceProfiles>) -> (r: Vec<
    IntentBatch,
>)
    requires
        profiles matches Some(p) ==> all_bands(p@),
    ensures
        exists|evidence: Seq<Evidence>| #[trigger]
            may_build(builder, events@, evidence) && is_batch_of(r@, evidence, events@, profiles_view(profiles)),
{
    let evidence = build_evidence_batch(builder, events);
    prepare_evidence(evidence, events, profiles)
}

/// Prepares one batch for its ticks from evidence that is built already:
/// groups the evidence by intent, combines the freeze flags of the texts of
/// the events per intent and applies the source profiles.
pub fn prepare_evidence(evidence: Vec<Evidence>, events: &[SignalEvent], profiles: Option<&SourceProfiles>) -> (r: Vec<IntentBatch>)
    requires
        profiles matches Some(p) ==> all_bands(p@),
    ensures
        is_batch_of(r@, evidence@, events@, profiles_view(profiles)),
{
    let ghost all = evidence@;
    let groups = group_evidence(evidence);
    let flags = collect_freeze_flags(events);
    let ghost group_map = groups@;
    let ghost ids = groups.ids();
    let ghost vals = groups.vals();
    let (keys, views) = groups.into_parts();
    let mut out: Vec<IntentBatch> = Vec::new();
    for view in it: views
        invariant
            it.seq() == vals,
            ids.len() == vals.len(),
            ascending(ids),
            group_map == crate::idmap::assoc(ids, vals),
            profiles matches Some(p) ==> all_bands(p@),
            forall|id: Seq<char>| #[trigger] group_map.contains_key(id) ==> group_map[id].intent_id@ == id,
            forall|id: Seq<char>| #[trigger] grouped(group_map, id) == evidence_for(all, id),
            forall|id: Seq<char>| #[trigger] flags_in(flags@, id) == flags_for(events@, id),
            out@.len() == it.index(),
            forall|j: int|
                0 <= j < it.index() ==> {
                    let id = (#[trigger] out@[j]).view.intent_id@;
                    &&& id == ids[j]
                    &&& out@[j].view.evidence@ == weighed(evidence_for(all, id), profiles_view(profiles))
                    &&& out@[j].freeze_flags == flags_for(events@, id)
                },
    {
        let ghost k = it.index() as int;
        proof {
            lemma_assoc_at(ids, vals, k);
            assert(grouped(group_map, ids[k]) == evidence_for(all, ids[k]));
            assert(flags_in(flags@, ids[k]) == flags_for(events@, ids[k]));
        }
        let mut view = view;
        let ghost before = view;
        match profiles {
            Some(p) => {
                apply_source_profiles(&mut view, p);
                assert(view.evidence@ =~= weighed(before.evidence@, Some(p@)));
            },
            None => {},
        }
        let freeze_flags = match flags.get(view.intent_id.as_str()) {
            Some(f) => Some(*f),
            None => None,
        };
        out.push(IntentBatch { view, freeze_flags });
    }
    proof {
        assert(batch_ids(out@) =~= ids);
        assert forall|id: Seq<char>| #[trigger] listed(batch_ids(out@), id) <==> touched(all, id) by {
            assert(group_map.contains_key(id) <==> touched(all, id));
        }
    }
    out
}

} // verus!
