//! The sharded supervisor: it owns the hysteresis state of every intent.
//!
//! State is partitioned over a fixed number of shards by the hash of the
//! intent identifier. What a caller can observe never depends on the number
//! of shards: the supervisor's view is one map from identifier to state.

use vstd::prelude::*;
use crate::adapter::{may_build, EvidenceBuilder, SignalEvent};
use crate::batch::{batch_ids, is_batch_of, prepare_batch, IntentBatch};
use crate::cfg::ArbiterCfg;
use crate::decide::{arbiter_tick, tick_decision, tick_state, Escalation};
use crate::evidence::{is_aggregate_of, Evidence, Uncertainty, WeightedTerm};
use crate::freeze::FreezeFlags;
use crate::ident::{id_lt, id_order, lemma_id_lt_total, lemma_id_lt_transitive, Standing};
use crate::idmap::{ascending, assoc, lemma_assoc_at, listed, slot_of, IdMap};
use crate::snapshot::{applied, entries_view, entry_ids, entry_states, lists, overwrites, RestoreStats, SupervisorSnapshot};
use crate::shard::{shard_index, shard_of};
use crate::sources::{all_bands, SourceProfile, SourceProfiles};
use crate::state::ArbiterState;
use crate::wire::{decode_snapshot, encodable, encode_snapshot, parse_snapshot, snapshot_bytes, SnapshotError};

verus! {

/// What the supervisor asks for one intent after one batch.
#[derive(Clone, Debug)]
pub struct ActionEvent {
    pub intent_id: String,
    pub escalation: Escalation,
    /// The aggregated measurement that was judged.
    pub uncertainty: Option<Uncertainty>,
    /// The freeze flags of the intent's texts in the batch, if it had any.
    pub freeze_flags: Option<FreezeFlags>,
}

/// One intent's share of a batch, aggregated: what one tick is run on.
#[derive(Clone, Debug)]
pub struct IntentTick {
    pub intent_id: String,
    pub uncertainty: Uncertainty,
    pub freeze_flags: Option<FreezeFlags>,
}

/// The state that `states` holds for `id`: zero counters for an intent that
/// has not been seen.
pub open spec fn state_of(states: Map<Seq<char>, ArbiterState>, id: Seq<char>) -> ArbiterState {
    if states.contains_key(id) {
        states[id]
    } else {
        ArbiterState::cleared()
    }
}

/// The thresholds for `id`: its override where it has one, else `global`.
pub open spec fn cfg_of(global: ArbiterCfg, overrides: Map<Seq<char>, ArbiterCfg>, id: Seq<char>) -> ArbiterCfg {
    if overrides.contains_key(id) {
        overrides[id]
    } else {
        global
    }
}

/// The states after `tick` was run on `states`.
pub open spec fn states_after_tick(
    global: ArbiterCfg,
    overrides: Map<Seq<char>, ArbiterCfg>,
    states: Map<Seq<char>, ArbiterState>,
    tick: IntentTick,
) -> Map<Seq<char>, ArbiterState> {
    let id = tick.intent_id@;
    states.insert(id, tick_state(tick.uncertainty, tick.freeze_flags, cfg_of(global, overrides, id), state_of(states, id)))
}

/// The action that running `tick` on `states` gives.
pub open spec fn action_of_tick(
    global: ArbiterCfg,
    overrides: Map<Seq<char>, ArbiterCfg>,
    states: Map<Seq<char>, ArbiterState>,
    tick: IntentTick,
) -> ActionEvent {
    let id = tick.intent_id@;
    ActionEvent {
        intent_id: tick.intent_id,
        escalation: tick_decision(tick.uncertainty, tick.freeze_flags, cfg_of(global, overrides, id), state_of(states, id)),
        uncertainty: Some(tick.uncertainty),
        freeze_flags: tick.freeze_flags,
    }
}

/// The states after `ticks` were run on `states`, one after the other.
pub open spec fn states_after(
    global: ArbiterCfg,
    overrides: Map<Seq<char>, ArbiterCfg>,
    states: Map<Seq<char>, ArbiterState>,
    ticks: Seq<IntentTick>,
) -> Map<Seq<char>, ArbiterState>
    decreases ticks.len(),
{
    if ticks.len() == 0 {
        states
    } else {
        states_after_tick(global, overrides, states_after(global, overrides, states, ticks.drop_last()), ticks.last())
    }
}

/// The actions that running `ticks` on `states` gives, one per tick.
pub open spec fn actions_of(
    global: ArbiterCfg,
    overrides: Map<Seq<char>, ArbiterCfg>,
    states: Map<Seq<char>, ArbiterState>,
    ticks: Seq<IntentTick>,
) -> Seq<ActionEvent>
    decreases ticks.len(),
{
    if ticks.len() == 0 {
        Seq::empty()
    } else {
        actions_of(global, overrides, states, ticks.drop_last()).push(
            action_of_tick(global, overrides, states_after(global, overrides, states, ticks.drop_last()), ticks.last()),
        )
    }
}

/// The intents of the ticks, in their order.
pub open spec fn tick_ids(ticks: Seq<IntentTick>) -> Seq<Seq<char>> {
    Seq::new(ticks.len(), |i: int| ticks[i].intent_id@)
}

/// The intents of the actions, in their order.
pub open spec fn action_ids(actions: Seq<ActionEvent>) -> Seq<Seq<char>> {
    Seq::new(actions.len(), |i: int| actions[i].intent_id@)
}

/// There is one action per tick, about the tick's intent: so the actions
/// are in the order of the ticks, and ascending where the ticks are.
pub proof fn lemma_actions_follow_ticks(
    global: ArbiterCfg,
    overrides: Map<Seq<char>, ArbiterCfg>,
    states: Map<Seq<char>, ArbiterState>,
    ticks: Seq<IntentTick>,
)
    ensures
        action_ids(actions_of(global, overrides, states, ticks)) == tick_ids(ticks),
        ascending(tick_ids(ticks)) ==> ascending(action_ids(actions_of(global, overrides, states, ticks))),
    decreases ticks.len(),
{
    let actions = actions_of(global, overrides, states, ticks);
    if ticks.len() == 0 {
        assert(action_ids(actions) =~= tick_ids(ticks));
    } else {
        lemma_actions_follow_ticks(global, overrides, states, ticks.drop_last());
        let before = actions_of(global, overrides, states, ticks.drop_last());
        assert(action_ids(before) == tick_ids(ticks.drop_last()));
        assert(action_ids(actions) =~= tick_ids(ticks)) by {
            assert(actions.len() == ticks.len());
            assert forall|i: int| 0 <= i < ticks.len() implies action_ids(actions)[i] == tick_ids(ticks)[i] by {
                if i < ticks.len() - 1 {
                    assert(action_ids(before)[i] == tick_ids(ticks.drop_last())[i]);
                }
            }
        }
    }
}

/// Ticks leave alone what they are not about: an intent that no tick names
/// has a state afterwards exactly if it had one, and the same one.
pub proof fn lemma_ticks_leave_others(
    global: ArbiterCfg,
    overrides: Map<Seq<char>, ArbiterCfg>,
    states: Map<Seq<char>, ArbiterState>,
    ticks: Seq<IntentTick>,
    id: Seq<char>,
)
    requires
        !listed(tick_ids(ticks), id),
    ensures
        states_after(global, overrides, states, ticks).contains_key(id) == states.contains_key(id),
        state_of(states_after(global, overrides, states, ticks), id) == state_of(states, id),
    decreases ticks.len(),
{
    if ticks.len() > 0 {
        let rest = ticks.drop_last();
        assert(tick_ids(ticks)[ticks.len() - 1] == ticks.last().intent_id@);
        assert(!listed(tick_ids(rest), id)) by {
            if listed(tick_ids(rest), id) {
                let i = slot_of(tick_ids(rest), id);
                assert(tick_ids(ticks)[i] == id);
            }
        }
        lemma_ticks_leave_others(global, overrides, states, rest, id);
    }
}

/// Ticks never forget: an intent that has a state keeps having one.
pub proof fn lemma_ticks_never_forget(
    global: ArbiterCfg,
    overrides: Map<Seq<char>, ArbiterCfg>,
    states: Map<Seq<char>, ArbiterState>,
    ticks: Seq<IntentTick>,
    id: Seq<char>,
)
    requires
        states.contains_key(id),
    ensures
        states_after(global, overrides, states, ticks).contains_key(id),
    decreases ticks.len(),
{
    if ticks.len() > 0 {
        lemma_ticks_never_forget(global, overrides, states, ticks.drop_last(), id);
    }
}

/// The ticks of different intents do not see each other: where no intent is
/// named twice, each tick is judged on the state that its intent had before
/// the batch, and leaves its intent in the state that this one tick gives.
pub proof fn lemma_ticks_are_independent(
    global: ArbiterCfg,
    overrides: Map<Seq<char>, ArbiterCfg>,
    states: Map<Seq<char>, ArbiterState>,
    ticks: Seq<IntentTick>,
    i: int,
)
    requires
        ascending(tick_ids(ticks)),
        0 <= i < ticks.len(),
    ensures
        actions_of(global, overrides, states, ticks).len() == ticks.len(),
        actions_of(global, overrides, states, ticks)[i] == action_of_tick(global, overrides, states, ticks[i]),
        states_after(global, overrides, states, ticks).contains_key(ticks[i].intent_id@),
        state_of(states_after(global, overrides, states, ticks), ticks[i].intent_id@) == state_of(
            states_after_tick(global, overrides, states, ticks[i]),
            ticks[i].intent_id@,
        ),
    decreases ticks.len(),
{
    let rest = ticks.drop_last();
    let last = ticks.len() - 1;
    let ids = tick_ids(ticks);
    crate::idmap::lemma_ascending_distinct(ids);
    lemma_actions_follow_ticks(global, overrides, states, ticks);
    assert(action_ids(actions_of(global, overrides, states, ticks)).len() == ticks.len());
    assert(ids[last] == ticks.last().intent_id@);
    assert(ids[i] == ticks[i].intent_id@);
    if i == last {
        assert(!listed(tick_ids(rest), ids[last])) by {
            if listed(tick_ids(rest), ids[last]) {
                let j = slot_of(tick_ids(rest), ids[last]);
                assert(ids[j] == ids[last]);
            }
        }
        lemma_ticks_leave_others(global, overrides, states, rest, ids[last]);
    } else {
        assert(ascending(tick_ids(rest))) by {
            assert forall|a: int, b: int| 0 <= a < b < tick_ids(rest).len() implies crate::ident::id_lt(
                #[trigger] tick_ids(rest)[a],
                #[trigger] tick_ids(rest)[b],
            ) by {
                assert(crate::ident::id_lt(ids[a], ids[b]));
            }
        }
        lemma_ticks_are_independent(global, overrides, states, rest, i);
        assert(rest[i] == ticks[i]);
        assert(ids[i] != ids[last]);
    }
}

/// `ticks` are the shares of `batch`, each with an aggregate of the share's
/// evidence under `mean`.
pub open spec fn aggregated<M: Fn(&[WeightedTerm]) -> Uncertainty>(batch: Seq<IntentBatch>, ticks: Seq<IntentTick>, mean: M) -> bool {
    &&& ticks.len() == batch.len()
    &&& forall|i: int|
        0 <= i < batch.len() ==> {
            &&& (#[trigger] ticks[i]).intent_id == batch[i].view.intent_id
            &&& ticks[i].freeze_flags == batch[i].freeze_flags
            &&& is_aggregate_of(ticks[i].uncertainty, batch[i].view.evidence@, mean)
        }
}

/// The supervisor.
#[derive(Debug)]
pub struct ArbiterSupervisor {
    cfg: ArbiterCfg,
    cfg_overrides: IdMap<ArbiterCfg>,
    profiles: Option<SourceProfiles>,
    shards: usize,
    state_shards: Vec<IdMap<ArbiterState>>,
}

impl View for ArbiterSupervisor {
    type V = Map<Seq<char>, ArbiterState>;

    /// The state of every intent that the supervisor holds.
    closed spec fn view(&self) -> Map<Seq<char>, ArbiterState> {
        Map::new(
            |k: Seq<char>| self.state_shards@[shard_of(k, self.shards as int)]@.contains_key(k),
            |k: Seq<char>| self.state_shards@[shard_of(k, self.shards as int)]@[k],
        )
    }
}

impl ArbiterSupervisor {
    /// The supervisor is in order: it has at least one shard, every state
    /// lies in the shard of its intent, and every source profile is a band.
    /// `new` makes it so and every method keeps it so.
    pub closed spec fn wf(self) -> bool {
        &&& self.shards >= 1
        &&& self.state_shards@.len() == self.shards
        &&& forall|s: int| 0 <= s < self.shards ==> (#[trigger] self.state_shards@[s]).in_order()
        &&& forall|s: int, k: Seq<char>|
            0 <= s < self.shards && #[trigger] self.state_shards@[s]@.contains_key(k) ==> shard_of(k, self.shards as int) == s
        &&& self.profiles matches Some(p) ==> all_bands(p@)
    }

    /// The number of shards.
    pub closed spec fn shard_count(self) -> int {
        self.shards as int
    }

    /// The thresholds of intents without an override.
    pub closed spec fn config(self) -> ArbiterCfg {
        self.cfg
    }

    /// The thresholds that single intents have of their own.
    pub closed spec fn overrides(self) -> Map<Seq<char>, ArbiterCfg> {
        self.cfg_overrides@
    }

    /// The source profiles, where any are set.
    pub closed spec fn source_profiles(self) -> Option<Map<Seq<char>, SourceProfile>> {
        match self.profiles {
            Some(p) => Some(p@),
            None => None,
        }
    }

    /// Everything but the states is as in `other`.
    pub open spec fn same_settings(self, other: ArbiterSupervisor) -> bool {
        &&& self.shard_count() == other.shard_count()
        &&& self.config() == other.config()
        &&& self.overrides() == other.overrides()
        &&& self.source_profiles() == other.source_profiles()
    }

    /// There is one cursor per shard, and none is beyond the end of its shard.
    closed spec fn cursors_fit(self, cursors: Seq<usize>) -> bool {
        &&& cursors.len() == self.shards
        &&& forall|t: int| 0 <= t < self.shards ==> #[trigger] cursors[t] <= self.state_shards@[t].ids().len()
    }

    /// How many entries the first `upto` shards hold from their cursors on.
    closed spec fn entries_ahead(self, cursors: Seq<usize>, upto: int) -> int
        decreases upto,
    {
        if upto <= 0 {
            0
        } else {
            self.entries_ahead(cursors, upto - 1) + (self.state_shards@[upto - 1].ids().len() - cursors[upto - 1])
        }
    }

    /// There is never less than nothing ahead.
    proof fn lemma_entries_ahead_not_negative(self, cursors: Seq<usize>, upto: int)
        requires
            self.cursors_fit(cursors),
            0 <= upto <= self.shards,
        ensures
            self.entries_ahead(cursors, upto) >= 0,
        decreases upto,
    {
        if upto > 0 {
            self.lemma_entries_ahead_not_negative(cursors, upto - 1);
            assert(cursors[upto - 1] <= self.state_shards@[upto - 1].ids().len());
        }
    }

    /// Moving one cursor on by one leaves one entry less ahead.
    proof fn lemma_entries_ahead_step(self, cursors: Seq<usize>, b: int, upto: int)
        requires
            self.cursors_fit(cursors),
            0 <= b < self.shards,
            0 <= upto <= self.shards,
            cursors[b] < self.state_shards@[b].ids().len(),
            cursors[b] < usize::MAX,
        ensures
            self.entries_ahead(cursors.update(b, (cursors[b] + 1) as usize), upto) == self.entries_ahead(cursors, upto) - if b < upto {
                1int
            } else {
                0int
            },
        decreases upto,
    {
        let moved = cursors.update(b, (cursors[b] + 1) as usize);
        if upto > 0 {
            self.lemma_entries_ahead_step(cursors, b, upto - 1);
            assert(cursors[upto - 1] <= self.state_shards@[upto - 1].ids().len());
            if upto - 1 == b {
                assert(moved[upto - 1] == cursors[b] + 1);
            } else {
                assert(moved[upto - 1] == cursors[upto - 1]);
            }
        }
    }

    /// A supervisor without state, with `shards` shards (one where `shards`
    /// is zero) and `cfg` as thresholds.
    pub fn new(shards: usize, cfg: ArbiterCfg) -> (r: ArbiterSupervisor)
        ensures
            r.wf(),
            r@ == Map::<Seq<char>, ArbiterState>::empty(),
            r.shard_count() == (if shards >= 1 { shards as int } else { 1 }),
            r.config() == cfg,
            r.overrides() == Map::<Seq<char>, ArbiterCfg>::empty(),
            r.source_profiles() is None,
    {
        let shards: usize = if shards >= 1 { shards } else { 1 };
        let mut state_shards: Vec<IdMap<ArbiterState>> = Vec::new();
        let mut i: usize = 0;
        while i < shards
            invariant
                i <= shards,
                state_shards@.len() == i,
                forall|s: int| 0 <= s < i ==> (#[trigger] state_shards@[s])@ == Map::<Seq<char>, ArbiterState>::empty(),
                forall|s: int| 0 <= s < i ==> (#[trigger] state_shards@[s]).in_order(),
            decreases shards - i,
        {
            state_shards.push(IdMap::new());
            i += 1;
        }
        let r = ArbiterSupervisor { cfg, cfg_overrides: IdMap::new(), profiles: None, shards, state_shards };
        assert(r@ =~= Map::<Seq<char>, ArbiterState>::empty());
        r
    }

    /// Sets the source profiles.
    pub fn set_source_profiles(&mut self, profiles: SourceProfiles)
        requires
            old(self).wf(),
            all_bands(profiles@),
        ensures
            final(self).wf(),
            final(self).source_profiles() == Some(profiles@),
            final(self)@ == old(self)@,
            final(self).shard_count() == old(self).shard_count(),
            final(self).config() == old(self).config(),
            final(self).overrides() == old(self).overrides(),
    {
        self.profiles = Some(profiles);
    }

    /// Removes the source profiles.
    pub fn clear_source_profiles(&mut self)
        requires
            old(self).wf(),
        ensures
            final(self).wf(),
            final(self).source_profiles() is None,
            final(self)@ == old(self)@,
            final(self).shard_count() == old(self).shard_count(),
            final(self).config() == old(self).config(),
            final(self).overrides() == old(self).overrides(),
    {
        self.profiles = None;
    }

    /// Gives `intent_id` thresholds of its own.
    pub fn set_cfg_override(&mut self, intent_id: &str, cfg: ArbiterCfg)
        requires
            old(self).wf(),
        ensures
            final(self).wf(),
            final(self).overrides() == old(self).overrides().insert(intent_id@, cfg),
            final(self)@ == old(self)@,
            final(self).shard_count() == old(self).shard_count(),
            final(self).config() == old(self).config(),
            final(self).source_profiles() == old(self).source_profiles(),
    {
        self.cfg_overrides.insert(intent_id.to_owned(), cfg);
    }

    /// Takes the thresholds of its own from `intent_id`.
    pub fn clear_cfg_override(&mut self, intent_id: &str)
        requires
            old(self).wf(),
        ensures
            final(self).wf(),
            final(self).overrides() == old(self).overrides().remove(intent_id@),
            final(self)@ == old(self)@,
            final(self).shard_count() == old(self).shard_count(),
            final(self).config() == old(self).config(),
            final(self).source_profiles() == old(self).source_profiles(),
    {
        self.cfg_overrides.remove(intent_id);
    }

    /// The thresholds that apply to `intent_id`.
    pub fn cfg_for(&self, intent_id: &str) -> (r: ArbiterCfg)
        requires
            self.wf(),
        ensures
            r == cfg_of(self.config(), self.overrides(), intent_id@),
    {
        match self.cfg_overrides.get(intent_id) {
            Some(c) => *c,
            None => self.cfg,
        }
    }

    /// The state of `intent_id`, if the supervisor holds one.
    pub fn state_for(&self, intent_id: &str) -> (r: Option<ArbiterState>)
        requires
            self.wf(),
        ensures
            r is Some <==> self@.contains_key(intent_id@),
            r matches Some(s) ==> s == self@[intent_id@],
    {
        let idx = shard_index(intent_id, self.shards);
        match self.state_shards[idx].get(intent_id) {
            Some(s) => Some(*s),
            None => None,
        }
    }

    /// Puts `state` under `intent_id`, and tells whether there was a state.
    fn put_state(&mut self, intent_id: String, state: ArbiterState) -> (r: bool)
        requires
            old(self).wf(),
        ensures
            final(self).wf(),
            final(self)@ == old(self)@.insert(intent_id@, state),
            r == old(self)@.contains_key(intent_id@),
            final(self).same_settings(*old(self)),
    {
        let idx = shard_index(intent_id.as_str(), self.shards);
        let before = self.state_shards[idx].insert(intent_id, state);
        assert(self@ =~= old(self)@.insert(intent_id@, state));
        before.is_some()
    }

    /// Forgets the state of one intent.
    pub fn clear_intent(&mut self, intent_id: &str)
        requires
            old(self).wf(),
        ensures
            final(self).wf(),
            final(self)@ == old(self)@.remove(intent_id@),
            final(self).same_settings(*old(self)),
    {
        let idx = shard_index(intent_id, self.shards);
        self.state_shards[idx].remove(intent_id);
        assert(self@ =~= old(self)@.remove(intent_id@));
    }

    /// Forgets every state.
    fn clear_states(&mut self)
        requires
            old(self).wf(),
        ensures
            final(self).wf(),
            final(self)@ == Map::<Seq<char>, ArbiterState>::empty(),
            final(self).same_settings(*old(self)),
    {
        let n = self.shards;
        let mut i: usize = 0;
        while i < n
            invariant
                n == self.shards,
                n == self.state_shards@.len(),
                n >= 1,
                i <= n,
                self.same_settings(*old(self)),
                self.profiles matches Some(p) ==> all_bands(p@),
                forall|s: int| 0 <= s < self.shards ==> (#[trigger] self.state_shards@[s]).in_order(),
                forall|s: int, k: Seq<char>|
                    0 <= s < self.shards && #[trigger] self.state_shards@[s]@.contains_key(k) ==> shard_of(k, self.shards as int) == s,
                forall|s: int| 0 <= s < i ==> (#[trigger] self.state_shards@[s])@ == Map::<Seq<char>, ArbiterState>::empty(),
            decreases n - i,
        {
            self.state_shards[i].clear();
            i += 1;
        }
        assert(self@ =~= Map::<Seq<char>, ArbiterState>::empty());
    }

    /// Prepares a batch of events for its ticks, with the supervisor's source
    /// profiles: one share per intent, in ascending order of the identifiers.
    /// The supervisor's state is not read.
    pub fn prepare<B: EvidenceBuilder>(&self, builder: &B, events: &[SignalEvent]) -> (r: Vec<IntentBatch>)
        requires
            self.wf(),
        ensures
            exists|evidence: Seq<Evidence>| #[trigger]
                may_build(builder, events@, evidence) && is_batch_of(r@, evidence, events@, self.source_profiles()),
    {
        match &self.profiles {
            Some(p) => prepare_batch(builder, events, Some(p)),
            None => prepare_batch(builder, events, None),
        }
    }

    /// Runs one tick for one intent: the intent's state is created at zero
    /// if there is none, the freeze flags are counted, the measurement is
    /// judged under the intent's thresholds, and the state is kept.
    pub fn tick_intent(&mut self, tick: IntentTick) -> (r: ActionEvent)
        requires
            old(self).wf(),
        ensures
            final(self).wf(),
            final(self)@ == states_after_tick(old(self).config(), old(self).overrides(), old(self)@, tick),
            r == action_of_tick(old(self).config(), old(self).overrides(), old(self)@, tick),
            final(self).same_settings(*old(self)),
    {
        let cfg = self.cfg_for(tick.intent_id.as_str());
        let mut state = match self.state_for(tick.intent_id.as_str()) {
            Some(s) => s,
            None => ArbiterState::default(),
        };
        let escalation = arbiter_tick(tick.uncertainty, tick.freeze_flags, &cfg, &mut state);
        self.put_state(tick.intent_id.clone(), state);
        ActionEvent {
            intent_id: tick.intent_id,
            escalation,
            uncertainty: Some(tick.uncertainty),
            freeze_flags: tick.freeze_flags,
        }
    }

    /// Runs the ticks of one batch, in the order given, and returns one
    /// action per tick in the same order.
    pub fn run_ticks(&mut self, ticks: Vec<IntentTick>) -> (r: Vec<ActionEvent>)
        requires
            old(self).wf(),
        ensures
            final(self).wf(),
            final(self)@ == states_after(old(self).config(), old(self).overrides(), old(self)@, ticks@),
            r@ == actions_of(old(self).config(), old(self).overrides(), old(self)@, ticks@),
            final(self).same_settings(*old(self)),
    {
        let mut out: Vec<ActionEvent> = Vec::new();
        let ghost global = self.config();
        let ghost overrides = self.overrides();
        let ghost start = self@;
        let ghost all = ticks@;
        for tick in it: ticks
            invariant
                self.wf(),
                self.same_settings(*old(self)),
                global == old(self).config(),
                overrides == old(self).overrides(),
                start == old(self)@,
                it.seq() == all,
                self@ == states_after(global, overrides, start, all.take(it.index() as int)),
                out@ == actions_of(global, overrides, start, all.take(it.index() as int)),
        {
            proof {
                let k = it.index() as int;
                assert(all.take(k + 1).drop_last() =~= all.take(k));
                assert(all.take(k + 1).last() == tick);
            }
            let action = self.tick_intent(tick);
            out.push(action);
        }
        assert(all.take(all.len() as int) =~= all);
        out
    }
}

/// The identifiers that the strings of `ids` spell.
pub open spec fn str_views(ids: Seq<&str>) -> Seq<Seq<char>> {
    Seq::new(ids.len(), |i: int| ids[i]@)
}

/// The identifiers that the strings of `ids` spell.
pub open spec fn string_views(ids: Seq<String>) -> Seq<Seq<char>> {
    Seq::new(ids.len(), |i: int| ids[i]@)
}

/// The set of the identifiers in `ids`.
pub open spec fn named_by(ids: Seq<Seq<char>>) -> Set<Seq<char>> {
    Set::new(|k: Seq<char>| listed(ids, k))
}

/// The predicate `f` may give `answer` for the intent `id` with state `st`.
pub open spec fn may_answer<F: Fn(&str, &ArbiterState) -> bool>(f: F, id: Seq<char>, st: ArbiterState, answer: bool) -> bool {
    exists|s: &str| #[trigger] s@ == id && call_ensures(f, (s, &st), answer)
}

/// The listing of `acc` as the entries of a snapshot.
fn listing_of(acc: &IdMap<ArbiterState>) -> (r: Vec<(String, ArbiterState)>)
    ensures
        lists(entries_view(r@), acc@),
{
    let n = acc.len();
    let mut out: Vec<(String, ArbiterState)> = Vec::new();
    let mut i: usize = 0;
    while i < n
        invariant
            n == acc.ids().len(),
            acc.in_order(),
            i <= n,
            out@.len() == i,
            forall|j: int| 0 <= j < i ==> (#[trigger] out@[j]).0@ == acc.ids()[j] && out@[j].1 == acc.vals()[j],
        decreases n - i,
    {
        let key = acc.key_at(i).clone();
        let state = *acc.value_at(i);
        out.push((key, state));
        i += 1;
    }
    proof {
        assert(entry_ids(entries_view(out@)) =~= acc.ids());
        assert(entry_states(entries_view(out@)) =~= acc.vals());
    }
    out
}

impl ArbiterSupervisor {
    /// The state of every intent, in ascending order of the identifiers.
    pub fn export_state(&self) -> (r: SupervisorSnapshot)
        requires
            self.wf(),
        ensures
            lists(r@, self@),
    {
        let all = |id: &str, st: &ArbiterState| -> (keep: bool)
            ensures
                keep,
            { true };
        let snap = self.snapshot_filtered(all);
        proof {
            let e = snap@;
            assert(assoc(entry_ids(e), entry_states(e)) =~= self@) by {
                assert forall|k: Seq<char>| #[trigger] self@.contains_key(k) implies listed(entry_ids(e), k) by {
                    if !listed(entry_ids(e), k) {
                        assert(may_answer(all, k, self@[k], false));
                    }
                }
                assert forall|k: Seq<char>| #[trigger] assoc(entry_ids(e), entry_states(e)).contains_key(k) implies self@.contains_key(k)
                    && assoc(entry_ids(e), entry_states(e))[k] == self@[k] by {
                    assert(listed(entry_ids(e), k));
                    let i = slot_of(entry_ids(e), k);
                    assert(entry_ids(e)[i] == k);
                    assert(e[i].0 == k);
                    lemma_assoc_at(entry_ids(e), entry_states(e), i);
                }
            }
        }
        snap
    }

    /// The same as `export_state`.
    pub fn snapshot(&self) -> (r: SupervisorSnapshot)
        requires
            self.wf(),
        ensures
            lists(r@, self@),
    {
        self.export_state()
    }

    /// The shard whose next entry, at its cursor, has the least identifier
    /// among the next entries of all shards; none where every cursor is at
    /// the end of its shard.
    fn least_head(&self, cursors: &Vec<usize>) -> (r: Option<usize>)
        requires
            self.wf(),
            self.cursors_fit(cursors@),
        ensures
            match r {
                Some(b) => {
                    &&& b < self.shards
                    &&& cursors@[b as int] < self.state_shards@[b as int].ids().len()
                    &&& forall|t: int|
                        0 <= t < self.shards && t != b && cursors@[t] < self.state_shards@[t].ids().len() ==> id_lt(
                            self.state_shards@[b as int].ids()[cursors@[b as int] as int],
                            #[trigger] self.state_shards@[t].ids()[cursors@[t] as int],
                        )
                },
                None => forall|t: int| 0 <= t < self.shards ==> #[trigger] cursors@[t] == self.state_shards@[t].ids().len(),
            },
    {
        let mut best: Option<usize> = None;
        let mut s: usize = 0;
        while s < self.shards
            invariant
                self.wf(),
                self.cursors_fit(cursors@),
                s <= self.shards,
                match best {
                    Some(b) => {
                        &&& b < s
                        &&& cursors@[b as int] < self.state_shards@[b as int].ids().len()
                        &&& forall|t: int|
                            0 <= t < s && t != b && cursors@[t] < self.state_shards@[t].ids().len() ==> id_lt(
                                self.state_shards@[b as int].ids()[cursors@[b as int] as int],
                                #[trigger] self.state_shards@[t].ids()[cursors@[t] as int],
                            )
                    },
                    None => forall|t: int| 0 <= t < s ==> #[trigger] cursors@[t] == self.state_shards@[t].ids().len(),
                },
            decreases self.shards - s,
        {
            let shard = &self.state_shards[s];
            if cursors[s] < shard.len() {
                match best {
                    None => {
                        best = Some(s);
                    },
                    Some(b) => {
                        let other = &self.state_shards[b];
                        let here = shard.key_at(cursors[s]);
                        let there = other.key_at(cursors[b]);
                        let standing = id_order(here.as_str(), there.as_str());
                        proof {
                            let hk = shard.ids()[cursors@[s as int] as int];
                            let tk = other.ids()[cursors@[b as int] as int];
                            lemma_assoc_at(shard.ids(), shard.vals(), cursors@[s as int] as int);
                            lemma_assoc_at(other.ids(), other.vals(), cursors@[b as int] as int);
                            assert(self.state_shards@[s as int]@.contains_key(hk));
                            assert(self.state_shards@[b as int]@.contains_key(tk));
                            assert(hk != tk);
                            lemma_id_lt_total(hk, tk);
                            if standing == Standing::Before {
                                assert forall|t: int|
                                    0 <= t < s + 1 && t != s && cursors@[t] < self.state_shards@[t].ids().len() implies id_lt(
                                    hk,
                                    #[trigger] self.state_shards@[t].ids()[cursors@[t] as int],
                                ) by {
                                    if t != b {
                                        lemma_id_lt_transitive(hk, tk, self.state_shards@[t].ids()[cursors@[t] as int]);
                                    }
                                }
                            }
                        }
                        if standing == Standing::Before {
                            best = Some(s);
                        }
                    },
                }
            }
            s += 1;
        }
        best
    }

    /// The states of the intents that `predicate` accepts, in ascending order
    /// of the identifiers: every entry is a state of the supervisor that the
    /// predicate accepted, and every state left out is one that it refused.
    pub fn snapshot_filtered<F: Fn(&str, &ArbiterState) -> bool>(&self, predicate: F) -> (r: SupervisorSnapshot)
        requires
            self.wf(),
            forall|id: &str, st: &ArbiterState| call_requires(predicate, (id, st)),
        ensures
            ascending(entry_ids(r@)),
            forall|i: int|
                0 <= i < r@.len() ==> self@.contains_key((#[trigger] r@[i]).0) && self@[r@[i].0] == r@[i].1 && may_answer(
                    predicate,
                    r@[i].0,
                    r@[i].1,
                    true,
                ),
            forall|k: Seq<char>|
                #[trigger] self@.contains_key(k) && !listed(entry_ids(r@), k) ==> may_answer(predicate, k, self@[k], false),
    {
        // The shards are merged: each holds its entries in ascending order,
        // so the next entry of the result is the least of the shards' heads.
        let mut cursors: Vec<usize> = Vec::new();
        let mut s: usize = 0;
        while s < self.shards
            invariant
                self.wf(),
                s <= self.shards,
                cursors@.len() == s,
                forall|t: int| 0 <= t < s ==> #[trigger] cursors@[t] == 0,
            decreases self.shards - s,
        {
            cursors.push(0);
            s += 1;
        }
        let mut out: Vec<(String, ArbiterState)> = Vec::new();
        proof {
            assert(entry_ids(entries_view(out@)) =~= Seq::<Seq<char>>::empty());
        }
        loop
            invariant
                self.wf(),
                self.cursors_fit(cursors@),
                forall|id: &str, st: &ArbiterState| call_requires(predicate, (id, st)),
                ascending(entry_ids(entries_view(out@))),
                forall|p: int, t: int, x: int|
                    0 <= p < out@.len() && 0 <= t < self.shards && cursors@[t] <= x < self.state_shards@[t].ids().len() ==> id_lt(
                        #[trigger] entries_view(out@)[p].0,
                        #[trigger] self.state_shards@[t].ids()[x],
                    ),
                forall|p: int|
                    0 <= p < out@.len() ==> {
                        let e = #[trigger] entries_view(out@)[p];
                        self@.contains_key(e.0) && self@[e.0] == e.1 && may_answer(predicate, e.0, e.1, true)
                    },
                forall|t: int, x: int|
                    0 <= t < self.shards && 0 <= x < cursors@[t] ==> {
                        let k = #[trigger] self.state_shards@[t].ids()[x];
                        listed(entry_ids(entries_view(out@)), k) || may_answer(predicate, k, self@[k], false)
                    },
            ensures
                forall|t: int| 0 <= t < self.shards ==> #[trigger] cursors@[t] == self.state_shards@[t].ids().len(),
            decreases self.entries_ahead(cursors@, self.shards as int),
        {
            let next = self.least_head(&cursors);
            let b = match next {
                Some(b) => b,
                None => {
                    break ;
                },
            };
            let shard = &self.state_shards[b];
            let at = cursors[b];
            let held = shard.len();
            assert(at < held);
            let key = shard.key_at(at);
            let state = shard.value_at(at);
            let name: &str = key.as_str();
            let keep = predicate(name, state);
            let ghost before = entries_view(out@);
            let ghost before_cursors = cursors@;
            let ghost k = shard.ids()[at as int];
            proof {
                lemma_assoc_at(shard.ids(), shard.vals(), at as int);
                assert(self.state_shards@[b as int]@.contains_key(k));
                assert(self@.contains_key(k) && self@[k] == *state);
                assert(name@ == k && call_ensures(predicate, (name, state), keep));
                assert(may_answer(predicate, k, *state, keep));
                self.lemma_entries_ahead_step(before_cursors, b as int, self.shards as int);
            }
            if keep {
                out.push((key.clone(), *state));
            }
            cursors[b] = at + 1;
            proof {
                assert(cursors@ =~= before_cursors.update(b as int, (before_cursors[b as int] + 1) as usize));
                self.lemma_entries_ahead_not_negative(cursors@, self.shards as int);
                let after = entries_view(out@);
                if keep {
                    assert(after =~= before.push((k, *state)));
                    assert(entry_ids(after) =~= entry_ids(before).push(k));
                    assert forall|i: int, j: int| 0 <= i < j < entry_ids(after).len() implies id_lt(
                        #[trigger] entry_ids(after)[i],
                        #[trigger] entry_ids(after)[j],
                    ) by {
                        if j == before.len() {
                            assert(entry_ids(after)[i] == before[i].0);
                            assert(id_lt(before[i].0, self.state_shards@[b as int].ids()[at as int]));
                        } else {
                            assert(id_lt(entry_ids(before)[i], entry_ids(before)[j]));
                        }
                    }
                } else {
                    assert(after =~= before);
                }
                assert forall|p: int, t: int, x: int|
                    0 <= p < out@.len() && 0 <= t < self.shards && cursors@[t] <= x < self.state_shards@[t].ids().len() implies id_lt(
                    #[trigger] after[p].0,
                    #[trigger] self.state_shards@[t].ids()[x],
                ) by {
                    if p < before.len() {
                        assert(after[p] == before[p]);
                        assert(before_cursors[t] <= x);
                    } else {
                        // The new entry is the least head: below what is left of its own shard,
                        // and below the head of every other shard, which is below what follows it.
                        let head = self.state_shards@[t].ids()[before_cursors[t] as int];
                        if t == b {
                            assert(id_lt(shard.ids()[at as int], shard.ids()[x]));
                        } else {
                            assert(id_lt(k, head));
                            if x > before_cursors[t] {
                                assert(id_lt(head, self.state_shards@[t].ids()[x]));
                                lemma_id_lt_transitive(k, head, self.state_shards@[t].ids()[x]);
                            }
                        }
                    }
                }
                assert forall|p: int| 0 <= p < out@.len() implies {
                    let e = #[trigger] after[p];
                    self@.contains_key(e.0) && self@[e.0] == e.1 && may_answer(predicate, e.0, e.1, true)
                } by {
                    if p < before.len() {
                        assert(after[p] == before[p]);
                    }
                }
                assert forall|t: int, x: int| 0 <= t < self.shards && 0 <= x < cursors@[t] implies {
                    let kk = #[trigger] self.state_shards@[t].ids()[x];
                    listed(entry_ids(after), kk) || may_answer(predicate, kk, self@[kk], false)
                } by {
                    let kk = self.state_shards@[t].ids()[x];
                    if t == b && x == at {
                        if keep {
                            assert(entry_ids(after)[before.len() as int] == kk);
                        }
                    } else {
                        assert(x < before_cursors[t]);
                        if listed(entry_ids(before), kk) {
                            let i = slot_of(entry_ids(before), kk);
                            assert(entry_ids(after)[i] == kk);
                        }
                    }
                }
            }
        }
        proof {
            let e = entries_view(out@);
            assert forall|k: Seq<char>| #[trigger] self@.contains_key(k) && !listed(entry_ids(e), k) implies may_answer(
                predicate,
                k,
                self@[k],
                false,
            ) by {
                let t = shard_of(k, self.shards as int);
                let shard = self.state_shards@[t];
                assert(shard@.contains_key(k));
                assert(listed(shard.ids(), k));
                let x = slot_of(shard.ids(), k);
                assert(shard.ids()[x] == k);
                assert(x < cursors@[t]);
            }
        }
        SupervisorSnapshot { states: out }
    }

    /// The states of the intents named in `intent_ids`, as far as the
    /// supervisor holds them, in ascending order of the identifiers.
    pub fn snapshot_intents(&self, intent_ids: &[&str]) -> (r: SupervisorSnapshot)
        requires
            self.wf(),
        ensures
            lists(r@, self@.restrict(named_by(str_views(intent_ids@)))),
    {
        let ghost names = str_views(intent_ids@);
        let mut acc: IdMap<ArbiterState> = IdMap::new();
        let mut i: usize = 0;
        while i < intent_ids.len()
            invariant
                self.wf(),
                i <= intent_ids@.len(),
                names == str_views(intent_ids@),
                forall|k: Seq<char>| #[trigger] acc@.contains_key(k) ==> self@.contains_key(k) && acc@[k] == self@[k] && listed(names, k),
                forall|j: int| 0 <= j < i && self@.contains_key(#[trigger] names[j]) ==> acc@.contains_key(names[j]),
            decreases intent_ids.len() - i,
        {
            let id: &str = intent_ids[i];
            assert(names[i as int] == id@);
            match self.state_for(id) {
                Some(state) => {
                    acc.insert(id.to_owned(), state);
                },
                None => {},
            }
            i += 1;
        }
        proof {
            assert(acc@ =~= self@.restrict(named_by(names))) by {
                assert forall|k: Seq<char>| #[trigger] self@.restrict(named_by(names)).contains_key(k) implies acc@.contains_key(k) by {
                    let j = slot_of(names, k);
                    assert(names[j] == k);
                }
            }
        }
        SupervisorSnapshot { states: listing_of(&acc) }
    }

    /// The states of the intents named in `intent_ids`, as far as the
    /// supervisor holds them, in ascending order of the identifiers.
    pub fn snapshot_intents_owned(&self, intent_ids: &[String]) -> (r: SupervisorSnapshot)
        requires
            self.wf(),
        ensures
            lists(r@, self@.restrict(named_by(string_views(intent_ids@)))),
    {
        let ghost names = string_views(intent_ids@);
        let mut acc: IdMap<ArbiterState> = IdMap::new();
        let mut i: usize = 0;
        while i < intent_ids.len()
            invariant
                self.wf(),
                i <= intent_ids@.len(),
                names == string_views(intent_ids@),
                forall|k: Seq<char>| #[trigger] acc@.contains_key(k) ==> self@.contains_key(k) && acc@[k] == self@[k] && listed(names, k),
                forall|j: int| 0 <= j < i && self@.contains_key(#[trigger] names[j]) ==> acc@.contains_key(names[j]),
            decreases intent_ids.len() - i,
        {
            assert(names[i as int] == intent_ids@[i as int]@);
            match self.state_for(intent_ids[i].as_str()) {
                Some(state) => {
                    acc.insert(intent_ids[i].clone(), state);
                },
                None => {},
            }
            i += 1;
        }
        proof {
            assert(acc@ =~= self@.restrict(named_by(names))) by {
                assert forall|k: Seq<char>| #[trigger] self@.restrict(named_by(names)).contains_key(k) implies acc@.contains_key(k) by {
                    let j = slot_of(names, k);
                    assert(names[j] == k);
                }
            }
        }
        SupervisorSnapshot { states: listing_of(&acc) }
    }

    /// Puts `entries` into the supervisor, one after the other, on top of
    /// the states it holds.
    pub fn import_state_merge(&mut self, entries: Vec<(String, ArbiterState)>) -> (r: RestoreStats)
        requires
            old(self).wf(),
        ensures
            final(self).wf(),
            final(self)@ == applied(old(self)@, entries_view(entries@)),
            r.applied == entries@.len(),
            r.overwritten == overwrites(old(self)@, entries_view(entries@)),
            final(self).same_settings(*old(self)),
    {
        let ghost base = self@;
        let ghost all = entries_view(entries@);
        let ghost raw = entries@;
        let n = entries.len();
        let mut stats = RestoreStats { applied: 0, overwritten: 0 };
        for entry in it: entries
            invariant
                self.wf(),
                raw.len() == n,
                self.same_settings(*old(self)),
                base == old(self)@,
                it.seq() == raw,
                all == entries_view(raw),
                stats.applied == it.index(),
                stats.overwritten == overwrites(base, all.take(it.index() as int)),
                stats.overwritten <= stats.applied,
                self@ == applied(base, all.take(it.index() as int)),
        {
            proof {
                let k = it.index() as int;
                assert(k < raw.len());
                assert(all.take(k + 1).drop_last() =~= all.take(k));
                assert(all.take(k + 1).last() == (entry.0@, entry.1));
            }
            let (intent_id, state) = entry;
            if self.put_state(intent_id, state) {
                stats.overwritten += 1;
            }
            stats.applied += 1;
        }
        assert(all.take(all.len() as int) =~= all);
        stats
    }

    /// Replaces the states of the supervisor by `entries`: forgets every
    /// state, then puts the entries in, one after the other.
    pub fn import_state(&mut self, entries: Vec<(String, ArbiterState)>) -> (r: RestoreStats)
        requires
            old(self).wf(),
        ensures
            final(self).wf(),
            final(self)@ == applied(Map::empty(), entries_view(entries@)),
            r.applied == entries@.len(),
            r.overwritten == overwrites(Map::empty(), entries_view(entries@)),
            final(self).same_settings(*old(self)),
    {
        self.clear_states();
        self.import_state_merge(entries)
    }

    /// Replaces the states of the supervisor by those of `snap`.
    pub fn restore(&mut self, snap: SupervisorSnapshot) -> (r: RestoreStats)
        requires
            old(self).wf(),
        ensures
            final(self).wf(),
            final(self)@ == applied(Map::empty(), snap@),
            r.applied == snap@.len(),
            r.overwritten == overwrites(Map::empty(), snap@),
            final(self).same_settings(*old(self)),
    {
        self.import_state(snap.states)
    }

    /// Puts the states of `snap` on top of those that the supervisor holds.
    pub fn restore_merge(&mut self, snap: SupervisorSnapshot) -> (r: RestoreStats)
        requires
            old(self).wf(),
        ensures
            final(self).wf(),
            final(self)@ == applied(old(self)@, snap@),
            r.applied == snap@.len(),
            r.overwritten == overwrites(old(self)@, snap@),
            final(self).same_settings(*old(self)),
    {
        self.import_state_merge(snap.states)
    }

    /// Takes in one batch of events and returns one action per intent that
    /// the batch has evidence about, in ascending order of the identifiers.
    ///
    /// The events are prepared as `prepare` does. Then each intent's evidence
    /// is aggregated with `mean`, and the tick of the intent is run on the
    /// aggregate, as `run_ticks` does.
    pub fn ingest<B: EvidenceBuilder, M: Fn(&[WeightedTerm]) -> Uncertainty>(
        &mut self,
        builder: &B,
        events: &[SignalEvent],
        mean: M,
    ) -> (r: Vec<ActionEvent>)
        requires
            old(self).wf(),
            forall|terms: &[WeightedTerm]| call_requires(mean, (terms,)),
        ensures
            final(self).wf(),
            final(self).same_settings(*old(self)),
            ascending(action_ids(r@)),
            exists|evidence: Seq<Evidence>, batch: Seq<IntentBatch>, ticks: Seq<IntentTick>|
                {
                    &&& may_build(builder, events@, evidence)
                    &&& #[trigger] is_batch_of(batch, evidence, events@, old(self).source_profiles())
                    &&& #[trigger] aggregated(batch, ticks, mean)
                    &&& final(self)@ == states_after(old(self).config(), old(self).overrides(), old(self)@, ticks)
                    &&& r@ == actions_of(old(self).config(), old(self).overrides(), old(self)@, ticks)
                },
    {
        let batch = self.prepare(builder, events);
        let ghost shares = batch@;
        let ghost evidence = choose|evidence: Seq<Evidence>| #[trigger]
            may_build(builder, events@, evidence) && is_batch_of(shares, evidence, events@, self.source_profiles());
        let mut ticks: Vec<IntentTick> = Vec::new();
        for share in it: batch
            invariant
                it.seq() == shares,
                forall|terms: &[WeightedTerm]| call_requires(mean, (terms,)),
                aggregated(shares.take(it.index() as int), ticks@, mean),
        {
            let uncertainty = share.view.to_uncertainty(&mean);
            let ghost k = it.index() as int;
            let ghost before = ticks@;
            let IntentBatch { view, freeze_flags } = share;
            ticks.push(IntentTick { intent_id: view.intent_id, uncertainty, freeze_flags });
            proof {
                assert forall|i: int| 0 <= i < k + 1 implies {
                    &&& (#[trigger] ticks@[i]).intent_id == shares.take(k + 1)[i].view.intent_id
                    &&& ticks@[i].freeze_flags == shares.take(k + 1)[i].freeze_flags
                    &&& is_aggregate_of(ticks@[i].uncertainty, shares.take(k + 1)[i].view.evidence@, mean)
                } by {
                    if i < k {
                        assert(ticks@[i] == before[i]);
                        assert(shares.take(k + 1)[i] == shares.take(k)[i]);
                    }
                }
            }
        }
        proof {
            assert(shares.take(shares.len() as int) =~= shares);
            assert(tick_ids(ticks@) =~= batch_ids(shares));
            lemma_actions_follow_ticks(self.config(), self.overrides(), self@, ticks@);
        }
        let ghost run = ticks@;
        let out = self.run_ticks(ticks);
        assert(may_build(builder, events@, evidence) && is_batch_of(shares, evidence, events@, old(self).source_profiles()) && aggregated(
            shares,
            run,
            mean,
        ));
        out
    }

    /// The state of every intent in the wire format, in ascending order of
    /// the identifiers. There is no encoding where the number of intents or
    /// the length of an identifier does not fit into 32 bits.
    pub fn snapshot_bytes(&self) -> (r: Option<Vec<u8>>)
        requires
            self.wf(),
        ensures
            forall|e: Seq<(Seq<char>, ArbiterState)>| #[trigger]
                lists(e, self@) ==> (r is Some <==> encodable(e)) && (r matches Some(bytes) ==> bytes@ == snapshot_bytes(e)),
    {
        let snap = self.export_state();
        proof {
            assert forall|e: Seq<(Seq<char>, ArbiterState)>| #[trigger] lists(e, self@) implies e == snap@ by {
                crate::idmap::lemma_ascending_unique(entry_ids(e), entry_states(e), entry_ids(snap@), entry_states(snap@));
                assert(e =~= snap@) by {
                    assert forall|i: int| 0 <= i < e.len() implies e[i] == snap@[i] by {
                        assert(entry_ids(e)[i] == entry_ids(snap@)[i]);
                        assert(entry_states(e)[i] == entry_states(snap@)[i]);
                    }
                }
            }
        }
        encode_snapshot(&snap)
    }

    /// Restores the supervisor from a snapshot in the wire format: on top of
    /// the states it holds where `merge` is set, in their place where not.
    /// The input is checked as a whole first; an input that is wrong
    /// anywhere changes nothing.
    pub fn restore_bytes(&mut self, data: &[u8], merge: bool) -> (r: Result<RestoreStats, SnapshotError>)
        requires
            old(self).wf(),
        ensures
            final(self).wf(),
            final(self).same_settings(*old(self)),
            match parse_snapshot(data@) {
                Ok(e) => {
                    let base = if merge { old(self)@ } else { Map::empty() };
                    &&& final(self)@ == applied(base, e)
                    &&& r == Ok::<RestoreStats, SnapshotError>(
                        RestoreStats { applied: e.len() as usize, overwritten: overwrites(base, e) as usize },
                    )
                },
                Err(err) => final(self)@ == old(self)@ && r == Err::<RestoreStats, SnapshotError>(err),
            },
    {
        match decode_snapshot(data) {
            Ok(snap) => {
                let stats = if merge { self.restore_merge(snap) } else { self.restore(snap) };
                Ok(stats)
            },
            Err(err) => Err(err),
        }
    }
}

} // verus!
