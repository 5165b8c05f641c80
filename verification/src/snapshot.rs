//! Snapshots: the supervisor's state as plain data.
//!
//! A snapshot is a list of intents with their counters. What a list means
//! as state is `applied`: its entries are put into a map one after the
//! other, so a later entry of an intent replaces an earlier one.

use vstd::prelude::*;
use crate::idmap::{ascending, assoc, lemma_ascending_distinct, lemma_assoc_at, listed, slot_of};
use crate::state::ArbiterState;

verus! {

/// The state of a supervisor as a list of intents with their counters.
#[derive(Clone, Debug)]
pub struct SupervisorSnapshot {
    pub states: Vec<(String, ArbiterState)>,
}

/// The entries by the views of their identifiers.
pub open spec fn entries_view(v: Seq<(String, ArbiterState)>) -> Seq<(Seq<char>, ArbiterState)> {
    Seq::new(v.len(), |i: int| (v[i].0@, v[i].1))
}

impl View for SupervisorSnapshot {
    type V = Seq<(Seq<char>, ArbiterState)>;

    open spec fn view(&self) -> Seq<(Seq<char>, ArbiterState)> {
        entries_view(self.states@)
    }
}

impl Default for SupervisorSnapshot {
    fn default() -> (r: SupervisorSnapshot)
        ensures
            r@.len() == 0,
    {
        SupervisorSnapshot { states: Vec::new() }
    }
}

/// The counts that a restore reports.
#[derive(Clone, Copy, Debug, PartialEq, Eq, Structural)]
pub struct RestoreStats {
    /// How many entries were put into the supervisor.
    pub applied: usize,
    /// How many of them replaced a state that was there.
    pub overwritten: usize,
}

impl Default for RestoreStats {
    fn default() -> (r: RestoreStats)
        ensures
            r == (RestoreStats { applied: 0, overwritten: 0 }),
    {
        RestoreStats { applied: 0, overwritten: 0 }
    }
}

/// The identifiers of the entries, in their order.
pub open spec fn entry_ids(e: Seq<(Seq<char>, ArbiterState)>) -> Seq<Seq<char>> {
    Seq::new(e.len(), |i: int| e[i].0)
}

/// The states of the entries, in their order.
pub open spec fn entry_states(e: Seq<(Seq<char>, ArbiterState)>) -> Seq<ArbiterState> {
    Seq::new(e.len(), |i: int| e[i].1)
}

/// `e` is the listing of `m`: every intent of `m` once with its state, and
/// nothing else, in ascending order of the identifiers.
pub open spec fn lists(e: Seq<(Seq<char>, ArbiterState)>, m: Map<Seq<char>, ArbiterState>) -> bool {
    &&& ascending(entry_ids(e))
    &&& assoc(entry_ids(e), entry_states(e)) == m
}

/// The states after the entries of `e` were put into `base`, one after the
/// other.
pub open spec fn applied(base: Map<Seq<char>, ArbiterState>, e: Seq<(Seq<char>, ArbiterState)>) -> Map<
    Seq<char>,
    ArbiterState,
>
    decreases e.len(),
{
    if e.len() == 0 {
        base
    } else {
        applied(base, e.drop_last()).insert(e.last().0, e.last().1)
    }
}

/// How many entries of `e` replace a state when they are put into `base`
/// one after the other: those whose intent is in `base` or earlier in `e`.
pub open spec fn overwrites(base: Map<Seq<char>, ArbiterState>, e: Seq<(Seq<char>, ArbiterState)>) -> nat
    decreases e.len(),
{
    if e.len() == 0 {
        0
    } else {
        overwrites(base, e.drop_last()) + if applied(base, e.drop_last()).contains_key(e.last().0) {
            1nat
        } else {
            0nat
        }
    }
}

/// After the entries of `e` were put into `base`, an intent has a state if
/// it had one in `base` or occurs in `e`; and an intent that does not occur
/// in `e` has the state it had.
pub proof fn lemma_applied_domain(base: Map<Seq<char>, ArbiterState>, e: Seq<(Seq<char>, ArbiterState)>, k: Seq<char>)
    ensures
        applied(base, e).contains_key(k) <==> base.contains_key(k) || listed(entry_ids(e), k),
        !listed(entry_ids(e), k) && base.contains_key(k) ==> applied(base, e)[k] == base[k],
    decreases e.len(),
{
    let ids = entry_ids(e);
    if e.len() > 0 {
        let rest = e.drop_last();
        let rest_ids = entry_ids(rest);
        lemma_applied_domain(base, rest, k);
        if listed(rest_ids, k) {
            let i = slot_of(rest_ids, k);
            assert(ids[i] == k);
        }
        if listed(ids, k) {
            let i = slot_of(ids, k);
            if i < e.len() - 1 {
                assert(rest_ids[i] == k);
            }
        }
        assert(ids[e.len() - 1] == e.last().0);
    }
}

/// Entries in which no intent occurs twice replace nothing when they are
/// put into a map without states.
pub proof fn lemma_distinct_entries_overwrite_nothing(e: Seq<(Seq<char>, ArbiterState)>)
    requires
        forall|i: int, j: int| 0 <= i < j < e.len() ==> (#[trigger] e[i]).0 != (#[trigger] e[j]).0,
    ensures
        overwrites(Map::empty(), e) == 0,
    decreases e.len(),
{
    if e.len() > 0 {
        let rest = e.drop_last();
        assert forall|i: int, j: int| 0 <= i < j < rest.len() implies (#[trigger] rest[i]).0 != (#[trigger] rest[j]).0 by {
            assert(rest[i] == e[i] && rest[j] == e[j]);
        }
        lemma_distinct_entries_overwrite_nothing(rest);
        lemma_applied_domain(Map::empty(), rest, e.last().0);
        if listed(entry_ids(rest), e.last().0) {
            let i = slot_of(entry_ids(rest), e.last().0);
            assert(rest[i] == e[i]);
            assert(e[i].0 == e[e.len() - 1].0);
        }
    }
}

/// A restore in place of the states forgets every intent that the snapshot
/// does not list.
pub proof fn lemma_restore_drops_unlisted(e: Seq<(Seq<char>, ArbiterState)>, k: Seq<char>)
    requires
        !listed(entry_ids(e), k),
    ensures
        !applied(Map::empty(), e).contains_key(k),
{
    lemma_applied_domain(Map::empty(), e, k);
}

/// A restore on top of the states keeps every intent that the snapshot does
/// not list, with the state it had.
pub proof fn lemma_merge_keeps_unlisted(base: Map<Seq<char>, ArbiterState>, e: Seq<(Seq<char>, ArbiterState)>, k: Seq<char>)
    requires
        base.contains_key(k),
        !listed(entry_ids(e), k),
    ensures
        applied(base, e).contains_key(k),
        applied(base, e)[k] == base[k],
{
    lemma_applied_domain(base, e, k);
}

/// Putting the listing of `m` into a map without states gives `m`, and no
/// entry replaces another.
pub proof fn lemma_listing_restores(e: Seq<(Seq<char>, ArbiterState)>, m: Map<Seq<char>, ArbiterState>)
    requires
        lists(e, m),
    ensures
        applied(Map::empty(), e) == m,
        overwrites(Map::empty(), e) == 0,
    decreases e.len(),
{
    let empty = Map::<Seq<char>, ArbiterState>::empty();
    let ids = entry_ids(e);
    let states = entry_states(e);
    if e.len() == 0 {
        assert(m =~= empty);
    } else {
        let rest = e.drop_last();
        let rest_ids = entry_ids(rest);
        let rest_states = entry_states(rest);
        let last = e.len() - 1;
        assert(rest_ids =~= ids.remove(last));
        assert(rest_states =~= states.remove(last));
        lemma_ascending_distinct(ids);
        assert(ascending(rest_ids)) by {
            assert forall|i: int, j: int| 0 <= i < j < rest_ids.len() implies crate::ident::id_lt(#[trigger] rest_ids[i], #[trigger] rest_ids[j]) by {
                assert(crate::ident::id_lt(ids[i], ids[j]));
            }
        }
        let rest_map = assoc(rest_ids, rest_states);
        lemma_listing_restores(rest, rest_map);
        lemma_applied_domain(empty, rest, e.last().0);
        assert(!listed(rest_ids, e.last().0)) by {
            if listed(rest_ids, e.last().0) {
                let i = slot_of(rest_ids, e.last().0);
                assert(ids[i] == ids[last]);
            }
        }
        assert(rest_map.insert(e.last().0, e.last().1) =~= m) by {
            let lhs = rest_map.insert(e.last().0, e.last().1);
            assert forall|k: Seq<char>| #[trigger] lhs.contains_key(k) implies m.contains_key(k) && lhs[k] == m[k] by {
                if k == e.last().0 {
                    lemma_assoc_at(ids, states, last);
                } else {
                    assert(listed(rest_ids, k));
                    let i = slot_of(rest_ids, k);
                    assert(rest_ids[i] == k);
                    assert(ids[i] == k);
                    lemma_assoc_at(rest_ids, rest_states, i);
                    lemma_assoc_at(ids, states, i);
                }
            }
            assert forall|k: Seq<char>| #[trigger] m.contains_key(k) implies lhs.contains_key(k) by {
                assert(listed(ids, k));
                let i = slot_of(ids, k);
                assert(ids[i] == k);
                if i < last {
                    assert(rest_ids[i] == k);
                    assert(listed(rest_ids, k));
                }
            }
        }
    }
}

} // verus!
