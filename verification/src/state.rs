//! Hysteresis state: the two counters kept per intent.

use vstd::prelude::*;
use crate::freeze::FreezeFlags;

verus! {

/// Counts of consecutive anomalous ticks. This is all the arbiter remembers
/// of an intent.
#[derive(Clone, Copy, Debug, PartialEq, Eq, Structural)]
pub struct ArbiterState {
    pub hyst_rep: u32,
    pub hyst_stall: u32,
}

/// One more than `n`, held at the largest count.
pub open spec fn next_count(n: u32) -> u32 {
    if n < u32::MAX {
        (n + 1) as u32
    } else {
        n
    }
}

impl ArbiterState {
    /// The state after a tick that carried `ff`.
    pub open spec fn bumped(self, ff: FreezeFlags, disable: bool) -> ArbiterState {
        if disable {
            self
        } else {
            ArbiterState {
                hyst_rep: if ff.rep_3p { next_count(self.hyst_rep) } else { self.hyst_rep },
                hyst_stall: if ff.stall { next_count(self.hyst_stall) } else { self.hyst_stall },
            }
        }
    }

    /// The state with both counters at zero.
    pub open spec fn cleared() -> ArbiterState {
        ArbiterState { hyst_rep: 0, hyst_stall: 0 }
    }

    /// Counts one more repetition tick where `ff.rep_3p` is set and one more
    /// stall tick where `ff.stall` is set; does nothing when `disable` is set.
    /// A counter at its largest value stays there.
    pub fn bump(&mut self, ff: FreezeFlags, disable: bool)
        ensures
            *final(self) == old(self).bumped(ff, disable),
    {
        if disable {
            return ;
        }
        if ff.rep_3p {
            self.hyst_rep = self.hyst_rep.saturating_add(1);
        }
        if ff.stall {
            self.hyst_stall = self.hyst_stall.saturating_add(1);
        }
    }

    /// Sets both counters to zero.
    pub fn reset(&mut self)
        ensures
            *final(self) == ArbiterState::cleared(),
    {
        self.hyst_rep = 0;
        self.hyst_stall = 0;
    }
}

impl Default for ArbiterState {
    fn default() -> (r: ArbiterState)
        ensures
            r == ArbiterState::cleared(),
    {
        ArbiterState { hyst_rep: 0, hyst_stall: 0 }
    }
}

/// A tick that carries a flag counts it once: the counter goes up by exactly
/// one, unless it is at its largest value; and nothing is counted while
/// hysteresis is disabled.
pub proof fn lemma_bump_counts_once(state: ArbiterState, ff: FreezeFlags, disable: bool)
    ensures
        !disable && ff.rep_3p && state.hyst_rep < u32::MAX ==> state.bumped(ff, disable).hyst_rep == state.hyst_rep + 1,
        !disable && ff.stall && state.hyst_stall < u32::MAX ==> state.bumped(ff, disable).hyst_stall == state.hyst_stall + 1,
        !ff.rep_3p ==> state.bumped(ff, disable).hyst_rep == state.hyst_rep,
        !ff.stall ==> state.bumped(ff, disable).hyst_stall == state.hyst_stall,
        disable ==> state.bumped(ff, disable) == state,
{
}

/// Does nothing: there is no process-wide hysteresis to reset. The counters
/// of an intent are cleared by `ArbiterState::reset`.
pub fn hyst_reset() {
}

/// Does nothing: there is no process-wide hysteresis to count on. The
/// counters of an intent are counted by `ArbiterState::bump`.
pub fn hyst_bump(_ff: FreezeFlags) {
}

} // verus!
