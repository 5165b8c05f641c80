//! Thresholds of the decision engine.

use vstd::prelude::*;
use crate::scalar::Scalar;

verus! {

/// The thresholds against which one tick is judged.
#[derive(Clone, Copy, Debug)]
pub struct ArbiterCfg {
    /// Entropy above this is an alarm.
    pub tau_e: Scalar,
    /// Cosine similarity below this is an alarm.
    pub tau_s: Scalar,
    /// Repetition count from which hysteresis alone escalates.
    pub tau_rep: u32,
    /// Stall count from which hysteresis alone escalates.
    pub tau_stall: u32,
    /// Gate shift above this is an alarm.
    pub tau_gate: Scalar,
    /// Ignore the counters, and do not count.
    pub hyst_disable: bool,
    /// Stands in for the measured rule hits when present.
    pub forced_rule_hits: Option<u32>,
}

/// Bits of 2.2.
pub const DEFAULT_TAU_E_BITS: u32 = 0x400c_cccd;

/// Bits of 0.76.
pub const DEFAULT_TAU_S_BITS: u32 = 0x3f42_8f5c;

/// Bits of 2.0.
pub const DEFAULT_TAU_GATE_BITS: u32 = 0x4000_0000;

impl ArbiterCfg {
    /// The thresholds used when none are given.
    pub open spec fn standard() -> ArbiterCfg {
        ArbiterCfg {
            tau_e: Scalar { bits: DEFAULT_TAU_E_BITS },
            tau_s: Scalar { bits: DEFAULT_TAU_S_BITS },
            tau_rep: 1,
            tau_stall: 1,
            tau_gate: Scalar { bits: DEFAULT_TAU_GATE_BITS },
            hyst_disable: false,
            forced_rule_hits: None,
        }
    }
}

impl Default for ArbiterCfg {
    fn default() -> (r: ArbiterCfg)
        ensures
            r == ArbiterCfg::standard(),
    {
        ArbiterCfg {
            tau_e: Scalar { bits: DEFAULT_TAU_E_BITS },
            tau_s: Scalar { bits: DEFAULT_TAU_S_BITS },
            tau_rep: 1,
            tau_stall: 1,
            tau_gate: Scalar { bits: DEFAULT_TAU_GATE_BITS },
            hyst_disable: false,
            forced_rule_hits: None,
        }
    }
}

} // verus!
