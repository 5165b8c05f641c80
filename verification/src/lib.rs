//! An escalation arbiter: it watches per-intent uncertainty signals and
//! decides, with hysteresis, when an intent's output needs a critique pass.
//!
//! The pieces, from the leaves up: numbers by their bits (`scalar`),
//! identifiers and their order (`ident`, `idmap`), evidence and source
//! profiles (`evidence`, `sources`), text heuristics (`trim`, `freeze`), the
//! decision engine with its state (`cfg`, `state`, `decide`), the way from
//! raw events to one tick per intent (`adapter`, `batch`), the sharded
//! supervisor (`shard`, `supervisor`) and its snapshots (`snapshot`, `wire`).
//!
//! Numbers are single-precision and held by their bits. The library
//! compares and selects them, exactly as IEEE-754 orders them, and never
//! computes with them: the one place that needs arithmetic, the weighted
//! mean of an intent's evidence, takes it from the caller as a function.

pub mod adapter;
pub mod batch;
pub mod cfg;
pub mod decide;
pub mod evidence;
pub mod freeze;
pub mod ident;
pub mod idmap;
pub mod scalar;
pub mod shard;
pub mod snapshot;
pub mod sources;
pub mod state;
pub mod supervisor;
pub mod trim;
pub mod wire;

pub use adapter::{build_evidence_batch, BasicEvidenceBuilder, BasicKeys, EvidenceBuilder, Normalizer, SignalEvent};
pub use batch::{collect_freeze_flags, group_evidence, prepare_batch, IntentBatch};
pub use cfg::ArbiterCfg;
pub use decide::{arbiter_idle_tick, arbiter_tick, decide_escalation_cfg, decide_escalation_from_view, evaluate_alarms, Alarms, Escalation};
pub use evidence::{ArbiterEvidenceView, Evidence, Uncertainty, WeightedTerm};
pub use freeze::{freeze_flags, FreezeFlags};
pub use idmap::IdMap;
pub use scalar::Scalar;
pub use shard::{fnv1a_u64, shard_index};
pub use snapshot::{RestoreStats, SupervisorSnapshot};
pub use sources::{apply_source_profiles, default_source_profiles, profiles_valid, SourceProfile, SourceProfiles};
pub use state::{hyst_bump, hyst_reset, ArbiterState};
pub use supervisor::{ActionEvent, ArbiterSupervisor, IntentTick};
pub use wire::{decode_snapshot, encode_snapshot, SnapshotError, SNAP_MAGIC, SNAP_VERSION};
