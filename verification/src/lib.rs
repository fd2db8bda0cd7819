//! Verified core of a HotStuff-style consensus engine with best-effort broadcast
//! of proposals: leader schedules, message validity, vote aggregation, and the
//! decision logic of the proposer, core, synchronizer and helper tasks.

pub mod aggregator;
pub mod committee;
pub mod consensus_core;
pub mod consensus;
pub mod crypto;
pub mod hotstuff_proposer;
pub mod keyed;
pub mod leader;
pub mod messages;
pub mod proposer;
pub mod schedule;
pub mod synchronizer;
