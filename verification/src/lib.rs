//! A deterministic, resumable token-unlock (vesting) engine for a
//! fixed-supply ledger asset.
//!
//! Given a monotonically increasing timestamp and a small persisted state,
//! the engine computes exactly how much of a fixed total supply has become
//! unlockable since the previous invocation and advances the state so that a
//! later call continues emission from exactly where the previous call left
//! off: never double-crediting, never skipping a unit of time.
//!
//! The per-round allowance halves every fixed number of rounds and is
//! subdivided linearly into per-tick allowances.  All arithmetic is exact
//! unsigned integer arithmetic and is proved free of overflow; the engine is
//! proved call-granularity invariant (splitting a time span over several
//! calls credits the same total as a single call).

pub mod codec;
pub mod fund;
pub mod hex;
