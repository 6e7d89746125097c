//! A multi-token ledger indexer core: account normalization, replay-based
//! balance computation with anomaly detection, full and incremental balance
//! passes with total-supply aggregation, per-account transaction indexing,
//! and the decision logic of the synchronizers: resume-point repair, gap
//! correction, archive batching, retry and status-update cadence. Remote
//! fetching and persistence are left to the surrounding program.

pub mod strutil;
pub mod numeric;
pub mod account;
pub mod models;
pub mod error;
pub mod balance;
pub mod sync;
pub mod engine;


use vstd::prelude::*;

verus! {

/// Number of transactions requested from the live ledger per batch.
pub const BATCH_SIZE: u64 = 2000;

/// Number of transactions requested from an archive per batch.
pub const ARCHIVE_BATCH_SIZE: u64 = 2000;

/// Token decimals assumed when the remote canister does not report any.
pub const DEFAULT_DECIMALS: u8 = 8;

/// Transport retries before a ledger batch is skipped.
pub const MAX_RETRIES: u64 = 5;

/// Consecutive empty ledger responses before the head is declared reached.
pub const MAX_CONSECUTIVE_EMPTY: u64 = 3;

/// How many new transactions may pass between two sync-status writes.
pub const STATUS_UPDATE_FREQUENCY: u64 = 100;

/// Size of the window checked around a resumed sync index.
pub const VERIFICATION_RANGE: u64 = 20;

} // verus!
