//! Read-side chain state and a lock-fingerprint index of live cells.
//!
//! `types` holds the ledger data model and `consensus` its parameters;
//! `store` keeps blocks, their metadata and the canonical index; `shared`
//! adds the shared tip and the provider queries (ancestors, proposal
//! windows, fees, difficulty retargeting, reward finalization, cell status);
//! `column` is an ordered key-value column, on which `lock_index` keeps live
//! cells and cell history per lock fingerprint; `setup` chooses a node's run
//! mode.
use vstd::prelude::*;

pub mod types;
pub mod consensus;
pub mod store;
pub mod shared;
pub mod column;
pub mod lock_index;
pub mod setup;

verus! {

} // verus!
