//! Auto-invest pool: users deposit a lump sum that is dripped each month into
//! registered real-world-asset projects matching their risk profile and tags.
//!
//! The library holds the contract's storage as a value of its own
//! ([`AutoInvestPool`]) and decides every call; the host side (authorisation,
//! token transfers, calls into project contracts, events, ledger time) is left
//! to the caller, which hands in the time and performs what a call returns.

pub mod across_calls;
pub mod keyed;
pub mod laws;
pub mod model;
pub mod pool;
pub mod ranking;
pub mod types;

pub use model::{Call, DripView, PoolState};
pub use pool::{AutoInvestPool, Drip};
pub use types::{
    Error, PoolEntry, PoolEntryView, ProjectEntry, ProjectEntryView, RiskLevel,
    DEFAULT_MAX_PROJECTS_PER_DRIP, SECONDS_PER_MONTH,
};
