//! Durable client intent, separate from server state and connection correlation.
//!
//! Commit creation and mutation parameters before sending them. Transport loss,
//! NOT_FOUND, a refusal or a failed local receipt write leaves the same intent
//! available for replay; none authorizes a new operation or execution attempt.

pub mod agreement;
pub mod alike;
pub mod audit;
pub mod borders;
pub mod chronicle;
pub mod closure;
pub mod commits;
pub mod custody;
pub mod durability;
pub mod exports;
pub mod journal;
pub mod known;
pub mod observations;
pub mod pages;
pub mod promises;
pub mod receipts;
pub mod records;
pub mod references;
pub mod restore;
pub mod results;
pub mod scopes;
pub mod shelves;
pub mod storage;
pub mod testimony;
pub mod upkeep;
