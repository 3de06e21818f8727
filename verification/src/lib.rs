//! A point-reward ledger: persons, an append-only movement log, a cached
//! balance per person, and currency-converted reporting.
//!
//! The ledger state lives in memory; persistence, prompts and rate fetching
//! are left to the surrounding application.

pub mod credentials;
pub mod email;
pub mod engine;
pub mod laws;
pub mod ledger;
pub mod model;
pub mod report;
pub mod secrets;

pub use model::LedgerError;
