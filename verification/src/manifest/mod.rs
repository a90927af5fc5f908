//! Manifests: what was copied where, with the hashes that prove it.

pub mod model;
pub mod audit;
pub mod store;
pub mod mhl;
pub mod ledger_account;
