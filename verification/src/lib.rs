use vstd::prelude::*;

pub mod text;
pub mod i18n;
pub mod organize;
pub mod map;
pub mod config;
pub mod error;
pub mod device;
pub mod engine;
pub mod manifest;
pub mod update;
pub mod ledger;
pub mod exit;
pub mod task;

verus! {
} // verus!
