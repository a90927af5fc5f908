//! The task ledger: what each run did, kept for good, and the report made from it.

pub mod db;
pub mod record;
pub mod report;
