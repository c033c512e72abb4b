//! A reward-accounting ledger: per-account and per-order token entitlements
//! are merged into a central ledger, backed one-for-one by per-token custody
//! vaults, and later claimed (summed and zeroed) against presented
//! credentials.

pub mod claim;
pub mod component;
pub mod decimal;
pub mod errors;
pub mod keyval;
pub mod ledger;
pub mod orders;
pub mod parser;
pub mod text;
