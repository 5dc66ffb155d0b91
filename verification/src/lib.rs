//! A payments engine: deposits, withdrawals, disputes, resolutions and
//! chargebacks applied to client accounts, with balances kept as exact
//! fixed-point amounts.

pub mod amount;
pub mod models;
pub mod engine;
pub mod ids;
pub mod laws;

