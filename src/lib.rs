//! Accounting and pricing engine of a constant-product token pool.
pub mod contract;
pub mod ledger;
pub mod pricing;
pub mod token;
