//! Portfolio valuation and performance.
pub mod contract;
pub mod performance;
pub mod records;
