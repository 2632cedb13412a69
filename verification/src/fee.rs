//! Fees: flat, percentage and tiered, with waivers and the distribution of
//! revenue.
pub mod contract;
pub mod engine;
pub mod records;
