//! Prices from several oracles.
pub mod aggregation;
pub mod oracle;
pub mod records;
pub mod validation;
