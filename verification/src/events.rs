//! Events: triggers for analysis, portfolio events with subscriptions, and
//! managed delivery.
pub mod analysis;
pub mod contract;
pub mod delivery;
pub mod limits;
pub mod subscriptions;
pub mod triggers;
pub mod types;
