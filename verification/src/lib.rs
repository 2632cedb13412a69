//! Portfolio contracts: valuation, trading, staking, fees, price feeds,
//! events, gamification, rebalancing, versioning and audit.
pub mod audit;
pub mod events;
pub mod fee;
pub mod fixed_point;
pub mod gamification;
pub mod host;
pub mod math;
pub mod pricefeed;
pub mod rebalancing;
pub mod staking;
pub mod table;
pub mod text;
pub mod trade;
pub mod valuation;
pub mod values;
pub mod versioning;
