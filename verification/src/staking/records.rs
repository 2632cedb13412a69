//! What the yield engine stores and hands out.
use crate::values::{Address, Symbol};
use vstd::prelude::*;

verus! {

/// How a position earns.
#[derive(Clone, Copy, PartialEq, Eq, Structural, Debug)]
pub enum CompoundingMode {
    /// In proportion to the time.
    Simple,
    /// By continuous growth.
    Continuous,
}

/// A yield-bearing position.
#[derive(Clone, Copy, PartialEq, Eq, Structural, Debug)]
pub struct YieldRecord {
    pub staker: Address,
    pub asset: Symbol,
    pub principal: i128,
    /// The yearly rate, as a fixed-point number.
    pub apr: i128,
    pub mode: CompoundingMode,
    /// Up to when the yield has been accrued.
    pub last_accrual_ts: u64,
    /// What was earned and not yet claimed.
    pub accrued_yield: i128,
}

/// One entry of a position's history.
#[derive(Clone, Copy, PartialEq, Eq, Structural, Debug)]
pub struct YieldHistoryEntry {
    pub timestamp: u64,
    pub period_seconds: u64,
    pub apr: i128,
    pub yield_earned: i128,
    pub cumulative_yield: i128,
    pub is_claim: bool,
}

/// A payment that is planned, once or again and again.
#[derive(Clone, Copy, PartialEq, Eq, Structural, Debug)]
pub struct DistributionSchedule {
    pub staker: Address,
    pub asset: Symbol,
    pub due_ts: u64,
    /// Seconds between two payments, 0 for a single one.
    pub interval_seconds: u64,
    pub amount: i128,
    pub executed: bool,
}

/// What a payment was made for.
#[derive(Clone, Copy, PartialEq, Eq, Structural, Debug)]
pub enum DistributionType {
    Claim,
    BatchClaim,
    Scheduled,
}

/// A payment that was made.
#[derive(Clone, Copy, PartialEq, Eq, Structural, Debug)]
pub struct YieldDistributionRecord {
    pub staker: Address,
    pub asset: Symbol,
    pub amount: i128,
    pub timestamp: u64,
    pub distribution_type: DistributionType,
    pub accrued_at_claim: i128,
    pub reserve_after: i128,
}

} // verus!
