//! What the fee contract stores and hands out.
use crate::values::{Address, Symbol};
use vstd::prelude::*;

verus! {

/// Records that the history holds.
pub const MAX_HISTORY: u32 = 100;

/// Recipients that revenue is shared among.
pub const MAX_RECIPIENTS: u32 = 20;

/// Why a call was refused.
#[derive(Clone, Copy, PartialEq, Eq, Structural, Debug)]
pub enum Error {
    FeeNotFound,
    FeeInactive,
    InvalidFeeConfiguration,
    ArithmeticOverflow,
    FeeWaiverNotFound,
    TooManyRecipients,
    AlreadyInitialized,
}

impl Error {
    /// The number under which an error is reported.
    pub open spec fn number(self) -> u32 {
        match self {
            Error::FeeNotFound => 1,
            Error::FeeInactive => 2,
            Error::InvalidFeeConfiguration => 3,
            Error::ArithmeticOverflow => 4,
            Error::FeeWaiverNotFound => 5,
            Error::TooManyRecipients => 6,
            Error::AlreadyInitialized => 7,
        }
    }

    /// The number under which an error is reported.
    pub fn code(self) -> (code: u32)
        ensures
            code == self.number(),
    {
        match self {
            Error::FeeNotFound => 1,
            Error::FeeInactive => 2,
            Error::InvalidFeeConfiguration => 3,
            Error::ArithmeticOverflow => 4,
            Error::FeeWaiverNotFound => 5,
            Error::TooManyRecipients => 6,
            Error::AlreadyInitialized => 7,
        }
    }
}

/// How a fee is computed.
#[derive(Clone, Copy, PartialEq, Eq, Structural, Debug)]
pub enum FeeType {
    /// The same for every amount.
    Flat,
    /// A share of the amount.
    Percentage,
    /// A share that depends on the amount.
    Tiered,
}

/// What a fee is for.
#[derive(Clone, Copy, PartialEq, Eq, Structural, Debug)]
pub enum FeeCategory {
    Yield,
    Management,
    Rebalance,
    Custom,
}

impl FeeCategory {
    /// The category as a number.
    pub open spec fn number(self) -> u32 {
        match self {
            FeeCategory::Yield => 0,
            FeeCategory::Management => 1,
            FeeCategory::Rebalance => 2,
            FeeCategory::Custom => 3,
        }
    }

    /// The category as a number.
    pub fn code(self) -> (code: u32)
        ensures
            code == self.number(),
    {
        match self {
            FeeCategory::Yield => 0,
            FeeCategory::Management => 1,
            FeeCategory::Rebalance => 2,
            FeeCategory::Custom => 3,
        }
    }
}

/// The rate from an amount on.
#[derive(Clone, Copy, PartialEq, Eq, Structural, Debug)]
pub struct TierEntry {
    pub threshold: i128,
    pub fee_bps: i128,
}

/// A fee.
pub struct FeeStructure {
    pub fee_id: Symbol,
    pub fee_type: FeeType,
    /// The amount of a flat fee, the rate of a percentage.
    pub amount_bps: i128,
    pub tiered_entries: Vec<TierEntry>,
    pub category: FeeCategory,
    pub active: bool,
    pub fee_cap: Option<i128>,
}

/// A fee that was collected.
#[derive(Clone, Copy, PartialEq, Eq, Structural, Debug)]
pub struct FeeRecord {
    pub fee_id: Symbol,
    pub portfolio_id: Symbol,
    pub amount: i128,
    pub calculated_fee: i128,
    pub timestamp: u64,
    pub beneficiary: Address,
}

/// A discount for an address, for a portfolio, or for both.
#[derive(Clone, Copy, PartialEq, Eq, Structural, Debug)]
pub struct FeeWaiver {
    pub address: Option<Address>,
    pub portfolio_id: Option<Symbol>,
    pub discount_bps: i128,
    /// Whether no fee is charged at all.
    pub waived: bool,
}

/// Who receives a share of the revenue.
#[derive(Clone, Copy, PartialEq, Eq, Structural, Debug)]
pub struct RevenueRecipient {
    pub address: Address,
    pub share_numerator: u32,
}

/// A fee as it is computed for an amount.
#[derive(Clone, Copy, PartialEq, Eq, Structural, Debug)]
pub struct FeeCalculationResult {
    pub fee_id: Symbol,
    pub gross_amount: i128,
    pub discount_bps: i128,
    pub fee_amount: i128,
    pub waived: bool,
}

} // verus!
