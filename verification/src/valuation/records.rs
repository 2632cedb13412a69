//! What the valuation contract keeps and returns.
use crate::table;
use crate::table::OrderedTable;
use crate::valuation::performance::PerfError;
use crate::values::Symbol;
use vstd::prelude::*;
use vstd::std_specs::convert::FromSpecImpl;

verus! {

/// Why a request was refused.
#[derive(Clone, Copy, PartialEq, Eq, PartialOrd, Ord, Structural, Debug)]
pub enum ValuationError {
    /// The portfolio has no assets.
    EmptyPortfolio,
    /// The initial investment is zero.
    ZeroInitialInvestment,
    /// There is too little data for the metric.
    InsufficientData,
    /// A computation overflowed or divided by zero.
    MathError,
    /// The portfolio does not exist.
    PortfolioNotFound,
}

impl ValuationError {
    /// The number of the error.
    pub open spec fn number(self) -> u32 {
        match self {
            ValuationError::EmptyPortfolio => 1,
            ValuationError::ZeroInitialInvestment => 2,
            ValuationError::InsufficientData => 3,
            ValuationError::MathError => 4,
            ValuationError::PortfolioNotFound => 5,
        }
    }

    /// The number of the error.
    pub fn code(self) -> (n: u32)
        ensures
            n == self.number(),
    {
        match self {
            ValuationError::EmptyPortfolio => 1,
            ValuationError::ZeroInitialInvestment => 2,
            ValuationError::InsufficientData => 3,
            ValuationError::MathError => 4,
            ValuationError::PortfolioNotFound => 5,
        }
    }
}

/// What a metric without a value means for a request.
pub open spec fn refusal(e: PerfError) -> ValuationError {
    match e {
        PerfError::DivideByZero => ValuationError::MathError,
        PerfError::Overflow => ValuationError::MathError,
        PerfError::InsufficientData => ValuationError::InsufficientData,
    }
}

impl From<PerfError> for ValuationError {
    fn from(e: PerfError) -> (r: Self) {
        match e {
            PerfError::DivideByZero => ValuationError::MathError,
            PerfError::Overflow => ValuationError::MathError,
            PerfError::InsufficientData => ValuationError::InsufficientData,
        }
    }
}

impl FromSpecImpl<PerfError> for ValuationError {
    open spec fn obeys_from_spec() -> bool {
        true
    }

    open spec fn from_spec(e: PerfError) -> Self {
        refusal(e)
    }
}

/// A holding: so many units at a price per unit in fixed point.
#[derive(Clone, Copy, PartialEq, Eq, Structural, Debug)]
pub struct PortfolioAsset {
    pub asset: Symbol,
    pub quantity: i128,
    pub current_price: i128,
    pub cost_basis: i128,
}

/// The share of an asset in basis points.
#[derive(Clone, Copy, PartialEq, Eq, Structural, Debug)]
pub struct AssetAllocation {
    pub asset: Symbol,
    pub market_value: i128,
    pub allocation_bps: u32,
}

/// The return on the initial investment.
#[derive(Clone, Copy, PartialEq, Eq, Structural, Debug)]
pub struct PortfolioReturns {
    pub absolute_return: i128,
    pub percentage_return: i128,
}

/// The performance of a portfolio over its history.
#[derive(Clone, Copy, PartialEq, Eq, Structural, Debug)]
pub struct PerformanceMetrics {
    pub sharpe_ratio: i128,
    pub sortino_ratio: i128,
    pub max_drawdown: i128,
    pub time_weighted_return: i128,
}

/// A portfolio at a moment.
#[derive(Clone, Copy, PartialEq, Eq, Structural, Debug)]
pub struct PortfolioSnapshot {
    pub timestamp: u64,
    pub total_value: i128,
    pub total_cost_basis: i128,
    pub asset_count: u32,
}

/// A valuation at a moment.
pub struct ValuationHistoryEntry {
    pub timestamp: u64,
    pub total_value: i128,
    pub absolute_return: i128,
    pub percentage_return: i128,
    pub asset_values: OrderedTable<Symbol, i128>,
}

/// A history entry as a value.
#[verifier::ext_equal]
pub struct Valuation {
    pub timestamp: u64,
    pub total_value: i128,
    pub absolute_return: i128,
    pub percentage_return: i128,
    pub asset_values: Map<Symbol, i128>,
}

impl View for ValuationHistoryEntry {
    type V = Valuation;

    open spec fn view(&self) -> Valuation {
        Valuation {
            timestamp: self.timestamp,
            total_value: self.total_value,
            absolute_return: self.absolute_return,
            percentage_return: self.percentage_return,
            asset_values: self.asset_values.view(),
        }
    }
}

/// The entries of a history as values.
pub open spec fn valuations(entries: Seq<ValuationHistoryEntry>) -> Seq<Valuation> {
    entries.map_values(|e: ValuationHistoryEntry| e@)
}

} // verus!
