//! Portfolio rebalancing.
pub mod multi_asset_rebalancer;

use crate::values::Symbol;
use vstd::prelude::*;

verus! {

/// How far an asset is from its target, in basis points of the portfolio:
/// above it where positive, below it where negative.
#[derive(Clone, Copy, PartialEq, Eq, Structural, Debug)]
pub struct RebalanceAdjustment {
    pub asset: Symbol,
    pub drift_bps: i32,
}

} // verus!
