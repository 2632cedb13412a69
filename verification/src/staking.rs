//! Staking: yield accrual and claims, early withdrawal, and alerts.
use vstd::prelude::*;

pub mod alerts;
pub mod compounding;
pub mod emergency;
pub mod engine;
pub mod records;

verus! {

/// Why a staking operation was refused.
#[derive(Clone, Copy, PartialEq, Eq, Structural, Debug)]
pub enum Error {
    /// Early withdrawal was never configured.
    EmergencyConfigNotInitialized,
    /// Early withdrawal is switched off.
    EmergencyUnstakeDisabled,
    /// The amount is not positive, or no penalty can be computed.
    InvalidEmergencyUnstakeAmount,
    /// The amount is more than the staked balance.
    InsufficientBalance,
    /// The staker withdrew early a short while ago.
    CooldownActive,
}

} // verus!
